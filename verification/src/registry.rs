//! Per-target bookkeeping of which patches cover which symbols.
//!
//! For each target the registry stores, per patch uuid, the set of symbol
//! names the patch covers.  Two queries drive the safety checks: the
//! conflict query (another patch already patches one of these points) and
//! the override query (another patch would be revealed by deactivation).
use vstd::prelude::*;

use crate::bytestr::{bytes_eq, bytes_vec_contains, copy_bytes};

verus! {

/// Symbols registered for one patch uuid.
#[derive(Debug)]
pub struct TargetRecord {
    pub uuid: String,
    pub symbols: Vec<Vec<u8>>,
}

impl TargetRecord {
    /// Some symbol of this record occurs in `syms`.
    pub open spec fn hits(&self, syms: Seq<Seq<u8>>) -> bool {
        exists|j: int| 0 <= j < self.symbols@.len() && syms.contains(self.symbols@[j]@)
    }
}

/// Registered patches of one target, each with its covered symbols.
///
/// The record list is ordered by first registration; uuids are unique.
#[derive(Debug)]
pub struct PatchTarget {
    pub records: Vec<TargetRecord>,
}

/// The uuids of the records that hit one of `syms`, in record order,
/// leaving out the record whose uuid is `excl`.
pub open spec fn spec_hit_uuids(
    recs: Seq<TargetRecord>,
    syms: Seq<Seq<u8>>,
    excl: Option<Seq<char>>,
) -> Seq<Seq<char>>
    decreases recs.len(),
{
    if recs.len() == 0 {
        Seq::empty()
    } else {
        spec_hit_uuids(recs.drop_last(), syms, excl) + (if recs.last().hits(syms) && (match excl {
            Some(u) => recs.last().uuid@ != u,
            None => true,
        }) {
            seq![recs.last().uuid@]
        } else {
            Seq::empty()
        })
    }
}

impl PatchTarget {
    /// Uuids are pairwise distinct.
    pub open spec fn wf(&self) -> bool {
        forall|i: int, j: int|
            0 <= i < j < self.records@.len() ==> self.records@[i].uuid@ != self.records@[j].uuid@
    }

    /// The patch `uuid` covers the symbol `sym` in this target.
    pub open spec fn covers(&self, uuid: Seq<char>, sym: Seq<u8>) -> bool {
        exists|i: int, j: int|
            0 <= i < self.records@.len() && self.records@[i].uuid@ == uuid && 0 <= j
                < self.records@[i].symbols@.len() && self.records@[i].symbols@[j]@ == sym
    }

    /// An empty registry for a target no patch has touched yet.
    pub fn new() -> (r: PatchTarget)
        ensures
            r.wf(),
            r.records@.len() == 0,
    {
        PatchTarget { records: Vec::new() }
    }

    /// At least one patch is registered for this target.
    pub fn is_patched(&self) -> (r: bool)
        ensures
            r == (self.records@.len() > 0),
    {
        self.records.len() > 0
    }

    fn find_record(&self, uuid: &String) -> (r: Option<usize>)
        requires
            self.wf(),
        ensures
            match r {
                Some(i) => 0 <= i < self.records@.len() && self.records@[i as int].uuid@ == uuid@,
                None => forall|i: int|
                    0 <= i < self.records@.len() ==> self.records@[i].uuid@ != uuid@,
            },
    {
        let n = self.records.len();
        let mut i: usize = 0;
        while i < n
            invariant
                n == self.records@.len(),
                0 <= i <= n,
                forall|j: int| 0 <= j < i ==> self.records@[j].uuid@ != uuid@,
            decreases n - i,
        {
            if self.records[i].uuid.eq(uuid) {
                return Some(i);
            }
            i = i + 1;
        }
        None
    }

    /// Registers every symbol of `symbols` for `uuid`.  Idempotent: a
    /// symbol already present is not duplicated.
    pub fn add_symbols(&mut self, uuid: &String, symbols: &Vec<Vec<u8>>)
        requires
            old(self).wf(),
        ensures
            final(self).wf(),
            forall|u: Seq<char>, s: Seq<u8>|
                final(self).covers(u, s) <==> (old(self).covers(u, s) || (u == uuid@ && exists|k: int|
                    0 <= k < symbols@.len() && symbols@[k]@ == s)),
    {
        let idx = match self.find_record(uuid) {
            Some(i) => i,
            None => {
                let i = self.records.len();
                self.records.push(TargetRecord { uuid: uuid.clone(), symbols: Vec::new() });
                assert forall|u: Seq<char>, s: Seq<u8>|
                    self.covers(u, s) == old(self).covers(u, s) by {
                    let recs = self.records@;
                    let orecs = old(self).records@;
                    if old(self).covers(u, s) {
                        let (oi, oj) = choose|oi: int, oj: int|
                            0 <= oi < orecs.len() && orecs[oi].uuid@ == u && 0 <= oj
                                < orecs[oi].symbols@.len() && orecs[oi].symbols@[oj]@ == s;
                        assert(recs[oi].uuid@ == u && recs[oi].symbols@[oj]@ == s);
                    }
                    if self.covers(u, s) {
                        let (ni, nj) = choose|ni: int, nj: int|
                            0 <= ni < recs.len() && recs[ni].uuid@ == u && 0 <= nj
                                < recs[ni].symbols@.len() && recs[ni].symbols@[nj]@ == s;
                        assert(ni < orecs.len());
                        assert(orecs[ni].uuid@ == u && orecs[ni].symbols@[nj]@ == s);
                    }
                }
                i
            },
        };
        let n = symbols.len();
        let mut k: usize = 0;
        while k < n
            invariant
                n == symbols@.len(),
                0 <= k <= n,
                0 <= idx < self.records@.len(),
                self.records@[idx as int].uuid@ == uuid@,
                self.wf(),
                forall|u: Seq<char>, s: Seq<u8>|
                    self.covers(u, s) <==> (old(self).covers(u, s) || (u == uuid@ && exists|m: int|
                        0 <= m < k && symbols@[m]@ == s)),
            decreases n - k,
        {
            let ghost prev = *self;
            let sym = &symbols[k];
            let mut found: bool = false;
            let rec_len = self.records[idx].symbols.len();
            let mut j: usize = 0;
            while j < rec_len
                invariant
                    0 <= idx < self.records@.len(),
                    rec_len == self.records@[idx as int].symbols@.len(),
                    0 <= j <= rec_len,
                    found ==> exists|m: int|
                        0 <= m < self.records@[idx as int].symbols@.len()
                            && self.records@[idx as int].symbols@[m]@ == sym@,
                    !found ==> forall|m: int|
                        0 <= m < j ==> self.records@[idx as int].symbols@[m]@ != sym@,
                    *self == prev,
                decreases rec_len - j,
            {
                if bytes_eq(self.records[idx].symbols[j].as_slice(), sym.as_slice()) {
                    found = true;
                    break ;
                }
                j = j + 1;
            }
            if !found {
                let fresh = copy_bytes(sym);
                let rec = &mut self.records[idx];
                rec.symbols.push(fresh);
                assert forall|u: Seq<char>, s: Seq<u8>|
                    self.covers(u, s) <==> (prev.covers(u, s) || (u == uuid@ && s == sym@)) by {
                    let recs = self.records@;
                    let precs = prev.records@;
                    if prev.covers(u, s) {
                        let (oi, oj) = choose|oi: int, oj: int|
                            0 <= oi < precs.len() && precs[oi].uuid@ == u && 0 <= oj
                                < precs[oi].symbols@.len() && precs[oi].symbols@[oj]@ == s;
                        assert(recs[oi].uuid@ == u && recs[oi].symbols@[oj]@ == s);
                    }
                    if u == uuid@ && s == sym@ {
                        assert(recs[idx as int].uuid@ == u);
                        assert(recs[idx as int].symbols@.last()@ == s);
                    }
                    if self.covers(u, s) {
                        let (ni, nj) = choose|ni: int, nj: int|
                            0 <= ni < recs.len() && recs[ni].uuid@ == u && 0 <= nj
                                < recs[ni].symbols@.len() && recs[ni].symbols@[nj]@ == s;
                        if ni == idx && nj == recs[ni].symbols@.len() - 1 {
                            assert(u == uuid@ && s == sym@);
                        } else {
                            assert(precs[ni].uuid@ == u && precs[ni].symbols@[nj]@ == s);
                        }
                    }
                }
            } else {
                assert(self.covers(uuid@, sym@));
            }
            k = k + 1;
        }
        assert forall|u: Seq<char>, s: Seq<u8>|
            final(self).covers(u, s) <==> (old(self).covers(u, s) || (u == uuid@ && exists|m: int|
                0 <= m < symbols@.len() && symbols@[m]@ == s)) by {}
    }

    /// Deletes the whole record of `uuid`, all its symbols with it.
    pub fn remove_patch(&mut self, uuid: &String)
        requires
            old(self).wf(),
        ensures
            final(self).wf(),
            forall|u: Seq<char>, s: Seq<u8>|
                final(self).covers(u, s) <==> (old(self).covers(u, s) && u != uuid@),
    {
        match self.find_record(uuid) {
            Some(i) => {
                self.records.remove(i);
                assert forall|u: Seq<char>, s: Seq<u8>|
                    self.covers(u, s) <==> (old(self).covers(u, s) && u != uuid@) by {
                    let recs = self.records@;
                    let orecs = old(self).records@;
                    if old(self).covers(u, s) && u != uuid@ {
                        let (oi, oj) = choose|oi: int, oj: int|
                            0 <= oi < orecs.len() && orecs[oi].uuid@ == u && 0 <= oj
                                < orecs[oi].symbols@.len() && orecs[oi].symbols@[oj]@ == s;
                        let ni = if oi < i { oi } else { oi - 1 };
                        assert(recs[ni].uuid@ == u && recs[ni].symbols@[oj]@ == s);
                    }
                    if self.covers(u, s) {
                        let (ni, nj) = choose|ni: int, nj: int|
                            0 <= ni < recs.len() && recs[ni].uuid@ == u && 0 <= nj
                                < recs[ni].symbols@.len() && recs[ni].symbols@[nj]@ == s;
                        let oi = if ni < i { ni } else { ni + 1 };
                        assert(orecs[oi].uuid@ == u && orecs[oi].symbols@[nj]@ == s);
                        assert(u != uuid@);
                    }
                }
            },
            None => {
                assert forall|u: Seq<char>, s: Seq<u8>|
                    self.covers(u, s) <==> (old(self).covers(u, s) && u != uuid@) by {
                    if self.covers(u, s) {
                        let (ni, nj) = choose|ni: int, nj: int|
                            0 <= ni < self.records@.len() && self.records@[ni].uuid@ == u && 0 <= nj
                                < self.records@[ni].symbols@.len()
                                && self.records@[ni].symbols@[nj]@ == s;
                        assert(u != uuid@);
                    }
                }
            },
        }
    }

    /// The uuids of registered patches covering one of `symbols`, in
    /// registration order, without the record of `excl` if given.
    fn hit_uuids(&self, symbols: &Vec<Vec<u8>>, excl: Option<&String>) -> (r: Vec<String>)
        ensures
            r.deep_view() == spec_hit_uuids(
                self.records@,
                symbols.deep_view(),
                match excl {
                    Some(u) => Some(u@),
                    None => None,
                },
            ),
    {
        let ghost spec_excl: Option<Seq<char>> = match excl {
            Some(u) => Some(u@),
            None => None,
        };
        let mut r: Vec<String> = Vec::new();
        let n = self.records.len();
        let mut i: usize = 0;
        while i < n
            invariant
                n == self.records@.len(),
                0 <= i <= n,
                spec_excl == (match excl {
                    Some(u) => Some(u@),
                    None => None,
                }),
                r.deep_view() == spec_hit_uuids(
                    self.records@.take(i as int),
                    symbols.deep_view(),
                    spec_excl,
                ),
            decreases n - i,
        {
            let ghost prefix = self.records@.take(i as int);
            assert(self.records@.take(i as int + 1).drop_last() =~= prefix);
            assert(self.records@.take(i as int + 1).last() == self.records@[i as int]);
            let excluded: bool = match excl {
                Some(u) => self.records[i].uuid.eq(u),
                None => false,
            };
            let mut hit: bool = false;
            if !excluded {
                let rec_len = self.records[i].symbols.len();
                let mut j: usize = 0;
                while j < rec_len && !hit
                    invariant
                        0 <= i < self.records@.len(),
                        rec_len == self.records@[i as int].symbols@.len(),
                        0 <= j <= rec_len,
                        hit ==> self.records@[i as int].hits(symbols.deep_view()),
                        !hit ==> forall|m: int|
                            0 <= m < j ==> !symbols.deep_view().contains(
                                self.records@[i as int].symbols@[m]@,
                            ),
                    decreases rec_len - j, (if hit { 0int } else { 1int }),
                {
                    if bytes_vec_contains(symbols, self.records[i].symbols[j].as_slice()) {
                        hit = true;
                    } else {
                        j = j + 1;
                    }
                }
                proof {
                    if !hit {
                        assert forall|m: int|
                            0 <= m < self.records@[i as int].symbols@.len()
                            implies !symbols.deep_view().contains(
                            self.records@[i as int].symbols@[m]@,
                        ) by {}
                        assert(!self.records@[i as int].hits(symbols.deep_view()));
                    }
                }
            }
            if hit && !excluded {
                r.push(self.records[i].uuid.clone());
                assert(r.deep_view() =~= spec_hit_uuids(
                    self.records@.take(i as int + 1),
                    symbols.deep_view(),
                    spec_excl,
                ));
            } else {
                assert(r.deep_view() =~= spec_hit_uuids(
                    self.records@.take(i as int + 1),
                    symbols.deep_view(),
                    spec_excl,
                ));
            }
            i = i + 1;
        }
        assert(self.records@.take(n as int) =~= self.records@);
        r
    }

    /// Every registered patch that already covers one of `symbols`:
    /// activating a new patch over them would conflict.
    pub fn get_conflicts(&self, symbols: &Vec<Vec<u8>>) -> (r: Vec<String>)
        ensures
            r.deep_view() == spec_hit_uuids(self.records@, symbols.deep_view(), None),
    {
        self.hit_uuids(symbols, None)
    }

    /// Every registered patch other than `self_uuid` covering one of
    /// `symbols`: deactivating `self_uuid` would reveal it inconsistently.
    pub fn get_overrides(&self, self_uuid: &String, symbols: &Vec<Vec<u8>>) -> (r: Vec<String>)
        ensures
            r.deep_view() == spec_hit_uuids(self.records@, symbols.deep_view(), Some(self_uuid@)),
    {
        self.hit_uuids(symbols, Some(self_uuid))
    }

    /// The uuids of records covering the single symbol `sym`, in record
    /// order, without the record of `excl` if given.
    pub fn covering_uuids(&self, sym: &Vec<u8>, excl: Option<&String>) -> (r: Vec<String>)
        requires
            self.wf(),
        ensures
            forall|k: int|
                0 <= k < r.deep_view().len() ==> self.covers(#[trigger] r.deep_view()[k], sym@)
                    && (match excl {
                    Some(e) => r.deep_view()[k] != e@,
                    None => true,
                }),
            forall|u: Seq<char>|
                self.covers(u, sym@) && (match excl {
                    Some(e) => u != e@,
                    None => true,
                }) ==> r.deep_view().contains(u),
            forall|a: int, b: int|
                0 <= a < b < r.deep_view().len() ==> r.deep_view()[a] != r.deep_view()[b],
    {
        let mut single: Vec<Vec<u8>> = Vec::new();
        single.push(copy_bytes(sym));
        let ghost spec_excl: Option<Seq<char>> = match excl {
            Some(e) => Some(e@),
            None => None,
        };
        let r = self.hit_uuids(&single, excl);
        proof {
            crate::bytestr::lemma_bytes_deep_view(&single);
            assert(single.deep_view() =~= seq![sym@]);
            let syms = single.deep_view();
            assert forall|i: int| 0 <= i < self.records@.len() implies (
            #[trigger] self.records@[i].hits(syms) == exists|j: int|
                0 <= j < self.records@[i].symbols@.len() && self.records@[i].symbols@[j]@
                    == sym@) by {
                if self.records@[i].hits(syms) {
                    let j = choose|j: int|
                        0 <= j < self.records@[i].symbols@.len() && syms.contains(
                            self.records@[i].symbols@[j]@,
                        );
                    assert(syms[0] == sym@);
                    assert(self.records@[i].symbols@[j]@ == sym@);
                }
                if exists|j: int|
                    0 <= j < self.records@[i].symbols@.len() && self.records@[i].symbols@[j]@
                        == sym@ {
                    let j = choose|j: int|
                        0 <= j < self.records@[i].symbols@.len() && self.records@[i].symbols@[j]@
                            == sym@;
                    assert(syms[0] == sym@);
                    assert(syms.contains(self.records@[i].symbols@[j]@));
                }
            }
            lemma_hit_uuids_sound(self.records@, syms, spec_excl);
            lemma_hit_uuids_complete(self.records@, syms, spec_excl);
            lemma_hit_uuids_distinct(self.records@, syms, spec_excl);
            assert forall|k: int| 0 <= k < r.deep_view().len() implies self.covers(
                #[trigger] r.deep_view()[k],
                sym@,
            ) && (match spec_excl {
                Some(e) => r.deep_view()[k] != e,
                None => true,
            }) by {
                let i = choose|i: int|
                    0 <= i < self.records@.len() && self.records@[i].uuid@ == r.deep_view()[k]
                        && self.records@[i].hits(syms) && (match spec_excl {
                        Some(u) => self.records@[i].uuid@ != u,
                        None => true,
                    });
                let j = choose|j: int|
                    0 <= j < self.records@[i].symbols@.len() && self.records@[i].symbols@[j]@
                        == sym@;
                assert(self.covers(r.deep_view()[k], sym@));
            }
            assert forall|u: Seq<char>|
                self.covers(u, sym@) && (match spec_excl {
                    Some(e) => u != e,
                    None => true,
                }) implies r.deep_view().contains(u) by {
                let (i, j) = choose|i: int, j: int|
                    0 <= i < self.records@.len() && self.records@[i].uuid@ == u && 0 <= j
                        < self.records@[i].symbols@.len() && self.records@[i].symbols@[j]@ == sym@;
                assert(self.records@[i].hits(syms));
            }
        }
        r
    }
}

/// Every uuid in the hit list belongs to a record that hits.
pub proof fn lemma_hit_uuids_sound(
    recs: Seq<TargetRecord>,
    syms: Seq<Seq<u8>>,
    excl: Option<Seq<char>>,
)
    ensures
        forall|k: int|
            0 <= k < spec_hit_uuids(recs, syms, excl).len() ==> exists|i: int|
                0 <= i < recs.len() && recs[i].uuid@ == #[trigger] spec_hit_uuids(recs, syms, excl)[k]
                    && recs[i].hits(syms) && (match excl {
                    Some(u) => recs[i].uuid@ != u,
                    None => true,
                }),
    decreases recs.len(),
{
    if recs.len() > 0 {
        lemma_hit_uuids_sound(recs.drop_last(), syms, excl);
        let l = spec_hit_uuids(recs, syms, excl);
        let lp = spec_hit_uuids(recs.drop_last(), syms, excl);
        assert forall|k: int| 0 <= k < l.len() implies exists|i: int|
            0 <= i < recs.len() && recs[i].uuid@ == #[trigger] l[k] && recs[i].hits(syms) && (match excl {
                Some(u) => recs[i].uuid@ != u,
                None => true,
            }) by {
            if k < lp.len() {
                let i = choose|i: int|
                    0 <= i < recs.drop_last().len() && recs.drop_last()[i].uuid@ == lp[k]
                        && recs.drop_last()[i].hits(syms) && (match excl {
                        Some(u) => recs.drop_last()[i].uuid@ != u,
                        None => true,
                    });
                assert(recs[i] == recs.drop_last()[i]);
            } else {
                assert(recs[recs.len() - 1] == recs.last());
            }
        }
    }
}

/// Every record that hits contributes its uuid to the hit list.
pub proof fn lemma_hit_uuids_complete(
    recs: Seq<TargetRecord>,
    syms: Seq<Seq<u8>>,
    excl: Option<Seq<char>>,
)
    ensures
        forall|i: int|
            0 <= i < recs.len() && recs[i].hits(syms) && (match excl {
                Some(u) => recs[i].uuid@ != u,
                None => true,
            }) ==> spec_hit_uuids(recs, syms, excl).contains(recs[i].uuid@),
    decreases recs.len(),
{
    if recs.len() > 0 {
        lemma_hit_uuids_complete(recs.drop_last(), syms, excl);
        let l = spec_hit_uuids(recs, syms, excl);
        let lp = spec_hit_uuids(recs.drop_last(), syms, excl);
        assert forall|i: int|
            0 <= i < recs.len() && recs[i].hits(syms) && (match excl {
                Some(u) => recs[i].uuid@ != u,
                None => true,
            }) implies l.contains(recs[i].uuid@) by {
            if i < recs.len() - 1 {
                assert(recs.drop_last()[i] == recs[i]);
                let k = choose|k: int| 0 <= k < lp.len() && lp[k] == recs[i].uuid@;
                assert(l[k] == recs[i].uuid@);
            } else {
                assert(recs.last() == recs[i]);
                assert(l[l.len() - 1] == recs[i].uuid@);
            }
        }
    }
}

/// With unique record uuids the hit list has no duplicates.
pub proof fn lemma_hit_uuids_distinct(
    recs: Seq<TargetRecord>,
    syms: Seq<Seq<u8>>,
    excl: Option<Seq<char>>,
)
    requires
        forall|i: int, j: int| 0 <= i < j < recs.len() ==> recs[i].uuid@ != recs[j].uuid@,
    ensures
        forall|a: int, b: int|
            0 <= a < b < spec_hit_uuids(recs, syms, excl).len() ==> spec_hit_uuids(
                recs,
                syms,
                excl,
            )[a] != spec_hit_uuids(recs, syms, excl)[b],
    decreases recs.len(),
{
    if recs.len() > 0 {
        lemma_hit_uuids_distinct(recs.drop_last(), syms, excl);
        lemma_hit_uuids_sound(recs.drop_last(), syms, excl);
        let l = spec_hit_uuids(recs, syms, excl);
        let lp = spec_hit_uuids(recs.drop_last(), syms, excl);
        assert forall|a: int, b: int| 0 <= a < b < l.len() implies l[a] != l[b] by {
            if b < lp.len() {
                assert(lp[a] == l[a] && lp[b] == l[b]);
            } else {
                assert(l[b] == recs.last().uuid@);
                let i = choose|i: int|
                    0 <= i < recs.drop_last().len() && recs.drop_last()[i].uuid@ == lp[a]
                        && recs.drop_last()[i].hits(syms) && (match excl {
                        Some(u) => recs.drop_last()[i].uuid@ != u,
                        None => true,
                    });
                assert(recs[i].uuid@ == lp[a]);
                assert(recs[i].uuid@ != recs[recs.len() - 1].uuid@);
            }
        }
    }
}

/// The hit list is empty exactly when no record outside `excl` hits.
pub proof fn lemma_hit_uuids_empty(
    recs: Seq<TargetRecord>,
    syms: Seq<Seq<u8>>,
    excl: Option<Seq<char>>,
)
    ensures
        (spec_hit_uuids(recs, syms, excl).len() == 0) <==> (forall|i: int|
            0 <= i < recs.len() ==> !(recs[i].hits(syms) && (match excl {
                Some(u) => recs[i].uuid@ != u,
                None => true,
            }))),
    decreases recs.len(),
{
    if recs.len() > 0 {
        lemma_hit_uuids_empty(recs.drop_last(), syms, excl);
        assert(recs.drop_last().len() == recs.len() - 1);
        assert forall|i: int| 0 <= i < recs.len() - 1 implies recs.drop_last()[i] == recs[i] by {}
    }
}

} // verus!
