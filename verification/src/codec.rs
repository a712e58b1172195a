//! The `patch_status` persistence format.
//!
//! One record per line: the patch uuid, one space, a status digit, a
//! line break.  The format is self-inverse: parsing a serialised
//! snapshot yields the snapshot back.
use vstd::prelude::*;

use crate::error::{ErrorKind, PatchError};
use crate::status::PatchStatus;

verus! {

/// Digit standing for each persisted status.
pub open spec fn spec_status_byte(s: PatchStatus) -> u8 {
    match s {
        PatchStatus::Unknown => 48,
        PatchStatus::NotApplied => 49,
        PatchStatus::Deactived => 50,
        PatchStatus::Actived => 51,
        PatchStatus::Accepted => 52,
    }
}

/// Status encoded by a digit, if any.
pub open spec fn spec_status_of_byte(b: u8) -> Option<PatchStatus> {
    if b == 49 {
        Some(PatchStatus::NotApplied)
    } else if b == 50 {
        Some(PatchStatus::Deactived)
    } else if b == 51 {
        Some(PatchStatus::Actived)
    } else if b == 52 {
        Some(PatchStatus::Accepted)
    } else {
        None
    }
}

/// A persistable uuid: nonempty, holding neither the separator nor the
/// line break.
pub open spec fn spec_uuid_ok(uuid: Seq<u8>) -> bool {
    uuid.len() > 0 && forall|i: int| 0 <= i < uuid.len() ==> uuid[i] != 32 && uuid[i] != 10
}

/// One serialised record.
pub open spec fn spec_record_bytes(uuid: Seq<u8>, st: PatchStatus) -> Seq<u8> {
    uuid + seq![32u8, spec_status_byte(st), 10u8]
}

/// The serialised snapshot: records in order.
pub open spec fn spec_serialize(pairs: Seq<(Seq<u8>, PatchStatus)>) -> Seq<u8>
    decreases pairs.len(),
{
    if pairs.len() == 0 {
        Seq::empty()
    } else {
        spec_record_bytes(pairs[0].0, pairs[0].1) + spec_serialize(pairs.skip(1))
    }
}

/// Index of the first line break, if any.
pub open spec fn spec_find_nl(bytes: Seq<u8>) -> Option<int>
    decreases bytes.len(),
{
    if bytes.len() == 0 {
        None
    } else if bytes[0] == 10 {
        Some(0)
    } else {
        match spec_find_nl(bytes.skip(1)) {
            Some(i) => Some(i + 1),
            None => None,
        }
    }
}

/// The parsed snapshot: each line is a uuid, a space, a digit.
pub open spec fn spec_parse(bytes: Seq<u8>) -> Option<Seq<(Seq<u8>, PatchStatus)>>
    decreases bytes.len(),
{
    if bytes.len() == 0 {
        Some(Seq::empty())
    } else {
        match spec_find_nl(bytes) {
            None => None,
            Some(nl) => {
                if nl < 3 || nl + 1 > bytes.len() {
                    None
                } else if bytes[nl - 2] != 32 {
                    None
                } else {
                    let uuid = bytes.subrange(0, nl - 2);
                    if !spec_uuid_ok(uuid) {
                        None
                    } else {
                        match spec_status_of_byte(bytes[nl - 1]) {
                            None => None,
                            Some(st) => {
                                match spec_parse(bytes.skip(nl + 1)) {
                                    None => None,
                                    Some(rest) => Some(seq![(uuid, st)] + rest),
                                }
                            },
                        }
                    }
                }
            },
        }
    }
}

/// In a record the first line break is the final byte.
proof fn lemma_find_nl_record(uuid: Seq<u8>, st: PatchStatus, rest: Seq<u8>)
    requires
        spec_uuid_ok(uuid),
    ensures
        spec_find_nl(spec_record_bytes(uuid, st) + rest) == Some(uuid.len() + 2int),
    decreases uuid.len(),
{
    let whole = spec_record_bytes(uuid, st) + rest;
    if uuid.len() == 0 {
        assert(false);
    } else if uuid.len() == 1 {
        assert(whole[0] == uuid[0]);
        assert(whole[0] != 10);
        let tail = whole.skip(1);
        assert(tail[0] == 32);
        assert(tail[0] != 10);
        let tail2 = tail.skip(1);
        assert(tail2[0] == spec_status_byte(st));
        assert(tail2[0] != 10);
        let tail3 = tail2.skip(1);
        assert(tail3[0] == 10);
        assert(spec_find_nl(tail3) == Some(0int));
        assert(spec_find_nl(tail2) == Some(1int));
        assert(spec_find_nl(tail) == Some(2int));
        assert(spec_find_nl(whole) == Some(3int));
    } else {
        assert(whole[0] == uuid[0]);
        assert(whole[0] != 10);
        let sub = uuid.skip(1);
        assert(spec_uuid_ok(sub)) by {
            assert forall|i: int| 0 <= i < sub.len() implies sub[i] != 32 && sub[i] != 10 by {
                assert(sub[i] == uuid[i + 1]);
            }
        }
        lemma_find_nl_record(sub, st, rest);
        assert(whole.skip(1) =~= spec_record_bytes(sub, st) + rest);
        assert(spec_find_nl(whole.skip(1)) == Some(sub.len() + 2int));
        assert(spec_find_nl(whole) == Some(uuid.len() + 2int));
    }
}

/// Parsing inverts serialisation on persistable snapshots.
pub proof fn lemma_parse_serialize(pairs: Seq<(Seq<u8>, PatchStatus)>)
    requires
        forall|i: int| 0 <= i < pairs.len() ==> spec_uuid_ok(#[trigger] pairs[i].0),
        forall|i: int|
            0 <= i < pairs.len() ==> (#[trigger] pairs[i].1) != PatchStatus::Unknown,
    ensures
        spec_parse(spec_serialize(pairs)) == Some(pairs),
    decreases pairs.len(),
{
    if pairs.len() == 0 {
    } else {
        let uuid = pairs[0].0;
        let st = pairs[0].1;
        let rest = spec_serialize(pairs.skip(1));
        let whole = spec_record_bytes(uuid, st) + rest;
        assert(spec_serialize(pairs) == whole);
        lemma_find_nl_record(uuid, st, rest);
        let nl = uuid.len() as int + 2;
        assert(whole.len() >= nl + 1);
        assert(whole[nl - 2] == 32) by {
            assert(whole[uuid.len() as int] == 32);
        }
        assert(whole.subrange(0, nl - 2) =~= uuid);
        assert(whole[nl - 1] == spec_status_byte(st));
        assert(spec_status_of_byte(spec_status_byte(st)) == Some(st));
        assert(whole.skip(nl + 1) =~= rest);
        assert forall|i: int| 0 <= i < pairs.skip(1).len() implies spec_uuid_ok(
            #[trigger] pairs.skip(1)[i].0,
        ) && pairs.skip(1)[i].1 != PatchStatus::Unknown by {
            assert(pairs.skip(1)[i] == pairs[i + 1]);
        }
        lemma_parse_serialize(pairs.skip(1));
        assert(spec_parse(whole) == Some(seq![(uuid, st)] + pairs.skip(1)));
        assert(seq![(uuid, st)] + pairs.skip(1) =~= pairs);
    }
}

/// A parsed snapshot never holds an `Unknown` status.
pub proof fn lemma_parse_no_unknown(bytes: Seq<u8>)
    ensures
        match spec_parse(bytes) {
            Some(pairs) => forall|i: int|
                0 <= i < pairs.len() ==> (#[trigger] pairs[i]).1 != PatchStatus::Unknown,
            None => true,
        },
    decreases bytes.len(),
{
    if bytes.len() > 0 {
        match spec_find_nl(bytes) {
            None => {},
            Some(nl) => {
                if nl < 3 || nl + 1 > bytes.len() {
                } else if bytes[nl - 2] != 32 {
                } else {
                    lemma_parse_no_unknown(bytes.skip(nl + 1));
                }
            },
        }
    }
}

/// The abstract pairs a concrete pair list stands for.
pub open spec fn spec_pairs_view(pairs: Seq<(Vec<u8>, PatchStatus)>) -> Seq<
    (Seq<u8>, PatchStatus),
> {
    Seq::new(pairs.len(), |i: int| (pairs[i].0@, pairs[i].1))
}

/// Serialises a status snapshot.
pub fn serialize_status(pairs: &Vec<(Vec<u8>, PatchStatus)>) -> (r: Vec<u8>)
    ensures
        r@ == spec_serialize(spec_pairs_view(pairs@)),
{
    let mut r: Vec<u8> = Vec::new();
    let n = pairs.len();
    let mut i: usize = 0;
    proof {
        assert(spec_pairs_view(pairs@).skip(0) =~= spec_pairs_view(pairs@));
    }
    while i < n
        invariant
            n == pairs@.len(),
            0 <= i <= n,
            r@ + spec_serialize(spec_pairs_view(pairs@).skip(i as int)) == spec_serialize(
                spec_pairs_view(pairs@),
            ),
        decreases n - i,
    {
        let ghost pre = r@;
        let uuid = &pairs[i].0;
        let m = uuid.len();
        let mut j: usize = 0;
        while j < m
            invariant
                m == uuid@.len(),
                0 <= j <= m,
                r@ == pre + uuid@.subrange(0, j as int),
            decreases m - j,
        {
            r.push(uuid[j]);
            assert(r@ =~= pre + uuid@.subrange(0, j as int + 1));
            j = j + 1;
        }
        assert(r@ =~= pre + uuid@);
        r.push(32);
        let st = pairs[i].1;
        let b: u8 = match st {
            PatchStatus::Unknown => 48,
            PatchStatus::NotApplied => 49,
            PatchStatus::Deactived => 50,
            PatchStatus::Actived => 51,
            PatchStatus::Accepted => 52,
        };
        r.push(b);
        r.push(10);
        proof {
            let view = spec_pairs_view(pairs@);
            assert(view[i as int] == (uuid@, st));
            assert(r@ =~= pre + spec_record_bytes(uuid@, st));
            assert(view.skip(i as int)[0] == view[i as int]);
            assert(view.skip(i as int).skip(1) =~= view.skip(i as int + 1));
            assert(spec_serialize(view.skip(i as int)) == spec_record_bytes(uuid@, st)
                + spec_serialize(view.skip(i as int + 1)));
            assert(r@ + spec_serialize(view.skip(i as int + 1)) =~= pre + spec_serialize(
                view.skip(i as int),
            ));
        }
        i = i + 1;
    }
    proof {
        assert(spec_pairs_view(pairs@).skip(n as int).len() == 0);
        assert(r@ =~= r@ + spec_serialize(spec_pairs_view(pairs@).skip(n as int)));
    }
    r
}

/// Parses a status snapshot; fails with `InvalidFormat` on any byte
/// the format does not allow.
pub fn parse_status(bytes: &[u8]) -> (r: Result<Vec<(Vec<u8>, PatchStatus)>, PatchError>)
    ensures
        match r {
            Ok(pairs) => spec_parse(bytes@) == Some(spec_pairs_view(pairs@)),
            Err(e) => e.kind == ErrorKind::InvalidFormat && spec_parse(bytes@) is None,
        },
{
    let mut out: Vec<(Vec<u8>, PatchStatus)> = Vec::new();
    let n = bytes.len();
    let mut pos: usize = 0;
    proof {
        assert(bytes@.skip(0) =~= bytes@);
        if spec_parse(bytes@) is Some {
            let whole = spec_parse(bytes@).unwrap();
            assert(spec_pairs_view(out@) + whole =~= whole);
        }
    }
    while pos < n
        invariant
            n == bytes@.len(),
            0 <= pos <= n,
            spec_parse(bytes@) == (match spec_parse(bytes@.skip(pos as int)) {
                Some(rest) => Some(spec_pairs_view(out@) + rest),
                None => None::<Seq<(Seq<u8>, PatchStatus)>>,
            }),
        decreases n - pos,
    {
        let ghost tail = bytes@.skip(pos as int);
        let mut uuid: Vec<u8> = Vec::new();
        let mut j: usize = pos;
        while j < n && bytes[j] != 32 && bytes[j] != 10
            invariant
                n == bytes@.len(),
                pos <= j <= n,
                uuid@ == bytes@.subrange(pos as int, j as int),
                forall|z: int| pos <= z < j ==> bytes@[z] != 32 && bytes@[z] != 10,
            decreases n - j,
        {
            uuid.push(bytes[j]);
            assert(uuid@ =~= bytes@.subrange(pos as int, j as int + 1));
            j = j + 1;
        }
        if j >= n || bytes[j] == 10 || j == pos || n - j < 3 || bytes[j + 2] != 10 {
            proof {
                lemma_parse_prefix_fails(bytes@, pos as int, j as int);
            }
            return Err(PatchError::of(ErrorKind::InvalidFormat, "Corrupt patch status file"));
        }
        let stb = bytes[j + 1];
        let st: PatchStatus = if stb == 49 {
            PatchStatus::NotApplied
        } else if stb == 50 {
            PatchStatus::Deactived
        } else if stb == 51 {
            PatchStatus::Actived
        } else if stb == 52 {
            PatchStatus::Accepted
        } else {
            proof {
                lemma_parse_prefix_fails(bytes@, pos as int, j as int);
            }
            return Err(PatchError::of(ErrorKind::InvalidFormat, "Corrupt patch status file"));
        };
        let ghost prev_out = out@;
        out.push((uuid, st));
        proof {
            lemma_parse_prefix_step(bytes@, pos as int, j as int, st);
            assert(spec_pairs_view(out@) =~= spec_pairs_view(prev_out) + seq![
                (bytes@.subrange(pos as int, j as int), st),
            ]);
            assert forall|rest: Seq<(Seq<u8>, PatchStatus)>|
                spec_pairs_view(prev_out) + (seq![(bytes@.subrange(pos as int, j as int), st)]
                    + rest) =~= spec_pairs_view(out@) + rest by {}
        }
        pos = j + 3;
    }
    proof {
        assert(bytes@.skip(n as int).len() == 0);
        assert(spec_pairs_view(out@) + Seq::<(Seq<u8>, PatchStatus)>::empty() =~= spec_pairs_view(
            out@,
        ));
    }
    Ok(out)
}

/// When the scan stopped without a full record, the tail does not
/// parse.
proof fn lemma_parse_prefix_fails(bytes: Seq<u8>, pos: int, j: int)
    requires
        0 <= pos <= j <= bytes.len(),
        pos < bytes.len(),
        forall|z: int| pos <= z < j ==> bytes[z] != 32 && bytes[z] != 10,
        j >= bytes.len() || bytes[j] == 10 || bytes[j] == 32,
        j >= bytes.len() || bytes[j] == 10 || j == pos || j + 2 >= bytes.len() || bytes[j + 2]
            != 10 || spec_status_of_byte(bytes[j + 1]) is None,
    ensures
        spec_parse(bytes.skip(pos)) is None,
{
    let tail = bytes.skip(pos);
    if tail.len() == 0 {
        assert(false);
    } else {
        lemma_find_nl_prefix(bytes, pos, j);
        match spec_find_nl(tail) {
            None => {},
            Some(nl) => {
                assert(nl >= j - pos);
                assert(pos + nl < bytes.len() && bytes[pos + nl] == 10);
                if nl < 3 || nl + 1 > tail.len() {
                } else if tail[nl - 2] != 32 {
                } else {
                    let uuid = tail.subrange(0, nl - 2);
                    assert(tail[nl - 2] == bytes[pos + nl - 2]);
                    if j >= bytes.len() {
                        assert(bytes[pos + nl - 2] != 32);
                        assert(false);
                    } else if bytes[j] == 10 {
                        assert(nl == j - pos) by {
                            if nl < j - pos {
                                assert(bytes[pos + nl] != 10);
                            }
                            if nl > j - pos {
                                assert(tail[j - pos] == bytes[j]);
                                lemma_find_nl_first(tail, nl, j - pos);
                            }
                        }
                        assert(pos + nl - 2 < j && pos + nl - 2 >= pos);
                        assert(bytes[pos + nl - 2] != 32);
                        assert(false);
                    } else {
                        assert(bytes[j] == 32);
                        if pos + nl - 2 < j {
                            assert(bytes[pos + nl - 2] != 32);
                            assert(false);
                        } else if pos + nl - 2 > j {
                            if spec_uuid_ok(uuid) {
                                assert(uuid[j - pos] == bytes[j]);
                                assert(uuid[j - pos] == 32);
                                assert(false);
                            }
                        } else {
                            assert(pos + nl - 2 == j);
                            if spec_uuid_ok(uuid) {
                                assert(uuid.len() == j - pos);
                                assert(j != pos);
                                assert(pos + nl == j + 2);
                                assert(j + 2 < bytes.len());
                                assert(bytes[j + 2] == 10);
                                if spec_status_of_byte(tail[nl - 1]) is Some {
                                    assert(tail[nl - 1] == bytes[j + 1]);
                                    assert(false);
                                }
                            }
                        }
                    }
                }
            },
        }
    }
}

/// A found line break lies inside the sequence.
proof fn lemma_find_nl_bound(bytes: Seq<u8>)
    ensures
        match spec_find_nl(bytes) {
            Some(nl) => 0 <= nl < bytes.len() && bytes[nl] == 10,
            None => true,
        },
    decreases bytes.len(),
{
    if bytes.len() > 0 && bytes[0] != 10 {
        lemma_find_nl_bound(bytes.skip(1));
        match spec_find_nl(bytes.skip(1)) {
            Some(i) => {
                assert(bytes.skip(1)[i] == bytes[i + 1]);
            },
            None => {},
        }
    }
}

/// Before the first line break there is no line break.
proof fn lemma_find_nl_first(bytes: Seq<u8>, nl: int, z: int)
    requires
        spec_find_nl(bytes) == Some(nl),
        0 <= z < nl,
    ensures
        bytes[z] != 10,
    decreases bytes.len(),
{
    lemma_find_nl_bound(bytes);
    if bytes.len() > 0 && bytes[0] != 10 {
        if z > 0 {
            lemma_find_nl_first(bytes.skip(1), nl - 1, z - 1);
            assert(bytes.skip(1)[z - 1] == bytes[z]);
        }
    }
}

/// The first line break of the tail is where the scan found it.
proof fn lemma_find_nl_prefix(bytes: Seq<u8>, pos: int, j: int)
    requires
        0 <= pos <= j <= bytes.len(),
        forall|z: int| pos <= z < j ==> bytes[z] != 10,
    ensures
        ({
            let tail = bytes.skip(pos);
            match spec_find_nl(tail) {
                Some(nl) => nl >= j - pos && pos + nl < bytes.len() && bytes[pos + nl] == 10
                    && forall|z: int| pos <= z < pos + nl ==> bytes[z] != 10,
                None => forall|z: int| pos <= z < bytes.len() ==> bytes[z] != 10,
            }
        }),
    decreases bytes.len() - pos,
{
    let tail = bytes.skip(pos);
    if tail.len() == 0 {
    } else if tail[0] == 10 {
        assert(bytes[pos] == 10);
        assert(j == pos);
    } else {
        assert(bytes.skip(pos + 1) =~= tail.skip(1));
        if j > pos {
            lemma_find_nl_prefix(bytes, pos + 1, j);
        } else {
            lemma_find_nl_prefix(bytes, pos + 1, pos + 1);
        }
        match spec_find_nl(tail.skip(1)) {
            Some(nl2) => {
                assert(spec_find_nl(tail) == Some(nl2 + 1));
            },
            None => {},
        }
    }
}

/// A full record advances the parse by one pair.
proof fn lemma_parse_prefix_step(bytes: Seq<u8>, pos: int, j: int, st: PatchStatus)
    requires
        0 <= pos < j,
        j + 2 < bytes.len(),
        forall|z: int| pos <= z < j ==> bytes[z] != 32 && bytes[z] != 10,
        bytes[j] == 32,
        bytes[j + 2] == 10,
        spec_status_of_byte(bytes[j + 1]) == Some(st),
    ensures
        spec_parse(bytes.skip(pos)) == (match spec_parse(bytes.skip(j + 3)) {
            Some(rest) => Some(seq![(bytes.subrange(pos, j), st)] + rest),
            None => None::<Seq<(Seq<u8>, PatchStatus)>>,
        }),
{
    let tail = bytes.skip(pos);
    lemma_find_nl_prefix(bytes, pos, j);
    let uuid = bytes.subrange(pos, j);
    assert(spec_uuid_ok(uuid)) by {
        assert forall|i: int| 0 <= i < uuid.len() implies uuid[i] != 32 && uuid[i] != 10 by {
            assert(uuid[i] == bytes[pos + i]);
        }
    }
    assert(spec_find_nl(tail) == Some(j + 2 - pos)) by {
        lemma_find_nl_record_prefix(bytes, pos, j);
    }
    let nl = j + 2 - pos;
    assert(nl >= 3);
    assert(tail[nl - 2] == bytes[j]);
    assert(tail.subrange(0, nl - 2) =~= uuid);
    assert(tail[nl - 1] == bytes[j + 1]);
    assert(tail.skip(nl + 1) =~= bytes.skip(j + 3));
}

/// The scan's stopping point is exactly the first line break when a
/// record is well formed.
proof fn lemma_find_nl_record_prefix(bytes: Seq<u8>, pos: int, j: int)
    requires
        0 <= pos <= j,
        j + 2 < bytes.len(),
        forall|z: int| pos <= z < j ==> bytes[z] != 10,
        bytes[j] == 32,
        bytes[j + 1] != 10 || bytes[j + 1] == bytes[j + 1],
        spec_status_of_byte(bytes[j + 1]) is Some,
        bytes[j + 2] == 10,
    ensures
        spec_find_nl(bytes.skip(pos)) == Some(j + 2 - pos),
    decreases j - pos,
{
    let tail = bytes.skip(pos);
    if pos == j {
        assert(tail[0] == 32);
        assert(tail.skip(1) =~= bytes.skip(pos + 1));
        assert(tail[1] == bytes[j + 1]);
        assert(tail[1] != 10) by {
            if bytes[j + 1] == 10 {
                assert(spec_status_of_byte(10) is None);
            }
        }
        assert(tail[2] == 10);
        let t1 = tail.skip(1);
        let t2 = t1.skip(1);
        assert(t2[0] == tail[2]);
        assert(spec_find_nl(t2) == Some(0int));
        assert(t1[0] == tail[1]);
        assert(t1.skip(1) =~= t2);
        assert(spec_find_nl(t1) == Some(1int));
        assert(spec_find_nl(tail) == Some(2int));
    } else {
        assert(tail[0] == bytes[pos]);
        assert(tail[0] != 10);
        lemma_find_nl_record_prefix(bytes, pos + 1, j);
        assert(tail.skip(1) =~= bytes.skip(pos + 1));
        assert(spec_find_nl(tail) == Some(j + 2 - pos));
    }
}

} // verus!
