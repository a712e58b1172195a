//! The kernel patch ELF resolver.
//!
//! A kernel patch object carries its patched-symbol metadata in two
//! sections: `.kpatch.funcs`, a packed array of fixed-size records, and
//! `.kpatch.strings`, raw NUL-terminated names.  The relocations of the
//! record section assign each record its symbol and object name.  This
//! module resolves those bytes into [`KernelPatchSymbol`] records and
//! offers a self-inverse serialisation of the symbol list.
use vstd::prelude::*;

use crate::entity::KernelPatchSymbol;
use crate::error::{ErrorKind, PatchError};

verus! {

/// Size of one packed function record.
pub const KPATCH_FUNC_SIZE: usize = 72;

/// Offset of the symbol-name slot inside a record.
pub const KPATCH_FUNC_NAME_OFFSET: usize = 40;

/// Offset of the object-name slot inside a record.
pub const KPATCH_OBJECT_NAME_OFFSET: usize = 48;

/// A relocation of the record section: where it writes and what string
/// offset its addend names.
#[derive(Clone, Copy, Debug, PartialEq, Eq, Structural)]
pub struct KpatchRelocationEntry {
    pub offset: u64,
    pub addend: u64,
}

/// The little-endian 64-bit value at `off`.
pub open spec fn spec_u64_le(b: Seq<u8>, off: int) -> u64
    recommends
        0 <= off,
        off + 8 <= b.len(),
{
    (b[off] as u64) | (b[off + 1] as u64) << 8 | (b[off + 2] as u64) << 16 | (b[off + 3] as u64)
        << 24 | (b[off + 4] as u64) << 32 | (b[off + 5] as u64) << 40 | (b[off + 6] as u64) << 48
        | (b[off + 7] as u64) << 56
}

/// Reads the little-endian 64-bit value at `off`.
pub fn read_u64_le(b: &[u8], off: usize) -> (r: u64)
    requires
        off + 8 <= b@.len(),
    ensures
        r == spec_u64_le(b@, off as int),
{
    (b[off] as u64) | (b[off + 1] as u64) << 8u64 | (b[off + 2] as u64) << 16u64 | (b[off
        + 3] as u64) << 24u64 | (b[off + 4] as u64) << 32u64 | (b[off + 5] as u64) << 40u64 | (b[off
        + 6] as u64) << 48u64 | (b[off + 7] as u64) << 56u64
}

/// The NUL-terminated byte string starting at `off`, if terminated.
pub open spec fn spec_cstr_at(strings: Seq<u8>, off: int) -> Option<Seq<u8>>
    decreases strings.len() - off,
{
    if off < 0 || off >= strings.len() {
        None
    } else if strings[off] == 0 {
        Some(Seq::empty())
    } else {
        match spec_cstr_at(strings, off + 1) {
            None => None,
            Some(rest) => Some(seq![strings[off]] + rest),
        }
    }
}

/// Reads the NUL-terminated byte string at `off`.
pub fn read_cstr(strings: &[u8], off: usize) -> (r: Option<Vec<u8>>)
    ensures
        match r {
            Some(v) => spec_cstr_at(strings@, off as int) == Some(v@),
            None => spec_cstr_at(strings@, off as int) is None,
        },
{
    let n = strings.len();
    if off >= n {
        return None;
    }
    let mut out: Vec<u8> = Vec::new();
    let mut i: usize = off;
    while i < n && strings[i] != 0
        invariant
            n == strings@.len(),
            off <= i <= n,
            forall|z: int| off <= z < i ==> strings@[z] != 0,
            out@ == strings@.subrange(off as int, i as int),
        decreases n - i,
    {
        out.push(strings[i]);
        assert(out@ =~= strings@.subrange(off as int, i as int + 1));
        i = i + 1;
    }
    if i >= n {
        proof {
            lemma_cstr_unterminated(strings@, off as int, n as int);
        }
        return None;
    }
    proof {
        lemma_cstr_terminated(strings@, off as int, i as int);
    }
    Some(out)
}

/// A scan that ran off the end finds no terminator.
proof fn lemma_cstr_unterminated(strings: Seq<u8>, off: int, n: int)
    requires
        n == strings.len(),
        0 <= off <= n,
        forall|z: int| off <= z < n ==> strings[z] != 0,
    ensures
        spec_cstr_at(strings, off) is None,
    decreases n - off,
{
    if off < n {
        lemma_cstr_unterminated(strings, off + 1, n);
    }
}

/// A scan that stopped at a NUL reads the bytes before it.
proof fn lemma_cstr_terminated(strings: Seq<u8>, off: int, i: int)
    requires
        0 <= off <= i < strings.len(),
        forall|z: int| off <= z < i ==> strings[z] != 0,
        strings[i] == 0,
    ensures
        spec_cstr_at(strings, off) == Some(strings.subrange(off, i)),
    decreases i - off,
{
    if off == i {
        assert(strings.subrange(off, i) =~= Seq::<u8>::empty());
    } else {
        lemma_cstr_terminated(strings, off + 1, i);
        assert(seq![strings[off]] + strings.subrange(off + 1, i) =~= strings.subrange(off, i));
    }
}

/// Offset of the slot a relocation with index `slot` modulo three
/// fills inside its record.
pub open spec fn spec_slot_field_off(slot: int) -> int {
    if slot == 1 {
        40
    } else {
        48
    }
}

/// A name or object-name relocation resolves: it points at a whole
/// slot of an existing record and its addend names a terminated
/// string.
pub open spec fn spec_reloc_ok(
    fd_len: int,
    sd: Seq<u8>,
    e: KpatchRelocationEntry,
    slot: int,
) -> bool {
    let fo = spec_slot_field_off(slot);
    &&& e.offset >= fo
    &&& (e.offset - fo) % 72 == 0
    &&& (e.offset - fo) / 72 < fd_len / 72
    &&& e.addend < sd.len()
    &&& spec_cstr_at(sd, e.addend as int) is Some
}

/// Every name and object-name relocation of the record section
/// resolves.
pub open spec fn spec_relocs_ok(fd_len: int, sd: Seq<u8>, rels: Seq<KpatchRelocationEntry>) -> bool {
    forall|k: int|
        0 <= k < rels.len() ==> ((k % 3 == 1 ==> spec_reloc_ok(fd_len, sd, #[trigger] rels[k], 1))
            && (k % 3 == 2 ==> spec_reloc_ok(fd_len, sd, rels[k], 2)))
}

/// The string the last relocation filling record `i`'s `slot` assigns,
/// or the empty name when none does.
pub open spec fn spec_slot_name(
    sd: Seq<u8>,
    rels: Seq<KpatchRelocationEntry>,
    i: int,
    slot: int,
) -> Seq<u8>
    decreases rels.len(),
{
    if rels.len() == 0 {
        Seq::empty()
    } else {
        let k = rels.len() - 1;
        if k % 3 == slot && rels[k].offset == spec_slot_field_off(slot) + 72 * i && rels[k].addend
            < sd.len() && spec_cstr_at(sd, rels[k].addend as int) is Some {
            spec_cstr_at(sd, rels[k].addend as int).unwrap()
        } else {
            spec_slot_name(sd, rels.drop_last(), i, slot)
        }
    }
}

/// The record fields a resolved symbol reads from offset `base` of the
/// record section.
pub open spec fn spec_record_fields_ok(data: Seq<u8>, base: int, sym: KernelPatchSymbol) -> bool {
    &&& sym.new_addr == spec_u64_le(data, base)
    &&& sym.new_size == spec_u64_le(data, base + 8)
    &&& sym.old_addr == spec_u64_le(data, base + 16)
    &&& sym.old_size == spec_u64_le(data, base + 24)
}

/// Resolves the two kpatch sections and the record relocations into
/// the symbol list.
///
/// Fails with `InvalidFormat` when the record data is not a whole
/// number of records, a relocation points outside the records, or an
/// addend names an unterminated or out-of-range string.  Relocations
/// arrive in section order; their index modulo three says which slot
/// they fill (address, symbol name, object name).
pub fn resolve_kpatch_symbols(
    function_data: &[u8],
    string_data: &[u8],
    relocations: &Vec<KpatchRelocationEntry>,
) -> (r: Result<Vec<KernelPatchSymbol>, PatchError>)
    ensures
        match r {
            Ok(symbols) => {
                &&& function_data@.len() % 72 == 0
                &&& spec_relocs_ok(
                    function_data@.len() as int,
                    string_data@,
                    relocations@,
                )
                &&& symbols@.len() == function_data@.len() / 72
                &&& forall|i: int|
                    0 <= i < symbols@.len() ==> spec_record_fields_ok(
                        function_data@,
                        72 * i,
                        #[trigger] symbols@[i],
                    )
                &&& forall|i: int|
                    0 <= i < symbols@.len() ==> (#[trigger] symbols@[i]).name@ == spec_slot_name(
                        string_data@,
                        relocations@,
                        i,
                        1,
                    ) && symbols@[i].target@ == spec_slot_name(string_data@, relocations@, i, 2)
            },
            Err(e) => e.kind == ErrorKind::InvalidFormat && (function_data@.len() % 72 != 0
                || !spec_relocs_ok(function_data@.len() as int, string_data@, relocations@)),
        },
{
    if function_data.len() % 72 != 0 {
        return Err(PatchError::of(ErrorKind::InvalidFormat, "Invalid patch record data"));
    }
    let count = function_data.len() / 72;
    let mut symbols: Vec<KernelPatchSymbol> = Vec::new();
    let mut i: usize = 0;
    while i < count
        invariant
            function_data@.len() % 72 == 0,
            function_data@.len() <= usize::MAX,
            count == function_data@.len() / 72,
            0 <= i <= count,
            symbols@.len() == i,
            forall|z: int|
                0 <= z < i ==> spec_record_fields_ok(
                    function_data@,
                    72 * z,
                    #[trigger] symbols@[z],
                ),
            forall|z: int|
                0 <= z < i ==> (#[trigger] symbols@[z]).name@.len() == 0
                    && symbols@[z].target@.len() == 0,
        decreases count - i,
    {
        proof {
            let len = function_data@.len() as int;
            assert(i * 72 + 72 <= len) by (nonlinear_arith)
                requires
                    0 <= i,
                    i < count,
                    count == len / 72,
                    len % 72 == 0,
                    len >= 0,
            {}
        }
        let base = i * 72;
        let sym = KernelPatchSymbol {
            name: Vec::new(),
            target: Vec::new(),
            new_addr: read_u64_le(function_data, base),
            new_size: read_u64_le(function_data, base + 8),
            old_addr: read_u64_le(function_data, base + 16),
            old_size: read_u64_le(function_data, base + 24),
        };
        symbols.push(sym);
        i = i + 1;
    }
    proof {
        assert forall|i: int|
            0 <= i < count implies (#[trigger] symbols@[i]).name@ == spec_slot_name(
            string_data@,
            relocations@.take(0),
            i,
            1,
        ) && symbols@[i].target@ == spec_slot_name(string_data@, relocations@.take(0), i, 2) by {
            assert(relocations@.take(0).len() == 0);
            assert(symbols@[i].name@ =~= Seq::<u8>::empty());
            assert(symbols@[i].target@ =~= Seq::<u8>::empty());
        }
    }
    let m = relocations.len();
    let mut k: usize = 0;
    while k < m
        invariant
            function_data@.len() % 72 == 0,
            function_data@.len() <= usize::MAX,
            count == function_data@.len() / 72,
            m == relocations@.len(),
            0 <= k <= m,
            symbols@.len() == count,
            forall|z: int|
                0 <= z < count ==> spec_record_fields_ok(
                    function_data@,
                    72 * z,
                    #[trigger] symbols@[z],
                ),
            forall|z: int|
                0 <= z < k ==> ((z % 3 == 1 ==> spec_reloc_ok(
                    function_data@.len() as int,
                    string_data@,
                    #[trigger] relocations@[z],
                    1,
                )) && (z % 3 == 2 ==> spec_reloc_ok(
                    function_data@.len() as int,
                    string_data@,
                    relocations@[z],
                    2,
                ))),
            forall|i: int|
                0 <= i < count ==> (#[trigger] symbols@[i]).name@ == spec_slot_name(
                    string_data@,
                    relocations@.take(k as int),
                    i,
                    1,
                ) && symbols@[i].target@ == spec_slot_name(
                    string_data@,
                    relocations@.take(k as int),
                    i,
                    2,
                ),
        decreases m - k,
    {
        proof {
            assert(relocations@.take(k as int + 1).drop_last() =~= relocations@.take(k as int));
            assert(relocations@.take(k as int + 1).last() == relocations@[k as int]);
        }
        let slot = k % 3;
        if slot == 1 || slot == 2 {
            let field_off: u64 = if slot == 1 {
                40
            } else {
                48
            };
            let offset = relocations[k].offset;
            if offset < field_off {
                return Err(PatchError::of(ErrorKind::InvalidFormat, "Invalid relocation offset"));
            }
            let rel = offset - field_off;
            if rel % 72 != 0 {
                return Err(PatchError::of(ErrorKind::InvalidFormat, "Invalid relocation offset"));
            }
            let index = rel / 72;
            if index >= count as u64 {
                proof {
                    assert((relocations@[k as int].offset - spec_slot_field_off(slot as int)) / 72
                        >= function_data@.len() as int / 72);
                }
                return Err(PatchError::of(ErrorKind::InvalidFormat, "Invalid relocation offset"));
            }
            let addend = relocations[k].addend;
            if addend >= string_data.len() as u64 {
                return Err(PatchError::of(ErrorKind::InvalidFormat, "Invalid relocation addend"));
            }
            let name = match read_cstr(string_data, addend as usize) {
                None => {
                    return Err(
                        PatchError::of(ErrorKind::InvalidFormat, "Unterminated patch string"),
                    );
                },
                Some(v) => v,
            };
            let ghost gname = name@;
            let ghost pre = symbols@;
            let idx = index as usize;
            let entry = &mut symbols[idx];
            if slot == 1 {
                entry.name = name;
            } else {
                entry.target = name;
            }
            proof {
                assert forall|z: int|
                    0 <= z < count implies spec_record_fields_ok(
                    function_data@,
                    72 * z,
                    #[trigger] symbols@[z],
                ) by {
                    if z != idx {
                        assert(symbols@[z] == pre[z]);
                    } else {
                        assert(symbols@[z].new_addr == pre[z].new_addr && symbols@[z].new_size
                            == pre[z].new_size && symbols@[z].old_addr == pre[z].old_addr
                            && symbols@[z].old_size == pre[z].old_size);
                    }
                }
                let taken = relocations@.take(k as int + 1);
                assert(spec_cstr_at(string_data@, relocations@[k as int].addend as int) == Some(
                    gname,
                ));
                assert(relocations@[k as int].offset == spec_slot_field_off(slot as int) + 72 * (
                idx as int)) by {
                    assert(relocations@[k as int].offset - spec_slot_field_off(slot as int) == 72
                        * (idx as int));
                }
                assert forall|i: int|
                    0 <= i < count implies (#[trigger] symbols@[i]).name@ == spec_slot_name(
                    string_data@,
                    taken,
                    i,
                    1,
                ) && symbols@[i].target@ == spec_slot_name(string_data@, taken, i, 2) by {
                    if i != idx {
                        assert(symbols@[i] == pre[i]);
                        assert(relocations@[k as int].offset != spec_slot_field_off(1) + 72 * i
                            || (k as int) % 3 != 1) by {
                            if (k as int) % 3 == 1 {
                                assert(slot == 1);
                            }
                        }
                        assert(relocations@[k as int].offset != spec_slot_field_off(2) + 72 * i
                            || (k as int) % 3 != 2) by {
                            if (k as int) % 3 == 2 {
                                assert(slot == 2);
                            }
                        }
                    } else {
                        if slot == 1 {
                            assert(symbols@[i].name@ == gname);
                            assert(symbols@[i].target@ == pre[i].target@);
                            assert((k as int) % 3 != 2);
                        } else {
                            assert(symbols@[i].target@ == gname);
                            assert(symbols@[i].name@ == pre[i].name@);
                            assert((k as int) % 3 != 1);
                        }
                    }
                }
            }
        } else {
            proof {
                let taken = relocations@.take(k as int + 1);
                assert((k as int) % 3 == 0);
                assert forall|i: int|
                    0 <= i < count implies (#[trigger] symbols@[i]).name@ == spec_slot_name(
                    string_data@,
                    taken,
                    i,
                    1,
                ) && symbols@[i].target@ == spec_slot_name(string_data@, taken, i, 2) by {}
            }
        }
        k = k + 1;
    }
    proof {
        assert(relocations@.take(m as int) =~= relocations@);
    }
    Ok(symbols)
}

/// One serialised symbol: length-prefixed name and target, then the
/// four address fields, all little endian.
pub open spec fn spec_symbol_bytes(s: KernelPatchSymbol) -> Seq<u8> {
    spec_u64_bytes(s.name@.len() as u64) + s.name@ + spec_u64_bytes(s.target@.len() as u64)
        + s.target@ + spec_u64_bytes(s.old_addr) + spec_u64_bytes(s.old_size) + spec_u64_bytes(
        s.new_addr,
    ) + spec_u64_bytes(s.new_size)
}

/// The eight little-endian bytes of a 64-bit value.
pub open spec fn spec_u64_bytes(v: u64) -> Seq<u8> {
    seq![
        (v & 0xff) as u8,
        ((v >> 8) & 0xff) as u8,
        ((v >> 16) & 0xff) as u8,
        ((v >> 24) & 0xff) as u8,
        ((v >> 32) & 0xff) as u8,
        ((v >> 40) & 0xff) as u8,
        ((v >> 48) & 0xff) as u8,
        ((v >> 56) & 0xff) as u8,
    ]
}

/// The serialised symbol list.
pub open spec fn spec_symbols_bytes(symbols: Seq<KernelPatchSymbol>) -> Seq<u8>
    decreases symbols.len(),
{
    if symbols.len() == 0 {
        Seq::empty()
    } else {
        spec_symbol_bytes(symbols[0]) + spec_symbols_bytes(symbols.skip(1))
    }
}

/// The abstract form of a symbol: what the codec round-trips.
pub open spec fn spec_symbol_view(s: KernelPatchSymbol) -> (Seq<u8>, Seq<u8>, u64, u64, u64, u64) {
    (s.name@, s.target@, s.old_addr, s.old_size, s.new_addr, s.new_size)
}

/// The abstract forms of a symbol list.
pub open spec fn spec_symbols_view(l: Seq<KernelPatchSymbol>) -> Seq<
    (Seq<u8>, Seq<u8>, u64, u64, u64, u64),
> {
    Seq::new(l.len(), |i: int| spec_symbol_view(l[i]))
}

/// The parsed symbol list: length-prefixed records until the bytes
/// run out.
pub open spec fn spec_parse_symbols(bytes: Seq<u8>) -> Option<
    Seq<(Seq<u8>, Seq<u8>, u64, u64, u64, u64)>,
>
    decreases bytes.len(),
{
    if bytes.len() == 0 {
        Some(Seq::empty())
    } else if bytes.len() < 8 {
        None
    } else {
        let name_len = spec_u64_le(bytes, 0) as int;
        if 8 + name_len + 8 > bytes.len() {
            None
        } else {
            let name = bytes.subrange(8, 8 + name_len);
            let target_len = spec_u64_le(bytes, 8 + name_len) as int;
            let fixed = 8 + name_len + 8 + target_len + 32;
            if fixed > bytes.len() {
                None
            } else {
                let target = bytes.subrange(8 + name_len + 8, 8 + name_len + 8 + target_len);
                let base = 8 + name_len + 8 + target_len;
                let rec = (
                    name,
                    target,
                    spec_u64_le(bytes, base),
                    spec_u64_le(bytes, base + 8),
                    spec_u64_le(bytes, base + 16),
                    spec_u64_le(bytes, base + 24),
                );
                match spec_parse_symbols(bytes.skip(fixed)) {
                    None => None,
                    Some(rest) => Some(seq![rec] + rest),
                }
            }
        }
    }
}

/// Serialises a symbol list.
#[verifier::rlimit(100)]
pub fn serialize_symbols(symbols: &Vec<KernelPatchSymbol>) -> (r: Vec<u8>)
    ensures
        r@ == spec_symbols_bytes(symbols@),
{
    let mut r: Vec<u8> = Vec::new();
    let n = symbols.len();
    let mut i: usize = 0;
    proof {
        assert(symbols@.skip(0) =~= symbols@);
    }
    while i < n
        invariant
            n == symbols@.len(),
            0 <= i <= n,
            r@ + spec_symbols_bytes(symbols@.skip(i as int)) == spec_symbols_bytes(symbols@),
        decreases n - i,
    {
        let ghost pre = r@;
        let sym = &symbols[i];
        push_u64_le(&mut r, sym.name.len() as u64);
        push_bytes(&mut r, &sym.name);
        push_u64_le(&mut r, sym.target.len() as u64);
        push_bytes(&mut r, &sym.target);
        push_u64_le(&mut r, sym.old_addr);
        push_u64_le(&mut r, sym.old_size);
        push_u64_le(&mut r, sym.new_addr);
        push_u64_le(&mut r, sym.new_size);
        proof {
            assert(r@ =~= pre + spec_symbol_bytes(symbols@[i as int]));
            assert(symbols@.skip(i as int)[0] == symbols@[i as int]);
            assert(symbols@.skip(i as int).skip(1) =~= symbols@.skip(i as int + 1));
            assert(spec_symbols_bytes(symbols@.skip(i as int)) == spec_symbol_bytes(
                symbols@[i as int],
            ) + spec_symbols_bytes(symbols@.skip(i as int + 1)));
            assert(r@ + spec_symbols_bytes(symbols@.skip(i as int + 1)) =~= pre
                + spec_symbols_bytes(symbols@.skip(i as int)));
        }
        i = i + 1;
    }
    proof {
        assert(spec_symbols_bytes(symbols@.skip(n as int)) =~= Seq::<u8>::empty());
        assert(r@ =~= r@ + spec_symbols_bytes(symbols@.skip(n as int)));
    }
    r
}

/// Appends the little-endian bytes of `v`.
fn push_u64_le(out: &mut Vec<u8>, v: u64)
    ensures
        final(out)@ == old(out)@ + spec_u64_bytes(v),
{
    let ghost pre = out@;
    out.push((v & 0xff) as u8);
    out.push(((v >> 8u64) & 0xff) as u8);
    out.push(((v >> 16u64) & 0xff) as u8);
    out.push(((v >> 24u64) & 0xff) as u8);
    out.push(((v >> 32u64) & 0xff) as u8);
    out.push(((v >> 40u64) & 0xff) as u8);
    out.push(((v >> 48u64) & 0xff) as u8);
    out.push(((v >> 56u64) & 0xff) as u8);
    proof {
        assert(out@ =~= pre + spec_u64_bytes(v));
    }
}

/// Appends a byte string.
fn push_bytes(out: &mut Vec<u8>, b: &Vec<u8>)
    ensures
        final(out)@ == old(out)@ + b@,
{
    let ghost pre = out@;
    let n = b.len();
    let mut i: usize = 0;
    while i < n
        invariant
            n == b@.len(),
            0 <= i <= n,
            out@ == pre + b@.subrange(0, i as int),
        decreases n - i,
    {
        out.push(b[i]);
        proof {
            assert(out@ =~= pre + b@.subrange(0, i as int + 1));
        }
        i = i + 1;
    }
    proof {
        assert(out@ =~= pre + b@);
    }
}

/// Copy of the byte range `[a, b)`.
fn copy_range(bytes: &[u8], a: usize, b: usize) -> (r: Vec<u8>)
    requires
        a <= b <= bytes@.len(),
    ensures
        r@ == bytes@.subrange(a as int, b as int),
{
    let mut r: Vec<u8> = Vec::new();
    let mut i: usize = a;
    while i < b
        invariant
            a <= i <= b <= bytes@.len(),
            r@ == bytes@.subrange(a as int, i as int),
        decreases b - i,
    {
        r.push(bytes[i]);
        proof {
            assert(r@ =~= bytes@.subrange(a as int, i as int + 1));
        }
        i = i + 1;
    }
    proof {
        assert(r@ =~= bytes@.subrange(a as int, b as int));
    }
    r
}

/// Parses a serialised symbol list; fails with `InvalidFormat` on a
/// truncated record.
#[verifier::rlimit(100)]
#[verifier::spinoff_prover]
pub fn parse_symbols(bytes: &[u8]) -> (r: Result<Vec<KernelPatchSymbol>, PatchError>)
    ensures
        match r {
            Ok(l) => spec_parse_symbols(bytes@) == Some(spec_symbols_view(l@)),
            Err(e) => e.kind == ErrorKind::InvalidFormat && spec_parse_symbols(bytes@) is None,
        },
{
    let mut out: Vec<KernelPatchSymbol> = Vec::new();
    let n = bytes.len();
    let mut pos: usize = 0;
    proof {
        assert(bytes@.skip(0) =~= bytes@);
        if spec_parse_symbols(bytes@) is Some {
            let whole = spec_parse_symbols(bytes@).unwrap();
            assert(spec_symbols_view(out@) + whole =~= whole);
        }
    }
    while pos < n
        invariant
            n == bytes@.len(),
            0 <= pos <= n,
            spec_parse_symbols(bytes@) == (match spec_parse_symbols(bytes@.skip(pos as int)) {
                Some(rest) => Some(spec_symbols_view(out@) + rest),
                None => None::<Seq<(Seq<u8>, Seq<u8>, u64, u64, u64, u64)>>,
            }),
        decreases n - pos,
    {
        let ghost tail = bytes@.skip(pos as int);
        let avail = n - pos;
        if avail < 8 {
            return Err(PatchError::of(ErrorKind::InvalidFormat, "Truncated symbol record"));
        }
        let name_len64 = read_u64_le_at(bytes, pos);
        proof {
            lemma_u64_le_skip(bytes@, pos as int, 0);
        }
        if name_len64 > (avail - 8) as u64 {
            proof {
                assert(8 + spec_u64_le(tail, 0) as int + 8 > tail.len());
            }
            return Err(PatchError::of(ErrorKind::InvalidFormat, "Truncated symbol record"));
        }
        let nl = name_len64 as usize;
        if avail - 8 - nl < 8 {
            proof {
                assert(8 + spec_u64_le(tail, 0) as int + 8 > tail.len());
            }
            return Err(PatchError::of(ErrorKind::InvalidFormat, "Truncated symbol record"));
        }
        let name = copy_range(bytes, pos + 8, pos + 8 + nl);
        let target_len64 = read_u64_le_at(bytes, pos + 8 + nl);
        proof {
            lemma_u64_le_skip(bytes@, pos as int, 8 + nl as int);
        }
        if target_len64 > (avail - 16 - nl) as u64 {
            return Err(PatchError::of(ErrorKind::InvalidFormat, "Truncated symbol record"));
        }
        let tl = target_len64 as usize;
        if avail - 16 - nl - tl < 32 {
            return Err(PatchError::of(ErrorKind::InvalidFormat, "Truncated symbol record"));
        }
        let fixed = 48 + nl + tl;
        let target = copy_range(bytes, pos + 8 + nl + 8, pos + 8 + nl + 8 + tl);
        let base = pos + 8 + nl + 8 + tl;
        proof {
            lemma_u64_le_skip(bytes@, pos as int, 8 + nl + 8 + tl as int);
            lemma_u64_le_skip(bytes@, pos as int, 8 + nl + 8 + tl + 8 as int);
            lemma_u64_le_skip(bytes@, pos as int, 8 + nl + 8 + tl + 16 as int);
            lemma_u64_le_skip(bytes@, pos as int, 8 + nl + 8 + tl + 24 as int);
        }
        let sym = KernelPatchSymbol {
            name,
            target,
            old_addr: read_u64_le_at(bytes, base),
            old_size: read_u64_le_at(bytes, base + 8),
            new_addr: read_u64_le_at(bytes, base + 16),
            new_size: read_u64_le_at(bytes, base + 24),
        };
        let ghost prev_out = out@;
        out.push(sym);
        proof {
            let name_s = tail.subrange(8, 8 + nl as int);
            let target_s = tail.subrange(8 + nl as int + 8, 8 + nl as int + 8 + tl as int);
            assert(name_s =~= bytes@.subrange(pos + 8, pos + 8 + nl as int));
            assert(target_s =~= bytes@.subrange(
                pos + 8 + nl as int + 8,
                pos + 8 + nl as int + 8 + tl as int,
            ));
            let rec = (
                name_s,
                target_s,
                spec_u64_le(tail, 8 + nl as int + 8 + tl as int),
                spec_u64_le(tail, 8 + nl as int + 8 + tl as int + 8),
                spec_u64_le(tail, 8 + nl as int + 8 + tl as int + 16),
                spec_u64_le(tail, 8 + nl as int + 8 + tl as int + 24),
            );
            assert(spec_parse_symbols(tail) == (match spec_parse_symbols(tail.skip(fixed as int)) {
                Some(rest) => Some(seq![rec] + rest),
                None => None::<Seq<(Seq<u8>, Seq<u8>, u64, u64, u64, u64)>>,
            }));
            assert(tail.skip(fixed as int) =~= bytes@.skip(pos as int + fixed as int));
            assert(spec_symbols_view(out@) =~= spec_symbols_view(prev_out) + seq![rec]);
            assert forall|rest: Seq<(Seq<u8>, Seq<u8>, u64, u64, u64, u64)>|
                spec_symbols_view(prev_out) + (seq![rec] + rest) =~= spec_symbols_view(out@)
                    + rest by {}
        }
        pos = pos + fixed;
    }
    proof {
        assert(bytes@.skip(n as int).len() == 0);
        assert(spec_symbols_view(out@) + Seq::<(Seq<u8>, Seq<u8>, u64, u64, u64, u64)>::empty()
            =~= spec_symbols_view(out@));
    }
    Ok(out)
}

/// Reading eight bytes inside a suffix reads the same value.
proof fn lemma_u64_le_skip(bytes: Seq<u8>, pos: int, off: int)
    requires
        0 <= pos,
        0 <= off,
        pos + off + 8 <= bytes.len(),
    ensures
        spec_u64_le(bytes.skip(pos), off) == spec_u64_le(bytes, pos + off),
{
    assert forall|z: int| 0 <= z < 8 implies #[trigger] bytes.skip(pos)[off + z] == bytes[pos + off
        + z] by {}
}

/// `read_u64_le` on a slice position.
fn read_u64_le_at(b: &[u8], off: usize) -> (r: u64)
    requires
        off + 8 <= b@.len(),
    ensures
        r == spec_u64_le(b@, off as int),
{
    read_u64_le(b, off)
}

/// The eight serialised bytes of a value read back as the value.
proof fn lemma_u64_bytes_value(b: Seq<u8>, off: int, v: u64)
    requires
        0 <= off,
        off + 8 <= b.len(),
        forall|z: int| 0 <= z < 8 ==> b[off + z] == spec_u64_bytes(v)[z],
    ensures
        spec_u64_le(b, off) == v,
{
    assert(b[off + 0] == spec_u64_bytes(v)[0]);
    assert(b[off + 1] == spec_u64_bytes(v)[1]);
    assert(b[off + 2] == spec_u64_bytes(v)[2]);
    assert(b[off + 3] == spec_u64_bytes(v)[3]);
    assert(b[off + 4] == spec_u64_bytes(v)[4]);
    assert(b[off + 5] == spec_u64_bytes(v)[5]);
    assert(b[off + 6] == spec_u64_bytes(v)[6]);
    assert(b[off + 7] == spec_u64_bytes(v)[7]);
    assert(b[off] == b[off + 0]);
    assert(((v & 0xff) as u8 as u64) | (((v >> 8) & 0xff) as u8 as u64) << 8 | (((v >> 16)
        & 0xff) as u8 as u64) << 16 | (((v >> 24) & 0xff) as u8 as u64) << 24 | (((v >> 32)
        & 0xff) as u8 as u64) << 32 | (((v >> 40) & 0xff) as u8 as u64) << 40 | (((v >> 48)
        & 0xff) as u8 as u64) << 48 | (((v >> 56) & 0xff) as u8 as u64) << 56 == v)
        by (bit_vector);
}

/// Parsing inverts serialisation: the symbol-list codec is the
/// identity on the abstract symbol list.
#[verifier::rlimit(100)]
pub proof fn lemma_symbols_round_trip(l: Seq<KernelPatchSymbol>)
    requires
        forall|i: int|
            0 <= i < l.len() ==> (#[trigger] l[i]).name@.len() <= u64::MAX && l[i].target@.len()
                <= u64::MAX,
    ensures
        spec_parse_symbols(spec_symbols_bytes(l)) == Some(spec_symbols_view(l)),
    decreases l.len(),
{
    if l.len() == 0 {
        assert(spec_symbols_view(l) =~= Seq::<(Seq<u8>, Seq<u8>, u64, u64, u64, u64)>::empty());
    } else {
        let s0 = l[0];
        let nl = s0.name@.len() as int;
        let tl = s0.target@.len() as int;
        let head = spec_symbol_bytes(s0);
        let rest = spec_symbols_bytes(l.skip(1));
        let whole = head + rest;
        assert(spec_symbols_bytes(l) == whole);
        assert(head.len() == 48 + nl + tl) by {
            assert(spec_u64_bytes(s0.name@.len() as u64).len() == 8);
        }
        assert forall|z: int| 0 <= z < 8 implies whole[z] == spec_u64_bytes(
            s0.name@.len() as u64,
        )[z] by {}
        lemma_u64_bytes_value(whole, 0, s0.name@.len() as u64);
        assert(spec_u64_le(whole, 0) as int == nl);
        assert(8 + nl + 8 <= whole.len());
        assert(whole.subrange(8, 8 + nl) =~= s0.name@) by {
            assert forall|z: int| 0 <= z < nl implies whole[8 + z] == s0.name@[z] by {
                assert(head[8 + z] == s0.name@[z]);
            }
        }
        assert forall|z: int| 0 <= z < 8 implies #[trigger] whole[8 + nl + z]
            == spec_u64_bytes(s0.target@.len() as u64)[z] by {}
        lemma_u64_bytes_value(whole, 8 + nl, s0.target@.len() as u64);
        assert(spec_u64_le(whole, 8 + nl) as int == tl);
        let fixed = 8 + nl + 8 + tl + 32;
        assert(fixed <= whole.len());
        assert(whole.subrange(8 + nl + 8, 8 + nl + 8 + tl) =~= s0.target@) by {
            assert forall|z: int| 0 <= z < tl implies whole[8 + nl + 8 + z] == s0.target@[z] by {
                assert(head[8 + nl + 8 + z] == s0.target@[z]);
            }
        }
        let base = 8 + nl + 8 + tl;
        assert forall|z: int| 0 <= z < 8 implies #[trigger] whole[base + z] == spec_u64_bytes(
            s0.old_addr,
        )[z] by {}
        lemma_u64_bytes_value(whole, base, s0.old_addr);
        assert forall|z: int| 0 <= z < 8 implies #[trigger] whole[base + 8 + z]
            == spec_u64_bytes(s0.old_size)[z] by {}
        lemma_u64_bytes_value(whole, base + 8, s0.old_size);
        assert forall|z: int| 0 <= z < 8 implies #[trigger] whole[base + 16 + z]
            == spec_u64_bytes(s0.new_addr)[z] by {}
        lemma_u64_bytes_value(whole, base + 16, s0.new_addr);
        assert forall|z: int| 0 <= z < 8 implies #[trigger] whole[base + 24 + z]
            == spec_u64_bytes(s0.new_size)[z] by {}
        lemma_u64_bytes_value(whole, base + 24, s0.new_size);
        assert(whole.skip(fixed) =~= rest);
        assert forall|i: int|
            0 <= i < l.skip(1).len() implies (#[trigger] l.skip(1)[i]).name@.len() <= u64::MAX
            && l.skip(1)[i].target@.len() <= u64::MAX by {
            assert(l.skip(1)[i] == l[i + 1]);
        }
        lemma_symbols_round_trip(l.skip(1));
        let rec = (s0.name@, s0.target@, s0.old_addr, s0.old_size, s0.new_addr, s0.new_size);
        assert(spec_parse_symbols(whole) == Some(seq![rec] + spec_symbols_view(l.skip(1))));
        assert(seq![rec] + spec_symbols_view(l.skip(1)) =~= spec_symbols_view(l)) by {
            assert forall|i: int|
                0 <= i < l.len() implies (seq![rec] + spec_symbols_view(l.skip(1)))[i]
                == spec_symbols_view(l)[i] by {
                if i > 0 {
                    assert(l.skip(1)[i - 1] == l[i]);
                }
            }
        }
    }
}

} // verus!
