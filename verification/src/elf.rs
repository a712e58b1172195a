//! A minimal ELF-64 section reader.
//!
//! Just enough of the container format for the kernel patch resolver:
//! the section header table of a little-endian relocatable, section
//! names, section data, and the entries of an addend-relocation
//! section.  Anything malformed fails with `InvalidFormat`.
use vstd::prelude::*;

use vstd::string::StringSliceAdditionalSpecFns;

use crate::error::{ErrorKind, PatchError};
use crate::kpatch::{read_u64_le, spec_u64_le, KpatchRelocationEntry};

verus! {

/// The little-endian 16-bit value at `off`.
pub open spec fn spec_u16_le(b: Seq<u8>, off: int) -> u16
    recommends
        0 <= off,
        off + 2 <= b.len(),
{
    (b[off] as u16) | (b[off + 1] as u16) << 8
}

/// Reads the little-endian 16-bit value at `off`.
pub fn read_u16_le(b: &[u8], off: usize) -> (r: u16)
    requires
        off + 2 <= b@.len(),
    ensures
        r == spec_u16_le(b@, off as int),
{
    (b[off] as u16) | (b[off + 1] as u16) << 8u16
}

/// The little-endian 32-bit value at `off`.
pub open spec fn spec_u32_le(b: Seq<u8>, off: int) -> u32
    recommends
        0 <= off,
        off + 4 <= b.len(),
{
    (b[off] as u32) | (b[off + 1] as u32) << 8 | (b[off + 2] as u32) << 16 | (b[off + 3] as u32)
        << 24
}

/// Reads the little-endian 32-bit value at `off`.
pub fn read_u32_le(b: &[u8], off: usize) -> (r: u32)
    requires
        off + 4 <= b@.len(),
    ensures
        r == spec_u32_le(b@, off as int),
{
    (b[off] as u32) | (b[off + 1] as u32) << 8u32 | (b[off + 2] as u32) << 16u32 | (b[off
        + 3] as u32) << 24u32
}

/// One section of the object: its name and the header fields the
/// resolver needs.
#[derive(Debug)]
pub struct ElfSection {
    pub name: Vec<u8>,
    pub offset: u64,
    pub size: u64,
    pub info: u32,
}

/// The file starts with the ELF magic, is 64-bit, little endian.
pub open spec fn spec_elf_ident_ok(b: Seq<u8>) -> bool {
    b.len() >= 64 && b[0] == 0x7f && b[1] == 0x45 && b[2] == 0x4c && b[3] == 0x46 && b[4] == 2
        && b[5] == 1
}

/// Base offset of section header `i`.
pub open spec fn spec_sh_base(shoff: int, shentsize: int, i: int) -> int {
    shoff + i * shentsize
}

/// Length of the name at `off`: bytes until the first NUL, or until
/// `end` when none occurs.
pub open spec fn spec_nul_len(b: Seq<u8>, off: int, end: int) -> int
    decreases end - off,
{
    if off < end && b[off] != 0 {
        1 + spec_nul_len(b, off + 1, end)
    } else {
        0
    }
}

/// A scan that stopped at `j` measured exactly the name length.
proof fn lemma_nul_len(b: Seq<u8>, off: int, j: int, end: int)
    requires
        0 <= off <= j <= end <= b.len(),
        forall|z: int| off <= z < j ==> b[z] != 0,
        j == end || b[j] == 0,
    ensures
        spec_nul_len(b, off, end) == j - off,
    decreases j - off,
{
    if off < j {
        assert(b[off] != 0);
        lemma_nul_len(b, off + 1, j, end);
    }
}

/// Offset of the section-name string table.
pub open spec fn spec_str_table_off(b: Seq<u8>) -> int {
    spec_u64_le(
        b,
        spec_sh_base(
            spec_u64_le(b, 0x28) as int,
            spec_u16_le(b, 0x3a) as int,
            spec_u16_le(b, 0x3e) as int,
        ) + 0x18,
    ) as int
}

/// Size of the section-name string table.
pub open spec fn spec_str_table_size(b: Seq<u8>) -> int {
    spec_u64_le(
        b,
        spec_sh_base(
            spec_u64_le(b, 0x28) as int,
            spec_u16_le(b, 0x3a) as int,
            spec_u16_le(b, 0x3e) as int,
        ) + 0x20,
    ) as int
}

/// File offset of section `i`'s data.
pub open spec fn spec_section_offset(b: Seq<u8>, i: int) -> int {
    spec_u64_le(
        b,
        spec_sh_base(spec_u64_le(b, 0x28) as int, spec_u16_le(b, 0x3a) as int, i) + 0x18,
    ) as int
}

/// Size of section `i`'s data.
pub open spec fn spec_section_size(b: Seq<u8>, i: int) -> int {
    spec_u64_le(
        b,
        spec_sh_base(spec_u64_le(b, 0x28) as int, spec_u16_le(b, 0x3a) as int, i) + 0x20,
    ) as int
}

/// Info field of section `i`: for a relocation section, the index of
/// the section it applies to.
pub open spec fn spec_section_info(b: Seq<u8>, i: int) -> int {
    spec_u32_le(
        b,
        spec_sh_base(spec_u64_le(b, 0x28) as int, spec_u16_le(b, 0x3a) as int, i) + 0x2c,
    ) as int
}

/// The name of section `i`: the NUL-terminated entry its header points
/// at in the string table, empty when the pointer is out of range.
pub open spec fn spec_section_name(b: Seq<u8>, i: int) -> Seq<u8> {
    let name_off = spec_u32_le(
        b,
        spec_sh_base(spec_u64_le(b, 0x28) as int, spec_u16_le(b, 0x3a) as int, i),
    ) as int;
    let so = spec_str_table_off(b);
    let sz = spec_str_table_size(b);
    if name_off < sz {
        b.subrange(so + name_off, so + name_off + spec_nul_len(b, so + name_off, so + sz))
    } else {
        Seq::empty()
    }
}

/// Parses the section header table.
///
/// Each returned section carries the name its header points at in the
/// section-name string table, and the offset, size and info fields of
/// its header.
pub fn parse_sections(bytes: &[u8]) -> (r: Result<Vec<ElfSection>, PatchError>)
    ensures
        match r {
            Ok(secs) => {
                let shoff = spec_u64_le(bytes@, 0x28) as int;
                let shentsize = spec_u16_le(bytes@, 0x3a) as int;
                &&& spec_elf_ident_ok(bytes@)
                &&& secs@.len() == spec_u16_le(bytes@, 0x3c) as int
                &&& shentsize >= 64
                &&& spec_u16_le(bytes@, 0x3e) < spec_u16_le(bytes@, 0x3c)
                &&& spec_str_table_off(bytes@) + spec_str_table_size(bytes@) <= bytes@.len()
                &&& forall|i: int|
                    0 <= i < secs@.len() ==> {
                        let base = spec_sh_base(shoff, shentsize, i);
                        &&& (#[trigger] secs@[i]).offset == spec_u64_le(bytes@, base + 0x18)
                        &&& secs@[i].size == spec_u64_le(bytes@, base + 0x20)
                        &&& secs@[i].info == spec_u32_le(bytes@, base + 0x2c)
                        &&& secs@[i].name@ == spec_section_name(bytes@, i)
                    }
            },
            Err(e) => e.kind == ErrorKind::InvalidFormat,
        },
{
    let n = bytes.len();
    if n < 64 {
        return Err(PatchError::of(ErrorKind::InvalidFormat, "Not an ELF object"));
    }
    if bytes[0] != 0x7f || bytes[1] != 0x45 || bytes[2] != 0x4c || bytes[3] != 0x46 {
        return Err(PatchError::of(ErrorKind::InvalidFormat, "Not an ELF object"));
    }
    if bytes[4] != 2 || bytes[5] != 1 {
        return Err(
            PatchError::of(ErrorKind::InvalidFormat, "Only little-endian 64-bit objects"),
        );
    }
    let shoff64 = read_u64_le(bytes, 0x28);
    let shentsize16 = read_u16_le(bytes, 0x3a);
    let shnum16 = read_u16_le(bytes, 0x3c);
    let shstrndx16 = read_u16_le(bytes, 0x3e);
    if shentsize16 < 64 {
        return Err(PatchError::of(ErrorKind::InvalidFormat, "Section headers too small"));
    }
    let shentsize = shentsize16 as usize;
    let shnum = shnum16 as usize;
    let shstrndx = shstrndx16 as usize;
    if shoff64 > n as u64 {
        return Err(PatchError::of(ErrorKind::InvalidFormat, "Section table out of range"));
    }
    let shoff = shoff64 as usize;
    // The whole header table must lie inside the file.
    if shnum > (n - shoff) / shentsize {
        return Err(PatchError::of(ErrorKind::InvalidFormat, "Section table out of range"));
    }
    proof {
        assert(shnum * shentsize <= n - shoff) by (nonlinear_arith)
            requires
                shnum as int <= (n as int - shoff as int) / shentsize as int,
                shentsize as int > 0,
                n as int >= shoff as int,
        {}
    }
    if shstrndx >= shnum {
        return Err(PatchError::of(ErrorKind::InvalidFormat, "Name table out of range"));
    }
    proof {
        lemma_sh_base_bounds(shoff as int, shentsize as int, shstrndx as int, shnum as int, n as int);
    }
    let str_base = shoff + shstrndx * shentsize;
    let str_off64 = read_u64_le(bytes, str_base + 0x18);
    let str_size64 = read_u64_le(bytes, str_base + 0x20);
    if str_off64 > n as u64 || str_size64 > n as u64 - str_off64 {
        return Err(PatchError::of(ErrorKind::InvalidFormat, "Name table out of range"));
    }
    let str_off = str_off64 as usize;
    let str_size = str_size64 as usize;
    let mut secs: Vec<ElfSection> = Vec::new();
    let mut i: usize = 0;
    while i < shnum
        invariant
            spec_elf_ident_ok(bytes@),
            n == bytes@.len(),
            n <= usize::MAX,
            shoff + shnum * shentsize <= n,
            shentsize >= 64,
            shoff == spec_u64_le(bytes@, 0x28) as int,
            shentsize == spec_u16_le(bytes@, 0x3a) as int,
            shnum == spec_u16_le(bytes@, 0x3c) as int,
            str_off + str_size <= n,
            shstrndx == spec_u16_le(bytes@, 0x3e) as int,
            shstrndx < shnum,
            str_off == spec_str_table_off(bytes@),
            str_size == spec_str_table_size(bytes@),
            0 <= i <= shnum,
            secs@.len() == i,
            forall|z: int|
                0 <= z < i ==> {
                    let base = spec_sh_base(shoff as int, shentsize as int, z);
                    &&& (#[trigger] secs@[z]).offset == spec_u64_le(bytes@, base + 0x18)
                    &&& secs@[z].size == spec_u64_le(bytes@, base + 0x20)
                    &&& secs@[z].info == spec_u32_le(bytes@, base + 0x2c)
                    &&& secs@[z].name@ == spec_section_name(bytes@, z)
                },
        decreases shnum - i,
    {
        proof {
            lemma_sh_base_bounds(shoff as int, shentsize as int, i as int, shnum as int, n as int);
        }
        let base = shoff + i * shentsize;
        let name_off64 = read_u32_le(bytes, base);
        let name_off = name_off64 as usize;
        let mut name: Vec<u8> = Vec::new();
        if name_off < str_size {
            let start = str_off + name_off;
            let mut j: usize = start;
            let str_end = str_off + str_size;
            proof {
                assert(name@ =~= bytes@.subrange(start as int, start as int));
            }
            while j < str_end && bytes[j] != 0
                invariant
                    n == bytes@.len(),
                    start <= j <= str_end,
                    str_end <= n,
                    name@ == bytes@.subrange(start as int, j as int),
                    forall|z: int| start <= z < j ==> bytes@[z] != 0,
                decreases str_end - j,
            {
                name.push(bytes[j]);
                proof {
                    assert(name@ =~= bytes@.subrange(start as int, j as int + 1));
                }
                j = j + 1;
            }
            proof {
                lemma_nul_len(bytes@, start as int, j as int, str_end as int);
                assert(name@ == spec_section_name(bytes@, i as int));
            }
        } else {
            proof {
                assert(name@ =~= Seq::<u8>::empty());
                assert(name@ == spec_section_name(bytes@, i as int));
            }
        }
        let sec = ElfSection {
            name,
            offset: read_u64_le(bytes, base + 0x18),
            size: read_u64_le(bytes, base + 0x20),
            info: read_u32_le(bytes, base + 0x2c),
        };
        secs.push(sec);
        i = i + 1;
    }
    Ok(secs)
}

/// Header `i` of a table of `shnum` headers lies inside the file.
proof fn lemma_sh_base_bounds(shoff: int, shentsize: int, i: int, shnum: int, n: int)
    requires
        0 <= shoff,
        shentsize >= 64,
        0 <= i < shnum,
        shoff + shnum * shentsize <= n,
    ensures
        shoff + i * shentsize + shentsize <= n,
        i * shentsize >= 0,
{
    assert(shoff + i * shentsize + shentsize <= n && i * shentsize >= 0) by (nonlinear_arith)
        requires
            0 <= shoff,
            shentsize >= 64,
            0 <= i < shnum,
            shoff + shnum * shentsize <= n,
    {}
}

/// The bytes of a section.
pub fn section_data(bytes: &[u8], sec: &ElfSection) -> (r: Result<Vec<u8>, PatchError>)
    ensures
        match r {
            Ok(data) => sec.offset + sec.size <= bytes@.len() && data@ == bytes@.subrange(
                sec.offset as int,
                sec.offset as int + sec.size as int,
            ),
            Err(e) => e.kind == ErrorKind::InvalidFormat && sec.offset + sec.size > bytes@.len(),
        },
{
    let n = bytes.len();
    if sec.offset > n as u64 || sec.size > n as u64 - sec.offset {
        return Err(PatchError::of(ErrorKind::InvalidFormat, "Section out of range"));
    }
    let a = sec.offset as usize;
    let b = a + sec.size as usize;
    let mut out: Vec<u8> = Vec::new();
    let mut i: usize = a;
    while i < b
        invariant
            a <= i <= b <= bytes@.len(),
            out@ == bytes@.subrange(a as int, i as int),
        decreases b - i,
    {
        out.push(bytes[i]);
        proof {
            assert(out@ =~= bytes@.subrange(a as int, i as int + 1));
        }
        i = i + 1;
    }
    proof {
        assert(out@ =~= bytes@.subrange(a as int, b as int));
    }
    Ok(out)
}

/// The entries of an addend-relocation section: 24 bytes each, the
/// write offset first, the addend last.
pub fn rela_entries(bytes: &[u8], sec: &ElfSection) -> (r: Result<
    Vec<KpatchRelocationEntry>,
    PatchError,
>)
    ensures
        match r {
            Ok(entries) => {
                &&& sec.offset + sec.size <= bytes@.len()
                &&& sec.size % 24 == 0
                &&& entries@.len() == sec.size as int / 24
                &&& forall|i: int|
                    0 <= i < entries@.len() ==> {
                        let base = sec.offset as int + 24 * i;
                        (#[trigger] entries@[i]).offset == spec_u64_le(bytes@, base)
                            && entries@[i].addend == spec_u64_le(bytes@, base + 16)
                    }
            },
            Err(e) => e.kind == ErrorKind::InvalidFormat && (sec.offset + sec.size
                > bytes@.len() || sec.size % 24 != 0),
        },
{
    let n = bytes.len();
    if sec.offset > n as u64 || sec.size > n as u64 - sec.offset {
        return Err(PatchError::of(ErrorKind::InvalidFormat, "Section out of range"));
    }
    if sec.size % 24 != 0 {
        return Err(PatchError::of(ErrorKind::InvalidFormat, "Ragged relocation section"));
    }
    let a = sec.offset as usize;
    let count = (sec.size / 24) as usize;
    let mut out: Vec<KpatchRelocationEntry> = Vec::new();
    let mut i: usize = 0;
    while i < count
        invariant
            n == bytes@.len(),
            n <= usize::MAX,
            a + count * 24 <= n,
            a == sec.offset as int,
            count == sec.size as int / 24,
            0 <= i <= count,
            out@.len() == i,
            forall|z: int|
                0 <= z < i ==> {
                    let base = sec.offset as int + 24 * z;
                    (#[trigger] out@[z]).offset == spec_u64_le(bytes@, base) && out@[z].addend
                        == spec_u64_le(bytes@, base + 16)
                },
        decreases count - i,
    {
        proof {
            assert(i * 24 + 24 <= count * 24) by (nonlinear_arith)
                requires
                    0 <= i < count,
            {}
        }
        let base = a + i * 24;
        out.push(
            KpatchRelocationEntry {
                offset: read_u64_le(bytes, base),
                addend: read_u64_le(bytes, base + 16),
            },
        );
        i = i + 1;
    }
    proof {
        assert(a + count * 24 <= n);
    }
    Ok(out)
}

/// Index of the first section with the given name.
pub fn find_section(secs: &Vec<ElfSection>, name: &[u8]) -> (r: Option<usize>)
    ensures
        match r {
            Some(i) => 0 <= i < secs@.len() && secs@[i as int].name@ == name@ && forall|j: int|
                0 <= j < i ==> secs@[j].name@ != name@,
            None => forall|i: int| 0 <= i < secs@.len() ==> secs@[i].name@ != name@,
        },
{
    let n = secs.len();
    let mut i: usize = 0;
    while i < n
        invariant
            n == secs@.len(),
            0 <= i <= n,
            forall|j: int| 0 <= j < i ==> secs@[j].name@ != name@,
        decreases n - i,
    {
        if crate::bytestr::bytes_eq(secs[i].name.as_slice(), name) {
            return Some(i);
        }
        i = i + 1;
    }
    None
}

/// `entry` is entry `e` of relocation section `ri`, which applies to
/// section `fi`.
pub open spec fn spec_rela_entry_of(
    b: Seq<u8>,
    fi: int,
    ri: int,
    e: int,
    entry: KpatchRelocationEntry,
) -> bool {
    &&& 0 <= ri < spec_u16_le(b, 0x3c) as int
    &&& crate::bytestr::spec_starts_with(spec_section_name(b, ri), ".rela".spec_bytes())
    &&& spec_section_info(b, ri) == fi
    &&& 0 <= e < spec_section_size(b, ri) / 24
    &&& entry.offset == spec_u64_le(b, spec_section_offset(b, ri) + 24 * e)
    &&& entry.addend == spec_u64_le(b, spec_section_offset(b, ri) + 24 * e + 16)
}

/// `plan` locates every entry of `rel`: entry `k` is entry `plan[k].1`
/// of relocation section `plan[k].0`, which applies to section `fi`.
pub open spec fn spec_relocs_plan(
    b: Seq<u8>,
    fi: int,
    plan: Seq<(int, int)>,
    rel: Seq<KpatchRelocationEntry>,
) -> bool {
    plan.len() == rel.len() && forall|k: int|
        0 <= k < rel.len() ==> spec_rela_entry_of(
            b,
            fi,
            (#[trigger] plan[k]).0,
            plan[k].1,
            rel[k],
        )
}

/// What the three returned pieces are: `funcs` and `strings` are the
/// data of the first sections named `.kpatch.funcs` and
/// `.kpatch.strings`, and every relocation in `rel` comes from a
/// `.rela` section applying to the record section.
pub open spec fn spec_kpatch_ok(
    b: Seq<u8>,
    funcs: Seq<u8>,
    strings: Seq<u8>,
    rel: Seq<KpatchRelocationEntry>,
) -> bool {
    let shnum = spec_u16_le(b, 0x3c) as int;
    &&& spec_elf_ident_ok(b)
    &&& exists|fi: int, plan: Seq<(int, int)>|
        {
            &&& 0 <= fi < shnum
            &&& #[trigger] spec_relocs_plan(b, fi, plan, rel)
            &&& spec_section_name(b, fi) == ".kpatch.funcs".spec_bytes()
            &&& forall|z: int|
                0 <= z < fi ==> spec_section_name(b, z) != ".kpatch.funcs".spec_bytes()
            &&& spec_section_offset(b, fi) + spec_section_size(b, fi) <= b.len()
            &&& funcs == b.subrange(
                spec_section_offset(b, fi),
                spec_section_offset(b, fi) + spec_section_size(b, fi),
            )
        }
    &&& exists|si: int|
        0 <= si < shnum && #[trigger] spec_section_name(b, si) == ".kpatch.strings".spec_bytes()
            && (forall|z: int|
            0 <= z < si ==> spec_section_name(b, z) != ".kpatch.strings".spec_bytes())
            && spec_section_offset(b, si) + spec_section_size(b, si) <= b.len() && strings
            == b.subrange(
            spec_section_offset(b, si),
            spec_section_offset(b, si) + spec_section_size(b, si),
        )
}

/// The record bytes, string bytes and record relocations of a kernel
/// patch object: the two kpatch sections and the relocation section
/// whose info field names the record section.
pub fn kpatch_sections(bytes: &[u8]) -> (r: Result<
    (Vec<u8>, Vec<u8>, Vec<KpatchRelocationEntry>),
    PatchError,
>)
    ensures
        match r {
            Ok(out) => spec_kpatch_ok(bytes@, out.0@, out.1@, out.2@),
            Err(e) => e.kind == ErrorKind::InvalidFormat,
        },
{
    let secs = match parse_sections(bytes) {
        Err(e) => {
            return Err(e);
        },
        Ok(s) => s,
    };
    let funcs_index = match find_section(&secs, ".kpatch.funcs".as_bytes()) {
        None => {
            return Err(PatchError::of(ErrorKind::InvalidFormat, "No patch record section"));
        },
        Some(i) => i,
    };
    let strings_index = match find_section(&secs, ".kpatch.strings".as_bytes()) {
        None => {
            return Err(PatchError::of(ErrorKind::InvalidFormat, "No patch string section"));
        },
        Some(i) => i,
    };
    let funcs_data = match section_data(bytes, &secs[funcs_index]) {
        Err(e) => {
            return Err(e);
        },
        Ok(d) => d,
    };
    let strings_data = match section_data(bytes, &secs[strings_index]) {
        Err(e) => {
            return Err(e);
        },
        Ok(d) => d,
    };
    // The relocations of the record section, in section order.
    let mut relocations: Vec<KpatchRelocationEntry> = Vec::new();
    let n = secs.len();
    let ghost shnum = spec_u16_le(bytes@, 0x3c) as int;
    let ghost plan: Seq<(int, int)> = Seq::empty();
    let mut i: usize = 0;
    while i < n
        invariant
            spec_elf_ident_ok(bytes@),
            n == secs@.len(),
            n == shnum,
            shnum == spec_u16_le(bytes@, 0x3c) as int,
            0 <= i <= n,
            funcs_index < n,
            forall|z: int|
                0 <= z < secs@.len() ==> (#[trigger] secs@[z]).name@ == spec_section_name(
                    bytes@,
                    z,
                ) && secs@[z].offset == spec_section_offset(bytes@, z) && secs@[z].size
                    == spec_section_size(bytes@, z) && secs@[z].info == spec_section_info(
                    bytes@,
                    z,
                ),
            spec_relocs_plan(bytes@, funcs_index as int, plan, relocations@),
        decreases n - i,
    {
        let is_rela = crate::bytestr::bytes_starts_with(secs[i].name.as_slice(), ".rela".as_bytes());
        if is_rela && secs[i].info as usize == funcs_index {
            let mut entries = match rela_entries(bytes, &secs[i]) {
                Err(e) => {
                    return Err(e);
                },
                Ok(es) => es,
            };
            let ghost prev = relocations@;
            let ghost prev_plan = plan;
            let ghost es = entries@;
            relocations.append(&mut entries);
            proof {
                plan = prev_plan + Seq::new(es.len() as nat, |e: int| (i as int, e));
                assert forall|k: int|
                    0 <= k < relocations@.len() implies spec_rela_entry_of(
                    bytes@,
                    funcs_index as int,
                    (#[trigger] plan[k]).0,
                    plan[k].1,
                    relocations@[k],
                ) by {
                    if k < prev.len() {
                        assert(relocations@[k] == prev[k] && plan[k] == prev_plan[k]);
                        assert(spec_relocs_plan(bytes@, funcs_index as int, prev_plan, prev));
                    } else {
                        let e = k - prev.len();
                        assert(relocations@[k] == es[e]);
                        assert(plan[k] == (i as int, e));
                        assert(es[e].offset == spec_u64_le(
                            bytes@,
                            spec_section_offset(bytes@, i as int) + 24 * e,
                        ) && es[e].addend == spec_u64_le(
                            bytes@,
                            spec_section_offset(bytes@, i as int) + 24 * e + 16,
                        ));
                        assert(spec_rela_entry_of(
                            bytes@,
                            funcs_index as int,
                            i as int,
                            e,
                            relocations@[k],
                        ));
                    }
                }
            }
        }
        i = i + 1;
    }
    proof {
        let fi = funcs_index as int;
        let si = strings_index as int;
        assert(spec_relocs_plan(bytes@, fi, plan, relocations@));
        assert(exists|plan2: Seq<(int, int)>|
            #[trigger] spec_relocs_plan(bytes@, fi, plan2, relocations@));
        assert(0 <= fi < shnum);
        assert(spec_section_name(bytes@, fi) == ".kpatch.funcs".spec_bytes());
        assert forall|z: int|
            0 <= z < fi implies spec_section_name(bytes@, z) != ".kpatch.funcs".spec_bytes() by {
            assert(secs@[z].name@ == spec_section_name(bytes@, z));
        }
        assert(spec_section_offset(bytes@, fi) + spec_section_size(bytes@, fi) <= bytes@.len());
        assert(funcs_data@ == bytes@.subrange(
            spec_section_offset(bytes@, fi),
            spec_section_offset(bytes@, fi) + spec_section_size(bytes@, fi),
        ));
        assert(0 <= si < shnum);
        assert(spec_section_name(bytes@, si) == ".kpatch.strings".spec_bytes());
        assert forall|z: int|
            0 <= z < si implies spec_section_name(bytes@, z) != ".kpatch.strings".spec_bytes() by {
            assert(secs@[z].name@ == spec_section_name(bytes@, z));
        }
        assert(spec_section_offset(bytes@, si) + spec_section_size(bytes@, si) <= bytes@.len());
        assert(strings_data@ == bytes@.subrange(
            spec_section_offset(bytes@, si),
            spec_section_offset(bytes@, si) + spec_section_size(bytes@, si),
        ));
    }
    proof {
        assert(spec_kpatch_ok(bytes@, funcs_data@, strings_data@, relocations@));
    }
    Ok((funcs_data, strings_data, relocations))
}

} // verus!
