//! Tests of the persistence codec and the kernel patch resolver.
use syscared::codec::{parse_status, serialize_status};
use syscared::error::ErrorKind;
use syscared::kpatch::{
    parse_symbols, resolve_kpatch_symbols, serialize_symbols, KpatchRelocationEntry,
};
use syscared::status::PatchStatus;

#[test]
fn status_codec_round_trip() {
    let pairs = vec![
        (b"u1".to_vec(), PatchStatus::Actived),
        (b"u2".to_vec(), PatchStatus::NotApplied),
        (b"u3".to_vec(), PatchStatus::Accepted),
        (b"u4".to_vec(), PatchStatus::Deactived),
    ];
    let bytes = serialize_status(&pairs);
    let back = parse_status(&bytes).unwrap();
    assert_eq!(back, pairs);
}

#[test]
fn status_codec_exact_bytes() {
    let pairs = vec![(b"u1".to_vec(), PatchStatus::Actived)];
    let bytes = serialize_status(&pairs);
    assert_eq!(bytes, b"u1 3\n".to_vec());
}

#[test]
fn status_codec_rejects_corrupt_input() {
    let e = parse_status(b"no-linebreak").unwrap_err();
    assert_eq!(e.kind, ErrorKind::InvalidFormat);
    let e = parse_status(b"u1 9\n").unwrap_err();
    assert_eq!(e.kind, ErrorKind::InvalidFormat);
    let e = parse_status(b" 3\n").unwrap_err();
    assert_eq!(e.kind, ErrorKind::InvalidFormat);
}

#[test]
fn status_codec_accepts_empty_input() {
    assert_eq!(parse_status(b"").unwrap(), vec![]);
}

fn record(
    name: &str,
    target: &str,
    old_addr: u64,
    old_size: u64,
    new_addr: u64,
    new_size: u64,
) -> syscared::entity::KernelPatchSymbol {
    syscared::entity::KernelPatchSymbol {
        name: name.as_bytes().to_vec(),
        target: target.as_bytes().to_vec(),
        old_addr,
        old_size,
        new_addr,
        new_size,
    }
}

#[test]
fn symbol_codec_round_trip() {
    let symbols = vec![
        record("do_fork", "vmlinux", 0x1000, 0x40, 0x2000, 0x48),
        record("nfs_read", "nfs", 0xffff0000, 0x80, 0xffff8000, 0x90),
    ];
    let bytes = serialize_symbols(&symbols);
    let back = parse_symbols(&bytes).unwrap();
    assert_eq!(back.len(), 2);
    for (a, b) in back.iter().zip(symbols.iter()) {
        assert_eq!(a.name, b.name);
        assert_eq!(a.target, b.target);
        assert_eq!(a.old_addr, b.old_addr);
        assert_eq!(a.old_size, b.old_size);
        assert_eq!(a.new_addr, b.new_addr);
        assert_eq!(a.new_size, b.new_size);
    }
}

#[test]
fn symbol_codec_rejects_truncated_record() {
    let symbols = vec![record("do_fork", "vmlinux", 1, 2, 3, 4)];
    let mut bytes = serialize_symbols(&symbols);
    bytes.pop();
    let e = parse_symbols(&bytes).unwrap_err();
    assert_eq!(e.kind, ErrorKind::InvalidFormat);
}

fn le64(v: u64) -> [u8; 8] {
    v.to_le_bytes()
}

#[test]
fn resolver_reads_records_and_strings() {
    // One 72-byte record: new_addr, new_size, old_addr, old_size, then
    // a position slot and three pointer slots filled by relocations.
    let mut funcs: Vec<u8> = Vec::new();
    funcs.extend_from_slice(&le64(0x2000)); // new_addr
    funcs.extend_from_slice(&le64(0x48)); // new_size
    funcs.extend_from_slice(&le64(0x1000)); // old_addr
    funcs.extend_from_slice(&le64(0x40)); // old_size
    funcs.extend_from_slice(&[0u8; 40]); // sympos + pointer slots
    assert_eq!(funcs.len(), 72);
    let strings = b"do_fork\0vmlinux\0".to_vec();
    let relocations = vec![
        KpatchRelocationEntry { offset: 0, addend: 0 }, // new_addr slot
        KpatchRelocationEntry { offset: 40, addend: 0 }, // name -> "do_fork"
        KpatchRelocationEntry { offset: 48, addend: 8 }, // obj_name -> "vmlinux"
    ];
    let symbols = resolve_kpatch_symbols(&funcs, &strings, &relocations).unwrap();
    assert_eq!(symbols.len(), 1);
    assert_eq!(symbols[0].name, b"do_fork".to_vec());
    assert_eq!(symbols[0].target, b"vmlinux".to_vec());
    assert_eq!(symbols[0].new_addr, 0x2000);
    assert_eq!(symbols[0].new_size, 0x48);
    assert_eq!(symbols[0].old_addr, 0x1000);
    assert_eq!(symbols[0].old_size, 0x40);
}

#[test]
fn resolver_parse_serialize_parse_is_stable() {
    // Resolving a patch object, serialising the symbol list and
    // parsing it back yields the same list.
    let mut funcs: Vec<u8> = Vec::new();
    funcs.extend_from_slice(&le64(0x2000));
    funcs.extend_from_slice(&le64(0x48));
    funcs.extend_from_slice(&le64(0x1000));
    funcs.extend_from_slice(&le64(0x40));
    funcs.extend_from_slice(&[0u8; 40]);
    let strings = b"do_fork\0vmlinux\0".to_vec();
    let relocations = vec![
        KpatchRelocationEntry { offset: 0, addend: 0 },
        KpatchRelocationEntry { offset: 40, addend: 0 },
        KpatchRelocationEntry { offset: 48, addend: 8 },
    ];
    let symbols = resolve_kpatch_symbols(&funcs, &strings, &relocations).unwrap();
    let bytes = serialize_symbols(&symbols);
    let back = parse_symbols(&bytes).unwrap();
    let again = serialize_symbols(&back);
    assert_eq!(bytes, again);
    assert_eq!(back.len(), symbols.len());
    assert_eq!(back[0].name, symbols[0].name);
    assert_eq!(back[0].target, symbols[0].target);
}

#[test]
fn resolver_rejects_ragged_record_data() {
    let funcs = vec![0u8; 71];
    let e = resolve_kpatch_symbols(&funcs, b"", &vec![]).unwrap_err();
    assert_eq!(e.kind, ErrorKind::InvalidFormat);
}

#[test]
fn resolver_rejects_unterminated_string() {
    let funcs = vec![0u8; 72];
    let strings = b"do_fork".to_vec(); // no terminator
    let relocations = vec![
        KpatchRelocationEntry { offset: 0, addend: 0 },
        KpatchRelocationEntry { offset: 40, addend: 0 },
        KpatchRelocationEntry { offset: 48, addend: 0 },
    ];
    let e = resolve_kpatch_symbols(&funcs, &strings, &relocations).unwrap_err();
    assert_eq!(e.kind, ErrorKind::InvalidFormat);
}

#[test]
fn resolver_rejects_out_of_range_relocation() {
    let funcs = vec![0u8; 72];
    let strings = b"x\0".to_vec();
    let relocations = vec![
        KpatchRelocationEntry { offset: 0, addend: 0 },
        KpatchRelocationEntry { offset: 40 + 72, addend: 0 }, // second record does not exist
    ];
    let e = resolve_kpatch_symbols(&funcs, &strings, &relocations).unwrap_err();
    assert_eq!(e.kind, ErrorKind::InvalidFormat);
}

fn tiny_elf() -> Vec<u8> {
    // A minimal little-endian ELF-64 with four sections: null,
    // .kpatch.funcs (one zeroed record), .kpatch.strings, the section
    // name table, and one .rela.kpatch.funcs entry targeting the
    // record section.
    let names = b"\0.kpatch.funcs\0.kpatch.strings\0.rela.kpatch.funcs\0.shstrtab\0".to_vec();
    let funcs = vec![0u8; 72];
    let strings = b"do_fork\0".to_vec();
    let mut rela = Vec::new();
    rela.extend_from_slice(&40u64.to_le_bytes()); // r_offset: name slot
    rela.extend_from_slice(&0u64.to_le_bytes()); // r_info
    rela.extend_from_slice(&0u64.to_le_bytes()); // r_addend -> "do_fork"
    let shnum: u16 = 5;
    let shoff: u64 = 64;
    let mut elf = vec![0u8; 64];
    elf[0..4].copy_from_slice(b"\x7fELF");
    elf[4] = 2; // 64-bit
    elf[5] = 1; // little endian
    elf[0x28..0x30].copy_from_slice(&shoff.to_le_bytes());
    elf[0x3a..0x3c].copy_from_slice(&64u16.to_le_bytes()); // e_shentsize
    elf[0x3c..0x3e].copy_from_slice(&shnum.to_le_bytes());
    elf[0x3e..0x40].copy_from_slice(&4u16.to_le_bytes()); // e_shstrndx
    let data_start = 64 + shnum as u64 * 64;
    let mut offsets = Vec::new();
    let mut cursor = data_start;
    for part in [&funcs, &strings, &rela, &names] {
        offsets.push(cursor);
        cursor += part.len() as u64;
    }
    // name offset in shstrtab, data offset, size, info
    let headers: Vec<(u32, u64, u64, u32)> = vec![
        (0, 0, 0, 0),
        (1, offsets[0], funcs.len() as u64, 0),
        (15, offsets[1], strings.len() as u64, 0),
        (31, offsets[2], rela.len() as u64, 1),
        (50, offsets[3], names.len() as u64, 0),
    ];
    let mut table = Vec::new();
    for (name_off, off, size, info) in headers {
        let mut h = vec![0u8; 64];
        h[0..4].copy_from_slice(&name_off.to_le_bytes());
        h[0x18..0x20].copy_from_slice(&off.to_le_bytes());
        h[0x20..0x28].copy_from_slice(&size.to_le_bytes());
        h[0x2c..0x30].copy_from_slice(&info.to_le_bytes());
        table.extend_from_slice(&h);
    }
    elf.extend_from_slice(&table);
    for part in [&funcs, &strings, &rela, &names] {
        elf.extend_from_slice(part);
    }
    elf
}

#[test]
fn elf_reader_finds_kpatch_sections() {
    let elf = tiny_elf();
    let (funcs, strings, relocations) = syscared::elf::kpatch_sections(&elf).unwrap();
    assert_eq!(funcs.len(), 72);
    assert_eq!(strings, b"do_fork\0".to_vec());
    assert_eq!(relocations.len(), 1);
    assert_eq!(relocations[0].offset, 40);
    assert_eq!(relocations[0].addend, 0);
}

#[test]
fn elf_reader_rejects_other_files() {
    let e = syscared::elf::kpatch_sections(b"not an elf").unwrap_err();
    assert_eq!(e.kind, ErrorKind::InvalidFormat);
    let mut elf = tiny_elf();
    elf[5] = 2; // big endian
    assert!(syscared::elf::kpatch_sections(&elf).is_err());
}

#[test]
fn elf_sections_expose_header_fields() {
    let elf = tiny_elf();
    let secs = syscared::elf::parse_sections(&elf).unwrap();
    assert_eq!(secs.len(), 5);
    assert_eq!(secs[1].name, b".kpatch.funcs".to_vec());
    assert_eq!(secs[1].size, 72);
    assert_eq!(secs[3].info, 1);
}
