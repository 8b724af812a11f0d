//! Reading what an ELF image requires.

use dig_updater_broker::elf::{
    parse_elf_needs, ElfParseError, EM_AARCH64, EM_X86_64, MAX_NEEDED_ENTRIES, MAX_STRING_BYTES,
};

const ELF_MAGIC: [u8; 4] = [0x7f, b'E', b'L', b'F'];
const EI_CLASS: usize = 4;
const EI_DATA: usize = 5;
const ELF_CLASS_64: u8 = 2;
const ELF_DATA_LSB: u8 = 1;
const ET_EXEC: u16 = 2;
const ET_DYN: u16 = 3;
const PT_LOAD: u32 = 1;
const PT_DYNAMIC: u32 = 2;
const PT_INTERP: u32 = 3;
const DT_NULL: u64 = 0;
const DT_NEEDED: u64 = 1;
const DT_STRTAB: u64 = 5;
const DT_STRSZ: u64 = 10;
const DT_RUNPATH: u64 = 29;

fn synth_elf(
    needed: &[&str],
    runpath: Option<&str>,
    interp: Option<&str>,
) -> Vec<u8> {
    synth_elf_for(EM_X86_64, needed, runpath, interp)
}

fn synth_elf_for(
    machine: u16,
    needed: &[&str],
    runpath: Option<&str>,
    interp: Option<&str>,
) -> Vec<u8> {
    let phnum = 2 + usize::from(interp.is_some());
    let phoff = 64usize;
    let dyn_off = phoff + phnum * 56;

    let mut strtab = vec![0u8];
    let mut needed_offsets = Vec::new();
    for soname in needed {
        needed_offsets.push(strtab.len() as u64);
        strtab.extend_from_slice(soname.as_bytes());
        strtab.push(0);
    }
    let runpath_offset = runpath.map(|r| {
        let at = strtab.len() as u64;
        strtab.extend_from_slice(r.as_bytes());
        strtab.push(0);
        at
    });

    let mut dynamic: Vec<(u64, u64)> =
        needed_offsets.iter().map(|off| (DT_NEEDED, *off)).collect();
    if let Some(off) = runpath_offset {
        dynamic.push((DT_RUNPATH, off));
    }
    dynamic.push((DT_STRTAB, 0));
    dynamic.push((DT_STRSZ, strtab.len() as u64));
    dynamic.push((DT_NULL, 0));
    let dyn_size = dynamic.len() * 16;
    let interp_off = dyn_off + dyn_size;
    let interp_bytes: Vec<u8> = interp
        .map(|i| {
            let mut b = i.as_bytes().to_vec();
            b.push(0);
            b
        })
        .unwrap_or_default();
    let strtab_off = interp_off + interp_bytes.len();
    let total = strtab_off + strtab.len();
    for entry in &mut dynamic {
        if entry.0 == DT_STRTAB {
            entry.1 = strtab_off as u64;
        }
    }

    let mut out = vec![0u8; 64];
    out[..4].copy_from_slice(&ELF_MAGIC);
    out[EI_CLASS] = ELF_CLASS_64;
    out[EI_DATA] = ELF_DATA_LSB;
    out[6] = 1; // EI_VERSION
    out[0x10..0x12].copy_from_slice(&ET_DYN.to_le_bytes());
    out[0x12..0x14].copy_from_slice(&machine.to_le_bytes());
    out[0x20..0x28].copy_from_slice(&(phoff as u64).to_le_bytes());
    out[0x36..0x38].copy_from_slice(&56u16.to_le_bytes());
    out[0x38..0x3a].copy_from_slice(&(phnum as u16).to_le_bytes());

    let mut phdr = |p_type: u32, offset: usize, size: usize| {
        let mut h = vec![0u8; 56];
        h[0..4].copy_from_slice(&p_type.to_le_bytes());
        h[0x08..0x10].copy_from_slice(&(offset as u64).to_le_bytes());
        h[0x10..0x18].copy_from_slice(&(offset as u64).to_le_bytes()); // vaddr == offset
        h[0x20..0x28].copy_from_slice(&(size as u64).to_le_bytes());
        out.extend_from_slice(&h);
    };
    phdr(PT_LOAD, 0, total);
    phdr(PT_DYNAMIC, dyn_off, dyn_size);
    if interp.is_some() {
        phdr(PT_INTERP, interp_off, interp_bytes.len());
    }

    for (tag, value) in &dynamic {
        out.extend_from_slice(&tag.to_le_bytes());
        out.extend_from_slice(&value.to_le_bytes());
    }
    out.extend_from_slice(&interp_bytes);
    out.extend_from_slice(&strtab);
    assert_eq!(out.len(), total, "the fixture's own layout must be exact");
    out
}

#[test]
fn parse_elf_needs_reads_dt_needed_from_a_fabricated_elf64() {
    let bytes = synth_elf(&["libgtk-3.so.0", "libgdk-3.so.0", "libc.so.6"], None, None);
    let needs = parse_elf_needs(&bytes).expect("a well-formed ELF64 must parse");
    assert_eq!(
        needs.needed,
        vec!["libgtk-3.so.0", "libgdk-3.so.0", "libc.so.6"]
    );
    assert!(needs.interp.is_none() && needs.runpath.is_empty());
}

#[test]
fn parse_elf_needs_reads_dt_runpath_and_pt_interp() {
    let bytes = synth_elf(
        &["libc.so.6"],
        Some("$ORIGIN/../lib:/opt/dig/lib"),
        Some("/lib64/ld-linux-x86-64.so.2"),
    );
    let needs = parse_elf_needs(&bytes).expect("parse");
    assert_eq!(needs.interp.as_deref(), Some("/lib64/ld-linux-x86-64.so.2"));
    assert_eq!(
        needs.runpath,
        vec!["$ORIGIN/../lib".to_string(), "/opt/dig/lib".to_string()],
        "the runpath is split but left UNEXPANDED — $ORIGIN is the caller's to resolve"
    );
}

#[test]
fn a_non_elf_file_is_not_elf_never_a_panic() {
    for input in [
        &b"!<arch>\ndebian-binary   1085872000  0     0     100644  4         `\n2.0\n"[..],
        &b"MZ\x90\x00\x03\x00\x00\x00"[..],
        &[0u8, 0, 0][..],
        &[][..],
    ] {
        assert_eq!(parse_elf_needs(input), Err(ElfParseError::NotElf));
    }
}

#[test]
fn every_truncation_of_a_valid_elf_returns_an_error_and_never_panics() {
    let bytes = synth_elf(
        &["libgtk-3.so.0", "libc.so.6"],
        Some("/opt/dig/lib"),
        Some("/ld"),
    );
    for n in 0..bytes.len() {
        match parse_elf_needs(&bytes[..n]) {
            Err(_) => {}
            Ok(needs) => assert!(
                needs.needed.len() <= 2,
                "a truncated image must never invent requirements: {needs:?}"
            ),
        }
    }
}

#[test]
fn a_dynamic_entry_pointing_outside_the_file_is_truncated_not_a_panic() {
    let good = synth_elf(&["libc.so.6"], None, None);

    let mut steered = good.clone();
    patch_dynamic(&mut steered, DT_STRTAB, u64::MAX - 8);
    assert_eq!(parse_elf_needs(&steered), Err(ElfParseError::Truncated));

    let mut oversized = good.clone();
    patch_dynamic(&mut oversized, DT_STRSZ, u64::MAX);
    assert_eq!(parse_elf_needs(&oversized), Err(ElfParseError::Truncated));

    let mut off_table = good;
    patch_dynamic(&mut off_table, DT_NEEDED, 1 << 40);
    assert_eq!(parse_elf_needs(&off_table), Err(ElfParseError::Truncated));
}

fn patch_dynamic(bytes: &mut [u8], tag: u64, value: u64) {
    let mut at = 0;
    while at + 16 <= bytes.len() {
        if bytes[at..at + 8] == tag.to_le_bytes() {
            bytes[at + 8..at + 16].copy_from_slice(&value.to_le_bytes());
            return;
        }
        at += 8;
    }
    panic!("the fixture must contain a dynamic entry tagged {tag}");
}

#[test]
fn a_static_image_needs_nothing_of_the_loader() {
    let mut out = vec![0u8; 64];
    out[..4].copy_from_slice(&ELF_MAGIC);
    out[EI_CLASS] = ELF_CLASS_64;
    out[EI_DATA] = ELF_DATA_LSB;
    out[0x10..0x12].copy_from_slice(&ET_EXEC.to_le_bytes());
    out[0x20..0x28].copy_from_slice(&64u64.to_le_bytes());
    out[0x36..0x38].copy_from_slice(&56u16.to_le_bytes());
    out[0x38..0x3a].copy_from_slice(&0u16.to_le_bytes());
    let needs = parse_elf_needs(&out).expect("a static image parses");
    assert!(needs.needed.is_empty() && needs.interp.is_none());
}

#[test]
fn the_images_own_machine_is_read_and_not_assumed() {
    for machine in [EM_X86_64, EM_AARCH64] {
        let bytes = synth_elf_for(machine, &["libc.so.6"], None, None);
        assert_eq!(parse_elf_needs(&bytes).expect("parse").machine, machine);
    }
}

#[test]
fn a_soname_carrying_control_characters_cannot_forge_a_log_line() {
    let bytes = synth_elf(&["lib\r\x1b[2Kpass applied.so.0", "libc.so.6"], None, None);
    let needs = parse_elf_needs(&bytes).expect("parse");
    assert!(
        !needs.needed[0].contains('\r') && !needs.needed[0].contains('\u{1b}'),
        "a control character reached the refusal detail: {:?}",
        needs.needed[0]
    );
    assert_eq!(
        needs.needed[1], "libc.so.6",
        "an ordinary soname is untouched — the control is that real names still arrive intact"
    );
}

#[test]
fn a_string_longer_than_the_ceiling_is_refused_rather_than_allocated() {
    let at_bound = "a".repeat(MAX_STRING_BYTES - 1);
    let bytes = synth_elf(&[&at_bound], None, None);
    assert_eq!(
        parse_elf_needs(&bytes)
            .expect("at the bound it parses")
            .needed,
        vec![at_bound],
        "a name that fits the ceiling must still be read"
    );

    let over = "a".repeat(MAX_STRING_BYTES + 1);
    let bytes = synth_elf(&[&over], None, None);
    assert_eq!(
        parse_elf_needs(&bytes),
        Err(ElfParseError::Truncated),
        "one byte past the ceiling must not be read"
    );
}

#[test]
fn more_dt_needed_entries_than_any_real_image_has_is_refused() {
    let names: Vec<String> = (0..=MAX_NEEDED_ENTRIES)
        .map(|i| format!("lib{i}.so.0"))
        .collect();
    let refs: Vec<&str> = names.iter().map(String::as_str).collect();

    let at_bound = synth_elf(&refs[..MAX_NEEDED_ENTRIES], None, None);
    assert_eq!(
        parse_elf_needs(&at_bound)
            .expect("at the bound it parses")
            .needed
            .len(),
        MAX_NEEDED_ENTRIES
    );

    let over = synth_elf(&refs, None, None);
    assert_eq!(
        parse_elf_needs(&over),
        Err(ElfParseError::Unsupported(
            "more DT_NEEDED entries than any real image has"
        ))
    );
}

#[test]
fn a_big_endian_image_is_unsupported_rather_than_misread() {
    let mut bytes = synth_elf(&["libc.so.6"], None, None);
    bytes[EI_DATA] = 2; // ELFDATA2MSB
    assert_eq!(
        parse_elf_needs(&bytes),
        Err(ElfParseError::Unsupported("big-endian encoding"))
    );
}

#[test]
fn the_errors_say_what_is_wrong() {
    assert_eq!(ElfParseError::NotElf.message(), "not an ELF image");
    assert_eq!(
        ElfParseError::Unsupported("big-endian encoding").message(),
        "unsupported ELF image: big-endian encoding"
    );
    assert_eq!(
        ElfParseError::Truncated.message(),
        "the ELF image is truncated or self-inconsistent"
    );
}

#[test]
fn a_name_that_is_not_text_is_read_with_replacements() {
    let mut bytes = synth_elf(&["libX.so"], None, None);
    let at = bytes
        .windows(7)
        .position(|w| w == b"libX.so")
        .expect("the name is in the image");
    bytes[at + 3] = 0xff;
    let needs = parse_elf_needs(&bytes).expect("parse");
    assert_eq!(needs.needed, vec!["lib\u{fffd}.so".to_string()]);
}

#[test]
fn a_search_path_comes_out_split_and_inert() {
    let image = synth_elf(&["libé.so"], Some(":/opt/dig/lib::$ORIGIN/\u{1b}[31m:"), None);
    let needs = parse_elf_needs(&image).expect("readable");
    assert_eq!(needs.needed, vec!["libé.so".to_string()]);
    assert_eq!(
        needs.runpath,
        vec![
            "/opt/dig/lib".to_string(),
            "$ORIGIN/\u{fffd}[31m".to_string()
        ]
    );
}

#[test]
fn an_unsupported_prefix_is_an_unsupported_image() {
    let mut image = synth_elf(&["libc.so.6"], None, None);
    image[EI_DATA] = 2;
    for n in 16..=image.len() {
        assert_eq!(
            parse_elf_needs(&image[..n]),
            Err(ElfParseError::Unsupported("big-endian encoding"))
        );
    }
}

#[test]
fn a_search_path_entry_is_never_long() {
    let long = "x".repeat(MAX_STRING_BYTES - 1);
    let needs = parse_elf_needs(&synth_elf(&[], Some(&long), None)).expect("it just fits");
    assert_eq!(needs.runpath, vec![long.clone()]);
    assert_eq!(
        parse_elf_needs(&synth_elf(&[], Some(&format!("{long}x")), None)),
        Err(ElfParseError::Truncated)
    );
}
