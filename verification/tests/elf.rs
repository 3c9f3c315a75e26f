use zeronix::fs::ramfs::RamFs;
use zeronix::task::proc::{check_elf, SpawnError};
use zeronix::user::elf::{build_program_image, install_programs, parse, ElfError, ProgramId, ELF_HEADER_SIZE};

#[test]
fn parses_generated_program_image() {
    let image = build_program_image(ProgramId::Ls);
    let parsed = parse(&image).unwrap();

    assert_eq!(parsed.program, ProgramId::Ls);
    assert_eq!(parsed.entry, ProgramId::Ls.entry());
    assert_eq!(parsed.load.virt_addr, ProgramId::Ls.entry());
    assert!(parsed.load.file_size > 16);
}

#[test]
fn rejects_non_elf_data() {
    let image = [0u8; ELF_HEADER_SIZE];
    assert_eq!(parse(&image), Err(ElfError::BadMagic));
}

#[test]
fn every_program_image_parses_back() {
    for program in ProgramId::all() {
        let image = build_program_image(program);
        let parsed = parse(&image).unwrap();
        assert_eq!(parsed.program, program);
        assert_eq!(parsed.load.offset, 120);
        assert_eq!(parsed.load.flags, 5);
        assert_eq!(parsed.load.file_size, image.len() - 120);
        assert_eq!(parsed.load.mem_size, image.len() - 120);
        let message_start = image.len() - (15 + program.name().len());
        let mut expected = b"exec /bin/".to_vec();
        expected.extend_from_slice(program.name().as_bytes());
        expected.extend_from_slice(b" ok\r\n");
        assert_eq!(&image[message_start..], expected.as_slice());
    }
}

#[test]
fn names_and_entries_identify_programs() {
    assert_eq!(ProgramId::from_name("cat"), Some(ProgramId::Cat));
    assert_eq!(ProgramId::from_name("dog"), None);
    assert_eq!(ProgramId::Shell.entry(), 0x40_1000);
    assert_eq!(ProgramId::Count.entry(), 0x40_a000);
    assert_eq!(ProgramId::Echo.name(), "echo");
}

#[test]
fn header_errors_are_detected() {
    assert_eq!(parse(&[0u8; 10]), Err(ElfError::TooSmall));
    let good = build_program_image(ProgramId::Cat);

    let mut bad_class = good.clone();
    bad_class[4] = 1;
    assert_eq!(parse(&bad_class), Err(ElfError::Unsupported));

    let mut bad_entry = good.clone();
    bad_entry[24] = 1;
    assert_eq!(parse(&bad_entry), Err(ElfError::UnknownProgram));

    let mut no_load = good.clone();
    no_load[64] = 2;
    assert_eq!(parse(&no_load), Err(ElfError::MissingLoadSegment));

    let truncated = &good[..100];
    assert_eq!(parse(truncated), Err(ElfError::Truncated));

    let mut small_mem = good.clone();
    small_mem[104] = 1;
    assert_eq!(parse(&small_mem), Err(ElfError::Unsupported));
}

#[test]
fn install_writes_every_program_under_bin() {
    let mut fs = RamFs::new();
    install_programs(&mut fs);
    let names = fs.list("/bin").unwrap();
    assert_eq!(names.len(), 10);
    assert_eq!(fs.read("/bin/ls").unwrap(), build_program_image(ProgramId::Ls));
    assert_eq!(fs.read("/bin/count").unwrap(), build_program_image(ProgramId::Count));
}

#[test]
fn offsets_beyond_the_image_are_truncated() {
    let good = build_program_image(ProgramId::Cat);

    let mut far_table = good.clone();
    for b in &mut far_table[32..40] {
        *b = 0xff;
    }
    assert_eq!(parse(&far_table), Err(ElfError::Truncated));

    let mut far_segment = good.clone();
    for b in &mut far_segment[72..80] {
        *b = 0xff;
    }
    assert_eq!(parse(&far_segment), Err(ElfError::Truncated));

    let mut long_segment = good.clone();
    for b in &mut long_segment[96..104] {
        *b = 0xff;
    }
    assert_eq!(parse(&long_segment), Err(ElfError::Truncated));
}

#[test]
fn checked_programs_fit_their_image() {
    let good = build_program_image(ProgramId::Echo);
    let parsed = check_elf(&good).unwrap();
    assert!(parsed.load.offset + parsed.load.file_size <= good.len());
    assert_eq!(parsed.program, ProgramId::Echo);

    let mut far_segment = good.clone();
    for b in &mut far_segment[72..80] {
        *b = 0xff;
    }
    assert_eq!(check_elf(&far_segment).map(|p| p.entry), Err(SpawnError::BadElf));
}
