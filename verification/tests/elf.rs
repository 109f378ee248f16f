use sha2::Digest;
use zkvm::elf::{load_elf, load_flat_binary, u16_le, u32_le, ElfError};
use zkvm::host::{extract_program_table, hash_program_rom, ProverBuilder, DEFAULT_CYCLE_LIMIT};
use zkvm::memory::Memory;

/// A 32-bit little-endian ELF image with one program header per segment
/// `(type, vaddr, data, memsz, flags)`, segment data after the headers.
fn elf_image(entry: u32, segments: &[(u32, u32, Vec<u8>, u32, u32)]) -> Vec<u8> {
    let phoff = 52u32;
    let phentsize = 32u16;
    let mut out = vec![0u8; 52];
    out[0..4].copy_from_slice(&[0x7f, b'E', b'L', b'F']);
    out[4] = 1;
    out[5] = 1;
    out[24..28].copy_from_slice(&entry.to_le_bytes());
    out[28..32].copy_from_slice(&phoff.to_le_bytes());
    out[42..44].copy_from_slice(&phentsize.to_le_bytes());
    out[44..46].copy_from_slice(&(segments.len() as u16).to_le_bytes());
    let mut data_off = 52 + 32 * segments.len() as u32;
    let mut headers = Vec::new();
    let mut data = Vec::new();
    for (ty, vaddr, bytes, memsz, flags) in segments {
        let mut ph = vec![0u8; 32];
        ph[0..4].copy_from_slice(&ty.to_le_bytes());
        ph[4..8].copy_from_slice(&data_off.to_le_bytes());
        ph[8..12].copy_from_slice(&vaddr.to_le_bytes());
        ph[16..20].copy_from_slice(&(bytes.len() as u32).to_le_bytes());
        ph[20..24].copy_from_slice(&memsz.to_le_bytes());
        ph[24..28].copy_from_slice(&flags.to_le_bytes());
        headers.extend(ph);
        data.extend(bytes.iter().copied());
        data_off += bytes.len() as u32;
    }
    out.extend(headers);
    out.extend(data);
    out
}

#[test]
fn elf_segments_are_loaded_and_bss_zeroed() {
    let code: Vec<u8> = [0x00500093u32, 0x00000073].iter().flat_map(|w| w.to_le_bytes()).collect();
    let elf = elf_image(0x1000, &[(1, 0x1000, code.clone(), 16, 5), (4, 0x3000, vec![9, 9], 2, 4)]);
    let mut mem = Memory::new(1 << 16);
    mem.write_bytes_no_log(0x1008, &[7, 7, 7, 7]);
    let entry = load_elf(&elf, &mut mem).unwrap();
    assert_eq!(entry, 0x1000);
    assert_eq!(mem.peek_word(0x1000), 0x00500093);
    assert_eq!(mem.peek_word(0x1004), 0x00000073);
    assert_eq!(mem.peek_word(0x1008), 0);
    // A non-loadable segment is skipped.
    assert_eq!(mem.peek_byte(0x3000), 0);
    assert_eq!(mem.access_log.len(), 0);
}

#[test]
fn elf_header_errors() {
    let mut mem = Memory::new(64);
    assert_eq!(load_elf(&[0u8; 10], &mut mem), Err(ElfError::TooSmall));
    let mut bad = elf_image(0, &[]);
    bad[1] = b'X';
    assert_eq!(load_elf(&bad, &mut mem), Err(ElfError::NotElf));
    let mut bad = elf_image(0, &[]);
    bad[4] = 2;
    assert_eq!(load_elf(&bad, &mut mem), Err(ElfError::NotElf32));
    let mut bad = elf_image(0, &[]);
    bad[5] = 2;
    assert_eq!(load_elf(&bad, &mut mem), Err(ElfError::NotLittleEndian));
}

#[test]
fn elf_out_of_bounds_errors() {
    let mut mem = Memory::new(1 << 16);
    let mut elf = elf_image(0, &[(1, 0x100, vec![1, 2, 3, 4], 4, 5)]);
    // Claim two program headers; the second lies past the end of the file.
    elf[44] = 2;
    elf.truncate(52 + 32 + 4);
    assert_eq!(load_elf(&elf, &mut mem), Err(ElfError::HeaderOutOfBounds));
    // The first segment was loaded before the error.
    assert_eq!(mem.peek_word(0x100), 0x04030201);
    let mut elf = elf_image(0, &[(1, 0x100, vec![1, 2, 3, 4], 4, 5)]);
    elf.truncate(52 + 32 + 2);
    assert_eq!(load_elf(&elf, &mut mem), Err(ElfError::SegmentOutOfBounds { offset: 84, filesz: 4 }));
}

#[test]
fn flat_binary_loads_at_base() {
    let mut mem = Memory::new(64);
    assert_eq!(load_flat_binary(&[1, 2, 3, 4], 8, &mut mem), 8);
    assert_eq!(mem.peek_word(8), 0x04030201);
}

#[test]
fn little_endian_readers() {
    assert_eq!(u16_le(&[0x34, 0x12]), 0x1234);
    assert_eq!(u32_le(&[0x78, 0x56, 0x34, 0x12]), 0x12345678);
}

#[test]
fn program_table_lists_executable_words() {
    let code: Vec<u8> = [0x11u32, 0x22, 0x33].iter().flat_map(|w| w.to_le_bytes()).collect();
    let data: Vec<u8> = vec![1, 2, 3, 4];
    let elf = elf_image(0x1000, &[(1, 0x1000, code, 12, 5), (1, 0x2000, data, 4, 6)]);
    let table = extract_program_table(&elf);
    assert_eq!(table, vec![(0x1000, 0x11), (0x1004, 0x22), (0x1008, 0x33)]);
    assert_eq!(extract_program_table(&[1, 2, 3]), Vec::<(u32, u32)>::new());
}

#[test]
fn rom_hash_is_sha256_of_entries() {
    let rom = [(0x1000u32, 0x13u32), (0x1004, 0x73)];
    let mut bytes = Vec::new();
    for (a, i) in rom {
        bytes.extend_from_slice(&a.to_le_bytes());
        bytes.extend_from_slice(&i.to_le_bytes());
    }
    let expect: [u8; 32] = sha2::Sha256::digest(&bytes).into();
    assert_eq!(hash_program_rom(&rom), expect);
    assert_ne!(hash_program_rom(&rom[..1]), expect);
}

#[test]
fn builder_collects_inputs() {
    let mut b = ProverBuilder::from_elf(&[1, 2, 3]);
    assert_eq!(b.cycle_limit(), DEFAULT_CYCLE_LIMIT);
    b.add_input(5).add_input(6).add_private_input(7).set_cycle_limit(99);
    assert_eq!(b.public_inputs(), &[5, 6]);
    assert_eq!(b.private_inputs(), &[7]);
    assert_eq!(b.cycle_limit(), 99);
    assert_eq!(b.elf_bytes(), &[1, 2, 3]);
}

#[test]
fn prepare_runs_the_guest_and_lays_out_its_trace() {
    // x1 = 5; x2 = OUTPUT_TAPE_ADDR; x3 = 1; mem[x2] = 1 (count); mem[x2 + 4] = 5; ecall.
    let words = [0x00500093u32, 0x00300137, 0x00100193, 0x00312023, 0x00112223, 0x00000073];
    let code: Vec<u8> = words.iter().flat_map(|w| w.to_le_bytes()).collect();
    let elf = elf_image(0x1000, &[(1, 0x1000, code, 24, 5)]);
    let mut builder = ProverBuilder::from_elf(&elf);
    builder.add_input(7);
    let prepared = builder.prepare();
    assert_eq!(prepared.entry_pc, 0x1000);
    assert_eq!(prepared.outputs, vec![5]);
    assert_eq!(prepared.num_real_steps, 6);
    assert_eq!(prepared.padding_start_pc, 0x7000_0000);
    let rom: Vec<(u32, u32)> = words.iter().enumerate().map(|(i, w)| (0x1000 + 4 * i as u32, *w)).collect();
    assert_eq!(prepared.program_rom, rom);
    assert_eq!(prepared.program_hash, hash_program_rom(&rom));
    assert_eq!(prepared.columns.len(), zkvm::trace::NUM_TRACE_COLS);
    assert!(prepared.columns.iter().all(|c| c.len() == 1 << 16));
    // Column 1 is the PC: the real steps walk the program, padding sits at the padding PC.
    assert_eq!(prepared.columns[1][0], 0x1000);
    assert_eq!(prepared.columns[1][5], 0x1014);
    assert_eq!(prepared.columns[1][6], 0x7000_0000);
}
