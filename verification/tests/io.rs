use zkvm::io::{init_input_tape, read_outputs, INPUT_TAPE_ADDR, OUTPUT_TAPE_ADDR};
use zkvm::memory::Memory;

#[test]
fn test_input_tape_roundtrip() {
    let mut mem = Memory::new(1 << 24);
    let public = vec![1u32, 2, 3];
    let private = vec![42u32, 99];
    init_input_tape(&mut mem, &public, &private);

    let count = mem.peek_word(INPUT_TAPE_ADDR);
    assert_eq!(count, 3);
    assert_eq!(mem.peek_word(INPUT_TAPE_ADDR + 4), 1);
    assert_eq!(mem.peek_word(INPUT_TAPE_ADDR + 8), 2);
    assert_eq!(mem.peek_word(INPUT_TAPE_ADDR + 12), 3);

    let priv_offset = INPUT_TAPE_ADDR + 4 + 3 * 4;
    let priv_count = mem.peek_word(priv_offset);
    assert_eq!(priv_count, 2);
    assert_eq!(mem.peek_word(priv_offset + 4), 42);
    assert_eq!(mem.peek_word(priv_offset + 8), 99);
}

#[test]
fn outputs_read_back_from_the_buffer() {
    let mut mem = Memory::new(1 << 24);
    mem.write_bytes_no_log(OUTPUT_TAPE_ADDR, &2u32.to_le_bytes());
    mem.write_bytes_no_log(OUTPUT_TAPE_ADDR + 4, &7u32.to_le_bytes());
    mem.write_bytes_no_log(OUTPUT_TAPE_ADDR + 8, &11u32.to_le_bytes());
    assert_eq!(read_outputs(&mem), vec![7, 11]);
}

#[test]
fn empty_inputs_write_two_zero_counts() {
    let mut mem = Memory::new(1 << 24);
    init_input_tape(&mut mem, &[], &[]);
    assert_eq!(mem.peek_word(INPUT_TAPE_ADDR), 0);
    assert_eq!(mem.peek_word(INPUT_TAPE_ADDR + 4), 0);
    assert_eq!(read_outputs(&mem), Vec::<u32>::new());
}
