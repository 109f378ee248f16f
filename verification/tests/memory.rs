use zkvm::memory::Memory;

#[test]
fn test_word_read_write() {
    let mut mem = Memory::new(1024);
    mem.write_word(0, 0xDEADBEEF, 0);
    let val = mem.read_word(0, 1);
    assert_eq!(val, 0xDEADBEEF);
}

#[test]
fn test_byte_order() {
    let mut mem = Memory::new(1024);
    mem.write_word(0, 0x04030201, 0);
    assert_eq!(mem.peek_byte(0), 0x01);
    assert_eq!(mem.peek_byte(1), 0x02);
    assert_eq!(mem.peek_byte(2), 0x03);
    assert_eq!(mem.peek_byte(3), 0x04);
}

#[test]
fn test_access_log() {
    let mut mem = Memory::new(1024);
    mem.write_word(0, 42, 0);
    let _ = mem.read_word(0, 1);
    assert_eq!(mem.access_log.len(), 8);
}

#[test]
fn half_read_after_write_and_log_entries() {
    let mut mem = Memory::new(16);
    mem.write_half(4, 0xBEEF, 7);
    assert_eq!(mem.read_half(4, 8), 0xBEEF);
    assert_eq!(mem.peek_byte(4), 0xEF);
    assert_eq!(mem.peek_byte(5), 0xBE);
    let log = &mem.access_log;
    assert_eq!(log.len(), 4);
    assert!(log[0].is_write && log[0].addr == 4 && log[0].value == 0xEF && log[0].clk == 7);
    assert!(!log[3].is_write && log[3].addr == 5 && log[3].value == 0xBE && log[3].clk == 8);
}

#[test]
fn bulk_write_is_not_logged() {
    let mut mem = Memory::new(8);
    mem.write_bytes_no_log(2, &[1, 2, 3]);
    assert_eq!(mem.access_log.len(), 0);
    assert_eq!(mem.peek_word(0), 0x0201_0000);
    assert_eq!(mem.size(), 8);
    let b = mem.read_byte(4, 3);
    assert_eq!(b, 3);
    mem.write_byte(7, 9, 4);
    assert_eq!(mem.peek_byte(7), 9);
}
