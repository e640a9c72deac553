use eeprom_fs::record::FileRec;
use eeprom_fs::storage::{
    Storage, DATA_START, EEPROM_SIZE, EMPTY_ADDR, MAX_FILES, MAX_NAME, REC_SIZE, TABLE_START,
};
use eeprom_fs::table::{cmd_format, find_by_name, find_free_slot, is_well_formed, name_is};

fn name8(s: &[u8]) -> [u8; 8] {
    let mut n = [0u8; 8];
    n[..s.len()].copy_from_slice(s);
    n
}

#[test]
fn layout_constants() {
    assert_eq!(MAX_FILES, 8);
    assert_eq!(MAX_NAME, 8);
    assert_eq!(REC_SIZE, 11);
    assert_eq!(TABLE_START, 0);
    assert_eq!(DATA_START, 88);
    assert_eq!(EEPROM_SIZE, 1024);
    assert_eq!(EMPTY_ADDR, 0xFFFF);
}

#[test]
fn new_storage_is_erased() {
    let eep = Storage::new();
    assert_eq!(eep.as_bytes().len(), 1024);
    assert!(eep.as_bytes().iter().all(|&b| b == 0xFF));
    assert!(is_well_formed(&eep));
    assert_eq!(find_free_slot(&eep), Some(0));
}

#[test]
fn from_bytes_takes_only_the_right_size() {
    assert!(Storage::from_bytes(vec![0u8; 1023]).is_none());
    assert!(Storage::from_bytes(vec![0u8; 1025]).is_none());
    assert!(Storage::from_bytes(Vec::new()).is_none());
    let mut image = vec![0u8; 1024];
    image[500] = 42;
    let eep = Storage::from_bytes(image.clone()).unwrap();
    assert_eq!(eep.as_bytes(), &image[..]);
    assert_eq!(eep.read_byte(500), 42);
}

#[test]
fn write_byte_changes_one_byte() {
    let mut eep = Storage::new();
    eep.write_byte(0, 1);
    eep.write_byte(1023, 2);
    eep.write_byte(512, 3);
    assert_eq!(eep.read_byte(0), 1);
    assert_eq!(eep.read_byte(1023), 2);
    assert_eq!(eep.read_byte(512), 3);
    let changed = eep.as_bytes().iter().filter(|&&b| b != 0xFF).count();
    assert_eq!(changed, 3);
}

#[test]
fn snapshot_is_an_independent_copy() {
    let mut eep = Storage::new();
    eep.write_byte(100, 7);
    let copy = eep.snapshot();
    eep.write_byte(100, 8);
    assert_eq!(copy.read_byte(100), 7);
    assert_eq!(eep.read_byte(100), 8);
}

#[test]
fn store_writes_the_documented_layout() {
    let mut eep = Storage::new();
    let rec = FileRec { addr: 0x1234, len: 7, name: name8(b"abc") };
    rec.store(&mut eep, 2);
    assert_eq!(
        &eep.as_bytes()[22..33],
        &[0x34, 0x12, 7, b'a', b'b', b'c', 0, 0, 0, 0, 0]
    );
    assert!(eep.as_bytes()[..22].iter().all(|&b| b == 0xFF));
    assert!(eep.as_bytes()[33..].iter().all(|&b| b == 0xFF));
}

#[test]
fn load_reads_little_endian_address() {
    let mut image = vec![0u8; 1024];
    image[77] = 0x01;
    image[78] = 0x02;
    image[79] = 200;
    image[80..88].copy_from_slice(b"lastslot");
    let eep = Storage::from_bytes(image).unwrap();
    let rec = FileRec::load(&eep, 7);
    assert_eq!(rec.addr, 0x0201);
    assert_eq!(rec.len, 200);
    assert_eq!(&rec.name, b"lastslot");
}

#[test]
fn store_then_load_round_trips() {
    let mut eep = Storage::new();
    for (slot, addr) in [(0usize, 0u16), (3, 88), (7, 0xFFFE), (5, 0xFFFF), (1, 0x00FF), (2, 0xFF00)] {
        let rec = FileRec { addr, len: (slot * 31) as u8, name: name8(b"file") };
        rec.store(&mut eep, slot);
        let back = FileRec::load(&eep, slot);
        assert_eq!(back.addr, addr);
        assert_eq!(back.len, (slot * 31) as u8);
        assert_eq!(back.name, rec.name);
    }
}

#[test]
fn format_resets_every_slot_and_keeps_data() {
    let mut image = vec![0xAAu8; 1024];
    image[900] = 0x55;
    let mut eep = Storage::from_bytes(image).unwrap();
    cmd_format(&mut eep);
    for slot in 0..8 {
        assert_eq!(
            &eep.as_bytes()[slot * 11..slot * 11 + 11],
            &[0xFF, 0xFF, 0, 0, 0, 0, 0, 0, 0, 0, 0]
        );
        let rec = FileRec::load(&eep, slot);
        assert_eq!(rec.addr, EMPTY_ADDR);
        assert_eq!(rec.len, 0);
        assert_eq!(rec.name, [0u8; 8]);
    }
    assert!(eep.as_bytes()[88..900].iter().all(|&b| b == 0xAA));
    assert_eq!(eep.read_byte(900), 0x55);
    assert!(is_well_formed(&eep));
}

#[test]
fn name_is_compares_up_to_the_first_zero() {
    assert!(name_is(&name8(b"abc"), b"abc"));
    assert!(!name_is(&name8(b"abc"), b"ab"));
    assert!(!name_is(&name8(b"abc"), b"abcd"));
    assert!(!name_is(&name8(b"abc"), b""));
    assert!(name_is(&name8(b""), b""));
    assert!(name_is(&name8(b"abcdefgh"), b"abcdefgh"));
    assert!(!name_is(&name8(b"abcdefgh"), b"abcdefghi"));
    assert!(!name_is(&name8(b"abc"), b"abd"));
    assert!(name_is(&[b'a', 0, b'b', 0, 0, 0, 0, 0], b"a"));
    assert!(!name_is(&[b'a', 0, b'b', 0, 0, 0, 0, 0], &[b'a', 0, b'b']));
}

#[test]
fn find_by_name_skips_free_slots_and_takes_the_first_match() {
    let mut eep = Storage::new();
    cmd_format(&mut eep);
    FileRec { addr: EMPTY_ADDR, len: 0, name: name8(b"ghost") }.store(&mut eep, 0);
    FileRec { addr: 100, len: 1, name: name8(b"twin") }.store(&mut eep, 2);
    FileRec { addr: 200, len: 1, name: name8(b"twin") }.store(&mut eep, 5);
    assert_eq!(find_by_name(&eep, b"ghost"), None);
    assert_eq!(find_by_name(&eep, b"twin"), Some(2));
    assert_eq!(find_by_name(&eep, b"twi"), None);
    assert_eq!(find_by_name(&eep, b"twins"), None);
    assert_eq!(find_by_name(&eep, b""), None);
}

#[test]
fn find_free_slot_is_the_lowest_free_one() {
    let mut eep = Storage::new();
    cmd_format(&mut eep);
    assert_eq!(find_free_slot(&eep), Some(0));
    for slot in 0..8usize {
        FileRec { addr: 88 + slot as u16, len: 1, name: name8(b"x") }.store(&mut eep, slot);
        let expected = if slot < 7 { Some(slot + 1) } else { None };
        assert_eq!(find_free_slot(&eep), expected);
    }
    FileRec { addr: EMPTY_ADDR, len: 0, name: [0; 8] }.store(&mut eep, 4);
    FileRec { addr: EMPTY_ADDR, len: 0, name: [0; 8] }.store(&mut eep, 6);
    assert_eq!(find_free_slot(&eep), Some(4));
}

#[test]
fn is_well_formed_rejects_payloads_outside_the_data_region() {
    let mut eep = Storage::new();
    cmd_format(&mut eep);
    FileRec { addr: 87, len: 1, name: name8(b"low") }.store(&mut eep, 0);
    assert!(!is_well_formed(&eep));
    FileRec { addr: 88, len: 1, name: name8(b"low") }.store(&mut eep, 0);
    assert!(is_well_formed(&eep));
    FileRec { addr: 1000, len: 25, name: name8(b"high") }.store(&mut eep, 1);
    assert!(!is_well_formed(&eep));
    FileRec { addr: 1000, len: 24, name: name8(b"high") }.store(&mut eep, 1);
    assert!(is_well_formed(&eep));
    FileRec { addr: 0xFFFE, len: 255, name: name8(b"far") }.store(&mut eep, 2);
    assert!(!is_well_formed(&eep));
}

#[test]
fn is_well_formed_rejects_overlapping_payloads() {
    let mut eep = Storage::new();
    cmd_format(&mut eep);
    FileRec { addr: 100, len: 10, name: name8(b"a") }.store(&mut eep, 0);
    FileRec { addr: 110, len: 10, name: name8(b"b") }.store(&mut eep, 7);
    assert!(is_well_formed(&eep));
    FileRec { addr: 109, len: 10, name: name8(b"b") }.store(&mut eep, 7);
    assert!(!is_well_formed(&eep));
    FileRec { addr: 100, len: 0, name: name8(b"b") }.store(&mut eep, 7);
    assert!(is_well_formed(&eep));
    FileRec { addr: 105, len: 0, name: name8(b"b") }.store(&mut eep, 7);
    assert!(!is_well_formed(&eep));
}

#[test]
fn encode_lays_the_fields_out() {
    let rec = FileRec { addr: 0xABCD, len: 0x12, name: *b"12345678" };
    assert_eq!(
        rec.encode(),
        [0xCD, 0xAB, 0x12, b'1', b'2', b'3', b'4', b'5', b'6', b'7', b'8']
    );
    let free = FileRec { addr: EMPTY_ADDR, len: 0, name: [0; 8] };
    assert_eq!(free.encode(), [0xFF, 0xFF, 0, 0, 0, 0, 0, 0, 0, 0, 0]);
}

#[test]
fn decode_reads_the_fields_back() {
    let rec = FileRec::decode(&[0x58, 0x00, 5, b'a', 0, 0, 0, 0, 0, 0, 0]);
    assert_eq!(rec.addr, 88);
    assert_eq!(rec.len, 5);
    assert_eq!(rec.name, name8(b"a"));
    let rec = FileRec::decode(&[0x00, 0x01, 255, 1, 2, 3, 4, 5, 6, 7, 8]);
    assert_eq!(rec.addr, 256);
    assert_eq!(rec.len, 255);
    assert_eq!(rec.name, [1, 2, 3, 4, 5, 6, 7, 8]);
}

#[test]
fn decode_undoes_encode() {
    for addr in [0u16, 1, 255, 256, 257, 1023, 0x7FFF, 0x8000, 0xFFFE, 0xFFFF] {
        for len in [0u8, 1, 127, 128, 255] {
            let rec = FileRec { addr, len, name: [len, 0, 9, 0xFF, b'x', 0, 0, 1] };
            let back = FileRec::decode(&rec.encode());
            assert_eq!(back.addr, addr);
            assert_eq!(back.len, len);
            assert_eq!(back.name, rec.name);
            assert_eq!(back.encode(), rec.encode());
        }
    }
}
