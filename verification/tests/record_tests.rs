use gate_store::record::{name_from, same_id, same_name, Chip, Log, CHIP_SIZE, LOG_SIZE};
use gate_store::wire::{from_le, to_le};

#[test]
fn chip_new_takes_id_and_packs_name() {
    let chip = Chip::new([1, 2, 3, 4], "chris");
    assert_eq!(chip.id, [1, 2, 3, 4]);
    assert_eq!(chip.name, *b"chris");
}

#[test]
fn short_name_is_zero_padded() {
    let chip = Chip::new([9, 9, 9, 9], "ab");
    assert_eq!(chip.name, [b'a', b'b', 0, 0, 0]);
    assert_eq!(name_from(""), [0, 0, 0, 0, 0]);
}

#[test]
fn long_name_is_cut_after_five_bytes() {
    let chip = Chip::new([9, 9, 9, 9], "abcdefgh");
    assert_eq!(chip.name, *b"abcde");
}

#[test]
fn name_is_cut_by_bytes_not_by_characters() {
    // Each letter takes two bytes in UTF-8: the third is cut in half.
    let label = name_from("äöü");
    assert_eq!(label, [0xC3, 0xA4, 0xC3, 0xB6, 0xC3]);
}

#[test]
fn log_new_keeps_every_field() {
    let log = Log::new([1, 2, 3, 4], "test", 0xDEAD_BEEF, 2);
    assert_eq!(log.user_id, [1, 2, 3, 4]);
    assert_eq!(log.name, [b't', b'e', b's', b't', 0]);
    assert_eq!(log.gate_id, 0xDEAD_BEEF);
    assert_eq!(log.state, 2);
}

#[test]
fn empty_markers_are_all_zero() {
    let chip = Chip::empty();
    assert_eq!(chip.id, [0; 4]);
    assert_eq!(chip.name, [0; 5]);
    assert!(chip.is_empty());
    assert_eq!(Chip::default(), chip);
    let log = Log::empty();
    assert_eq!(log.user_id, [0; 4]);
    assert_eq!(log.name, [0; 5]);
    assert_eq!(log.gate_id, 0);
    assert_eq!(log.state, 0);
    assert!(log.is_empty());
    assert_eq!(Log::default(), log);
}

#[test]
fn a_record_with_any_nonzero_byte_is_not_empty() {
    assert!(!Chip::new([0, 0, 0, 1], "").is_empty());
    assert!(!Chip::new([0, 0, 0, 0], "a").is_empty());
    assert!(!Log::new([0, 0, 0, 0], "", 1, 0).is_empty());
    assert!(!Log::new([0, 0, 0, 0], "", 0, 1).is_empty());
    assert!(!Log::new([1, 0, 0, 0], "", 0, 0).is_empty());
    // A record of zeros is taken for a free slot.
    assert!(Chip::new([0, 0, 0, 0], "").is_empty());
    assert!(Log::new([0, 0, 0, 0], "", 0, 0).is_empty());
}

#[test]
fn records_compare_field_by_field() {
    let chip = Chip::new([1, 2, 3, 4], "chris");
    assert_eq!(chip, Chip::new([1, 2, 3, 4], "chris"));
    assert_ne!(chip, Chip::new([1, 2, 3, 5], "chris"));
    assert_ne!(chip, Chip::new([1, 2, 3, 4], "chriz"));
    let log = Log::new([1, 2, 3, 4], "chris", 7, 1);
    assert_eq!(log, Log::new([1, 2, 3, 4], "chris", 7, 1));
    assert_ne!(log, Log::new([1, 2, 3, 4], "chris", 8, 1));
    assert_ne!(log, Log::new([1, 2, 3, 4], "chris", 7, 2));
    assert_ne!(log, Log::new([4, 2, 3, 4], "chris", 7, 1));
    assert_ne!(log, Log::new([1, 2, 3, 4], "chri", 7, 1));
}

#[test]
fn identifiers_and_names_compare_by_bytes() {
    assert!(same_id(&[1, 2, 3, 4], &[1, 2, 3, 4]));
    assert!(!same_id(&[1, 2, 3, 4], &[1, 2, 3, 0]));
    assert!(!same_id(&[0, 2, 3, 4], &[1, 2, 3, 4]));
    assert!(same_name(b"chris", b"chris"));
    assert!(!same_name(b"chris", b"chriz"));
    assert!(!same_name(b"chris", b"ahris"));
}

#[test]
fn integers_are_little_endian() {
    assert_eq!(to_le(0x0102_0304), [4, 3, 2, 1]);
    assert_eq!(to_le(0), [0, 0, 0, 0]);
    assert_eq!(to_le(u32::MAX), [255, 255, 255, 255]);
    assert_eq!(to_le(0x3F_0000), [0, 0, 0x3F, 0]);
    assert_eq!(from_le(4, 3, 2, 1), 0x0102_0304);
    assert_eq!(from_le(255, 255, 255, 255), u32::MAX);
    for x in [0u32, 1, 255, 256, 65_535, 65_536, 0x00FF_FFFF, 0x0100_0000, 0x89AB_CDEF] {
        let bytes = to_le(x);
        assert_eq!(from_le(bytes[0], bytes[1], bytes[2], bytes[3]), x);
    }
}

#[test]
fn record_sizes_are_nine_and_fourteen() {
    assert_eq!(CHIP_SIZE, 9);
    assert_eq!(LOG_SIZE, 14);
}
