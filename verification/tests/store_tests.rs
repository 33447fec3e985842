use gate_store::error::Error;
use gate_store::record::{Chip, Log};
use gate_store::store::{Store, CHIP_COUNT, LOG_COUNT, TOTAL_STORE_SIZE};

fn numbered_chip(n: u8) -> Chip {
    Chip::new([n, n, n, n], "user")
}

fn numbered_log(n: u8) -> Log {
    Log::new([1, 2, 3, 4], "chris", n as u32, 1)
}

fn full_store() -> Store {
    let mut store = Store::new();
    for n in 1..=10u8 {
        store.add_chip(numbered_chip(n)).unwrap();
        store.add_log(numbered_log(n)).unwrap();
    }
    store
}

fn round_trip(store: &Store) -> Store {
    let mut buffer = [0u8; TOTAL_STORE_SIZE];
    assert_eq!(store.to_bytes(&mut buffer), Ok(TOTAL_STORE_SIZE));
    Store::new_from_bytes(&buffer)
}

#[test]
fn sizes_match_the_layout() {
    assert_eq!(CHIP_COUNT, 10);
    assert_eq!(LOG_COUNT, 10);
    assert_eq!(TOTAL_STORE_SIZE, 230);
}

#[test]
fn new_store_is_vacant() {
    let store = Store::new();
    for chip in store.chips() {
        assert!(chip.is_empty());
    }
    for log in store.logs() {
        assert!(log.is_empty());
    }
}

#[test]
fn round_trip_of_vacant_store() {
    let store = Store::new();
    let back = round_trip(&store);
    assert_eq!(back.chips(), store.chips());
    assert_eq!(back.logs(), store.logs());
    let mut buffer = [0xAAu8; TOTAL_STORE_SIZE];
    store.to_bytes(&mut buffer).unwrap();
    assert_eq!(buffer, [0u8; TOTAL_STORE_SIZE]);
}

#[test]
fn round_trip_of_full_store() {
    let store = full_store();
    let back = round_trip(&store);
    assert_eq!(back.chips(), store.chips());
    assert_eq!(back.logs(), store.logs());
}

#[test]
fn round_trip_of_mixed_store() {
    let mut store = full_store();
    store.remove_chip_by_id([3, 3, 3, 3]).unwrap();
    store.remove_chip_by_id([8, 8, 8, 8]).unwrap();
    store.add_log(Log::new([255, 254, 253, 252], "\u{7f}z", u32::MAX, 255)).unwrap();
    let back = round_trip(&store);
    assert_eq!(back.chips(), store.chips());
    assert_eq!(back.logs(), store.logs());
    assert!(back.chips()[2].is_empty());
    assert!(back.chips()[7].is_empty());
}

#[test]
fn packing_an_unpacked_image_gives_the_image_back() {
    let mut image = [0u8; TOTAL_STORE_SIZE];
    for (k, byte) in image.iter_mut().enumerate() {
        *byte = (k * 37 + 11) as u8;
    }
    let store = Store::new_from_bytes(&image);
    let mut buffer = [0u8; TOTAL_STORE_SIZE];
    assert_eq!(store.to_bytes(&mut buffer), Ok(230));
    assert_eq!(buffer, image);
}

#[test]
fn image_layout_is_byte_exact() {
    let mut store = Store::new();
    store.add_chip(Chip::new([1, 2, 3, 4], "chris")).unwrap();
    store.add_chip(Chip::new([5, 6, 7, 8], "bo")).unwrap();
    store.add_log(Log::new([1, 2, 3, 4], "chris", 0x0102_0304, 7)).unwrap();
    store.add_log(Log::new([9, 8, 7, 6], "al", 258, 0)).unwrap();
    let mut buffer = [0u8; TOTAL_STORE_SIZE];
    assert_eq!(store.to_bytes(&mut buffer), Ok(230));
    assert_eq!(&buffer[0..9], &[1, 2, 3, 4, b'c', b'h', b'r', b'i', b's']);
    assert_eq!(&buffer[9..18], &[5, 6, 7, 8, b'b', b'o', 0, 0, 0]);
    assert_eq!(&buffer[18..90], &[0u8; 72][..]);
    assert_eq!(&buffer[90..104], &[1, 2, 3, 4, b'c', b'h', b'r', b'i', b's', 4, 3, 2, 1, 7]);
    assert_eq!(&buffer[104..118], &[9, 8, 7, 6, b'a', b'l', 0, 0, 0, 2, 1, 0, 0, 0]);
    assert_eq!(&buffer[118..230], &[0u8; 112][..]);
}

#[test]
fn unpacking_decodes_every_slot() {
    let mut image = [0u8; TOTAL_STORE_SIZE];
    image[81..90].copy_from_slice(&[4, 3, 2, 1, b'l', b'a', b's', b't', 0]);
    image[216..230].copy_from_slice(&[7, 7, 7, 7, b'g', b'a', b't', b'e', b's', 0x78, 0x56, 0x34, 0x12, 9]);
    let store = Store::new_from_bytes(&image);
    assert_eq!(store.chips()[9], Chip::new([4, 3, 2, 1], "last"));
    assert_eq!(store.logs()[9], Log::new([7, 7, 7, 7], "gates", 0x1234_5678, 9));
    for i in 0..9 {
        assert!(store.chips()[i].is_empty());
        assert!(store.logs()[i].is_empty());
    }
}

#[test]
fn small_buffer_is_refused_and_left_alone() {
    let store = full_store();
    let mut buffer = [0x55u8; 229];
    assert_eq!(store.to_bytes(&mut buffer), Err(Error::BufferTooSmall));
    assert_eq!(buffer, [0x55u8; 229]);
    let mut none: [u8; 0] = [];
    assert_eq!(store.to_bytes(&mut none), Err(Error::BufferTooSmall));
}

#[test]
fn larger_buffer_keeps_its_tail() {
    let store = full_store();
    let mut buffer = [0x55u8; 250];
    assert_eq!(store.to_bytes(&mut buffer), Ok(230));
    assert_eq!(&buffer[230..], &[0x55u8; 20][..]);
    let mut exact = [0u8; TOTAL_STORE_SIZE];
    store.to_bytes(&mut exact).unwrap();
    assert_eq!(&buffer[..230], &exact[..]);
}

#[test]
fn chip_goes_to_first_vacant_slot() {
    let mut store = Store::new();
    assert_eq!(store.add_chip(numbered_chip(1)), Ok(()));
    assert_eq!(store.add_chip(numbered_chip(2)), Ok(()));
    assert_eq!(store.chips()[0], numbered_chip(1));
    assert_eq!(store.chips()[1], numbered_chip(2));
    assert!(store.chips()[2].is_empty());
    store.remove_chip_by_id([1, 1, 1, 1]).unwrap();
    assert_eq!(store.add_chip(numbered_chip(3)), Ok(()));
    assert_eq!(store.chips()[0], numbered_chip(3));
    assert_eq!(store.chips()[1], numbered_chip(2));
}

#[test]
fn chip_storage_fills_up() {
    let mut store = Store::new();
    for n in 1..=10u8 {
        assert_eq!(store.add_chip(numbered_chip(n)), Ok(()));
    }
    let before = store;
    assert_eq!(store.add_chip(numbered_chip(99)), Err(Error::Full));
    assert_eq!(store.chips(), before.chips());
    assert_eq!(store.logs(), before.logs());
}

#[test]
fn one_removal_makes_room_for_one_chip() {
    let mut store = full_store();
    assert_eq!(store.add_chip(numbered_chip(99)), Err(Error::Full));
    assert_eq!(store.remove_chip_by_id([4, 4, 4, 4]), Ok(()));
    assert_eq!(store.add_chip(numbered_chip(99)), Ok(()));
    assert_eq!(store.chips()[3], numbered_chip(99));
    assert_eq!(store.add_chip(numbered_chip(100)), Err(Error::Full));
}

#[test]
fn removing_an_unknown_id_fails() {
    let mut store = full_store();
    let before = store;
    assert_eq!(store.remove_chip_by_id([42, 42, 42, 42]), Err(Error::NotFound));
    assert_eq!(store.chips(), before.chips());
    assert_eq!(store.logs(), before.logs());
    let mut vacant = Store::new();
    assert_eq!(vacant.remove_chip_by_id([1, 2, 3, 4]), Err(Error::NotFound));
}

#[test]
fn removal_vacates_exactly_one_slot() {
    let mut store = full_store();
    let before = store;
    assert_eq!(store.remove_chip_by_id([6, 6, 6, 6]), Ok(()));
    for i in 0..CHIP_COUNT {
        if i == 5 {
            assert!(store.chips()[i].is_empty());
        } else {
            assert_eq!(store.chips()[i], before.chips()[i]);
        }
    }
    assert_eq!(store.logs(), before.logs());
    assert_eq!(store.remove_chip_by_id([6, 6, 6, 6]), Err(Error::NotFound));
}

#[test]
fn removal_takes_the_first_of_two_equal_ids() {
    let mut store = Store::new();
    store.add_chip(Chip::new([1, 2, 3, 4], "one")).unwrap();
    store.add_chip(Chip::new([1, 2, 3, 4], "two")).unwrap();
    assert_eq!(store.chips()[0].id, store.chips()[1].id);
    assert_eq!(store.remove_chip_by_id([1, 2, 3, 4]), Ok(()));
    assert!(store.chips()[0].is_empty());
    assert_eq!(store.chips()[1], Chip::new([1, 2, 3, 4], "two"));
    assert_eq!(store.remove_chip_by_id([1, 2, 3, 4]), Ok(()));
    assert!(store.chips()[1].is_empty());
}

#[test]
fn the_zero_id_matches_a_vacant_slot() {
    let mut store = Store::new();
    assert_eq!(store.remove_chip_by_id([0, 0, 0, 0]), Ok(()));
    for chip in store.chips() {
        assert!(chip.is_empty());
    }
}

#[test]
fn logs_fill_the_slots_in_order() {
    let mut store = Store::new();
    for n in 1..=3u8 {
        assert_eq!(store.add_log(numbered_log(n)), Ok(()));
    }
    assert_eq!(store.logs()[0], numbered_log(1));
    assert_eq!(store.logs()[1], numbered_log(2));
    assert_eq!(store.logs()[2], numbered_log(3));
    for i in 3..LOG_COUNT {
        assert!(store.logs()[i].is_empty());
    }
}

#[test]
fn full_log_array_drops_the_oldest() {
    let mut store = Store::new();
    for n in 0..10u8 {
        store.add_log(Log::new([1, 2, 3, 4], "chris", 100 + n as u32, 1)).unwrap();
    }
    let before = store;
    let newest = Log::new([99, 99, 99, 99], "test", 1, 2);
    assert_eq!(store.add_log(newest), Ok(()));
    for i in 0..9 {
        assert_eq!(store.logs()[i], before.logs()[i + 1]);
        assert_eq!(store.logs()[i].gate_id, 101 + i as u32);
    }
    assert_eq!(store.logs()[9], newest);
    assert_eq!(store.chips(), before.chips());
}

#[test]
fn eviction_goes_on_in_arrival_order() {
    let mut store = Store::new();
    for n in 1..=25u8 {
        assert_eq!(store.add_log(numbered_log(n)), Ok(()));
    }
    for i in 0..LOG_COUNT {
        assert_eq!(store.logs()[i], numbered_log(16 + i as u8));
    }
}

#[test]
fn chips_and_logs_do_not_touch_each_other() {
    let mut store = Store::new();
    store.add_chip(numbered_chip(1)).unwrap();
    let with_chip = store;
    store.add_log(numbered_log(1)).unwrap();
    assert_eq!(store.chips(), with_chip.chips());
    let with_log = store;
    store.remove_chip_by_id([1, 1, 1, 1]).unwrap();
    assert_eq!(store.logs(), with_log.logs());
}

#[test]
fn a_day_at_the_gate() {
    let mut store = Store::new();
    let chip = Chip::new([1, 2, 3, 4], "chris");
    assert_eq!(store.add_chip(chip), Ok(()));
    assert_eq!(store.remove_chip_by_id([1, 2, 3, 4]), Ok(()));
    for i in 0..10 {
        assert_eq!(store.add_log(Log::new([1, 2, 3, 4], "chris", i, 0)), Ok(()));
    }
    assert_eq!(store.add_log(Log::new([99, 99, 99, 99], "test", 1, 2)), Ok(()));
    assert!(store.chips()[0].is_empty());
    // The first of the ten logs has gate 0 and state 0 but a user and a
    // name, so it is no free slot: the eleventh log pushes it out.
    assert_eq!(store.logs()[0], Log::new([1, 2, 3, 4], "chris", 1, 0));
    assert_eq!(store.logs()[9], Log::new([99, 99, 99, 99], "test", 1, 2));
}
