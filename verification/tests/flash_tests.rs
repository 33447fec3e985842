use gate_store::bus::Registers;
use gate_store::driver::StorageDriver;
use gate_store::error::Error;
use gate_store::flash::{
    FlashStorage, Settings, ADDRESS_REGISTER, COMMAND_REGISTER, DATA_REGISTER, DEVICE_SIZE,
    PAGE_PROGRAM, PAGE_SIZE, READ_DATA, READ_STATUS, RETRY_BUDGET, SECTOR_ERASE, STORE_ADDRESS,
    WRITE_ENABLE, WRITE_IN_PROGRESS,
};
use gate_store::sim::{SimFlash, ERASED, SECTOR_SIZE};

#[derive(Debug, Clone, Copy, PartialEq, Eq)]
enum Transfer {
    Read(u32, u8),
    Write(u32, u8),
}

/// Registers that keep a list of all transfers and answer reads from a
/// script; when the script is used up, they answer `idle`.
struct Scripted {
    transfers: Vec<Transfer>,
    answers: Vec<u8>,
    next: usize,
    idle: u8,
}

impl Scripted {
    fn new(answers: &[u8], idle: u8) -> Scripted {
        Scripted { transfers: Vec::new(), answers: answers.to_vec(), next: 0, idle }
    }

    fn reads(&self) -> usize {
        self.transfers.iter().filter(|t| matches!(t, Transfer::Read(..))).count()
    }
}

impl Registers for Scripted {
    fn read_byte(&mut self, address: u32) -> u8 {
        let value = if self.next < self.answers.len() { self.answers[self.next] } else { self.idle };
        self.next += 1;
        self.transfers.push(Transfer::Read(address, value));
        value
    }

    fn write_byte(&mut self, address: u32, value: u8) {
        self.transfers.push(Transfer::Write(address, value));
    }
}

fn settings(capacity: u32, retry_budget: u32) -> Settings {
    Settings { address: 0, capacity, retry_budget }
}

fn poll(status: u8) -> Vec<Transfer> {
    vec![Transfer::Write(COMMAND_REGISTER, READ_STATUS), Transfer::Read(DATA_REGISTER, status)]
}

fn load_address(address: u32) -> Vec<Transfer> {
    let bytes = address.to_le_bytes();
    (0..4).map(|i| Transfer::Write(ADDRESS_REGISTER + i as u32, bytes[i])).collect()
}

fn pattern(len: usize) -> Vec<u8> {
    (0..len).map(|i| (i * 7 + 3) as u8).collect()
}

#[test]
fn protocol_constants() {
    assert_eq!(READ_DATA, 0x03);
    assert_eq!(WRITE_ENABLE, 0x06);
    assert_eq!(PAGE_PROGRAM, 0x02);
    assert_eq!(SECTOR_ERASE, 0x20);
    assert_eq!(READ_STATUS, 0x05);
    assert_eq!(WRITE_IN_PROGRESS, 0x01);
    assert_eq!(PAGE_SIZE, 256);
    assert_eq!(COMMAND_REGISTER, 0x3ff4_2000);
    assert_eq!(ADDRESS_REGISTER, 0x3ff4_2004);
    assert_eq!(DATA_REGISTER, 0x3ff4_2080);
}

#[test]
fn new_driver_has_the_standard_settings() {
    let driver = FlashStorage::new(Scripted::new(&[], 0));
    assert_eq!(
        driver.settings(),
        Settings { address: STORE_ADDRESS, capacity: DEVICE_SIZE, retry_budget: RETRY_BUDGET }
    );
    assert_eq!(STORE_ADDRESS, 0x3F0000);
    assert!(driver.registers().transfers.is_empty());
    let custom = FlashStorage::with_settings(Scripted::new(&[], 0), settings(64, 2));
    assert_eq!(custom.settings(), settings(64, 2));
}

#[test]
fn wait_polls_until_the_busy_bit_clears() {
    let mut driver = FlashStorage::with_settings(Scripted::new(&[1, 3, 0xFF, 0xFE], 0), settings(64, 10));
    assert_eq!(driver.wait_for_ready(), Ok(()));
    let expected: Vec<Transfer> = [poll(1), poll(3), poll(0xFF), poll(0xFE)].concat();
    assert_eq!(driver.registers().transfers, expected);
}

#[test]
fn wait_returns_at_once_when_the_chip_is_ready() {
    let mut driver = FlashStorage::with_settings(Scripted::new(&[], 0), settings(64, 10));
    assert_eq!(driver.wait_for_ready(), Ok(()));
    assert_eq!(driver.registers().transfers, poll(0));
}

#[test]
fn wait_gives_up_when_the_budget_is_spent() {
    let mut driver = FlashStorage::with_settings(Scripted::new(&[], 1), settings(64, 7));
    assert_eq!(driver.wait_for_ready(), Err(Error::Timeout));
    assert_eq!(driver.registers().reads(), 7);
    assert_eq!(driver.registers().transfers.len(), 14);
}

#[test]
fn wait_succeeds_on_the_last_allowed_poll() {
    let mut driver = FlashStorage::with_settings(Scripted::new(&[1, 1, 0], 1), settings(64, 3));
    assert_eq!(driver.wait_for_ready(), Ok(()));
    assert_eq!(driver.registers().reads(), 3);
    let mut late = FlashStorage::with_settings(Scripted::new(&[1, 1, 1, 0], 1), settings(64, 3));
    assert_eq!(late.wait_for_ready(), Err(Error::Timeout));
    assert_eq!(late.registers().reads(), 3);
}

#[test]
fn wait_without_budget_times_out_without_polling() {
    let mut driver = FlashStorage::with_settings(Scripted::new(&[], 0), settings(64, 0));
    assert_eq!(driver.wait_for_ready(), Err(Error::Timeout));
    assert!(driver.registers().transfers.is_empty());
}

#[test]
fn stuck_chip_times_out_within_the_budget() {
    let mut chip = SimFlash::new(0x2000, 0);
    chip.jam();
    let mut driver = FlashStorage::with_settings(chip, settings(0x2000, 50));
    assert_eq!(driver.wait_for_ready(), Err(Error::Timeout));
    assert_eq!(driver.erase_sector(0), Err(Error::Timeout));
    assert_eq!(driver.write_bytes(0, &[1, 2, 3]), Err(Error::Timeout));
    let mut buffer = [7u8; 3];
    assert_eq!(driver.read_bytes(0, &mut buffer), Err(Error::Timeout));
    assert_eq!(buffer, [7u8; 3]);
    assert!(driver.registers().memory().iter().all(|&b| b == ERASED));
}

#[test]
fn erase_sends_enable_erase_and_address_between_two_waits() {
    let mut driver = FlashStorage::with_settings(Scripted::new(&[1, 0, 1, 1, 0], 0), settings(0x10_0000, 10));
    assert_eq!(driver.erase_sector(0x01_2000), Ok(()));
    let expected: Vec<Transfer> = [
        poll(1),
        poll(0),
        vec![
            Transfer::Write(COMMAND_REGISTER, WRITE_ENABLE),
            Transfer::Write(COMMAND_REGISTER, SECTOR_ERASE),
        ],
        load_address(0x01_2000),
        poll(1),
        poll(1),
        poll(0),
    ]
    .concat();
    assert_eq!(driver.registers().transfers, expected);
}

#[test]
fn erase_stops_at_a_first_wait_that_times_out() {
    let mut driver = FlashStorage::with_settings(Scripted::new(&[], 1), settings(0x1000, 2));
    assert_eq!(driver.erase_sector(0), Err(Error::Timeout));
    assert_eq!(driver.registers().transfers, [poll(1), poll(1)].concat());
}

#[test]
fn erase_reports_a_second_wait_that_times_out() {
    let mut driver = FlashStorage::with_settings(Scripted::new(&[0], 1), settings(0x1000, 2));
    assert_eq!(driver.erase_sector(0), Err(Error::Timeout));
    assert_eq!(driver.registers().transfers.len(), 2 + 2 + 4 + 4);
}

#[test]
fn erase_outside_the_device_is_refused() {
    let mut driver = FlashStorage::with_settings(Scripted::new(&[], 0), settings(0x1000, 5));
    assert_eq!(driver.erase_sector(0x1000), Err(Error::OutOfRange));
    assert_eq!(driver.erase_sector(u32::MAX), Err(Error::OutOfRange));
    assert!(driver.registers().transfers.is_empty());
    assert_eq!(driver.erase_sector(0x0FFF), Ok(()));
}

#[test]
fn read_selects_the_address_and_streams_the_bytes() {
    let mut driver = FlashStorage::with_settings(Scripted::new(&[0, 10, 20, 30], 0), settings(0x100_0000, 5));
    let mut buffer = [0u8; 3];
    assert_eq!(driver.read_bytes(0x00AB_CDEF, &mut buffer), Ok(()));
    assert_eq!(buffer, [10, 20, 30]);
    let expected: Vec<Transfer> = [
        poll(0),
        vec![Transfer::Write(COMMAND_REGISTER, READ_DATA)],
        vec![
            Transfer::Write(ADDRESS_REGISTER, 0xEF),
            Transfer::Write(ADDRESS_REGISTER + 1, 0xCD),
            Transfer::Write(ADDRESS_REGISTER + 2, 0xAB),
            Transfer::Write(ADDRESS_REGISTER + 3, 0x00),
        ],
        vec![
            Transfer::Read(DATA_REGISTER, 10),
            Transfer::Read(DATA_REGISTER, 20),
            Transfer::Read(DATA_REGISTER, 30),
        ],
    ]
    .concat();
    assert_eq!(driver.registers().transfers, expected);
}

#[test]
fn read_outside_the_device_is_refused() {
    let mut driver = FlashStorage::with_settings(Scripted::new(&[], 0), settings(100, 5));
    let mut buffer = [9u8; 8];
    assert_eq!(driver.read_bytes(93, &mut buffer), Err(Error::OutOfRange));
    assert_eq!(driver.read_bytes(101, &mut buffer[..0]), Err(Error::OutOfRange));
    assert_eq!(driver.read_bytes(u32::MAX, &mut buffer), Err(Error::OutOfRange));
    assert_eq!(buffer, [9u8; 8]);
    assert!(driver.registers().transfers.is_empty());
    assert_eq!(driver.read_bytes(92, &mut buffer), Ok(()));
    assert_eq!(driver.read_bytes(100, &mut buffer[..0]), Ok(()));
}

#[test]
fn write_outside_the_device_is_refused() {
    let mut driver = FlashStorage::with_settings(Scripted::new(&[], 0), settings(100, 5));
    assert_eq!(driver.write_bytes(96, &[0u8; 8]), Err(Error::OutOfRange));
    assert_eq!(driver.write_bytes(200, &[]), Err(Error::OutOfRange));
    assert!(driver.registers().transfers.is_empty());
    assert_eq!(driver.write_bytes(92, &[0u8; 8]), Ok(()));
}

#[test]
fn write_of_nothing_only_waits() {
    let mut driver = FlashStorage::with_settings(Scripted::new(&[], 0), settings(100, 5));
    assert_eq!(driver.write_bytes(10, &[]), Ok(()));
    assert_eq!(driver.registers().transfers, poll(0));
}

#[test]
fn write_programs_each_chunk_at_its_own_address() {
    let data = pattern(600);
    let start = 0x0001_0080;
    let mut driver = FlashStorage::with_settings(Scripted::new(&[], 0), settings(0x10_0000, 5));
    assert_eq!(driver.write_bytes(start, &data), Ok(()));
    let mut expected = poll(0);
    for (k, chunk) in data.chunks(256).enumerate() {
        expected.push(Transfer::Write(COMMAND_REGISTER, WRITE_ENABLE));
        expected.push(Transfer::Write(COMMAND_REGISTER, PAGE_PROGRAM));
        expected.extend(load_address(start + 256 * k as u32));
        expected.extend(chunk.iter().map(|&b| Transfer::Write(DATA_REGISTER, b)));
        expected.extend(poll(0));
    }
    assert_eq!(driver.registers().transfers, expected);
    let addresses: Vec<u32> = (0..3).map(|k| start + 256 * k).collect();
    assert_eq!(addresses, vec![0x0001_0080, 0x0001_0180, 0x0001_0280]);
}

#[test]
fn write_of_whole_pages_ends_with_a_full_chunk() {
    let data = pattern(512);
    let mut driver = FlashStorage::with_settings(Scripted::new(&[], 0), settings(0x1000, 5));
    assert_eq!(driver.write_bytes(0, &data), Ok(()));
    let programs = driver
        .registers()
        .transfers
        .iter()
        .filter(|t| **t == Transfer::Write(COMMAND_REGISTER, PAGE_PROGRAM))
        .count();
    assert_eq!(programs, 2);
    assert_eq!(driver.registers().transfers.len(), 2 + 2 * (2 + 4 + 256 + 2));
}

#[test]
fn write_stops_after_the_chunk_whose_wait_times_out() {
    let data = pattern(600);
    // Ready before the first chunk and after it, busy for ever after the second.
    let mut driver = FlashStorage::with_settings(Scripted::new(&[0, 0], 1), settings(0x1000, 3));
    assert_eq!(driver.write_bytes(0, &data), Err(Error::Timeout));
    let programs = driver
        .registers()
        .transfers
        .iter()
        .filter(|t| **t == Transfer::Write(COMMAND_REGISTER, PAGE_PROGRAM))
        .count();
    assert_eq!(programs, 2);
    assert_eq!(driver.registers().reads(), 1 + 1 + 3);
}

#[test]
fn written_bytes_read_back_after_erase() {
    let data = pattern(600);
    let start = SECTOR_SIZE + 0x80;
    let mut driver = FlashStorage::with_settings(SimFlash::new(0x3000, 3), settings(0x3000, 10));
    assert_eq!(driver.erase_sector(SECTOR_SIZE), Ok(()));
    assert_eq!(driver.write_bytes(start, &data), Ok(()));
    let mut back = vec![0u8; 600];
    assert_eq!(driver.read_bytes(start, &mut back), Ok(()));
    assert_eq!(back, data);
    let memory = driver.registers().memory();
    assert_eq!(&memory[start as usize..start as usize + 600], &data[..]);
    assert!(memory[..start as usize].iter().all(|&b| b == ERASED));
    assert!(memory[start as usize + 600..].iter().all(|&b| b == ERASED));
}

#[test]
fn chunks_do_not_overwrite_each_other() {
    let mut data = vec![0x11u8; 256];
    data.extend(vec![0x22u8; 256]);
    data.extend(vec![0x33u8; 10]);
    let mut driver = FlashStorage::with_settings(SimFlash::new(0x1000, 0), settings(0x1000, 4));
    assert_eq!(driver.write_bytes(0x100, &data), Ok(()));
    let memory = driver.registers().memory();
    assert!(memory[0x100..0x200].iter().all(|&b| b == 0x11));
    assert!(memory[0x200..0x300].iter().all(|&b| b == 0x22));
    assert!(memory[0x300..0x30A].iter().all(|&b| b == 0x33));
    assert_eq!(memory[0x30A], ERASED);
    assert_eq!(memory[0xFF], ERASED);
}

#[test]
fn writing_without_erasing_leaves_the_bitwise_and() {
    let mut driver = FlashStorage::with_settings(SimFlash::new(0x1000, 1), settings(0x1000, 4));
    assert_eq!(driver.write_bytes(8, &[0xF0, 0x0F, 0xAA]), Ok(()));
    assert_eq!(driver.write_bytes(8, &[0x3C, 0xFF, 0x55]), Ok(()));
    let mut back = [0u8; 3];
    assert_eq!(driver.read_bytes(8, &mut back), Ok(()));
    assert_eq!(back, [0x30, 0x0F, 0x00]);
    assert_eq!(driver.erase_sector(0), Ok(()));
    assert_eq!(driver.write_bytes(8, &[0x3C, 0xFF, 0x55]), Ok(()));
    assert_eq!(driver.read_bytes(8, &mut back), Ok(()));
    assert_eq!(back, [0x3C, 0xFF, 0x55]);
}

#[test]
fn erase_clears_one_sector_only() {
    let size = 3 * SECTOR_SIZE as usize;
    let mut driver = FlashStorage::with_settings(SimFlash::new(size, 2), settings(size as u32, 5));
    let zeros = vec![0u8; size];
    assert_eq!(driver.write_bytes(0, &zeros), Ok(()));
    assert!(driver.registers().memory().iter().all(|&b| b == 0));
    assert_eq!(driver.erase_sector(SECTOR_SIZE + 123), Ok(()));
    let memory = driver.registers().memory();
    let sector = SECTOR_SIZE as usize;
    assert!(memory[..sector].iter().all(|&b| b == 0));
    assert!(memory[sector..2 * sector].iter().all(|&b| b == ERASED));
    assert!(memory[2 * sector..].iter().all(|&b| b == 0));
}

#[test]
fn busy_chip_is_waited_for() {
    // The chip stays busy for three status reads after each program.
    let mut patient = FlashStorage::with_settings(SimFlash::new(0x1000, 3), settings(0x1000, 4));
    assert_eq!(patient.write_bytes(0, &pattern(300)), Ok(()));
    let mut hasty = FlashStorage::with_settings(SimFlash::new(0x1000, 3), settings(0x1000, 3));
    assert_eq!(hasty.write_bytes(0, &pattern(300)), Err(Error::Timeout));
    // The first chunk was programmed before the wait gave up.
    assert_eq!(&hasty.registers().memory()[..256], &pattern(300)[..256]);
    assert!(hasty.registers().memory()[256..].iter().all(|&b| b == ERASED));
}

#[test]
fn driver_interface_uses_the_configured_address() {
    let place = Settings { address: 0x800, capacity: 0x1000, retry_budget: 4 };
    let mut driver = FlashStorage::with_settings(SimFlash::new(0x1000, 1), place);
    let data = pattern(230);
    assert_eq!(driver.write(&data), Ok(()));
    assert_eq!(&driver.registers().memory()[0x800..0x800 + 230], &data[..]);
    let mut back = [0u8; 230];
    assert_eq!(driver.read(&mut back), Ok(()));
    assert_eq!(&back[..], &data[..]);
    assert_eq!(driver.settings(), place);
    let chip = driver.into_registers();
    assert_eq!(chip.memory()[0x800], data[0]);
}

#[test]
fn simulated_chip_answers_the_status_and_data_commands() {
    let mut chip = SimFlash::new(16, 2);
    assert_eq!(chip.read_byte(COMMAND_REGISTER), ERASED);
    chip.write_byte(COMMAND_REGISTER, READ_STATUS);
    assert_eq!(chip.read_byte(DATA_REGISTER), 0);
    // A program without write-enable is ignored.
    chip.write_byte(COMMAND_REGISTER, PAGE_PROGRAM);
    chip.write_byte(DATA_REGISTER, 0);
    assert_eq!(chip.memory()[0], ERASED);
    // An enabled program takes effect and keeps the chip busy for two polls.
    chip.write_byte(COMMAND_REGISTER, WRITE_ENABLE);
    chip.write_byte(COMMAND_REGISTER, PAGE_PROGRAM);
    for i in 0..4u32 {
        chip.write_byte(ADDRESS_REGISTER + i, if i == 0 { 5 } else { 0 });
    }
    chip.write_byte(DATA_REGISTER, 0x12);
    chip.write_byte(DATA_REGISTER, 0x34);
    chip.write_byte(COMMAND_REGISTER, READ_STATUS);
    assert_eq!(chip.read_byte(DATA_REGISTER), WRITE_IN_PROGRESS);
    assert_eq!(chip.read_byte(DATA_REGISTER), WRITE_IN_PROGRESS);
    assert_eq!(chip.read_byte(DATA_REGISTER), 0);
    assert_eq!(&chip.memory()[4..8], &[ERASED, 0x12, 0x34, ERASED]);
    chip.write_byte(COMMAND_REGISTER, READ_DATA);
    for i in 0..4u32 {
        chip.write_byte(ADDRESS_REGISTER + i, if i == 0 { 5 } else { 0 });
    }
    assert_eq!(chip.read_byte(DATA_REGISTER), 0x12);
    assert_eq!(chip.read_byte(DATA_REGISTER), 0x34);
    assert_eq!(chip.read_byte(DATA_REGISTER), ERASED);
    // Past the end of the memory nothing is stored and nothing is read.
    for i in 0..4u32 {
        chip.write_byte(ADDRESS_REGISTER + i, if i == 0 { 16 } else { 0 });
    }
    assert_eq!(chip.read_byte(DATA_REGISTER), ERASED);
}
