use aegg_apple::flash::{
    answers, read, FlashError, Transfer, FAT_BYTES, FAT_OFFSET, FLASH_TOTAL_BYTES, KV_BYTES,
    PAGE_SIZE,
};

fn image() -> Vec<u8> {
    (0..FLASH_TOTAL_BYTES).map(|i| (i * 7 + i / 251) as u8).collect()
}

fn read_all(image: &[u8], addr: u32, data: &mut [u8]) -> Vec<Transfer> {
    let mut request = read(addr, data.len(), true).unwrap();
    let mut transfers = Vec::new();
    while let Some(t) = request.transfer() {
        let raw = &image[t.addr as usize..t.addr as usize + t.len];
        request.supply(raw, data);
        transfers.push(t);
    }
    transfers
}

#[test]
fn partitions_split_the_chip() {
    assert_eq!(FAT_OFFSET as usize, KV_BYTES);
    assert_eq!(KV_BYTES + FAT_BYTES, FLASH_TOTAL_BYTES);
    assert_eq!(FLASH_TOTAL_BYTES, 0x20_0000);
}

#[test]
fn an_empty_bus_is_no_chip() {
    assert!(!answers([0xFF, 0xFF, 0xFF]));
    assert!(!answers([0, 0, 0]));
    assert!(answers([0xBA, 0x60, 0x15]));
    assert!(answers([0xFF, 0xFF, 0]));
    assert!(answers([0, 0, 1]));
}

#[test]
fn a_small_unaligned_read_is_one_transfer() {
    let image = image();
    let mut data = [0u8; 5];
    let transfers = read_all(&image, 0x10_0003, &mut data);
    assert_eq!(
        transfers,
        vec![Transfer { addr: 0x10_0000, len: 8, skip: 3, usable: 5 }]
    );
    assert_eq!(data, image[0x10_0003..0x10_0008]);
}

#[test]
fn a_long_read_is_split_into_pages() {
    let image = image();
    let mut data = vec![0u8; 10_000];
    let transfers = read_all(&image, 0x10_0001, &mut data);
    assert_eq!(data, image[0x10_0001..0x10_0001 + 10_000]);
    assert_eq!(transfers.len(), 3);
    for t in &transfers {
        assert_eq!(t.addr % 4, 0);
        assert_eq!(t.len % 4, 0);
        assert!(t.len <= PAGE_SIZE);
        assert!(t.addr >= FAT_OFFSET);
    }
}

#[test]
fn the_last_byte_can_be_read() {
    let image = image();
    let mut data = [0u8; 1];
    read_all(&image, FLASH_TOTAL_BYTES as u32 - 1, &mut data);
    assert_eq!(data[0], image[FLASH_TOTAL_BYTES - 1]);
}

#[test]
fn an_empty_read_needs_no_transfer() {
    let request = read(FLASH_TOTAL_BYTES as u32, 0, true).unwrap();
    assert!(request.transfer().is_none());
}

#[test]
fn reads_past_the_end_are_refused() {
    let err = |addr: u32, len: usize, ready: bool| read(addr, len, ready).err();
    assert_eq!(err(FLASH_TOTAL_BYTES as u32, 1, true), Some(FlashError::OutOfBounds));
    assert_eq!(err(u32::MAX, usize::MAX, true), Some(FlashError::OutOfBounds));
    assert_eq!(err(0, FLASH_TOTAL_BYTES + 1, false), Some(FlashError::OutOfBounds));
    assert_eq!(err(0, FLASH_TOTAL_BYTES, false), Some(FlashError::NotInitialised));
    assert_eq!(err(0, FLASH_TOTAL_BYTES, true), None);
}

#[test]
fn a_failed_transfer_is_a_hardware_error() {
    let request = read(FAT_OFFSET, 4, true).unwrap();
    assert!(request.transfer().is_some());
    assert_eq!(request.failed(), FlashError::Hardware);
}
