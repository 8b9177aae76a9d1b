use rugus::block::{BlockDevice, MockError, RamFlash};

#[test]
fn ram_flash_refuses_out_of_range() {
    let mut dev = RamFlash::new(2, 64, 16);
    let mut buf = [0u8; 8];
    assert_eq!(dev.read(124, &mut buf), Err(MockError::OutOfRange));
    assert_eq!(buf, [0u8; 8]);
    assert_eq!(dev.program(120, &[0u8; 16]), Err(MockError::OutOfRange));
    assert_eq!(dev.erase_sector(128), Err(MockError::OutOfRange));
    assert_eq!(dev.read(120, &mut buf[..8]), Ok(()));
    assert_eq!(buf, [0xFFu8; 8]);
}

#[test]
fn ram_flash_power_fail_programs_a_prefix() {
    let mut dev = RamFlash::new(2, 64, 16);
    dev.set_power_fail_after(2);
    assert_eq!(dev.program(4, &[0x0Fu8; 4]), Err(MockError::PowerFail));
    assert_eq!(&dev.raw()[4..8], &[0x0F, 0x0F, 0xFF, 0xFF]);
    assert_eq!(dev.program(6, &[0x0Fu8; 2]), Ok(()));
    assert_eq!(&dev.raw()[4..8], &[0x0F; 4]);
    assert_eq!(dev.erase_sector(10), Ok(()));
    assert_eq!(&dev.raw()[0..64], &[0xFFu8; 64][..]);
}
