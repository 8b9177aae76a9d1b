use rugus::hal::sd::{boot_read_len, init_status, read_command, ready_seen, SdStatus, READ_POLLS};
use rugus::hal::i2c::{scan_record, SCAN_COUNT};
use rugus::hal::flash::{FlashError, FlashWindow, WINDOW_BASE};
use rugus::hal::gpio::{
    bsrr_word, configure, toggle_word, BluePillLed, DiscoLed, FieldWrite, Mode, OutputType,
    PinConfig, Port, Pull, Speed, AFRH, MODER, OSPEEDR, OTYPER, PUPDR,
};
use rugus::hal::hm20::{build_name_cmd, AtReply, AtVerdict, contains, name_fits, set_name_cmd, window_has_error, window_has_ok, Hm20Config};
use rugus::hal::rcc::Clocks;
use rugus::hal::reset::{read_and_clear, read_reset_cause, save_fault, take_fault, F4ResetCause, FaultRecord, ResetCause};
use rugus::hal::uart::RxRing;
use rugus::hal::wdt::{Keys, Watchdog, KEY_RELOAD, KEY_START};

#[test]
fn reset_cause_priority() {
    assert_eq!(read_reset_cause(0x2C00_0000), ResetCause::IndependentWatchdog);
    assert_eq!(read_reset_cause(0x0C00_0000), ResetCause::PowerOn);
    assert_eq!(read_reset_cause(0), ResetCause::Unknown);
    assert_eq!(ResetCause::Pin.name(), "pin-reset");
    assert_eq!(read_and_clear(0x0600_0000), (F4ResetCause::Brownout, 0x0700_0000));
}

#[test]
fn fault_record_roundtrip() {
    let (d1, d2) = save_fault(2, 3);
    assert_eq!((d1, d2), (0xF502, 3));
    assert_eq!(take_fault(d1, d2), Some(FaultRecord { kind: 2, task: 3 }));
    assert_eq!(take_fault(0, 3), None);
}

#[test]
fn flash_window_checks() {
    assert_eq!(FlashWindow::new().base, WINDOW_BASE);
    assert!(FlashWindow::in_window(0x1_FFFF, 1));
    assert!(!FlashWindow::in_window(0x1_FFFF, 2));
    assert_eq!(FlashWindow::check(0x2_0000, 1), Err(FlashError::OutOfRange));
    assert_eq!(FlashWindow::status(0x10), Err(FlashError::Hw(0x10)));
    assert_eq!(FlashWindow::status(0x01), Ok(()));
}

#[test]
fn gpio_output_config_and_words() {
    let w = configure(5, PinConfig::output());
    assert_eq!(w.len(), 4);
    assert_eq!(w[0], FieldWrite { reg: OTYPER, clear: 1 << 5, set: 0 });
    assert_eq!(w[3], FieldWrite { reg: MODER, clear: 3 << 10, set: 1 << 10 });
    assert_eq!(w[1].reg, OSPEEDR);
    assert_eq!(w[2].reg, PUPDR);
    let cfg = PinConfig {
        mode: Mode::Alternate(7),
        otype: OutputType::OpenDrain,
        speed: Speed::VeryHigh,
        pull: Pull::Up,
    };
    let w = configure(9, cfg);
    assert_eq!(w[0], FieldWrite { reg: AFRH, clear: 0xF << 4, set: 7 << 4 });
    assert_eq!(bsrr_word(3, true), 1 << 3);
    assert_eq!(bsrr_word(3, false), 1 << 19);
    assert_eq!(toggle_word(3, 1 << 3), 1 << 19);
    assert_eq!(toggle_word(3, 0), 1 << 3);
    assert_eq!(DiscoLed::Blue.pin(), 15);
    assert_eq!(BluePillLed::Pc13.crh_output(0xFFFF_FFFF), 0xFF2F_FFFF);
    assert_eq!(Port::D.base(), 0x4002_0C00);
}

#[test]
fn hm20_answers_and_commands() {
    assert!(window_has_ok(b"\r\nOK+Set"));
    assert!(!window_has_ok(b"O K"));
    assert!(window_has_error(b"xxERRORxx"));
    assert!(!contains(b"abc", b""));
    assert!(contains(b"abc", b"bc"));
    assert_eq!(set_name_cmd("RUGUS"), Some(b"AT+NAMERUGUS".to_vec()));
    assert_eq!(set_name_cmd("ABCDEFGHIJKLMNOPQRSTUVWXYZ"), None);
    assert!(name_fits("RUGUS"));
    let mut buf = [0u8; 8];
    let n = build_name_cmd(&mut buf, b"AT+NAME", b"XY");
    assert_eq!(n, 8);
    assert_eq!(&buf, b"AT+NAMEX");
    let cfg = Hm20Config::default();
    assert_eq!(cfg.name, "RUGUS");
    assert_eq!(cfg.baud, 9600);
}

#[test]
fn rcc_clocks() {
    assert_eq!(Clocks::pll_168().sysclk_mhz(), 168);
    assert_eq!(Clocks::pll_168().pclk1, 42_000_000);
    assert_eq!(Clocks::hsi().sysclk_mhz(), 8);
}

#[test]
fn uart_ring_drops_on_overflow() {
    let mut r = RxRing::new();
    for b in 0..255u8 {
        r.push(b);
    }
    r.push(0xEE);
    assert_eq!(r.rx_overruns(), 1);
    assert_eq!(r.pop(), Some(0));
    assert_eq!(r.pop(), Some(1));
    r.count_overrun();
    assert_eq!(r.rx_overruns(), 2);
    let mut e = RxRing::new();
    assert_eq!(e.pop(), None);
}

#[test]
fn watchdog_keys() {
    let mut w = Watchdog::init();
    assert!(!w.is_armed());
    assert_eq!(w.kick(), None);
    assert_eq!(w.arm(), Keys { start: Some(KEY_START), reload: Some(KEY_RELOAD) });
    assert_eq!(w.arm(), Keys { start: None, reload: Some(KEY_RELOAD) });
    assert_eq!(w.kick(), Some(KEY_RELOAD));
    assert!(!Watchdog::disabled().is_armed());
}

#[test]
fn at_reply_verdicts() {
    let mut r = AtReply::new();
    assert_eq!(r.push(b'x'), AtVerdict::Pending);
    assert_eq!(r.push(b'O'), AtVerdict::Pending);
    assert_eq!(r.push(b'K'), AtVerdict::Accepted);
    let mut e = AtReply::new();
    for b in b"ERROR" {
        e.push(*b);
    }
    assert_eq!(e.push(b'\r'), AtVerdict::Refused);
    assert!(!e.accepted_at_timeout());
    let mut full = AtReply::new();
    for _ in 0..32 {
        full.push(b'.');
    }
    assert_eq!(full.push(b'O'), AtVerdict::Pending);
    assert_eq!(full.push(b'K'), AtVerdict::Pending, "bytes past the window are dropped");
}

#[test]
fn i2c_scan_keeps_answering_addresses_in_order() {
    let mut acks = vec![false; SCAN_COUNT];
    for addr in [0x08usize, 0x3c, 0x50, 0x68, 0x77] {
        acks[addr - 0x08] = true;
    }
    let mut found = [0u8; 8];
    assert_eq!(scan_record(&acks, &mut found), 5);
    assert_eq!(&found[..5], &[0x08, 0x3c, 0x50, 0x68, 0x77]);
    assert_eq!(&found[5..], &[0, 0, 0]);
    let mut small = [9u8; 2];
    assert_eq!(scan_record(&acks, &mut small), 2);
    assert_eq!(small, [0x08, 0x3c]);
    let none = vec![false; SCAN_COUNT];
    assert_eq!(scan_record(&none, &mut found), 0);
}

#[test]
fn sd_commands_and_decisions() {
    assert_eq!(read_command(0), [0x51, 0, 0, 0, 0, 0xFF]);
    assert_eq!(read_command(0x0102_0304), [0x51, 1, 2, 3, 4, 0xFF]);
    assert_eq!(init_status(0x01, &[0xFF, 0xFF, 0x00]), SdStatus::Ready);
    assert_eq!(init_status(0x05, &[0x00]), SdStatus::Absent);
    assert_eq!(init_status(0x01, &[0xFF; 1000]), SdStatus::Absent);
    let mut late = vec![0xFFu8; 1000];
    late.push(0x00);
    assert_eq!(init_status(0x01, &late), SdStatus::Absent);
    assert!(ready_seen(&[0xFE, 0x00], READ_POLLS));
    assert_eq!(boot_read_len(SdStatus::Ready, 16), 16);
    assert_eq!(boot_read_len(SdStatus::Ready, 4096), 512);
    assert_eq!(boot_read_len(SdStatus::Absent, 16), 0);
}
