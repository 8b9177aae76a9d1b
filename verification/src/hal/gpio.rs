//! GPIO: pin configurations and the register fields they set (STM32F4),
//! the board LEDs, and the bit-set/reset words that drive a pin.
use vstd::prelude::*;

verus! {

/// GPIO port of the STM32F4.
#[derive(Clone, Copy, Debug, PartialEq, Eq, Structural)]
pub enum Port {
    A,
    B,
    C,
    D,
    E,
    F,
    G,
    H,
    I,
}

/// Index of each port (A = 0).
pub open spec fn port_index(p: Port) -> u32 {
    match p {
        Port::A => 0,
        Port::B => 1,
        Port::C => 2,
        Port::D => 3,
        Port::E => 4,
        Port::F => 5,
        Port::G => 6,
        Port::H => 7,
        Port::I => 8,
    }
}

/// First GPIO register block.
pub const GPIO_BASE: u32 = 0x4002_0000;
/// Distance between two ports' register blocks.
pub const GPIO_STRIDE: u32 = 0x400;

impl Port {
    /// Index of the port (A = 0).
    pub fn index(self) -> (r: u32)
        ensures
            r == port_index(self),
    {
        match self {
            Port::A => 0,
            Port::B => 1,
            Port::C => 2,
            Port::D => 3,
            Port::E => 4,
            Port::F => 5,
            Port::G => 6,
            Port::H => 7,
            Port::I => 8,
        }
    }

    /// Base address of the port's registers.
    pub fn base(self) -> (r: u32)
        ensures
            r == GPIO_BASE + GPIO_STRIDE * port_index(self),
    {
        GPIO_BASE + GPIO_STRIDE * self.index()
    }
}

/// Pin mode.
#[derive(Clone, Copy, Debug, PartialEq, Eq, Structural)]
pub enum Mode {
    /// Digital input.
    Input,
    /// General purpose output.
    Output,
    /// Alternate function `0..=15`.
    Alternate(u8),
    /// Analog.
    Analog,
}

/// Pull resistor.
#[derive(Clone, Copy, Debug, PartialEq, Eq, Structural)]
pub enum Pull {
    /// Floating.
    Floating,
    /// Pull-up.
    Up,
    /// Pull-down.
    Down,
}

/// Output speed.
#[derive(Clone, Copy, Debug, PartialEq, Eq, Structural)]
pub enum Speed {
    Low,
    Medium,
    High,
    VeryHigh,
}

/// Output driver.
#[derive(Clone, Copy, Debug, PartialEq, Eq, Structural)]
pub enum OutputType {
    /// Push-pull.
    PushPull,
    /// Open drain.
    OpenDrain,
}

/// Configuration of a pin.
#[derive(Clone, Copy, Debug, PartialEq, Eq, Structural)]
pub struct PinConfig {
    /// Mode.
    pub mode: Mode,
    /// Pull resistor.
    pub pull: Pull,
    /// Output speed.
    pub speed: Speed,
    /// Output driver.
    pub otype: OutputType,
}

impl PinConfig {
    /// Push-pull output, low speed, no pull.
    pub fn output() -> (r: Self)
        ensures
            r == (PinConfig { mode: Mode::Output, pull: Pull::Floating, speed: Speed::Low, otype: OutputType::PushPull }),
    {
        PinConfig { mode: Mode::Output, pull: Pull::Floating, speed: Speed::Low, otype: OutputType::PushPull }
    }

    /// Input with the given pull.
    pub fn input(pull: Pull) -> (r: Self)
        ensures
            r == (PinConfig { mode: Mode::Input, pull, speed: Speed::Low, otype: OutputType::PushPull }),
    {
        PinConfig { mode: Mode::Input, pull, speed: Speed::Low, otype: OutputType::PushPull }
    }
}

/// Offsets of the port registers.
pub const MODER: u32 = 0x00;
/// Output type register.
pub const OTYPER: u32 = 0x04;
/// Output speed register.
pub const OSPEEDR: u32 = 0x08;
/// Pull register.
pub const PUPDR: u32 = 0x0C;
/// Input data register.
pub const IDR: u32 = 0x10;
/// Output data register.
pub const ODR: u32 = 0x14;
/// Bit set/reset register.
pub const BSRR: u32 = 0x18;
/// Alternate function register, pins 0-7.
pub const AFRL: u32 = 0x20;
/// Alternate function register, pins 8-15.
pub const AFRH: u32 = 0x24;

/// A read-modify-write of a port register: clear `clear`, then set `set`.
#[derive(Clone, Copy, Debug, PartialEq, Eq, Structural)]
pub struct FieldWrite {
    /// Register offset.
    pub reg: u32,
    /// Bits cleared.
    pub clear: u32,
    /// Bits set.
    pub set: u32,
}

/// The 2-bit code of each mode.
pub open spec fn mode_bits(m: Mode) -> u32 {
    match m {
        Mode::Input => 0,
        Mode::Output => 1,
        Mode::Alternate(_) => 2,
        Mode::Analog => 3,
    }
}

/// The 2-bit code of each pull.
pub open spec fn pull_bits(p: Pull) -> u32 {
    match p {
        Pull::Floating => 0,
        Pull::Up => 1,
        Pull::Down => 2,
    }
}

/// The 2-bit code of each speed.
pub open spec fn speed_bits(s: Speed) -> u32 {
    match s {
        Speed::Low => 0,
        Speed::Medium => 1,
        Speed::High => 2,
        Speed::VeryHigh => 3,
    }
}

/// The register writes that configure pin `pin` (`0..16`) as `cfg`, in
/// order: alternate function (when used), output type, speed, pull, mode.
pub open spec fn configure_writes(pin: u32, cfg: PinConfig) -> Seq<FieldWrite> {
    let two = pin * 2;
    let af = match cfg.mode {
        Mode::Alternate(a) => if pin < 8 {
            seq![FieldWrite { reg: AFRL, clear: (0xFu32 << (pin * 4) as u32), set: ((a as u32) & 0xF) << (pin * 4) as u32 }]
        } else {
            seq![FieldWrite { reg: AFRH, clear: (0xFu32 << ((pin - 8) * 4) as u32), set: ((a as u32) & 0xF) << ((pin - 8) * 4) as u32 }]
        },
        _ => Seq::empty(),
    };
    let ot = match cfg.otype {
        OutputType::PushPull => FieldWrite { reg: OTYPER, clear: 1u32 << pin, set: 0 },
        OutputType::OpenDrain => FieldWrite { reg: OTYPER, clear: 1u32 << pin, set: 1u32 << pin },
    };
    af + seq![
        ot,
        FieldWrite { reg: OSPEEDR, clear: 3u32 << two as u32, set: speed_bits(cfg.speed) << two as u32 },
        FieldWrite { reg: PUPDR, clear: 3u32 << two as u32, set: pull_bits(cfg.pull) << two as u32 },
        FieldWrite { reg: MODER, clear: 3u32 << two as u32, set: mode_bits(cfg.mode) << two as u32 }
    ]
}

/// The register writes that configure pin `pin` as `cfg`.
pub fn configure(pin: u8, cfg: PinConfig) -> (r: Vec<FieldWrite>)
    requires
        pin < 16,
    ensures
        r@ == configure_writes(pin as u32, cfg),
{
    let p = pin as u32;
    let two = p * 2;
    let mut out: Vec<FieldWrite> = Vec::new();
    match cfg.mode {
        Mode::Alternate(af) => {
            let a = (af as u32) & 0xF;
            if p < 8 {
                out.push(FieldWrite { reg: AFRL, clear: 0xFu32 << (p * 4), set: a << (p * 4) });
            } else {
                let sh = (p - 8) * 4;
                out.push(FieldWrite { reg: AFRH, clear: 0xFu32 << sh, set: a << sh });
            }
        },
        _ => {},
    }
    match cfg.otype {
        OutputType::PushPull => out.push(FieldWrite { reg: OTYPER, clear: 1u32 << p, set: 0 }),
        OutputType::OpenDrain => out.push(FieldWrite { reg: OTYPER, clear: 1u32 << p, set: 1u32 << p }),
    }
    let ospeed: u32 = match cfg.speed {
        Speed::Low => 0,
        Speed::Medium => 1,
        Speed::High => 2,
        Speed::VeryHigh => 3,
    };
    let pupd: u32 = match cfg.pull {
        Pull::Floating => 0,
        Pull::Up => 1,
        Pull::Down => 2,
    };
    let mode: u32 = match cfg.mode {
        Mode::Input => 0,
        Mode::Output => 1,
        Mode::Alternate(_) => 2,
        Mode::Analog => 3,
    };
    out.push(FieldWrite { reg: OSPEEDR, clear: 3u32 << two, set: ospeed << two });
    out.push(FieldWrite { reg: PUPDR, clear: 3u32 << two, set: pupd << two });
    out.push(FieldWrite { reg: MODER, clear: 3u32 << two, set: mode << two });
    assert(out@ =~= configure_writes(pin as u32, cfg));
    out
}

/// Law (register encoding, RM0090): configuring pin `pin` ends with three
/// writes of its 2-bit fields: the output speed in `OSPEEDR` (offset 0x08;
/// low 0b00, medium 0b01, high 0b10, very high 0b11), the pull in `PUPDR`
/// (offset 0x0C; none 0b00, pull-up 0b01, pull-down 0b10) and the mode in
/// `MODER` (offset 0x00; input 0b00, output 0b01, alternate 0b10, analog
/// 0b11), each clearing the field at bit `2 * pin` first; before them the
/// output type bit in `OTYPER` (offset 0x04; open drain sets it).
pub proof fn lemma_configure_encoding(pin: u32, cfg: PinConfig)
    requires
        pin < 16,
    ensures
        ({
            let w = configure_writes(pin, cfg);
            let k = w.len() as int;
            let sh = (pin * 2) as u32;
            &&& k >= 4
            &&& w[k - 3].reg == 0x08u32 && w[k - 3].clear == 3u32 << sh
            &&& w[k - 2].reg == 0x0Cu32 && w[k - 2].clear == 3u32 << sh
            &&& w[k - 1].reg == 0x00u32 && w[k - 1].clear == 3u32 << sh
            &&& w[k - 4].reg == 0x04u32 && w[k - 4].clear == 1u32 << pin
            &&& (cfg.speed == Speed::Low ==> w[k - 3].set == 0u32 << sh)
            &&& (cfg.speed == Speed::Medium ==> w[k - 3].set == 1u32 << sh)
            &&& (cfg.speed == Speed::High ==> w[k - 3].set == 2u32 << sh)
            &&& (cfg.speed == Speed::VeryHigh ==> w[k - 3].set == 3u32 << sh)
            &&& (cfg.pull == Pull::Floating ==> w[k - 2].set == 0u32 << sh)
            &&& (cfg.pull == Pull::Up ==> w[k - 2].set == 1u32 << sh)
            &&& (cfg.pull == Pull::Down ==> w[k - 2].set == 2u32 << sh)
            &&& (cfg.mode == Mode::Input ==> w[k - 1].set == 0u32 << sh)
            &&& (cfg.mode == Mode::Output ==> w[k - 1].set == 1u32 << sh)
            &&& (cfg.mode is Alternate ==> w[k - 1].set == 2u32 << sh)
            &&& (cfg.mode == Mode::Analog ==> w[k - 1].set == 3u32 << sh)
            &&& (cfg.otype == OutputType::PushPull ==> w[k - 4].set == 0u32)
            &&& (cfg.otype == OutputType::OpenDrain ==> w[k - 4].set == 1u32 << pin)
            &&& (cfg.mode matches Mode::Alternate(a) ==> k == 5 && w[0].reg == (if pin < 8 { 0x20u32 } else { 0x24u32 }) && w[0].clear == 0xFu32
                << ((pin % 8) * 4) as u32 && w[0].set == ((a as u32) & 0xF) << ((pin % 8) * 4) as u32)
            &&& (!(cfg.mode is Alternate) ==> k == 4)
        }),
{
    let w = configure_writes(pin, cfg);
    let k = w.len() as int;
    assert(k >= 4);
}

/// `BSRR` word that drives pin `pin` high (`high`) or low.
pub fn bsrr_word(pin: u8, high: bool) -> (r: u32)
    requires
        pin < 16,
    ensures
        r == (if high { 1u32 << pin } else { 1u32 << (pin + 16) }),
{
    if high { 1u32 << pin } else { 1u32 << (pin + 16) }
}

/// `BSRR` word that inverts pin `pin` given the output register `odr`.
pub fn toggle_word(pin: u8, odr: u32) -> (r: u32)
    requires
        pin < 16,
    ensures
        r == (if odr & (1u32 << pin) != 0 { 1u32 << (pin + 16) } else { 1u32 << pin }),
{
    if odr & (1u32 << pin) != 0 { 1u32 << (pin + 16) } else { 1u32 << pin }
}

/// User LEDs of the STM32F4-Discovery (port D).
#[derive(Clone, Copy, Debug, PartialEq, Eq, Structural)]
pub enum DiscoLed {
    Green,
    Orange,
    Red,
    Blue,
}

impl DiscoLed {
    /// Pin of the LED on port D.
    pub fn pin(self) -> (r: u8)
        ensures
            r == match self {
                DiscoLed::Green => 12u8,
                DiscoLed::Orange => 13u8,
                DiscoLed::Red => 14u8,
                DiscoLed::Blue => 15u8,
            },
    {
        match self {
            DiscoLed::Green => 12,
            DiscoLed::Orange => 13,
            DiscoLed::Red => 14,
            DiscoLed::Blue => 15,
        }
    }
}

/// User LED of the Blue Pill (PC13).
#[derive(Clone, Copy, Debug, PartialEq, Eq, Structural)]
pub enum BluePillLed {
    Pc13,
}

impl BluePillLed {
    /// Pin of the LED on port C.
    pub fn pin(self) -> (r: u8)
        ensures
            r == 13,
    {
        match self {
            BluePillLed::Pc13 => 13,
        }
    }

    /// `GPIOC_CRH` after configuring the LED pin as a 2 MHz push-pull
    /// output.
    pub fn crh_output(self, crh: u32) -> (r: u32)
        ensures
            r == (crh & !(0xFu32 << 20u32)) | (0x2u32 << 20u32),
    {
        let shift = ((self.pin() - 8) as u32) * 4;
        (crh & !(0xFu32 << shift)) | (0x2u32 << shift)
    }
}

} // verus!
