//! Clock trees of the two boards.
use vstd::prelude::*;

verus! {

/// Internal RC oscillator of the STM32F1 (8 MHz).
pub const HSI_HZ: u32 = 8_000_000;
/// External crystal of the STM32F4 board (8 MHz).
pub const HSE_HZ: u32 = 8_000_000;
/// System clock of the STM32F4 from the PLL (168 MHz).
pub const SYSCLK_HZ: u32 = 168_000_000;

/// Frequencies of the clock tree.
#[derive(Clone, Copy, Debug, PartialEq, Eq, Structural)]
pub struct Clocks {
    /// System clock.
    pub sysclk: u32,
    /// AHB clock.
    pub hclk: u32,
    /// APB1 clock.
    pub pclk1: u32,
    /// APB2 clock.
    pub pclk2: u32,
}

impl Clocks {
    /// System clock in whole MHz.
    pub fn sysclk_mhz(&self) -> (r: u32)
        ensures
            r == self.sysclk / 1_000_000,
    {
        self.sysclk / 1_000_000
    }

    /// STM32F1 tree: everything on the 8 MHz internal oscillator.
    pub fn hsi() -> (r: Clocks)
        ensures
            r == (Clocks { sysclk: HSI_HZ, hclk: HSI_HZ, pclk1: HSI_HZ, pclk2: HSI_HZ }),
    {
        Clocks { sysclk: HSI_HZ, hclk: HSI_HZ, pclk1: HSI_HZ, pclk2: HSI_HZ }
    }

    /// STM32F4 tree after the PLL is set up (HSE / 8 * 336 / 2): 168 MHz
    /// core, APB1 at a quarter, APB2 at a half.
    pub fn pll_168() -> (r: Clocks)
        ensures
            r == (Clocks { sysclk: SYSCLK_HZ, hclk: SYSCLK_HZ, pclk1: 42_000_000, pclk2: 84_000_000 }),
            r.sysclk == HSE_HZ / 8 * 336 / 2,
    {
        Clocks { sysclk: SYSCLK_HZ, hclk: SYSCLK_HZ, pclk1: SYSCLK_HZ / 4, pclk2: SYSCLK_HZ / 2 }
    }
}

} // verus!
