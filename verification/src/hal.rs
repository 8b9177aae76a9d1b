//! Board support logic of the STM32F1 and STM32F4 ports: decoding of reset
//! and fault status, clock trees, watchdog keys, serial receive ring, GPIO
//! register fields, the I2C bus scan, the SD card commands, the HM-20 BLE
//! module's AT dialogue and the flash window.
//! The register accesses themselves stay in the firmware.
pub mod flash;
pub mod gpio;
pub mod hm20;
pub mod i2c;
pub mod rcc;
pub mod sd;
pub mod reset;
pub mod uart;
pub mod wdt;
