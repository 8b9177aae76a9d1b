//! Cortex-M backend logic: MPU region encoding, fault attribution, and the
//! SysTick clock (with tickless idle).
pub mod fault;
pub mod mpu;
pub mod time;
