//! Rugus memory domains, mapped to MPU regions by the arch backend.
use vstd::prelude::*;

verus! {

/// Logical domain mapped to MPU regions by the arch backend.
#[derive(Clone, Copy, Debug, PartialEq, Eq, Structural)]
pub enum Domain {
    /// Kernel `.text` / `.data`: privileged only.
    Kernel,
    /// Peripherals and HAL drivers: privileged only.
    Drivers,
    /// User-land services.
    Services,
    /// Active user-land app.
    App,
}

impl Domain {
    /// Short name for logs.
    pub fn name(self) -> (r: &'static str)
        ensures
            self == Domain::Kernel ==> r@ == "Kernel"@,
            self == Domain::Drivers ==> r@ == "Drivers"@,
            self == Domain::Services ==> r@ == "Services"@,
            self == Domain::App ==> r@ == "App"@,
    {
        match self {
            Domain::Kernel => "Kernel",
            Domain::Drivers => "Drivers",
            Domain::Services => "Services",
            Domain::App => "App",
        }
    }

    /// Numeric tag of the domain (0 = Kernel … 3 = App).
    pub fn index(self) -> (r: u8)
        ensures
            r == domain_index(self),
    {
        match self {
            Domain::Kernel => 0,
            Domain::Drivers => 1,
            Domain::Services => 2,
            Domain::App => 3,
        }
    }
}

/// Numeric tag of a domain.
pub open spec fn domain_index(d: Domain) -> u8 {
    match d {
        Domain::Kernel => 0,
        Domain::Drivers => 1,
        Domain::Services => 2,
        Domain::App => 3,
    }
}

} // verus!
