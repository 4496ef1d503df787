//! The write capability over the HID transport, and the driver's failure
//! taxonomy.
//!
//! The core never opens or discovers devices; it only writes reports through
//! an injected [`HidAdapter`].  Implementations live outside the library (the
//! real device handle, or a test double).

use vstd::prelude::*;

verus! {

/// Failure categories of the driver.
#[derive(Clone, Copy, Debug, PartialEq, Eq, Structural)]
pub enum DriverError {
    /// No matching device was found.
    DiscoveryFailure,
    /// A matching device was found but could not be opened.
    TransportOpenFailure,
    /// A report write failed mid-frame.
    TransportWriteFailure,
    /// The font asset could not be read or parsed.
    AssetFailure,
}

/// Vendor identifier of the eligible display device.
pub const DEVICE_VENDOR_ID: u16 = 0x4B42;

/// Product identifier of the eligible display device.
pub const DEVICE_PRODUCT_ID: u16 = 0x6072;

/// Usage page of the eligible display device.
pub const DEVICE_USAGE_PAGE: u16 = 0xFF60;

/// Device eligibility: a device qualifies exactly when its vendor
/// identifier, product identifier and usage page all match the fixed
/// constants of the deployment.
pub fn is_my_device(vendor_id: u16, product_id: u16, usage_page: u16) -> (r: bool)
    ensures
        r == (vendor_id == DEVICE_VENDOR_ID && product_id == DEVICE_PRODUCT_ID && usage_page
            == DEVICE_USAGE_PAGE),
{
    vendor_id == DEVICE_VENDOR_ID && product_id == DEVICE_PRODUCT_ID && usage_page
        == DEVICE_USAGE_PAGE
}

/// Write capability over the transport: one blocking raw-byte write per
/// report, reporting how many bytes were accepted or a failure.  Nothing is
/// assumed about implementations; callers state only what holds whatever an
/// implementation returns.
pub trait HidAdapter {
    fn write(&self, data: &[u8]) -> Result<usize, DriverError>;
}

} // verus!
