//! Mirror-and-control library for a single HID audio peripheral.
//!
//! The device offers no readback channel: every command is fire and forget,
//! so this crate keeps an authoritative in-memory model of the device
//! configuration and guarantees that the model never leaves a consistent
//! state.  It covers the feature catalog and its current values, the
//! dependency and mutual-exclusion resolver that keeps cross-feature
//! invariants intact across cascading changes, the binary payload codec that
//! turns a feature address and value into the device's frame pairs, and the
//! sparse profile snapshot/replay built on the same state model.
//!
//! Transport writes and file storage are left to the embedding program: the
//! resolver returns the frame pairs to transmit, in order, and the profile
//! operations work on plain in-memory records.

use vstd::prelude::*;

pub mod codec;
pub mod device;
pub mod laws;
pub mod profile;
pub mod registry;

pub use codec::{Payload, channel_divisor, create_payload, decode_channel_value, format_hex};
pub use codec::value_to_bytes;
pub use codec::{DIVISOR_LIMIT, VALUE_LIMIT};
pub use device::BlasterXG6;
pub use profile::ProfileEntry;
pub use registry::{DeviceError, Feature, FeatureModel, FeatureType, Format, ValueModel};
pub use registry::{EqBand, Equalizer, SoundFeature, default_features};

verus! {

/// USB vendor id of the supported device.
pub const VENDOR_ID: u16 = 0x041e;

/// USB product id of the supported device.
pub const PRODUCT_ID: u16 = 0x3256;

/// USB interface number the control channel lives on.
pub const INTERFACE: i32 = 4;

} // verus!
