//! Recording-device selection with the Bluetooth fallback: a Bluetooth
//! default device (variable latency) is swapped for the built-in one when
//! there is one; a wired default is used as it is.
use vstd::prelude::*;

verus! {

/// What to do with one default device.
pub enum DeviceStep<D> {
    /// There is no default device: record without this source.
    NoDevice,
    /// Use this device as it is.
    Use(D),
    /// Look for a built-in device; fall back to this one when there is none.
    FindBuiltin(D),
}

/// The first step for a default device: none, keep it, or (for a Bluetooth
/// device that is not to be kept) look for a built-in replacement.
pub fn device_step<D>(default: Option<D>, is_bluetooth: bool, keep_bluetooth: bool) -> (step: DeviceStep<D>)
    ensures
        match default {
            None => step is NoDevice,
            Some(d) => if is_bluetooth && !keep_bluetooth {
                step == DeviceStep::FindBuiltin(d)
            } else {
                step == DeviceStep::Use(d)
            },
        },
{
    match default {
        None => DeviceStep::NoDevice,
        Some(d) => {
            if is_bluetooth && !keep_bluetooth {
                DeviceStep::FindBuiltin(d)
            } else {
                DeviceStep::Use(d)
            }
        },
    }
}

/// The device chosen once the built-in lookup answered: the built-in one
/// when found, else the Bluetooth default.
pub fn settle_device<D>(fallback: D, builtin: Option<D>) -> (d: D)
    ensures
        d == match builtin {
            Some(b) => b,
            None => fallback,
        },
{
    match builtin {
        Some(b) => b,
        None => fallback,
    }
}

} // verus!
