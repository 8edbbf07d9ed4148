//! Snapshots of the live device directory. The audio subsystem owns the real
//! devices; the core only ever sees their stable ids, display names and — for
//! inputs — the volume read at snapshot time, and must re-fetch a snapshot
//! for every reconciliation pass.

use vstd::prelude::*;

verus! {

/// One live output device, as enumerated by the audio subsystem.
pub struct Device {
    /// Stable opaque id, unique within its class.
    pub id: String,
    /// Human-readable display name; not necessarily unique.
    pub name: String,
}

/// One live input device, with the volume it had when the snapshot was taken.
pub struct InputDevice {
    /// Stable opaque id, unique within its class.
    pub id: String,
    /// Human-readable display name; not necessarily unique.
    pub name: String,
    /// Live volume at snapshot time, in `0..=MAX_VOLUME`.
    pub volume: u8,
}

} // verus!
