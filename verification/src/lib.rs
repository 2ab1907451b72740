//! Edge-triggered tracking of polled button state: per-frame snapshots of the
//! buttons currently held become just-pressed and just-released transition
//! sets, alongside cursor position and per-frame displacement.

pub mod mouse;
