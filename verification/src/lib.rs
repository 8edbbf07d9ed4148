//! Core logic of a tray-based audio endpoint switcher: a persisted selection
//! record, a cycling rule for output devices, menu reconciliation against the
//! live device directory, continuous input-volume enforcement, and the event
//! dispatch that ties them together. The operating-system bindings live
//! outside this crate; everything here is pure and verified.

pub mod cache;
pub mod codec;
pub mod cycle;
pub mod device;
pub mod digits;
pub mod dispatch;
pub mod menu;
pub mod store;
pub mod sync;
