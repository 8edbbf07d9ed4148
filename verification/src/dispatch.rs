//! The event dispatcher's decision logic. All externally raised events —
//! tray clicks, menu clicks, timer ticks — arrive in one serialized stream;
//! each is mapped here to the single action the caller then performs. The
//! mapping is total and pure, so no event is ever handled two ways.

use vstd::prelude::*;
use crate::cache::{Cache, MAX_VOLUME, contains_id, out_ids, toggle_in_spec, toggle_out_spec};

verus! {

/// How the tray icon was clicked.
pub enum ClickKind {
    /// A plain left click.
    Left,
    /// Any other click: right, double, or auxiliary.
    Other,
}

/// One externally raised event, as the serialized stream delivers it.
pub enum TrayMenuEvent {
    /// The tray icon itself was clicked.
    TrayClick { kind: ClickKind },
    /// A menu row was clicked; `id` is the row's id.
    MenuClick { id: String },
    /// The fixed-interval timer fired.
    Tick,
}

/// The single action the caller performs for an event.
pub enum Action {
    /// Switch to the next selected output device, then refresh everything.
    CycleOutput,
    /// Refresh the icon, the menus and the enforced volumes.
    Refresh,
    /// Toggle the device with this id, then refresh everything.
    ToggleDevice { id: String },
    /// Terminate the process immediately; nothing further is persisted.
    Exit,
    /// Enforce the cached input volumes only.
    EnforceVolumes,
}

/// The action each event maps to: a left tray click cycles, any other tray
/// click refreshes, the exit row exits, any other menu row toggles its
/// device, and a tick enforces volumes.
pub open spec fn handle_spec(event: TrayMenuEvent) -> Action {
    match event {
        TrayMenuEvent::TrayClick { kind: ClickKind::Left } => Action::CycleOutput,
        TrayMenuEvent::TrayClick { kind: ClickKind::Other } => Action::Refresh,
        TrayMenuEvent::MenuClick { id } => if id@ == "exit"@ {
            Action::Exit
        } else {
            Action::ToggleDevice { id }
        },
        TrayMenuEvent::Tick => Action::EnforceVolumes,
    }
}

/// Route one event to its action.
pub fn handle(event: TrayMenuEvent) -> (a: Action)
    ensures
        a == handle_spec(event),
{
    match event {
        TrayMenuEvent::TrayClick { kind: ClickKind::Left } => Action::CycleOutput,
        TrayMenuEvent::TrayClick { kind: ClickKind::Other } => Action::Refresh,
        TrayMenuEvent::MenuClick { id } => {
            let exit_id: String = String::from_str("exit");
            if id == exit_id {
                Action::Exit
            } else {
                Action::ToggleDevice { id }
            }
        },
        TrayMenuEvent::Tick => Action::EnforceVolumes,
    }
}

/// Which selection a clicked menu row belongs to.
pub enum ToggleTarget {
    /// The id names a live output device.
    Output,
    /// The id names anything else; it is treated as an input device.
    Input,
}

/// Classify a clicked device id: it toggles the output selection exactly
/// when it is among the live output devices, and the input selection
/// otherwise.
pub fn classify_click(id: &String, live_output_ids: &Vec<String>) -> (t: ToggleTarget)
    ensures
        t is Output <==> out_ids(live_output_ids@).contains(id@),
{
    if contains_id(live_output_ids, id) {
        ToggleTarget::Output
    } else {
        ToggleTarget::Input
    }
}

/// Perform the toggle a menu click asks for: on the output selection when
/// the id is a live output device, otherwise on the input selection with
/// `live_volume` — the device's volume at click time — as the new cached
/// target.
pub fn device_clicked(
    record: &mut Cache,
    id: String,
    live_output_ids: &Vec<String>,
    live_volume: u8,
)
    requires
        live_volume <= MAX_VOLUME,
    ensures
        out_ids(live_output_ids@).contains(id@) ==> {
            &&& final(record)@.outputs == toggle_out_spec(old(record)@.outputs, id@)
            &&& final(record)@.inputs == old(record)@.inputs
        },
        !out_ids(live_output_ids@).contains(id@) ==> {
            &&& final(record)@.inputs == toggle_in_spec(old(record)@.inputs, id@, live_volume)
            &&& final(record)@.outputs == old(record)@.outputs
        },
        old(record)@.wf() ==> final(record)@.wf(),
{
    match classify_click(&id, live_output_ids) {
        ToggleTarget::Output => record.toggle_output_device(id),
        ToggleTarget::Input => record.toggle_input_device(id, live_volume),
    }
}

} // verus!
