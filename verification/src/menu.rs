//! The menu reconciler: join a live device snapshot with the selection record
//! into an ordered, checkable presentation list. The list is rebuilt in full
//! on every pass, in enumeration order of the live snapshot, so identical
//! inputs always produce an identical menu; devices that are selected but not
//! live are silently omitted.

use vstd::prelude::*;
use vstd::string::StringExecFns;
use crate::cache::{Cache, contains_id, input_lookup, input_member};
use crate::device::{Device, InputDevice};
use crate::digits::{append_dec, dec_digits};

verus! {

/// One row of the presentation list, derived and never persisted.
pub struct MenuEntry {
    /// The device's stable id; clicking the row toggles this id.
    pub id: String,
    /// The text shown to the user.
    pub label: String,
    /// Whether the row carries a check mark.
    pub checked: bool,
}

/// An input device's label: its name with the live volume in brackets.
pub open spec fn input_label(name: Seq<char>, vol: u8) -> Seq<char> {
    name + seq![' ', '['] + dec_digits(vol as nat) + seq![']']
}

/// Render an input device's label, embedding the live volume.
fn make_input_label(name: &String, vol: u8) -> (r: String)
    ensures
        r@ == input_label(name@, vol),
{
    let mut s = name.clone();
    s.append(" [");
    append_dec(&mut s, vol as usize);
    s.append("]");
    proof {
        reveal_strlit(" [");
        reveal_strlit("]");
        assert(s@ =~= input_label(name@, vol));
    }
    s
}

/// Build the output-device menu: exactly one entry per live device, in
/// enumeration order, labelled with the device's name and checked exactly
/// when the device is in the cycling selection.
pub fn build_output_menu(live: &Vec<Device>, record: &Cache) -> (r: Vec<MenuEntry>)
    ensures
        r@.len() == live@.len(),
        forall|i: int|
            0 <= i < live@.len() ==> {
                &&& (#[trigger] r@[i]).id@ == live@[i].id@
                &&& r@[i].label@ == live@[i].name@
                &&& r@[i].checked == record@.outputs.contains(live@[i].id@)
            },
{
    let mut r: Vec<MenuEntry> = Vec::new();
    let mut i: usize = 0;
    while i < live.len()
        invariant
            i <= live.len(),
            r@.len() == i,
            forall|k: int|
                0 <= k < i ==> {
                    &&& (#[trigger] r@[k]).id@ == live@[k].id@
                    &&& r@[k].label@ == live@[k].name@
                    &&& r@[k].checked == record@.outputs.contains(live@[k].id@)
                },
        decreases live.len() - i,
    {
        let checked = contains_id(&record.output_devices, &live[i].id);
        r.push(MenuEntry { id: live[i].id.clone(), label: live[i].name.clone(), checked });
        i += 1;
    }
    r
}

/// Build the input-device menu: exactly one entry per live device, in
/// enumeration order, labelled with the device's name and live volume and
/// checked exactly when the device has a cached target volume. The label
/// shows the live volume, not the cached target, so drift is visible until
/// the synchronizer corrects it.
pub fn build_input_menu(live: &Vec<InputDevice>, record: &Cache) -> (r: Vec<MenuEntry>)
    ensures
        r@.len() == live@.len(),
        forall|i: int|
            0 <= i < live@.len() ==> {
                &&& (#[trigger] r@[i]).id@ == live@[i].id@
                &&& r@[i].label@ == input_label(live@[i].name@, live@[i].volume)
                &&& r@[i].checked == (input_lookup(record@.inputs, live@[i].id@) is Some)
            },
{
    let mut r: Vec<MenuEntry> = Vec::new();
    let mut i: usize = 0;
    while i < live.len()
        invariant
            i <= live.len(),
            r@.len() == i,
            forall|k: int|
                0 <= k < i ==> {
                    &&& (#[trigger] r@[k]).id@ == live@[k].id@
                    &&& r@[k].label@ == input_label(live@[k].name@, live@[k].volume)
                    &&& r@[k].checked == (input_lookup(record@.inputs, live@[k].id@) is Some)
                },
        decreases live.len() - i,
    {
        let checked = input_member(&record.input_devices, &live[i].id).is_some();
        let label = make_input_label(&live[i].name, live[i].volume);
        r.push(MenuEntry { id: live[i].id.clone(), label, checked });
        i += 1;
    }
    r
}

} // verus!
