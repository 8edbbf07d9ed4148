//! The cycling engine: given the ordered list of selected output ids and the
//! currently active output, compute which output to activate next. Selected
//! ids that are not live are filtered out first; issuing the actual switch
//! command is the caller's separate step.

use vstd::prelude::*;
use crate::cache::{contains_id, distinct_ids, out_ids};

verus! {

/// The id that cycling activates next: the element after the active id's
/// position, wrapping around; the first element when the active id is not in
/// the list.
pub open spec fn next_output_spec(ids: Seq<Seq<char>>, active: Seq<char>) -> Seq<char>
    recommends
        ids.len() > 0,
{
    match ids.index_of_first(active) {
        Some(i) => ids[(i + 1) % (ids.len() as int)],
        None => ids[0],
    }
}

/// Compute the next output device to activate. Returns `None` exactly when
/// the selection is empty, in which case cycling is a no-op.
pub fn next_output(active_id: &String, selected_ids: &Vec<String>) -> (r: Option<String>)
    ensures
        r is Some <==> selected_ids@.len() > 0,
        selected_ids@.len() > 0 ==> r->Some_0@ == next_output_spec(
            out_ids(selected_ids@),
            active_id@,
        ),
{
    let ghost ids = out_ids(selected_ids@);
    if selected_ids.len() == 0 {
        return None;
    }
    let mut i: usize = 0;
    while i < selected_ids.len()
        invariant
            i <= selected_ids.len(),
            ids == out_ids(selected_ids@),
            forall|k: int| 0 <= k < i ==> ids[k] != active_id@,
        decreases selected_ids.len() - i,
    {
        if selected_ids[i] == *active_id {
            proof {
                assert(ids[i as int] == active_id@);
                ids.index_of_first_ensures(active_id@);
                assert(ids.index_of_first(active_id@) == Some(i as int));
            }
            let next = (i + 1) % selected_ids.len();
            return Some(selected_ids[next].clone());
        }
        i += 1;
    }
    proof {
        assert(forall|k: int| 0 <= k < ids.len() ==> ids[k] != active_id@);
        ids.index_of_first_ensures(active_id@);
        if ids.index_of_first(active_id@) is Some {
            let j = ids.index_of_first(active_id@)->Some_0;
            assert(ids[j] == active_id@);
        }
    }
    Some(selected_ids[0].clone())
}

/// The selected ids that are currently live, in selection order.
pub open spec fn filter_live(sel: Seq<Seq<char>>, live: Seq<Seq<char>>) -> Seq<Seq<char>>
    decreases sel.len(),
{
    if sel.len() == 0 {
        Seq::empty()
    } else if live.contains(sel.last()) {
        filter_live(sel.drop_last(), live).push(sel.last())
    } else {
        filter_live(sel.drop_last(), live)
    }
}

/// Restrict the selected outputs to those that are live.
pub fn live_selected_outputs(selected: &Vec<String>, live_ids: &Vec<String>) -> (r: Vec<String>)
    ensures
        out_ids(r@) == filter_live(out_ids(selected@), out_ids(live_ids@)),
{
    let ghost sel = out_ids(selected@);
    let ghost live = out_ids(live_ids@);
    let mut r: Vec<String> = Vec::new();
    let mut i: usize = 0;
    proof {
        assert(out_ids(r@) =~= Seq::<Seq<char>>::empty());
        assert(sel.take(0) =~= Seq::<Seq<char>>::empty());
    }
    while i < selected.len()
        invariant
            i <= selected.len(),
            sel == out_ids(selected@),
            live == out_ids(live_ids@),
            out_ids(r@) == filter_live(sel.take(i as int), live),
        decreases selected.len() - i,
    {
        proof {
            assert(sel.take(i + 1).drop_last() =~= sel.take(i as int));
            assert(sel.take(i + 1).last() == sel[i as int]);
        }
        if contains_id(live_ids, &selected[i]) {
            let ghost r_prev = r@;
            r.push(selected[i].clone());
            proof {
                assert(out_ids(r@) =~= out_ids(r_prev).push(sel[i as int]));
            }
        }
        i += 1;
    }
    proof {
        assert(sel.take(selected@.len() as int) =~= sel);
    }
    r
}

/// The compute half of a cycling step: filter the selection down to the live
/// devices, then pick the next one after the active device. `None` exactly
/// when no selected device is live; the caller then skips the switch.
pub fn next_device(active_id: &String, selected: &Vec<String>, live_ids: &Vec<String>) -> (r: Option<
    String,
>)
    ensures
        r is Some <==> filter_live(out_ids(selected@), out_ids(live_ids@)).len() > 0,
        r is Some ==> r->Some_0@ == next_output_spec(
            filter_live(out_ids(selected@), out_ids(live_ids@)),
            active_id@,
        ),
{
    let devices = live_selected_outputs(selected, live_ids);
    next_output(active_id, &devices)
}

/// Cycling wraparound: when the active id sits at position `i` of a
/// duplicate-free selection, cycling activates the id at position
/// `(i + 1) % len`; after the last id it returns to the first.
pub proof fn lemma_cycling_wraparound(ids: Seq<Seq<char>>, i: int)
    requires
        distinct_ids(ids),
        0 <= i < ids.len(),
    ensures
        next_output_spec(ids, ids[i]) == ids[(i + 1) % (ids.len() as int)],
{
    ids.index_of_first_ensures(ids[i]);
    let j = ids.index_of_first(ids[i])->Some_0;
    assert(ids[j] == ids[i]);
    assert(j == i) by {
        if j < i {
            assert(ids[j] != ids[i]);
        }
        if i < j {
            assert(ids[i] != ids[j]);
        }
    }
}

/// Cycling fallback: when the active id is not among the selected ids,
/// cycling activates the first selected id.
pub proof fn lemma_cycling_fallback(ids: Seq<Seq<char>>, active: Seq<char>)
    requires
        ids.len() > 0,
        !ids.contains(active),
    ensures
        next_output_spec(ids, active) == ids[0],
{
    ids.index_of_first_ensures(active);
}

} // verus!
