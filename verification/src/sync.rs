//! The volume synchronizer: compare each live input device that has a cached
//! target volume against that target, and compute the set-volume commands
//! that bring the live state back. Devices without a cached target are never
//! touched. Issuing the commands is the caller's step; the computation here
//! is idempotent — once the commands have taken effect, a second pass
//! computes nothing.

use vstd::prelude::*;
use crate::cache::{Cache, in_pairs, input_lookup, input_member};
use crate::device::InputDevice;

verus! {

/// The set-volume commands a synchronizer pass issues: one `(id, target)`
/// pair for each live device, in enumeration order, whose id has a cached
/// target different from its live volume.
pub open spec fn enforce_spec(live: Seq<InputDevice>, sel: Seq<(Seq<char>, u8)>) -> Seq<
    (Seq<char>, u8),
>
    decreases live.len(),
{
    if live.len() == 0 {
        Seq::empty()
    } else {
        let rest = enforce_spec(live.drop_last(), sel);
        let d = live.last();
        match input_lookup(sel, d.id@) {
            Some(t) => if d.volume != t {
                rest.push((d.id@, t))
            } else {
                rest
            },
            None => rest,
        }
    }
}

/// Every live device with a cached target already sits at that target.
pub open spec fn in_sync(live: Seq<InputDevice>, sel: Seq<(Seq<char>, u8)>) -> bool {
    forall|i: int|
        0 <= i < live.len() ==> match input_lookup(sel, (#[trigger] live[i]).id@) {
            Some(t) => live[i].volume == t,
            None => true,
        }
}

/// The live state after the issued commands took effect: each device whose
/// id a command names sits at the commanded volume, every other device is
/// unchanged.
pub open spec fn apply_cmds(live: Seq<InputDevice>, cmds: Seq<(Seq<char>, u8)>) -> Seq<
    InputDevice,
> {
    live.map_values(
        |d: InputDevice|
            match input_lookup(cmds, d.id@) {
                Some(t) => InputDevice { id: d.id, name: d.name, volume: t },
                None => d,
            },
    )
}

/// Compute the set-volume corrections for one synchronizer pass.
pub fn enforce(live: &Vec<InputDevice>, record: &Cache) -> (cmds: Vec<(String, u8)>)
    ensures
        in_pairs(cmds@) == enforce_spec(live@, record@.inputs),
{
    let mut cmds: Vec<(String, u8)> = Vec::new();
    let mut i: usize = 0;
    proof {
        assert(in_pairs(cmds@) =~= Seq::<(Seq<char>, u8)>::empty());
        assert(live@.take(0) =~= Seq::<InputDevice>::empty());
    }
    while i < live.len()
        invariant
            i <= live.len(),
            in_pairs(cmds@) == enforce_spec(live@.take(i as int), record@.inputs),
        decreases live.len() - i,
    {
        proof {
            assert(live@.take(i + 1).drop_last() =~= live@.take(i as int));
            assert(live@.take(i + 1).last() == live@[i as int]);
        }
        match input_member(&record.input_devices, &live[i].id) {
            Some(t) => {
                if live[i].volume != t {
                    let ghost prev = cmds@;
                    cmds.push((live[i].id.clone(), t));
                    proof {
                        assert(in_pairs(cmds@) =~= in_pairs(prev).push((live@[i as int].id@, t)));
                    }
                }
            },
            None => {},
        }
        i += 1;
    }
    proof {
        assert(live@.take(live@.len() as int) =~= live@);
    }
    cmds
}

/// When everything is in sync, a pass issues no commands.
pub proof fn lemma_in_sync_no_commands(live: Seq<InputDevice>, sel: Seq<(Seq<char>, u8)>)
    requires
        in_sync(live, sel),
    ensures
        enforce_spec(live, sel) == Seq::<(Seq<char>, u8)>::empty(),
    decreases live.len(),
{
    if live.len() > 0 {
        assert(live.drop_last() =~= live.subrange(0, live.len() - 1));
        assert(forall|k: int| 0 <= k < live.len() - 1 ==> live.drop_last()[k] == live[k]);
        lemma_in_sync_no_commands(live.drop_last(), sel);
    }
}

/// Looking a key up after pushing one entry at the end: the front entries
/// win; the new entry is found only when the front has no match.
proof fn lemma_lookup_push(s: Seq<(Seq<char>, u8)>, p: (Seq<char>, u8), id: Seq<char>)
    ensures
        input_lookup(s.push(p), id) == if input_lookup(s, id) is Some {
            input_lookup(s, id)
        } else if p.0 == id {
            Some(p.1)
        } else {
            None
        },
    decreases s.len(),
{
    if s.len() == 0 {
        assert(s.push(p)[0] == p);
        assert(s.push(p).len() == 1);
        if p.0 != id {
            assert(s.push(p).drop_first() =~= Seq::<(Seq<char>, u8)>::empty());
        }
    } else {
        assert(s.push(p)[0] == s[0]);
        if s[0].0 != id {
            assert(s.push(p).drop_first() =~= s.drop_first().push(p));
            lemma_lookup_push(s.drop_first(), p, id);
        }
    }
}

/// Any command a pass issues carries the cached target of its id.
proof fn lemma_command_value(live: Seq<InputDevice>, sel: Seq<(Seq<char>, u8)>, id: Seq<char>)
    ensures
        input_lookup(enforce_spec(live, sel), id) is Some ==> input_lookup(
            enforce_spec(live, sel),
            id,
        ) == input_lookup(sel, id),
    decreases live.len(),
{
    if live.len() > 0 {
        lemma_command_value(live.drop_last(), sel, id);
        let rest = enforce_spec(live.drop_last(), sel);
        let d = live.last();
        match input_lookup(sel, d.id@) {
            Some(t) => {
                if d.volume != t {
                    lemma_lookup_push(rest, (d.id@, t), id);
                }
            },
            None => {},
        }
    }
}

/// A pass issues a command for every live device that is out of sync.
proof fn lemma_command_present(live: Seq<InputDevice>, sel: Seq<(Seq<char>, u8)>, i: int)
    requires
        0 <= i < live.len(),
        input_lookup(sel, live[i].id@) is Some,
        live[i].volume != input_lookup(sel, live[i].id@)->Some_0,
    ensures
        input_lookup(enforce_spec(live, sel), live[i].id@) is Some,
    decreases live.len(),
{
    let rest = enforce_spec(live.drop_last(), sel);
    let d = live.last();
    if i < live.len() - 1 {
        assert(live.drop_last()[i] == live[i]);
        lemma_command_present(live.drop_last(), sel, i);
        match input_lookup(sel, d.id@) {
            Some(t) => {
                if d.volume != t {
                    lemma_lookup_push(rest, (d.id@, t), live[i].id@);
                }
            },
            None => {},
        }
    } else {
        let t = input_lookup(sel, d.id@)->Some_0;
        lemma_lookup_push(rest, (d.id@, t), live[i].id@);
        lemma_command_value(live.drop_last(), sel, live[i].id@);
    }
}

/// Synchronizer idempotence: once the commands of a pass have taken effect
/// and nothing else changed the volumes, the next pass issues no commands.
pub proof fn lemma_enforce_idempotent(live: Seq<InputDevice>, sel: Seq<(Seq<char>, u8)>)
    ensures
        enforce_spec(apply_cmds(live, enforce_spec(live, sel)), sel) == Seq::<
            (Seq<char>, u8),
        >::empty(),
{
    let cmds = enforce_spec(live, sel);
    let after = apply_cmds(live, cmds);
    assert forall|i: int| 0 <= i < after.len() implies match input_lookup(
        sel,
        (#[trigger] after[i]).id@,
    ) {
        Some(t) => after[i].volume == t,
        None => true,
    } by {
        let d = live[i];
        lemma_command_value(live, sel, d.id@);
        match input_lookup(sel, d.id@) {
            Some(t) => {
                if input_lookup(cmds, d.id@) is Some {
                    assert(after[i].volume == t);
                } else {
                    if d.volume != t {
                        lemma_command_present(live, sel, i);
                    }
                    assert(after[i] == d);
                }
            },
            None => {
                assert(after[i].id@ == d.id@);
            },
        }
    }
    lemma_in_sync_no_commands(after, sel);
}

} // verus!
