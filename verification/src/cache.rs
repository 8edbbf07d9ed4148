//! The selection record: which output devices the user cycles through and
//! which input devices have a cached target volume. The record is the sole
//! source of truth for what the user wants; live device state is supplied by
//! the caller on every pass.

use vstd::prelude::*;

verus! {

/// Highest volume a device can be set to; volumes live in `0..=MAX_VOLUME`.
pub const MAX_VOLUME: u8 = 100;

/// Mathematical model of a selection record: output ids in cycling order,
/// and input ids each paired with a cached target volume.
pub struct CacheModel {
    pub outputs: Seq<Seq<char>>,
    pub inputs: Seq<(Seq<char>, u8)>,
}

/// The ids of a sequence of owned strings, as sequences of characters.
pub open spec fn out_ids(v: Seq<String>) -> Seq<Seq<char>> {
    v.map_values(|s: String| s@)
}

/// The id/volume pairs of a sequence of owned entries, at the model level.
pub open spec fn in_pairs(v: Seq<(String, u8)>) -> Seq<(Seq<char>, u8)> {
    v.map_values(|p: (String, u8)| (p.0@, p.1))
}

/// No id occurs twice.
pub open spec fn distinct_ids(s: Seq<Seq<char>>) -> bool {
    forall|i: int, j: int| 0 <= i < j < s.len() ==> s[i] != s[j]
}

/// No key occurs twice among the input entries.
pub open spec fn distinct_keys(s: Seq<(Seq<char>, u8)>) -> bool {
    forall|i: int, j: int| 0 <= i < j < s.len() ==> s[i].0 != s[j].0
}

/// The cached volume for `id`, if `id` is selected (first match).
pub open spec fn input_lookup(s: Seq<(Seq<char>, u8)>, id: Seq<char>) -> Option<u8>
    decreases s.len(),
{
    if s.len() == 0 {
        None
    } else if s[0].0 == id {
        Some(s[0].1)
    } else {
        input_lookup(s.drop_first(), id)
    }
}

impl CacheModel {
    /// Record invariant: output ids are distinct, input keys are distinct,
    /// and every cached volume is within range.
    pub open spec fn wf(self) -> bool {
        &&& distinct_ids(self.outputs)
        &&& distinct_keys(self.inputs)
        &&& forall|i: int| 0 <= i < self.inputs.len() ==> self.inputs[i].1 <= MAX_VOLUME
    }

    /// The record of a first run: nothing selected.
    pub open spec fn empty() -> CacheModel {
        CacheModel { outputs: Seq::empty(), inputs: Seq::empty() }
    }
}

/// The persisted selection record.
pub struct Cache {
    /// Output device ids, in the order they were selected; this order is the
    /// cycling order.
    pub output_devices: Vec<String>,
    /// Input device ids, each with the target volume cached when it was
    /// selected.
    pub input_devices: Vec<(String, u8)>,
}

impl View for Cache {
    type V = CacheModel;

    open spec fn view(&self) -> CacheModel {
        CacheModel { outputs: out_ids(self.output_devices@), inputs: in_pairs(self.input_devices@) }
    }
}

impl Default for Cache {
    /// An empty record, used on first run and whenever stored data is
    /// unreadable.
    fn default() -> (c: Cache)
        ensures
            c@ == CacheModel::empty(),
            c@.wf(),
    {
        let c = Cache { output_devices: Vec::new(), input_devices: Vec::new() };
        proof {
            assert(c@.outputs =~= Seq::<Seq<char>>::empty());
            assert(c@.inputs =~= Seq::<(Seq<char>, u8)>::empty());
        }
        c
    }
}

/// What toggling an output id does to the selected outputs: remove its first
/// occurrence if present, otherwise append it at the end.
pub open spec fn toggle_out_spec(s: Seq<Seq<char>>, id: Seq<char>) -> Seq<Seq<char>> {
    if s.contains(id) {
        s.remove_value(id)
    } else {
        s.push(id)
    }
}

/// What toggling an input id does to the selected inputs: remove its entry if
/// present, otherwise append it with `vol` as the cached target.
pub open spec fn toggle_in_spec(s: Seq<(Seq<char>, u8)>, id: Seq<char>, vol: u8) -> Seq<
    (Seq<char>, u8),
> {
    match first_key_index(s, id) {
        Some(i) => s.remove(i),
        None => s.push((id, vol)),
    }
}

/// Index of the first entry whose key is `id`, if any.
pub open spec fn first_key_index(s: Seq<(Seq<char>, u8)>, id: Seq<char>) -> Option<int>
    decreases s.len(),
{
    if s.len() == 0 {
        None
    } else if s[0].0 == id {
        Some(0)
    } else {
        match first_key_index(s.drop_first(), id) {
            Some(i) => Some(i + 1),
            None => None,
        }
    }
}

impl Cache {
    /// Toggle membership of an output device in the cycling selection.
    pub fn toggle_output_device(&mut self, id: String)
        ensures
            final(self)@.outputs == toggle_out_spec(old(self)@.outputs, id@),
            final(self)@.inputs == old(self)@.inputs,
            old(self)@.wf() ==> final(self)@.wf(),
    {
        let ghost ids = out_ids(self.output_devices@);
        let mut i: usize = 0;
        while i < self.output_devices.len()
            invariant
                *self == *old(self),
                i <= self.output_devices.len(),
                ids == out_ids(self.output_devices@),
                forall|k: int| 0 <= k < i ==> ids[k] != id@,
            decreases self.output_devices.len() - i,
        {
            if self.output_devices[i] == id {
                proof {
                    assert(ids[i as int] == id@);
                    ids.index_of_first_ensures(id@);
                    assert(ids.index_of_first(id@) == Some(i as int));
                    lemma_out_ids_remove(self.output_devices@, i as int);
                }
                self.output_devices.remove(i);
                proof {
                    lemma_remove_keeps_distinct(ids, i as int);
                }
                return ;
            }
            i += 1;
        }
        proof {
            assert(forall|k: int| 0 <= k < ids.len() ==> ids[k] != id@);
            assert(!ids.contains(id@));
            lemma_out_ids_push(self.output_devices@, id);
        }
        self.output_devices.push(id);
    }

    /// Toggle membership of an input device. When the device becomes
    /// selected, `live_volume` — its volume at the moment of the toggle — is
    /// cached as the target to enforce from now on.
    pub fn toggle_input_device(&mut self, id: String, live_volume: u8)
        requires
            live_volume <= MAX_VOLUME,
        ensures
            final(self)@.inputs == toggle_in_spec(old(self)@.inputs, id@, live_volume),
            final(self)@.outputs == old(self)@.outputs,
            old(self)@.wf() ==> final(self)@.wf(),
    {
        let ghost pairs = in_pairs(self.input_devices@);
        let mut i: usize = 0;
        while i < self.input_devices.len()
            invariant
                *self == *old(self),
                i <= self.input_devices.len(),
                pairs == in_pairs(self.input_devices@),
                forall|k: int| 0 <= k < i ==> pairs[k].0 != id@,
            decreases self.input_devices.len() - i,
        {
            if self.input_devices[i].0 == id {
                proof {
                    assert(pairs[i as int].0 == id@);
                    lemma_first_key_index_found(pairs, id@, i as int);
                    lemma_in_pairs_remove(self.input_devices@, i as int);
                }
                self.input_devices.remove(i);
                proof {
                    lemma_remove_keeps_wf_inputs(pairs, i as int);
                }
                return ;
            }
            i += 1;
        }
        proof {
            assert(forall|k: int| 0 <= k < pairs.len() ==> pairs[k].0 != id@);
            lemma_first_key_index_none(pairs, id@);
            lemma_in_pairs_push(self.input_devices@, id, live_volume);
        }
        self.input_devices.push((id, live_volume));
    }
}

/// Whether `id` equals one of the owned strings in `ids`.
pub fn contains_id(ids: &Vec<String>, id: &String) -> (r: bool)
    ensures
        r == out_ids(ids@).contains(id@),
{
    let ghost m = out_ids(ids@);
    let mut i: usize = 0;
    while i < ids.len()
        invariant
            i <= ids.len(),
            m == out_ids(ids@),
            forall|k: int| 0 <= k < i ==> m[k] != id@,
        decreases ids.len() - i,
    {
        if ids[i] == *id {
            proof {
                assert(m[i as int] == id@);
            }
            return true;
        }
        i += 1;
    }
    proof {
        assert(forall|k: int| 0 <= k < m.len() ==> m[k] != id@);
    }
    false
}

/// The cached target volume for `id` among the owned input entries, if any.
pub fn input_member(inputs: &Vec<(String, u8)>, id: &String) -> (r: Option<u8>)
    ensures
        r == input_lookup(in_pairs(inputs@), id@),
{
    let ghost pairs = in_pairs(inputs@);
    let mut i: usize = 0;
    while i < inputs.len()
        invariant
            i <= inputs.len(),
            pairs == in_pairs(inputs@),
            forall|k: int| 0 <= k < i ==> pairs[k].0 != id@,
        decreases inputs.len() - i,
    {
        if inputs[i].0 == *id {
            proof {
                assert(pairs[i as int].0 == id@);
                lemma_first_key_index_found(pairs, id@, i as int);
                lemma_input_lookup_index(pairs, id@);
            }
            return Some(inputs[i].1);
        }
        i += 1;
    }
    proof {
        assert(forall|k: int| 0 <= k < pairs.len() ==> pairs[k].0 != id@);
        lemma_first_key_index_none(pairs, id@);
        lemma_input_lookup_index(pairs, id@);
    }
    None
}

proof fn lemma_out_ids_remove(v: Seq<String>, i: int)
    requires
        0 <= i < v.len(),
    ensures
        out_ids(v.remove(i)) =~= out_ids(v).remove(i),
{
}

proof fn lemma_out_ids_push(v: Seq<String>, s: String)
    ensures
        out_ids(v.push(s)) =~= out_ids(v).push(s@),
{
}

proof fn lemma_in_pairs_remove(v: Seq<(String, u8)>, i: int)
    requires
        0 <= i < v.len(),
    ensures
        in_pairs(v.remove(i)) =~= in_pairs(v).remove(i),
{
}

proof fn lemma_in_pairs_push(v: Seq<(String, u8)>, id: String, vol: u8)
    ensures
        in_pairs(v.push((id, vol))) =~= in_pairs(v).push((id@, vol)),
{
}

proof fn lemma_remove_keeps_distinct(s: Seq<Seq<char>>, i: int)
    requires
        0 <= i < s.len(),
    ensures
        distinct_ids(s) ==> distinct_ids(s.remove(i)),
{
    s.remove_ensures(i);
}

proof fn lemma_remove_keeps_wf_inputs(s: Seq<(Seq<char>, u8)>, i: int)
    requires
        0 <= i < s.len(),
    ensures
        distinct_keys(s) ==> distinct_keys(s.remove(i)),
        (forall|k: int| 0 <= k < s.len() ==> s[k].1 <= MAX_VOLUME) ==> (forall|k: int|
            0 <= k < s.remove(i).len() ==> s.remove(i)[k].1 <= MAX_VOLUME),
{
    s.remove_ensures(i);
}

/// `first_key_index` finds exactly the first entry with the given key.
pub proof fn lemma_first_key_index_found(s: Seq<(Seq<char>, u8)>, id: Seq<char>, i: int)
    requires
        0 <= i < s.len(),
        s[i].0 == id,
        forall|k: int| 0 <= k < i ==> s[k].0 != id,
    ensures
        first_key_index(s, id) == Some(i),
    decreases s.len(),
{
    if i > 0 {
        lemma_first_key_index_found(s.drop_first(), id, i - 1);
    }
}

/// When no entry has the given key, `first_key_index` finds nothing.
pub proof fn lemma_first_key_index_none(s: Seq<(Seq<char>, u8)>, id: Seq<char>)
    requires
        forall|k: int| 0 <= k < s.len() ==> s[k].0 != id,
    ensures
        first_key_index(s, id) is None,
    decreases s.len(),
{
    if s.len() > 0 {
        lemma_first_key_index_none(s.drop_first(), id);
    }
}

/// `input_lookup` agrees with `first_key_index`: both find the first entry
/// with the given key, or both find nothing.
pub proof fn lemma_input_lookup_index(s: Seq<(Seq<char>, u8)>, id: Seq<char>)
    ensures
        match first_key_index(s, id) {
            Some(i) => {
                &&& 0 <= i < s.len()
                &&& s[i].0 == id
                &&& forall|k: int| 0 <= k < i ==> s[k].0 != id
                &&& input_lookup(s, id) == Some(s[i].1)
            },
            None => {
                &&& forall|k: int| 0 <= k < s.len() ==> #[trigger] s[k].0 != id
                &&& input_lookup(s, id) is None
            },
        },
    decreases s.len(),
{
    if s.len() > 0 && s[0].0 != id {
        let t = s.drop_first();
        lemma_input_lookup_index(t, id);
        assert(forall|k: int| 0 <= k < t.len() ==> #[trigger] t[k] == s[k + 1]);
        match first_key_index(t, id) {
            Some(i) => {
                assert(first_key_index(s, id) == Some(i + 1));
                assert(forall|k: int| 1 <= k < i + 1 ==> s[k] == t[k - 1]);
            },
            None => {
                assert(forall|k: int| 1 <= k < s.len() ==> s[k] == t[k - 1]);
            },
        }
    }
}

/// Toggling the same output id twice returns the selected outputs to their
/// original content and order, provided the id, when already selected, is the
/// most recently selected one. (Toggling off an id selected earlier and then
/// re-selecting it moves it to the end of the cycling order.)
pub proof fn lemma_toggle_output_pairing(s: Seq<Seq<char>>, id: Seq<char>)
    requires
        distinct_ids(s),
        s.contains(id) ==> s.last() == id,
    ensures
        toggle_out_spec(toggle_out_spec(s, id), id) == s,
{
    if s.contains(id) {
        s.index_of_first_ensures(id);
        let i = s.index_of_first(id)->Some_0;
        assert(s[i] == id);
        assert(i == s.len() - 1) by {
            if i < s.len() - 1 {
                assert(s[i] != s[s.len() - 1]);
            }
        }
        let t = s.remove(i);
        assert(t =~= s.drop_last());
        assert(forall|k: int| 0 <= k < t.len() ==> t[k] != id);
        assert(!t.contains(id));
        assert(toggle_out_spec(t, id) == t.push(id));
        assert(t.push(id) =~= s);
    } else {
        assert(forall|k: int| 0 <= k < s.len() ==> s[k] != id);
        let t = s.push(id);
        assert(t[s.len() as int] == id);
        assert(t.contains(id));
        t.index_of_first_ensures(id);
        let j = t.index_of_first(id)->Some_0;
        assert(j == s.len()) by {
            if j < s.len() {
                assert(t[j] == s[j]);
            }
        }
        assert(t.remove(j) =~= s);
    }
}

/// Toggling an input id that is not yet selected records `vol` as its cached
/// target, and toggling it again removes the entry entirely, restoring the
/// original record.
pub proof fn lemma_toggle_input_pairing(s: Seq<(Seq<char>, u8)>, id: Seq<char>, vol: u8)
    requires
        input_lookup(s, id) is None,
    ensures
        input_lookup(toggle_in_spec(s, id, vol), id) == Some(vol),
        toggle_in_spec(toggle_in_spec(s, id, vol), id, vol) == s,
{
    lemma_input_lookup_index(s, id);
    let t = s.push((id, vol));
    assert(toggle_in_spec(s, id, vol) == t);
    lemma_first_key_index_found(t, id, s.len() as int);
    lemma_input_lookup_index(t, id);
    assert(t.remove(s.len() as int) =~= s);
}

} // verus!
