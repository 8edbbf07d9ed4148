//! The selection store's compute half. Reading and writing the per-user file
//! is the caller's job; these functions turn the stored text into a record
//! and back. Loading fails soft: missing or unreadable text yields the empty
//! default record, so a first run and a corrupt file are alike and non-fatal.
//! Saving renders the full record; the caller overwrites the file with it.

use vstd::prelude::*;
use crate::cache::{Cache, CacheModel, MAX_VOLUME, distinct_ids, distinct_keys, in_pairs, out_ids};
use crate::codec::{
    lemma_record_round_trip, parse_record, parse_record_spec, ser_record, serialize_record,
};

verus! {

/// The view of optionally present stored text.
pub open spec fn content_view(content: Option<&str>) -> Option<Seq<char>> {
    match content {
        None => None,
        Some(s) => Some(s@),
    }
}

/// What loading yields: the parsed record, or the empty default when nothing
/// is stored or the text is rejected.
pub open spec fn load_spec(content: Option<Seq<char>>) -> CacheModel {
    match content {
        None => CacheModel::empty(),
        Some(s) => match parse_record_spec(s) {
            Some(m) => m,
            None => CacheModel::empty(),
        },
    }
}

/// Round-trip persistence: when the stored text is the rendering of any
/// well-formed, machine-representable record, loading it and saving the
/// result writes back exactly the same text.
pub proof fn lemma_save_load_no_op(m: CacheModel)
    requires
        m.wf(),
        m.outputs.len() <= usize::MAX as nat,
        m.inputs.len() <= usize::MAX as nat,
        forall|i: int| 0 <= i < m.outputs.len() ==> (#[trigger] m.outputs[i]).len() <= usize::MAX
            as nat,
        forall|i: int| 0 <= i < m.inputs.len() ==> (#[trigger] m.inputs[i]).0.len() <= usize::MAX
            as nat,
    ensures
        load_spec(Some(ser_record(m))) == m,
        ser_record(load_spec(Some(ser_record(m)))) == ser_record(m),
{
    lemma_record_round_trip(m);
}

/// The record held by the stored text, with read failures recovered into the
/// empty default. `content` is `None` when no stored text exists.
pub fn cache(content: Option<&str>) -> (c: Cache)
    ensures
        c@ == load_spec(content_view(content)),
        c@.wf(),
{
    match content {
        None => Cache::default(),
        Some(s) => match parse_record(s) {
            Some(c) => c,
            None => Cache::default(),
        },
    }
}

/// The selected output device ids, in cycling order.
pub fn get_selected_output_devices(content: Option<&str>) -> (r: Vec<String>)
    ensures
        out_ids(r@) == load_spec(content_view(content)).outputs,
{
    let c = cache(content);
    c.output_devices
}

/// The selected input device ids with their cached target volumes.
pub fn get_selected_input_devices(content: Option<&str>) -> (r: Vec<(String, u8)>)
    ensures
        in_pairs(r@) == load_spec(content_view(content)).inputs,
{
    let c = cache(content);
    c.input_devices
}

/// The stored text after replacing the selected outputs, leaving the
/// selected inputs as the stored text had them.
pub fn set_selected_output_devices(content: Option<&str>, devices: Vec<String>) -> (r: String)
    requires
        distinct_ids(out_ids(devices@)),
    ensures
        r@ == ser_record(
            CacheModel {
                outputs: out_ids(devices@),
                inputs: load_spec(content_view(content)).inputs,
            },
        ),
{
    let mut c = cache(content);
    c.output_devices = devices;
    serialize_record(&c)
}

/// The stored text after replacing the selected inputs, leaving the selected
/// outputs as the stored text had them.
pub fn set_selected_input_devices(content: Option<&str>, devices: Vec<(String, u8)>) -> (r: String)
    requires
        distinct_keys(in_pairs(devices@)),
        forall|i: int| 0 <= i < devices@.len() ==> (#[trigger] devices@[i]).1 <= MAX_VOLUME,
    ensures
        r@ == ser_record(
            CacheModel {
                outputs: load_spec(content_view(content)).outputs,
                inputs: in_pairs(devices@),
            },
        ),
{
    let mut c = cache(content);
    c.input_devices = devices;
    serialize_record(&c)
}

} // verus!
