use sound_cycle::cache::Cache;
use sound_cycle::codec::{parse_record, serialize_record};
use sound_cycle::store::{
    cache, get_selected_input_devices, get_selected_output_devices, set_selected_input_devices,
    set_selected_output_devices,
};

fn strings(ids: &[&str]) -> Vec<String> {
    ids.iter().map(|s| s.to_string()).collect()
}

fn sample() -> Cache {
    Cache {
        output_devices: strings(&["A", "B"]),
        input_devices: vec![("mic1".to_string(), 40u8)],
    }
}

#[test]
fn stored_text_has_the_documented_layout() {
    let text = serialize_record(&sample());
    assert_eq!(text, "1\n2\n1 A\n1 B\n1\n4 mic1 40\n");
}

#[test]
fn empty_record_stores_as_header_and_zero_counts() {
    let text = serialize_record(&Cache::default());
    assert_eq!(text, "1\n0\n0\n");
}

#[test]
fn stored_text_reads_back_as_the_same_record() {
    let record = sample();
    let text = serialize_record(&record);
    let back = parse_record(&text).expect("stored text must parse");
    assert_eq!(back.output_devices, record.output_devices);
    assert_eq!(back.input_devices, record.input_devices);
}

#[test]
fn ids_with_spaces_and_line_breaks_round_trip() {
    let record = Cache {
        output_devices: vec!["{0.0.0}.{a b}".to_string(), "x\ny".to_string()],
        input_devices: vec![("id with spaces".to_string(), 100u8)],
    };
    let text = serialize_record(&record);
    let back = parse_record(&text).expect("stored text must parse");
    assert_eq!(back.output_devices, record.output_devices);
    assert_eq!(back.input_devices, record.input_devices);
}

#[test]
fn loading_and_resaving_keeps_the_stored_text_unchanged() {
    let text = serialize_record(&sample());
    let outputs = get_selected_output_devices(Some(&text));
    let resaved = set_selected_output_devices(Some(&text), outputs);
    assert_eq!(resaved, text);
    let inputs = get_selected_input_devices(Some(&text));
    let resaved = set_selected_input_devices(Some(&text), inputs);
    assert_eq!(resaved, text);
}

#[test]
fn missing_storage_loads_as_the_empty_record() {
    let c = cache(None);
    assert_eq!(c.output_devices, Vec::<String>::new());
    assert_eq!(c.input_devices, Vec::new());
}

#[test]
fn corrupt_storage_loads_as_the_empty_record() {
    for text in ["", "garbage", "1\n2\n1 A\n", "2\n0\n0\n", "1\n0\n0\ntrailing"] {
        let c = cache(Some(text));
        assert_eq!(c.output_devices, Vec::<String>::new(), "text: {text:?}");
        assert_eq!(c.input_devices, Vec::new(), "text: {text:?}");
    }
}

#[test]
fn out_of_range_volume_is_rejected() {
    assert!(parse_record("1\n0\n1\n4 mic1 101\n").is_none());
    assert!(parse_record("1\n0\n1\n4 mic1 100\n").is_some());
}

#[test]
fn duplicate_ids_are_rejected() {
    assert!(parse_record("1\n2\n1 A\n1 A\n0\n").is_none());
    assert!(parse_record("1\n0\n2\n4 mic1 10\n4 mic1 20\n").is_none());
}

#[test]
fn selections_survive_a_save_and_load() {
    let text = set_selected_output_devices(None, strings(&["A", "C"]));
    let text = set_selected_input_devices(Some(&text), vec![("mic1".to_string(), 40u8)]);
    assert_eq!(get_selected_output_devices(Some(&text)), strings(&["A", "C"]));
    assert_eq!(get_selected_input_devices(Some(&text)), vec![("mic1".to_string(), 40u8)]);
}
