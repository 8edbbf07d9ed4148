use sound_cycle::cache::Cache;
use sound_cycle::cycle::{live_selected_outputs, next_device, next_output};

fn strings(ids: &[&str]) -> Vec<String> {
    ids.iter().map(|s| s.to_string()).collect()
}

#[test]
fn cycles_to_the_next_selected_output() {
    let selected = strings(&["A", "B", "C"]);
    let r = next_output(&"B".to_string(), &selected);
    assert_eq!(r, Some("C".to_string()));
}

#[test]
fn wraps_around_after_the_last_output() {
    let selected = strings(&["A", "B", "C"]);
    let r = next_output(&"C".to_string(), &selected);
    assert_eq!(r, Some("A".to_string()));
}

#[test]
fn empty_selection_is_a_no_op() {
    let selected: Vec<String> = Vec::new();
    let r = next_output(&"A".to_string(), &selected);
    assert_eq!(r, None);
}

#[test]
fn unknown_active_device_falls_back_to_first() {
    let selected = strings(&["A", "B", "C"]);
    let r = next_output(&"X".to_string(), &selected);
    assert_eq!(r, Some("A".to_string()));
}

#[test]
fn selected_devices_that_are_not_live_are_skipped() {
    let selected = strings(&["A", "B", "C"]);
    let live = strings(&["C", "A"]);
    let filtered = live_selected_outputs(&selected, &live);
    assert_eq!(filtered, strings(&["A", "C"]));
    let r = next_device(&"A".to_string(), &selected, &live);
    assert_eq!(r, Some("C".to_string()));
}

#[test]
fn no_live_selected_device_means_no_switch() {
    let selected = strings(&["A", "B"]);
    let live = strings(&["C"]);
    assert_eq!(next_device(&"C".to_string(), &selected, &live), None);
}

#[test]
fn toggle_adds_an_output_at_the_end() {
    let mut c = Cache::default();
    c.toggle_output_device("A".to_string());
    c.toggle_output_device("B".to_string());
    assert_eq!(c.output_devices, strings(&["A", "B"]));
}

#[test]
fn toggle_removes_an_output_keeping_order() {
    let mut c = Cache {
        output_devices: strings(&["A", "B", "C"]),
        input_devices: Vec::new(),
    };
    c.toggle_output_device("B".to_string());
    assert_eq!(c.output_devices, strings(&["A", "C"]));
}

#[test]
fn toggling_the_same_output_twice_restores_the_record() {
    let mut c = Cache {
        output_devices: strings(&["A", "B"]),
        input_devices: Vec::new(),
    };
    c.toggle_output_device("C".to_string());
    c.toggle_output_device("C".to_string());
    assert_eq!(c.output_devices, strings(&["A", "B"]));
}

#[test]
fn toggling_an_input_on_snapshots_the_live_volume() {
    let mut c = Cache::default();
    c.toggle_input_device("mic1".to_string(), 40);
    assert_eq!(c.input_devices, vec![("mic1".to_string(), 40u8)]);
}

#[test]
fn toggling_an_input_off_removes_the_entry_entirely() {
    let mut c = Cache::default();
    c.toggle_input_device("mic1".to_string(), 40);
    c.toggle_input_device("mic1".to_string(), 80);
    assert_eq!(c.input_devices, Vec::new());
}
