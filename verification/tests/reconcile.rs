use sound_cycle::cache::Cache;
use sound_cycle::device::{Device, InputDevice};
use sound_cycle::dispatch::{
    classify_click, device_clicked, handle, Action, ClickKind, ToggleTarget, TrayMenuEvent,
};
use sound_cycle::menu::{build_input_menu, build_output_menu};
use sound_cycle::sync::enforce;

fn strings(ids: &[&str]) -> Vec<String> {
    ids.iter().map(|s| s.to_string()).collect()
}

fn output(id: &str, name: &str) -> Device {
    Device { id: id.to_string(), name: name.to_string() }
}

fn input(id: &str, name: &str, volume: u8) -> InputDevice {
    InputDevice { id: id.to_string(), name: name.to_string(), volume }
}

#[test]
fn output_menu_has_one_entry_per_live_device() {
    let live = vec![output("A", "Speakers"), output("B", "Headset")];
    let record = Cache { output_devices: strings(&["B"]), input_devices: Vec::new() };
    let menu = build_output_menu(&live, &record);
    assert_eq!(menu.len(), 2);
    assert_eq!(menu[0].id, "A");
    assert_eq!(menu[0].label, "Speakers");
    assert!(!menu[0].checked);
    assert_eq!(menu[1].id, "B");
    assert_eq!(menu[1].label, "Headset");
    assert!(menu[1].checked);
}

#[test]
fn selected_but_dead_devices_get_no_menu_entry() {
    let live = vec![output("A", "Speakers")];
    let record = Cache { output_devices: strings(&["Z", "A"]), input_devices: Vec::new() };
    let menu = build_output_menu(&live, &record);
    assert_eq!(menu.len(), 1);
    assert_eq!(menu[0].id, "A");
    assert!(menu[0].checked);
}

#[test]
fn menu_rebuild_is_stable_on_identical_inputs() {
    let live = vec![output("A", "Speakers"), output("B", "Headset")];
    let record = Cache { output_devices: strings(&["A"]), input_devices: Vec::new() };
    let first = build_output_menu(&live, &record);
    let second = build_output_menu(&live, &record);
    assert_eq!(first.len(), second.len());
    for (a, b) in first.iter().zip(second.iter()) {
        assert_eq!(a.id, b.id);
        assert_eq!(a.label, b.label);
        assert_eq!(a.checked, b.checked);
    }
}

#[test]
fn input_menu_labels_embed_the_live_volume() {
    let live = vec![input("mic1", "Microphone", 72)];
    let record = Cache {
        output_devices: Vec::new(),
        input_devices: vec![("mic1".to_string(), 40u8)],
    };
    let menu = build_input_menu(&live, &record);
    assert_eq!(menu.len(), 1);
    assert_eq!(menu[0].id, "mic1");
    assert_eq!(menu[0].label, "Microphone [72]");
    assert!(menu[0].checked);
}

#[test]
fn unselected_input_is_unchecked() {
    let live = vec![input("mic2", "Line In", 5)];
    let record = Cache { output_devices: Vec::new(), input_devices: Vec::new() };
    let menu = build_input_menu(&live, &record);
    assert_eq!(menu[0].label, "Line In [5]");
    assert!(!menu[0].checked);
}

#[test]
fn enforce_corrects_drift_back_to_the_cached_target() {
    let live = vec![input("mic1", "Microphone", 55)];
    let record = Cache {
        output_devices: Vec::new(),
        input_devices: vec![("mic1".to_string(), 40u8)],
    };
    let cmds = enforce(&live, &record);
    assert_eq!(cmds, vec![("mic1".to_string(), 40u8)]);
}

#[test]
fn enforce_leaves_unselected_devices_alone() {
    let live = vec![input("mic2", "Line In", 90)];
    let record = Cache {
        output_devices: Vec::new(),
        input_devices: vec![("mic1".to_string(), 40u8)],
    };
    assert_eq!(enforce(&live, &record), Vec::new());
}

#[test]
fn enforce_is_idempotent_once_commands_took_effect() {
    let record = Cache {
        output_devices: Vec::new(),
        input_devices: vec![("mic1".to_string(), 40u8), ("mic2".to_string(), 70u8)],
    };
    let live = vec![input("mic1", "Microphone", 55), input("mic2", "Line In", 70)];
    let cmds = enforce(&live, &record);
    assert_eq!(cmds, vec![("mic1".to_string(), 40u8)]);
    let corrected: Vec<InputDevice> = live
        .iter()
        .map(|d| {
            let target = cmds.iter().find(|c| c.0 == d.id).map(|c| c.1);
            InputDevice {
                id: d.id.clone(),
                name: d.name.clone(),
                volume: target.unwrap_or(d.volume),
            }
        })
        .collect();
    assert_eq!(enforce(&corrected, &record), Vec::new());
}

#[test]
fn left_tray_click_cycles() {
    let a = handle(TrayMenuEvent::TrayClick { kind: ClickKind::Left });
    assert!(matches!(a, Action::CycleOutput));
}

#[test]
fn other_tray_clicks_refresh() {
    let a = handle(TrayMenuEvent::TrayClick { kind: ClickKind::Other });
    assert!(matches!(a, Action::Refresh));
}

#[test]
fn exit_menu_row_exits() {
    let a = handle(TrayMenuEvent::MenuClick { id: "exit".to_string() });
    assert!(matches!(a, Action::Exit));
}

#[test]
fn device_menu_row_toggles_that_device() {
    let a = handle(TrayMenuEvent::MenuClick { id: "mic1".to_string() });
    match a {
        Action::ToggleDevice { id } => assert_eq!(id, "mic1"),
        _ => panic!("expected a toggle"),
    }
}

#[test]
fn tick_enforces_volumes_only() {
    let a = handle(TrayMenuEvent::Tick);
    assert!(matches!(a, Action::EnforceVolumes));
}

#[test]
fn clicks_are_routed_by_the_live_output_directory() {
    let outputs = strings(&["A", "B"]);
    assert!(matches!(classify_click(&"A".to_string(), &outputs), ToggleTarget::Output));
    assert!(matches!(classify_click(&"mic1".to_string(), &outputs), ToggleTarget::Input));
}

#[test]
fn clicking_an_output_row_toggles_the_output_selection() {
    let mut record = Cache::default();
    let outputs = strings(&["A"]);
    device_clicked(&mut record, "A".to_string(), &outputs, 0);
    assert_eq!(record.output_devices, strings(&["A"]));
    assert_eq!(record.input_devices, Vec::new());
}

#[test]
fn clicking_an_input_row_toggles_the_input_selection() {
    let mut record = Cache::default();
    let outputs = strings(&["A"]);
    device_clicked(&mut record, "mic1".to_string(), &outputs, 40);
    assert_eq!(record.output_devices, Vec::<String>::new());
    assert_eq!(record.input_devices, vec![("mic1".to_string(), 40u8)]);
}
