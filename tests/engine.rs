use overbind::axis::{AxisBinding, StickAxis};
use overbind::binding::{parse_binding, parse_bindings, Action, BindingRecord, ConfigError, KeyCheck, RecordFault, TargetKind};
use overbind::engine::{EventOutcome, KeyInterceptor, KeyState};

fn rec(k: &str, t: &str, v: &str) -> BindingRecord {
    BindingRecord { keycode: k.to_string(), result_type: t.to_string(), result_value: v.to_string() }
}

fn known(n: usize) -> Vec<KeyCheck> {
    vec![KeyCheck { source_known: true, value_known: true }; n]
}

fn started(recs: Vec<BindingRecord>, axes: Vec<AxisBinding>) -> KeyInterceptor {
    let mut e = KeyInterceptor::new();
    let checks = known(recs.len());
    e.start(&recs, &checks, axes).unwrap();
    e
}

fn ev(e: &mut KeyInterceptor, k: &str, down: bool) -> EventOutcome {
    e.handle_event(&k.to_string(), down)
}

fn inj(o: &EventOutcome) -> Option<(TargetKind, String, bool)> {
    o.injection.as_ref().map(|i| (i.kind, i.key.clone(), i.press))
}

fn state(e: &KeyInterceptor, k: &str) -> Option<KeyState> {
    e.opposed_state(&k.to_string())
}

fn ks(p: bool, v: bool, pend: bool) -> Option<KeyState> {
    Some(KeyState { is_pressed: p, is_virtual_asserted: v, is_echo_pending: pend })
}

fn socd_pair() -> KeyInterceptor {
    started(vec![rec("KeyA", "socd", "KeyD"), rec("KeyD", "socd", "KeyA")], vec![])
}

#[test]
fn new_engine_is_stopped_and_empty() {
    let e = KeyInterceptor::new();
    assert!(!e.is_running());
    assert_eq!(state(&e, "KeyA"), None);
}

#[test]
fn stopped_engine_ignores_events() {
    let mut e = socd_pair();
    assert!(e.is_running());
    e.stop();
    assert!(!e.is_running());
    let o = ev(&mut e, "KeyA", true);
    assert_eq!(inj(&o), None);
    assert_eq!(state(&e, "KeyA"), ks(false, false, false));
}

#[test]
fn parse_binding_reads_each_result_type() {
    let ok = KeyCheck { source_known: true, value_known: true };
    match parse_binding(&rec("KeyQ", "keyboard", "KeyE"), ok).unwrap().action {
        Action::Remap { kind, target } => {
            assert_eq!(kind, TargetKind::Keyboard);
            assert_eq!(target, "KeyE");
        }
        _ => panic!("expected a remap"),
    }
    match parse_binding(&rec("KeyQ", "face_button", "KeyE"), ok).unwrap().action {
        Action::Remap { kind, .. } => assert_eq!(kind, TargetKind::FaceButton),
        _ => panic!("expected a remap"),
    }
    match parse_binding(&rec("KeyQ", "socd", "KeyE"), ok).unwrap().action {
        Action::Socd { opposite } => assert_eq!(opposite, "KeyE"),
        _ => panic!("expected a pairing"),
    }
}

#[test]
fn parse_binding_reports_each_fault() {
    let r = rec("KeyQ", "keyboard", "KeyE");
    let bad_src = KeyCheck { source_known: false, value_known: true };
    let bad_val = KeyCheck { source_known: true, value_known: false };
    let ok = KeyCheck { source_known: true, value_known: true };
    assert_eq!(parse_binding(&r, bad_src).err(), Some(RecordFault::UnknownSourceKey));
    assert_eq!(parse_binding(&r, bad_val).err(), Some(RecordFault::UnknownResultValue));
    assert_eq!(parse_binding(&rec("KeyQ", "mouse", "KeyE"), ok).err(), Some(RecordFault::UnknownResultType));
    assert_eq!(parse_binding(&rec("KeyQ", "Keyboard", "KeyE"), ok).err(), Some(RecordFault::UnknownResultType));
}

#[test]
fn parse_bindings_reports_first_faulty_record() {
    let recs = vec![rec("KeyA", "socd", "KeyD"), rec("KeyB", "bogus", "KeyC"), rec("KeyX", "socd", "KeyY")];
    let mut checks = known(3);
    checks[2].source_known = false;
    let r = parse_bindings(&recs, &checks);
    assert_eq!(r.err(), Some(ConfigError { record: 1, fault: RecordFault::UnknownResultType }));
    assert_eq!(parse_bindings(&vec![rec("KeyA", "socd", "KeyD")], &known(1)).map(|v| v.len()).ok(), Some(1));
}

#[test]
fn failed_start_keeps_previous_tables() {
    let mut e = socd_pair();
    let recs = vec![rec("KeyW", "socd", "KeyS"), rec("KeyS", "socd", "KeyW")];
    let checks = vec![KeyCheck { source_known: true, value_known: true }, KeyCheck { source_known: true, value_known: false }];
    let r = e.start(&recs, &checks, vec![]);
    assert_eq!(r, Err(ConfigError { record: 1, fault: RecordFault::UnknownResultValue }));
    assert_eq!(state(&e, "KeyA"), ks(false, false, false));
    assert_eq!(state(&e, "KeyW"), None);
    assert!(e.is_running());
}

#[test]
fn remapped_key_passes_through_as_target() {
    let mut e = started(vec![rec("KeyQ", "keyboard", "KeyE"), rec("KeyZ", "face_button", "KeyB")], vec![]);
    let o = ev(&mut e, "KeyQ", true);
    assert_eq!(inj(&o), Some((TargetKind::Keyboard, "KeyE".to_string(), true)));
    assert_eq!(e.remap_pressed(&"KeyQ".to_string()), Some(true));
    let o = ev(&mut e, "KeyQ", false);
    assert_eq!(inj(&o), Some((TargetKind::Keyboard, "KeyE".to_string(), false)));
    assert_eq!(e.remap_pressed(&"KeyQ".to_string()), Some(false));
    let o = ev(&mut e, "KeyZ", true);
    assert_eq!(inj(&o), Some((TargetKind::FaceButton, "KeyB".to_string(), true)));
}

#[test]
fn unbound_key_emits_nothing() {
    let mut e = socd_pair();
    let o = ev(&mut e, "KeyP", true);
    assert_eq!(inj(&o), None);
    assert!(!o.axes_changed);
    assert_eq!(e.remap_pressed(&"KeyP".to_string()), None);
}

#[test]
fn duplicate_remap_keeps_first() {
    let mut e = started(vec![rec("KeyQ", "keyboard", "KeyE"), rec("KeyQ", "keyboard", "KeyR")], vec![]);
    let o = ev(&mut e, "KeyQ", true);
    assert_eq!(inj(&o), Some((TargetKind::Keyboard, "KeyE".to_string(), true)));
}

#[test]
fn single_socd_declaration_pairs_both_keys() {
    let e = started(vec![rec("KeyA", "socd", "KeyD")], vec![]);
    assert_eq!(state(&e, "KeyA"), ks(false, false, false));
    assert_eq!(state(&e, "KeyD"), ks(false, false, false));
}

#[test]
fn conflicting_and_self_pairings_are_ignored() {
    let e = started(vec![rec("KeyA", "socd", "KeyD"), rec("KeyA", "socd", "KeyW"), rec("KeyS", "socd", "KeyS")], vec![]);
    assert_eq!(state(&e, "KeyW"), None);
    assert_eq!(state(&e, "KeyS"), None);
}

#[test]
fn most_recent_press_wins() {
    let mut e = socd_pair();
    assert_eq!(inj(&ev(&mut e, "KeyA", true)), None);
    assert_eq!(state(&e, "KeyA"), ks(true, true, false));
    let o = ev(&mut e, "KeyD", true);
    assert_eq!(inj(&o), Some((TargetKind::Keyboard, "KeyA".to_string(), false)));
    assert_eq!(state(&e, "KeyA"), ks(true, false, true));
    assert_eq!(state(&e, "KeyD"), ks(true, true, false));
    let o = ev(&mut e, "KeyD", false);
    assert_eq!(inj(&o), Some((TargetKind::Keyboard, "KeyA".to_string(), true)));
    assert_eq!(state(&e, "KeyA"), ks(true, true, true));
    assert_eq!(state(&e, "KeyD"), ks(false, false, false));
}

#[test]
fn echo_of_injection_is_consumed() {
    let mut e = socd_pair();
    ev(&mut e, "KeyA", true);
    ev(&mut e, "KeyD", true);
    let o = ev(&mut e, "KeyA", false);
    assert_eq!(inj(&o), None);
    assert_eq!(state(&e, "KeyA"), ks(true, false, false));
    assert_eq!(state(&e, "KeyD"), ks(true, true, false));
}

#[test]
fn mismatched_event_while_echo_pending_is_genuine() {
    let mut e = socd_pair();
    ev(&mut e, "KeyA", true);
    ev(&mut e, "KeyD", true);
    let o = ev(&mut e, "KeyA", true);
    assert_eq!(inj(&o), Some((TargetKind::Keyboard, "KeyD".to_string(), false)));
    assert_eq!(state(&e, "KeyA"), ks(true, true, true));
    assert_eq!(state(&e, "KeyD"), ks(true, false, true));
}

#[test]
fn pair_never_both_asserted_over_a_sequence() {
    let mut e = socd_pair();
    let seq = [("KeyA", true), ("KeyD", true), ("KeyA", false), ("KeyA", true), ("KeyD", false), ("KeyD", true), ("KeyA", false), ("KeyD", false)];
    for (k, d) in seq {
        ev(&mut e, k, d);
        let a = state(&e, "KeyA").unwrap();
        let b = state(&e, "KeyD").unwrap();
        assert!(!(a.is_virtual_asserted && b.is_virtual_asserted));
    }
}

#[test]
fn opposite_takes_remap_target_as_identity() {
    let mut e = started(
        vec![rec("KeyB", "face_button", "KeyC"), rec("KeyA", "socd", "KeyB"), rec("KeyX", "socd", "KeyY")],
        vec![],
    );
    assert_eq!(state(&e, "KeyB"), ks(false, false, false));
    let o = ev(&mut e, "KeyB", true);
    assert_eq!(inj(&o), Some((TargetKind::FaceButton, "KeyC".to_string(), true)));
    ev(&mut e, "KeyX", true);
    let o = ev(&mut e, "KeyY", true);
    assert_eq!(inj(&o), Some((TargetKind::Keyboard, "KeyX".to_string(), false)));
}

#[test]
fn axis_positive_dominates() {
    let axes = vec![
        AxisBinding { key: "KeyX".to_string(), axis: StickAxis::LeftX, magnitude: 20000 },
        AxisBinding { key: "KeyY".to_string(), axis: StickAxis::LeftX, magnitude: -15000 },
    ];
    let mut e = started(vec![], axes);
    assert_eq!(e.axis(StickAxis::LeftX), 0);
    assert!(ev(&mut e, "KeyX", true).axes_changed);
    assert!(ev(&mut e, "KeyY", true).axes_changed);
    assert_eq!(e.axis(StickAxis::LeftX), 20000);
    assert!(!ev(&mut e, "KeyY", true).axes_changed);
    ev(&mut e, "KeyX", false);
    assert_eq!(e.axis(StickAxis::LeftX), -15000);
    ev(&mut e, "KeyY", false);
    assert_eq!(e.axis(StickAxis::LeftX), 0);
    assert_eq!(e.axis(StickAxis::RightY), 0);
}

#[test]
fn axis_larger_magnitude_and_first_binding_win() {
    let axes = vec![
        AxisBinding { key: "KeyJ".to_string(), axis: StickAxis::RightY, magnitude: -29000 },
        AxisBinding { key: "KeyK".to_string(), axis: StickAxis::RightY, magnitude: -10000 },
        AxisBinding { key: "KeyL".to_string(), axis: StickAxis::RightY, magnitude: 0 },
        AxisBinding { key: "KeyM".to_string(), axis: StickAxis::RightY, magnitude: 29000 },
        AxisBinding { key: "KeyN".to_string(), axis: StickAxis::RightY, magnitude: 29000 },
        AxisBinding { key: "KeyO".to_string(), axis: StickAxis::LeftY, magnitude: 32767 },
        AxisBinding { key: "KeyP".to_string(), axis: StickAxis::LeftY, magnitude: -32768 },
    ];
    let mut e = started(vec![], axes);
    ev(&mut e, "KeyK", true);
    ev(&mut e, "KeyJ", true);
    ev(&mut e, "KeyL", true);
    assert_eq!(e.axis(StickAxis::RightY), -29000);
    ev(&mut e, "KeyN", true);
    ev(&mut e, "KeyM", true);
    assert_eq!(e.axis(StickAxis::RightY), 29000);
    ev(&mut e, "KeyP", true);
    assert_eq!(e.axis(StickAxis::LeftY), -32768);
    ev(&mut e, "KeyO", true);
    let f = e.stick_frame();
    assert_eq!((f.left_x, f.left_y, f.right_x, f.right_y), (0, 32767, 0, 29000));
}

#[test]
fn reload_replaces_previous_configuration() {
    let mut e = socd_pair();
    ev(&mut e, "KeyA", true);
    let recs = vec![rec("KeyW", "socd", "KeyS"), rec("KeyQ", "keyboard", "KeyE")];
    e.start(&recs, &known(2), vec![]).unwrap();
    assert_eq!(state(&e, "KeyA"), None);
    assert_eq!(state(&e, "KeyD"), None);
    assert_eq!(state(&e, "KeyW"), ks(false, false, false));
    assert_eq!(inj(&ev(&mut e, "KeyD", true)), None);
    assert_eq!(e.remap_pressed(&"KeyQ".to_string()), Some(false));
}

#[test]
fn pairing_emits_opposite_through_its_remap() {
    let e = started(
        vec![rec("KeyB", "face_button", "KeyC"), rec("KeyA", "socd", "KeyB"), rec("KeyQ", "keyboard", "KeyE")],
        vec![],
    );
    assert_eq!(e.opposite_identity(&"KeyA".to_string()), Some((TargetKind::FaceButton, "KeyC".to_string())));
    assert_eq!(e.opposite_identity(&"KeyB".to_string()), Some((TargetKind::Keyboard, "KeyA".to_string())));
    assert_eq!(e.opposite_identity(&"KeyQ".to_string()), None);
}
