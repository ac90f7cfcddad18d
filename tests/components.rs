use tsw_controller::calibration::{ControllerCalibration, ControllerCalibrationData};
use tsw_controller::config::ConfigLoader;
use tsw_controller::controller::{
    ControllerManagerController, ControllerManagerControllerControl, ControllerSdlMap, ControllerSdlMapControl, SDLControlKind,
};
use tsw_controller::direct_control::{DirectControlBroadcaster, DirectControlCommand};
use tsw_controller::profile::{
    ControllerProfile, ControllerProfileControl, ControllerProfileControlAssignment, ControllerProfileDirectControlAssignment, ControllerProfileControlAssignmentAction, ControllerProfileControlAssignmentKeysAction,
    ControllerProfileControlLinearAssignment, ControllerProfileControlLinearAssignmentThreshold,
    ControllerProfileDirectControAssignmentSyncMode, ControllerProfileDirectControlAssignmentInputValue,
};
use tsw_controller::sequencer::{ActionSequencer, ActionSequencerAction, Key, KeyStep};
use tsw_controller::sync::{parse_sync_frame, SyncController};
use tsw_controller::text::parse_fixed_exec;

fn calibration(deadzone: Option<i32>, invert: Option<bool>) -> ControllerCalibrationData {
    ControllerCalibrationData {
        id: "throttle".to_string(),
        deadzone,
        invert,
        min: -32768,
        max: 32767,
        idle: 0,
        easing_table: None,
    }
}

#[test]
fn normalize_deadzone_and_range() {
    let c = calibration(Some(100), None);
    assert_eq!(c.normalize(0), None);
    assert_eq!(c.normalize(100), None);
    assert_eq!(c.normalize(-100), None);
    assert_eq!(c.normalize(32767), Some(10000));
    assert_eq!(c.normalize(-32768), Some(-10000));
    // (16433 - 100) / (32767 - 100) = 0.5 exactly
    assert_eq!(c.normalize(16433), Some(5000));
    for raw in [-32768i16, -20000, -101, 101, 1234, 32767] {
        let v = c.normalize(raw).unwrap();
        assert!((-10000..=10000).contains(&v));
    }
}

#[test]
fn normalize_inverted_and_eased() {
    let c = calibration(None, Some(true));
    assert_eq!(c.normalize(32767), Some(-10000));
    let mut eased = calibration(None, None);
    eased.easing_table = Some((0..=10000).map(|t: i64| t * t / 10000).collect());
    assert_eq!(eased.normalize(16384), Some(2500));
    let mut wild = calibration(None, None);
    wild.easing_table = Some(vec![20000; 10001]);
    assert_eq!(wild.normalize(100), Some(10000));
}

#[test]
fn calibration_lookup_by_id() {
    let cal = ControllerCalibration { usb_id: "045e:028e".to_string(), data: vec![calibration(Some(5), None)] };
    assert_eq!(cal.control_data(&"throttle".to_string()).unwrap().deadzone, Some(5));
    assert!(cal.control_data(&"brake".to_string()).is_none());
}

fn control(kind: SDLControlKind, cal: Option<&ControllerCalibrationData>) -> ControllerManagerControllerControl {
    ControllerManagerControllerControl::new(
        "045e:028e".to_string(),
        "throttle".to_string(),
        ControllerSdlMapControl { kind, index: 0, name: "throttle".to_string() },
        cal,
    )
}

#[test]
fn control_state_reset_and_direction() {
    let c = calibration(Some(100), None);
    let mut axis = control(SDLControlKind::Axis, Some(&c));
    let e = axis.update_value(0, true);
    assert!(e.is_none());
    let e = axis.update_value(32767, true).unwrap();
    assert_eq!(e.control_state.value, 10000);
    assert_eq!(e.control_state.previous_value, 10000);
    assert_eq!(e.control_state.initial_value, 10000);
    assert_eq!(e.control_state.direction, (0, 10000));
    assert!(!e.has_changed());
    let e = axis.update_value(16433, false).unwrap();
    assert_eq!(e.control_state.value, 5000);
    assert_eq!(e.control_state.previous_value, 10000);
    assert_eq!(e.control_state.direction, (-1, 5000));
    assert!(e.has_changed());
    // a small move does not flip the direction
    let e = axis.update_value(17000, false).unwrap();
    assert_eq!(e.control_state.direction, (-1, 5000));
    // deadzone readings keep the value and publish nothing
    assert!(axis.update_value(50, false).is_none());
    assert_eq!(axis.state.value, e.control_state.value);
    assert_eq!(axis.state.raw_value, 50);
}

#[test]
fn uncalibrated_axis_and_buttons() {
    let mut axis = control(SDLControlKind::Axis, None);
    let e = axis.update_value(3, false).unwrap();
    assert_eq!(e.control_state.value, 30000);
    let mut button = control(SDLControlKind::Button, None);
    let e = button.update_value(1, false).unwrap();
    assert_eq!(e.control_state.value, 10000);
    assert_eq!(e.control_state.direction, (1, 10000));
    assert!(axis.is_within_margin_of_error(10000, 10004));
    assert!(!axis.is_within_margin_of_error(10000, 10005));
}

#[test]
fn controller_routes_by_kind_and_index() {
    let mapping = ControllerSdlMap {
        name: "pad".to_string(),
        usb_id: "045E:028E".to_string(),
        data: vec![
            ControllerSdlMapControl { kind: SDLControlKind::Axis, index: 1, name: "throttle".to_string() },
            ControllerSdlMapControl { kind: SDLControlKind::Button, index: 1, name: "horn".to_string() },
        ],
    };
    let mut device = ControllerManagerController::new("045e:028e".to_string(), Some(&mapping), None);
    assert_eq!(device.controls.len(), 2);
    let e = device.process(SDLControlKind::Button, 1, 1).unwrap();
    assert_eq!(e.control_name, "horn");
    assert!(device.process(SDLControlKind::Hat, 1, 1).is_none());
}

#[test]
fn parse_keys_splits_modifiers() {
    let (m, a) = ActionSequencer::parse_keys("Ctrl+Shift+A+F1+bogus");
    assert_eq!(m, vec![Key::Control]);
    assert_eq!(a, vec![Key::Shift, Key::Unicode('a'), Key::F1]);
    let (m, a) = ActionSequencer::parse_keys("cmd+alt+Enter");
    assert_eq!(m, vec![Key::Meta, Key::Alt]);
    assert_eq!(a, vec![Key::Return]);
}

#[test]
fn action_steps_follow_dispatch_rules() {
    let timed = ActionSequencerAction { keys: "ctrl+a".to_string(), press_time: Some(250), wait_time: None, release: None };
    assert_eq!(
        ActionSequencer::action_steps(&timed),
        vec![
            KeyStep::Press(Key::Control),
            KeyStep::Sleep(30),
            KeyStep::Press(Key::Unicode('a')),
            KeyStep::Sleep(250),
            KeyStep::Release(Key::Unicode('a')),
            KeyStep::Sleep(30),
            KeyStep::Release(Key::Control),
            KeyStep::Sleep(100),
        ]
    );
    let release = ActionSequencerAction { keys: "a".to_string(), press_time: Some(1), wait_time: None, release: Some(true) };
    assert_eq!(ActionSequencer::action_steps(&release), vec![KeyStep::Release(Key::Unicode('a'))]);
    let press = ActionSequencerAction { keys: "b".to_string(), press_time: None, wait_time: Some(5), release: Some(false) };
    assert_eq!(ActionSequencer::action_steps(&press), vec![KeyStep::Press(Key::Unicode('b'))]);
}

#[test]
fn sequencer_is_fifo() {
    let mut q = ActionSequencer::new();
    let a = |k: &str| ActionSequencerAction { keys: k.to_string(), press_time: None, wait_time: None, release: None };
    q.add_action(a("first"));
    q.add_action(a("second"));
    assert_eq!(q.next_action().unwrap().keys, "first");
    q.add_action(a("third"));
    assert_eq!(q.next_action().unwrap().keys, "second");
    assert_eq!(q.next_action().unwrap().keys, "third");
    assert!(q.next_action().is_none());
}

#[test]
fn command_frames() {
    let c = DirectControlCommand { controls: "Throttle".to_string(), input_value: 5000, relative: None, hold: None };
    assert_eq!(c.frame(), "direct_control,Throttle,0.5,");
    let c = DirectControlCommand { controls: "T".to_string(), input_value: 123456, relative: Some(true), hold: Some(false) };
    assert_eq!(c.to_text(), "T,12.3456,relative");
    let c = DirectControlCommand { controls: "T".to_string(), input_value: -30000, relative: None, hold: Some(true) };
    assert_eq!(c.to_text(), "T,-3,hold");
}

#[test]
fn broadcast_order_per_client() {
    let mut b = DirectControlBroadcaster::new();
    let early = b.connect().unwrap();
    b.broadcast(&"one".to_string());
    let late = b.connect().unwrap();
    b.broadcast(&"two".to_string());
    b.broadcast(&"three".to_string());
    assert_eq!(b.take_pending(early), vec!["one", "two", "three"]);
    assert_eq!(b.take_pending(late), vec!["two", "three"]);
    assert!(b.take_pending(early).is_empty());
    b.disconnect(early);
    b.broadcast(&"four".to_string());
    assert_eq!(b.clients.len(), 1);
    assert_eq!(b.take_pending(late), vec!["four"]);
}

fn input(min: i64, max: i64, step: Option<i64>, steps: Option<Vec<Option<i64>>>, invert: Option<bool>) -> ControllerProfileDirectControlAssignmentInputValue {
    ControllerProfileDirectControlAssignmentInputValue { min, max, step, steps, invert }
}

#[test]
fn input_value_snaps_to_steps() {
    let iv = input(0, 100000, None, Some(vec![Some(0), Some(20000), Some(50000), Some(100000)]), None);
    assert_eq!(iv.calculate_normal_value(3000), 20000);
    // a tie goes to the earlier step
    let iv = input(0, 100000, None, Some(vec![Some(20000), Some(40000)]), None);
    assert_eq!(iv.calculate_normal_value(3000), 20000);
}

#[test]
fn input_value_free_range_zone() {
    let iv = input(0, 100000, None, Some(vec![Some(0), None, Some(50000), Some(100000)]), None);
    assert_eq!(iv.free_range_zones(), vec![(0, 50000)]);
    assert_eq!(iv.normal_steps(), Some(vec![0, 50000, 100000]));
    assert_eq!(iv.calculate_normal_value(2500), 25000);
    assert_eq!(iv.calculate_normal_value(7000), 50000);
    let open_end = input(0, 100000, None, Some(vec![Some(50000), None]), None);
    assert_eq!(open_end.free_range_zones(), vec![(50000, 100000)]);
}

#[test]
fn input_value_scalar_step() {
    let iv = input(0, 100000, Some(30000), None, None);
    // steps 0, 3, 6, 9, 10
    assert_eq!(iv.calculate_normal_value(8000), 90000);
    assert_eq!(iv.calculate_normal_value(9800), 100000);
    assert_eq!(iv.calculate_normal_value(4000), 30000);
}

#[test]
fn input_value_continuous_is_monotonic() {
    let iv = input(0, 100000, None, None, None);
    assert_eq!(iv.calculate_normal_value(0), 0);
    assert_eq!(iv.calculate_normal_value(10000), 100000);
    assert_eq!(iv.calculate_normal_value(-10000), 0);
    assert_eq!(iv.calculate_normal_value(20000), 100000);
    let mut last = i64::MIN;
    for v in (-10000..=10000).step_by(250) {
        let r = iv.calculate_normal_value(v);
        assert!(r >= last);
        last = r;
    }
    let inv = input(0, 100000, None, None, Some(true));
    assert_eq!(inv.calculate_normal_value(0), 100000);
    assert_eq!(inv.calculate_normal_value(10000), 0);
    assert_eq!(inv.calculate_normal_value(2500), 75000);
}

fn keys(k: &str) -> ControllerProfileControlAssignmentAction {
    ControllerProfileControlAssignmentAction::Keys(ControllerProfileControlAssignmentKeysAction {
        keys: k.to_string(),
        press_time: None,
        wait_time: None,
    })
}

#[test]
fn threshold_expansion_is_idempotent() {
    let l = ControllerProfileControlLinearAssignment {
        neutral: None,
        thresholds: vec![
            ControllerProfileControlLinearAssignmentThreshold {
                value: 2500,
                value_end: Some(10000),
                value_step: Some(2500),
                action_activate: keys("u"),
                action_deactivate: None,
            },
            ControllerProfileControlLinearAssignmentThreshold {
                value: -5000,
                value_end: None,
                value_step: Some(1),
                action_activate: keys("d"),
                action_deactivate: None,
            },
        ],
    };
    let once = l.generated_thresholds();
    let values: Vec<i64> = once.iter().map(|t| t.value).collect();
    assert_eq!(values, vec![2500, 5000, 7500, 10000, -5000]);
    let again = ControllerProfileControlLinearAssignment { neutral: None, thresholds: once }.generated_thresholds();
    let values2: Vec<i64> = again.iter().map(|t| t.value).collect();
    assert_eq!(values, values2);
    assert!(again[0].is_exceeding_threshold(2500));
    assert!(!again[0].is_exceeding_threshold(2499));
    assert!(again[4].is_exceeding_threshold(-5001));
    assert!(!again[4].is_exceeding_threshold(-5000));
}

#[test]
fn neutralized_value() {
    let l = ControllerProfileControlLinearAssignment { neutral: Some(5000), thresholds: vec![] };
    assert_eq!(l.calculate_neutralized_value(5000), 0);
    assert_eq!(l.calculate_neutralized_value(10000), 10000);
    assert_eq!(l.calculate_neutralized_value(0), -10000);
    let plain = ControllerProfileControlLinearAssignment { neutral: None, thresholds: vec![] };
    assert_eq!(plain.calculate_neutralized_value(1234), 1234);
}

fn sync_mode() -> ControllerProfileDirectControAssignmentSyncMode {
    ControllerProfileDirectControAssignmentSyncMode {
        identifier: "lvr".to_string(),
        input_value: input(0, 10000, None, None, None),
        action_increase: ControllerProfileControlAssignmentKeysAction { keys: "d".to_string(), press_time: Some(5), wait_time: None },
        action_decrease: ControllerProfileControlAssignmentKeysAction { keys: "a".to_string(), press_time: None, wait_time: None },
    }
}

#[test]
fn sync_convergence() {
    let mut sc = SyncController::new();
    assert!(sc.handle_frame("sync_control,lvr,0.0").is_empty());
    let r = sc.update_target_value(&sync_mode(), 8000);
    assert_eq!(r.len(), 1);
    assert_eq!(r[0].keys, "d");
    assert_eq!(r[0].release, Some(false));
    assert_eq!(r[0].press_time, None);
    assert_eq!(sc.controls_state[0].moving, 1);
    // 0.81 overshoots: the increase key is released first; being 0.01 past
    // the target, outside the margin, the decrease key is then pressed.
    let r = sc.handle_frame("sync_control,lvr,0.81");
    assert_eq!(r[0].keys, "d");
    assert_eq!(r[0].release, Some(true));
    assert_eq!(r.len(), 2);
    assert_eq!(r[1].keys, "a");
    assert_eq!(sc.controls_state[0].moving, -1);
}

#[test]
fn sync_stops_within_margin() {
    let mut sc = SyncController::new();
    sc.handle_frame("sync_control,lvr,0");
    sc.update_target_value(&sync_mode(), 8000);
    let r = sc.handle_frame("sync_control,lvr,0.803");
    assert_eq!(r.len(), 1);
    assert_eq!(r[0].keys, "d");
    assert_eq!(r[0].release, Some(true));
    assert_eq!(sc.controls_state[0].moving, 0);
    assert!(sc.handle_frame("sync_control,lvr,0.803").is_empty());
    sc.reset_control_state();
    assert!(sc.controls_state.is_empty());
}

#[test]
fn sync_frames_are_checked() {
    assert_eq!(parse_sync_frame("sync_control,lvr,0.81"), Some(("lvr".to_string(), 8100)));
    assert_eq!(parse_sync_frame("sync_control,lvr,-2"), Some(("lvr".to_string(), -20000)));
    assert_eq!(parse_sync_frame("sync_control,lvr"), None);
    assert_eq!(parse_sync_frame("direct_control,lvr,1"), None);
    assert_eq!(parse_sync_frame("sync_control,lvr,abc"), None);
    assert_eq!(parse_sync_frame("sync_control,lvr,1,2"), None);
    let mut sc = SyncController::new();
    assert!(sc.handle_frame("garbage").is_empty());
    assert!(sc.controls_state.is_empty());
}

#[test]
fn decimal_reading() {
    assert_eq!(parse_fixed_exec("0.12345"), Some(1234));
    assert_eq!(parse_fixed_exec("5."), Some(50000));
    assert_eq!(parse_fixed_exec(".5"), Some(5000));
    assert_eq!(parse_fixed_exec("-"), None);
    assert_eq!(parse_fixed_exec("1.2.3"), None);
    assert_eq!(parse_fixed_exec(""), None);
}

#[test]
fn config_lookups() {
    let profile = |name: &str, usb: Option<&str>| ControllerProfile {
        name: name.to_string(),
        controls: vec![],
        usb_id: usb.map(|u| u.to_string()),
    };
    let mut config = ConfigLoader::new();
    config.register_profile(profile("b", None));
    config.register_profile(profile("a", Some("045e:028e")));
    config.register_profile(profile("a", None));
    let names: Vec<&str> = config.controller_profiles.iter().map(|p| p.name.as_str()).collect();
    assert_eq!(names, vec!["a", "a", "b"]);
    let bound = config.find_controller_profile(&"a".to_string(), Some(&"045e:028e".to_string())).unwrap();
    assert_eq!(bound.usb_id, Some("045e:028e".to_string()));
    let other = config.find_controller_profile(&"a".to_string(), Some(&"1234:5678".to_string())).unwrap();
    assert_eq!(other.usb_id, None);
    assert!(config.find_controller_profile(&"c".to_string(), None).is_none());
    config.register_sdl_mapping(ControllerSdlMap { name: "pad".to_string(), usb_id: "045E:028E".to_string(), data: vec![] });
    assert!(config.find_sdl_mapping(&"045e:028e".to_string()).is_some());
    assert!(config.find_sdl_mapping(&"ffff:028e".to_string()).is_none());
    config.register_calibration(ControllerCalibration { usb_id: "045e:028E".to_string(), data: vec![] });
    assert!(config.find_controller_calibration(&"045E:028e".to_string()).is_some());
}

#[test]
fn config_file_names() {
    assert_eq!(ConfigLoader::file_name(&"My Test Profile!".to_string()), "my-test-profile.json");
    assert_eq!(ConfigLoader::file_name(&"045E:028E".to_string()), "045e-028e.json");
}

#[test]
fn calibration_wizard_widens_range() {
    let mut c = ControllerCalibrationData::new(&"Axis0".to_string());
    assert_eq!((c.min, c.max, c.idle), (0, 0, 0));
    c.observe(-120);
    c.observe(30000);
    c.observe(-32768);
    assert_eq!((c.min, c.max, c.idle), (-32768, 30000, -32768));
    let mapping = ControllerSdlMap {
        name: "pad".to_string(),
        usb_id: "1:2".to_string(),
        data: vec![ControllerSdlMapControl { kind: SDLControlKind::Hat, index: 0, name: "pov".to_string() }],
    };
    assert!(mapping.has_control(SDLControlKind::Hat, 0));
    assert!(!mapping.has_control(SDLControlKind::Axis, 0));
}

#[test]
fn profile_checks_value_ranges() {
    let with_input = |iv: ControllerProfileDirectControlAssignmentInputValue| ControllerProfile {
        name: "p".to_string(),
        controls: vec![ControllerProfileControl {
            name: "x".to_string(),
            assignment: Some(ControllerProfileControlAssignment::DirectControl(ControllerProfileDirectControlAssignment {
                controls: "c".to_string(),
                hold: None,
                input_value: iv,
            })),
            assignments: None,
        }],
        usb_id: None,
    };
    assert!(with_input(input(0, 10000, None, None, None)).check());
    assert!(!with_input(input(10000, 0, None, None, None)).check());
    assert!(!with_input(input(0, 10000, Some(0), None, None)).check());
    assert!(!with_input(input(0, 10000, None, Some(vec![None, None]), None)).check());
    let linear = ControllerProfileControlLinearAssignment {
        neutral: None,
        thresholds: vec![ControllerProfileControlLinearAssignmentThreshold {
            value: 0,
            value_end: Some(10000),
            value_step: Some(0),
            action_activate: keys("u"),
            action_deactivate: None,
        }],
    };
    let p = ControllerProfile {
        name: "q".to_string(),
        controls: vec![ControllerProfileControl {
            name: "x".to_string(),
            assignment: None,
            assignments: Some(vec![ControllerProfileControlAssignment::Linear(linear)]),
        }],
        usb_id: None,
    };
    assert!(!p.check());
}

#[test]
fn normalize_takes_ratio_size() {
    let c = ControllerCalibrationData {
        id: "x".to_string(),
        deadzone: None,
        invert: None,
        min: 0,
        max: 100,
        idle: 0,
        easing_table: None,
    };
    assert_eq!(c.normalize(-50), Some(5000));
    let d = ControllerCalibrationData {
        id: "y".to_string(),
        deadzone: Some(20),
        invert: None,
        min: -10,
        max: 100,
        idle: 0,
        easing_table: None,
    };
    assert_eq!(d.normalize(-50), Some(-10000));
}

#[test]
fn reset_inside_deadzone_rebases_state() {
    let c = calibration(Some(100), None);
    let mut axis = control(SDLControlKind::Axis, Some(&c));
    axis.update_value(32767, false);
    axis.update_value(16433, false);
    assert!(axis.update_value(10, true).is_none());
    let s = axis.state;
    assert_eq!(s.previous_value, s.value);
    assert_eq!(s.initial_value, s.value);
    assert_eq!(s.direction, (0, s.value));
    assert_eq!((s.raw_value, s.raw_previous_value, s.raw_initial_value), (10, 10, 10));
}

#[test]
fn initial_readings_are_ignored() {
    assert!(!tsw_controller::controller::accepts_reading_at(500));
    assert!(tsw_controller::controller::accepts_reading_at(501));
}

#[test]
fn take_pending_unknown_client() {
    let mut b = DirectControlBroadcaster::new();
    let a = b.connect().unwrap();
    b.broadcast(&"x".to_string());
    assert!(b.take_pending(a + 7).is_empty());
    assert_eq!(b.take_pending(a), vec!["x"]);
}

#[test]
fn next_steps_runs_whole_actions_in_order() {
    let mut q = ActionSequencer::new();
    let a = |k: &str| ActionSequencerAction { keys: k.to_string(), press_time: None, wait_time: None, release: None };
    q.add_action(a("x"));
    q.add_action(a("shift+y"));
    assert_eq!(q.next_steps(), Some(vec![KeyStep::Press(Key::Unicode('x'))]));
    assert_eq!(q.next_steps(), Some(vec![KeyStep::Press(Key::Shift), KeyStep::Press(Key::Unicode('y'))]));
    assert_eq!(q.next_steps(), None);
}

#[test]
fn lowercase_tokens_classify() {
    assert_eq!(tsw_controller::sequencer::token_modifier(&"command".to_string()), Some(Key::Meta));
    assert_eq!(tsw_controller::sequencer::token_action_key(&"pagedown".to_string()), Some(Key::PageDown));
    assert_eq!(tsw_controller::sequencer::token_action_key(&"é".to_string()), Some(Key::Unicode('é')));
    assert_eq!(tsw_controller::sequencer::token_action_key(&"Tab".to_string()), None);
}

#[test]
fn stepped_input_with_reversed_range() {
    let iv = input(100000, 0, Some(30000), None, None);
    // steps are just 10 and 0; the distance is |0 - 10|
    assert_eq!(iv.calculate_normal_value(5000), 100000);
    assert_eq!(iv.calculate_normal_value(-10000), 0);
    assert_eq!(parse_fixed_exec("+2.5"), Some(25000));
}
