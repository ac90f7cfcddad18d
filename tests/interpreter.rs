use tsw_controller::config::ConfigLoader;
use tsw_controller::controller::{ControllerManagerChangeEvent, ControllerManagerControllerControlState};
use tsw_controller::profile::{
    ControllerProfile, ControllerProfileControl, ControllerProfileControlAssignment,
    ControllerProfileControlAssignmentAction, ControllerProfileControlAssignmentDirectControlAction,
    ControllerProfileControlAssignmentKeysAction, ControllerProfileControlLinearAssignment,
    ControllerProfileControlLinearAssignmentThreshold, ControllerProfileControlMomentaryAssignment,
    ControllerProfileControlToggleAssignment, ControllerProfileDirectControAssignmentSyncMode,
    ControllerProfileDirectControlAssignment, ControllerProfileDirectControlAssignmentInputValue,
    PreferredControlMode,
};
use tsw_controller::runner::{ProfileRunner, ProfileRunnerAssignmentCallAction};

fn keys(k: &str) -> ControllerProfileControlAssignmentAction {
    ControllerProfileControlAssignmentAction::Keys(ControllerProfileControlAssignmentKeysAction {
        keys: k.to_string(),
        press_time: None,
        wait_time: None,
    })
}

fn config_with(assignments: Vec<ControllerProfileControlAssignment>) -> ConfigLoader {
    let mut config = ConfigLoader::new();
    config.register_profile(ControllerProfile {
        name: "p".to_string(),
        controls: vec![ControllerProfileControl {
            name: "x".to_string(),
            assignment: None,
            assignments: Some(assignments),
        }],
        usb_id: None,
    });
    config
}

/// Feeds a series of values as change events and collects what each hands on.
fn feed(config: &ConfigLoader, initial: i64, values: &[i64]) -> Vec<Vec<ProfileRunnerAssignmentCallAction>> {
    let mut runner = ProfileRunner::new();
    runner.set_profile(config, &"p".to_string()).unwrap();
    let mut previous = initial;
    let mut out = Vec::new();
    for &v in values {
        let state = ControllerManagerControllerControlState {
            direction: (if v >= previous { 1 } else { -1 }, v),
            value: v,
            previous_value: previous,
            initial_value: initial,
            raw_value: 0,
            raw_previous_value: 0,
            raw_initial_value: 0,
        };
        let event = ControllerManagerChangeEvent {
            usb_id: "045e:028e".to_string(),
            control_name: "x".to_string(),
            control_state: state,
        };
        out.push(runner.run(config, &event));
        previous = v;
    }
    out
}

fn key_of(a: &ProfileRunnerAssignmentCallAction) -> (String, Option<bool>) {
    match a {
        ProfileRunnerAssignmentCallAction::SequencerAction(s) => (s.keys.clone(), s.release),
        ProfileRunnerAssignmentCallAction::DirectControlAction(_) => panic!("expected a keystroke"),
    }
}

#[test]
fn momentary_press_release() {
    let config = config_with(vec![ControllerProfileControlAssignment::Momentary(
        ControllerProfileControlMomentaryAssignment { threshold: 5000, action_activate: keys("a"), action_deactivate: None },
    )]);
    let out = feed(&config, 0, &[0, 6000, 7000, 4000]);
    assert_eq!(out[0].len(), 0);
    assert_eq!(out[1].len(), 1);
    assert_eq!(key_of(&out[1][0]), ("a".to_string(), Some(false)));
    assert_eq!(out[2].len(), 0);
    assert_eq!(out[3].len(), 1);
    assert_eq!(key_of(&out[3][0]), ("a".to_string(), Some(true)));
}

#[test]
fn momentary_counts_balance_below_threshold() {
    let config = config_with(vec![ControllerProfileControlAssignment::Momentary(
        ControllerProfileControlMomentaryAssignment {
            threshold: 5000,
            action_activate: keys("a"),
            action_deactivate: Some(keys("b")),
        },
    )]);
    let out = feed(&config, 0, &[6000, 2000, 9000, 8000, 1000, 7000, 3000]);
    let all: Vec<(String, Option<bool>)> = out.iter().flatten().map(key_of).collect();
    let ups = all.iter().filter(|k| k.0 == "a").count();
    let downs = all.iter().filter(|k| k.0 == "b").count();
    assert_eq!(ups, 3);
    assert_eq!(ups, downs);
}

#[test]
fn linear_sweep() {
    let config = config_with(vec![ControllerProfileControlAssignment::Linear(ControllerProfileControlLinearAssignment {
        neutral: None,
        thresholds: vec![ControllerProfileControlLinearAssignmentThreshold {
            value: 2500,
            value_end: Some(10000),
            value_step: Some(2500),
            action_activate: keys("u"),
            action_deactivate: None,
        }],
    })]);
    let out = feed(&config, 0, &[3000, 6000, 9000, 2000]);
    for i in 0..3 {
        assert_eq!(out[i].len(), 1);
        assert_eq!(key_of(&out[i][0]), ("u".to_string(), Some(false)));
    }
    assert_eq!(out[3].len(), 3);
    for a in out[3].iter() {
        assert_eq!(key_of(a), ("u".to_string(), Some(true)));
    }
}

#[test]
fn linear_release_order_is_highest_first() {
    let t = |value: i64, k: &str| ControllerProfileControlLinearAssignmentThreshold {
        value,
        value_end: None,
        value_step: None,
        action_activate: keys(k),
        action_deactivate: None,
    };
    let config = config_with(vec![ControllerProfileControlAssignment::Linear(ControllerProfileControlLinearAssignment {
        neutral: None,
        thresholds: vec![t(2500, "q"), t(5000, "w"), t(7500, "e")],
    })]);
    let out = feed(&config, 0, &[9000, 1000]);
    let up: Vec<String> = out[0].iter().map(|a| key_of(a).0).collect();
    let down: Vec<String> = out[1].iter().map(|a| key_of(a).0).collect();
    assert_eq!(up, vec!["q", "w", "e"]);
    assert_eq!(down, vec!["e", "w", "q"]);
}

#[test]
fn linear_sweep_fires_thresholds_between_initial_and_end() {
    let config = config_with(vec![ControllerProfileControlAssignment::Linear(ControllerProfileControlLinearAssignment {
        neutral: None,
        thresholds: vec![ControllerProfileControlLinearAssignmentThreshold {
            value: 2000,
            value_end: Some(10000),
            value_step: Some(2000),
            action_activate: keys("u"),
            action_deactivate: None,
        }],
    })]);
    // Starting at 0.3 the thresholds 0.2 counts as passed already; a sweep
    // to 0.7 fires 0.4 and 0.6.
    let out = feed(&config, 3000, &[3500, 5000, 7000]);
    let fired: usize = out.iter().map(|v| v.len()).sum();
    assert_eq!(fired, 2);
}

#[test]
fn toggle_alternates() {
    let config = config_with(vec![ControllerProfileControlAssignment::Toggle(ControllerProfileControlToggleAssignment {
        threshold: 5000,
        action_activate: keys("t"),
        action_deactivate: keys("y"),
    })]);
    let out = feed(&config, 0, &[0, 7000, 2000, 7000, 2000]);
    assert_eq!(out[0].len(), 0);
    assert_eq!(key_of(&out[1][0]), ("t".to_string(), Some(false)));
    assert_eq!(key_of(&out[2][0]), ("t".to_string(), Some(true)));
    assert_eq!(key_of(&out[3][0]), ("y".to_string(), Some(false)));
    assert_eq!(key_of(&out[4][0]), ("y".to_string(), Some(true)));
    assert!(out.iter().all(|v| v.len() <= 1));
}

fn input(min: i64, max: i64, steps: Option<Vec<Option<i64>>>) -> ControllerProfileDirectControlAssignmentInputValue {
    ControllerProfileDirectControlAssignmentInputValue { min, max, step: None, steps, invert: None }
}

#[test]
fn direct_control_sends_commands() {
    let config = config_with(vec![ControllerProfileControlAssignment::DirectControl(ControllerProfileDirectControlAssignment {
        controls: "Throttle".to_string(),
        hold: Some(true),
        input_value: input(0, 100000, Some(vec![Some(0), Some(20000), Some(50000), Some(100000)])),
    })]);
    let out = feed(&config, 0, &[3000]);
    match &out[0][0] {
        ProfileRunnerAssignmentCallAction::DirectControlAction(c) => {
            assert_eq!(c.controls, "Throttle");
            assert_eq!(c.input_value, 20000);
            assert_eq!(c.relative, Some(false));
            assert_eq!(c.hold, Some(true));
            assert_eq!(c.frame(), "direct_control,Throttle,2,hold");
        }
        _ => panic!("expected a command"),
    }
}

#[test]
fn direct_control_action_compare_value() {
    let a = ProfileRunnerAssignmentCallAction::DirectControlAction(tsw_controller::direct_control::DirectControlCommand {
        controls: "Horn".to_string(),
        input_value: -12500,
        relative: Some(true),
        hold: Some(true),
    });
    assert_eq!(a.get_compare_value(), "Horn,-1.25,hold|relative");
    let k = ProfileRunnerAssignmentCallAction::SequencerAction(tsw_controller::sequencer::ActionSequencerAction {
        keys: "ctrl+a".to_string(),
        press_time: None,
        wait_time: None,
        release: None,
    });
    assert_eq!(k.get_compare_value(), "ctrl+a");
}

#[test]
fn toggle_with_direct_control_actions() {
    let dc = |v: i64| {
        ControllerProfileControlAssignmentAction::DirectControl(ControllerProfileControlAssignmentDirectControlAction {
            controls: "Wipers".to_string(),
            value: v,
            relative: None,
            hold: None,
        })
    };
    let config = config_with(vec![ControllerProfileControlAssignment::Toggle(ControllerProfileControlToggleAssignment {
        threshold: 5000,
        action_activate: dc(10000),
        action_deactivate: dc(0),
    })]);
    let out = feed(&config, 0, &[7000, 2000, 7000]);
    let value = |a: &ProfileRunnerAssignmentCallAction| match a {
        ProfileRunnerAssignmentCallAction::DirectControlAction(c) => c.input_value,
        _ => panic!("expected a command"),
    };
    assert_eq!(value(&out[0][0]), 10000);
    assert_eq!(out[1].len(), 0);
    assert_eq!(value(&out[2][0]), 0);
}

#[test]
fn preferred_mode_filters_assignments() {
    let sync = ControllerProfileControlAssignment::SyncControl(ControllerProfileDirectControAssignmentSyncMode {
        identifier: "lvr".to_string(),
        input_value: input(0, 10000, None),
        action_increase: ControllerProfileControlAssignmentKeysAction { keys: "d".to_string(), press_time: None, wait_time: None },
        action_decrease: ControllerProfileControlAssignmentKeysAction { keys: "a".to_string(), press_time: None, wait_time: None },
    });
    let direct = ControllerProfileControlAssignment::DirectControl(ControllerProfileDirectControlAssignment {
        controls: "Lever".to_string(),
        hold: None,
        input_value: input(0, 10000, None),
    });
    let control = ControllerProfileControl { name: "x".to_string(), assignment: None, assignments: Some(vec![sync, direct]) };
    assert_eq!(control.assignment_slots(PreferredControlMode::DirectControl), vec![1]);
    assert_eq!(control.assignment_slots(PreferredControlMode::SyncControl), vec![0]);
    let only = ControllerProfileControl {
        name: "y".to_string(),
        assignment: Some(ControllerProfileControlAssignment::Momentary(ControllerProfileControlMomentaryAssignment {
            threshold: 1,
            action_activate: keys("a"),
            action_deactivate: None,
        })),
        assignments: None,
    };
    assert_eq!(only.assignment_slots(PreferredControlMode::SyncControl), vec![0]);
    assert_eq!(only.get_assignments(PreferredControlMode::SyncControl).len(), 1);
}

#[test]
fn set_profile_unknown_name_fails() {
    let config = config_with(vec![]);
    let mut runner = ProfileRunner::new();
    let r = runner.set_profile(&config, &"missing".to_string());
    assert_eq!(r, Err("Profile missing not found".to_string()));
    assert!(runner.profile_name.is_none());
    assert!(runner.set_profile(&config, &"p".to_string()).is_ok());
    assert_eq!(runner.profile_name, Some("p".to_string()));
    assert!(runner.reset_profile().is_ok());
    assert!(runner.profile_name.is_none());
}

#[test]
fn unchanged_events_are_ignored() {
    let config = config_with(vec![ControllerProfileControlAssignment::Momentary(
        ControllerProfileControlMomentaryAssignment { threshold: 0, action_activate: keys("a"), action_deactivate: None },
    )]);
    let mut runner = ProfileRunner::new();
    runner.set_profile(&config, &"p".to_string()).unwrap();
    let state = ControllerManagerControllerControlState::new(Some(7000));
    let event = ControllerManagerChangeEvent { usb_id: "1:2".to_string(), control_name: "x".to_string(), control_state: state };
    assert!(!event.has_changed());
    assert!(runner.run(&config, &event).is_empty());
}

#[test]
fn assignment_action_compare_value() {
    assert_eq!(keys("ctrl+x").get_compare_value(), "ctrl+x");
    let dc = ControllerProfileControlAssignmentAction::DirectControl(ControllerProfileControlAssignmentDirectControlAction {
        controls: "Reverser".to_string(),
        value: 10000,
        relative: None,
        hold: Some(true),
    });
    assert_eq!(dc.get_compare_value(), "Reverser,1,hold");
}

#[test]
fn linear_falling_sweep() {
    let t = |value: i64, k: &str| ControllerProfileControlLinearAssignmentThreshold {
        value,
        value_end: None,
        value_step: None,
        action_activate: keys(k),
        action_deactivate: None,
    };
    let config = config_with(vec![ControllerProfileControlAssignment::Linear(ControllerProfileControlLinearAssignment {
        neutral: None,
        thresholds: vec![t(-2500, "n1"), t(-5000, "n2")],
    })]);
    let out = feed(&config, 0, &[-3000, -6000]);
    let first: Vec<(String, Option<bool>)> = out[0].iter().map(key_of).collect();
    let second: Vec<(String, Option<bool>)> = out[1].iter().map(key_of).collect();
    assert_eq!(first, vec![("n1".to_string(), Some(false))]);
    assert_eq!(second, vec![("n2".to_string(), Some(false))]);
}
