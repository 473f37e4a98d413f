use ground_control::commands::{BadCommand, Command, ControlTower, ResponseKind};

#[test]
fn not_a_command() {
    let cmd = Command::new("--game-stats", "derps", 3);
    let ctrl = ControlTower::new(5);
    assert!(ctrl.parse_command(cmd).is_none());
}

#[test]
fn request_help() {
    let cmd = Command::new("--gc-help", "putin copter", 0);
    let ctrl = ControlTower::new(5);
    let resp = ctrl.parse_command(cmd).unwrap();
    assert!(resp.is_ok());
    let resp = resp.unwrap();
    assert!(resp.kind.is_none());
}

#[test]
fn request_wings() {
    let cmd = Command::new("--gc-wings 3", "xplay", 0);
    let ctrl = ControlTower::new(5);
    let resp = ctrl
        .parse_command(cmd)
        .expect("parsed something")
        .expect("valid command");
    assert_eq!(
        resp.kind.expect("a response kind"),
        ResponseKind::SetWings { wings: 3 }
    )
}

#[test]
fn request_wings_too_many() {
    let cmd = Command::new("--gc-wings 25", "STEAMROLLER", 0);
    let ctrl = ControlTower::new(5);
    let resp = ctrl
        .parse_command(cmd)
        .expect("parsed something")
        .expect_err("invalid command");
    assert_eq!(resp, BadCommand::TooManyWings("STEAMROLLER", 5));
}

#[test]
fn request_wings_nan() {
    let cmd = Command::new("--gc-wings abc", "Detect", 0);
    let ctrl = ControlTower::new(5);
    let resp = ctrl
        .parse_command(cmd)
        .expect("parsed something")
        .expect_err("invalid command");
    assert_eq!(resp, BadCommand::Unknown("--gc-wings abc"));
}

#[test]
fn request_wings_zero() {
    let cmd = Command::new("--gc-wings 0", "putin copter", 0);
    let ctrl = ControlTower::new(5);
    let resp = ctrl
        .parse_command(cmd)
        .expect("parsed something")
        .expect_err("invalid command");
    assert_eq!(resp, BadCommand::Unknown("--gc-wings 0"));
}

#[test]
fn call_off() {
    let cmd = Command::new("--gc-call-off", "Friendo", 4);
    let ctrl = ControlTower::new(5);
    let resp = ctrl
        .parse_command(cmd)
        .expect("parsed something")
        .expect("valid command");
    assert_eq!(resp.kind.unwrap(), ResponseKind::ClearWings);
}

#[test]
fn call_off_no_wings() {
    let cmd = Command::new("--gc-call-off", "xyz", 0);
    let ctrl = ControlTower::new(5);
    let resp = ctrl
        .parse_command(cmd)
        .expect("parsed something")
        .expect_err("invalid command");
    assert_eq!(resp, BadCommand::NoWings("xyz"));
}

#[test]
fn wings_confirmation_text() {
    let cmd = Command::new("--gc-wings 3", "X", 0);
    let ctrl = ControlTower::new(5);
    let resp = ctrl
        .parse_command(cmd)
        .expect("parsed something")
        .expect("valid command");
    assert_eq!(resp.kind, Some(ResponseKind::SetWings { wings: 3 }));
    assert_eq!(resp.msg(), vec!["OK X, 3 wings are coming!".to_string()]);
}

#[test]
fn wings_over_max_for_user() {
    let cmd = Command::new("--gc-wings 10", "user", 0);
    let ctrl = ControlTower::new(5);
    let resp = ctrl
        .parse_command(cmd)
        .expect("parsed something")
        .expect_err("invalid command");
    assert_eq!(resp, BadCommand::TooManyWings("user", 5));
}

#[test]
fn call_off_for_user_without_wings() {
    let cmd = Command::new("--gc-call-off", "user", 0);
    let ctrl = ControlTower::new(5);
    let resp = ctrl
        .parse_command(cmd)
        .expect("parsed something")
        .expect_err("invalid command");
    assert_eq!(resp, BadCommand::NoWings("user"));
}

#[test]
fn game_stats_not_for_us() {
    let cmd = Command::new("--game-stats", "user", 0);
    let ctrl = ControlTower::new(5);
    assert!(ctrl.parse_command(cmd).is_none());
}

#[test]
fn wings_already_assigned() {
    let cmd = Command::new("--gc-wings 2", "Friendo", 4);
    let ctrl = ControlTower::new(5);
    let resp = ctrl
        .parse_command(cmd)
        .expect("parsed something")
        .expect_err("invalid command");
    assert_eq!(resp, BadCommand::AlreadyWinged("Friendo", 4));
}

#[test]
fn wings_count_overflow_is_unknown() {
    let cmd = Command::new("--gc-wings 300", "big", 0);
    let ctrl = ControlTower::new(5);
    let resp = ctrl
        .parse_command(cmd)
        .expect("parsed something")
        .expect_err("invalid command");
    assert_eq!(resp, BadCommand::Unknown("--gc-wings 300"));
}

#[test]
fn wings_missing_count_is_unknown() {
    let cmd = Command::new("--gc-wings", "empty", 0);
    let ctrl = ControlTower::new(5);
    let resp = ctrl
        .parse_command(cmd)
        .expect("parsed something")
        .expect_err("invalid command");
    assert_eq!(resp, BadCommand::Unknown("--gc-wings"));
}

#[test]
fn version_replies_without_action() {
    let cmd = Command::new("--gc-version", "curious", 0);
    let ctrl = ControlTower::new(5);
    let resp = ctrl
        .parse_command(cmd)
        .expect("parsed something")
        .expect("valid command");
    assert!(resp.kind.is_none());
    assert_eq!(
        resp.msg(),
        vec!["AIRMASH Ground Control, version 0.1.0".to_string()]
    );
}

#[test]
fn help_reply_lines() {
    let cmd = Command::new("--gc-help", "curious", 0);
    let ctrl = ControlTower::new(5);
    let resp = ctrl
        .parse_command(cmd)
        .expect("parsed something")
        .expect("valid command");
    assert_eq!(
        resp.msg(),
        vec![
            "--gc-wings: request X attacking wingmen".to_string(),
            "--gc-call-off: remove any requested wingmen".to_string(),
            "--gc-version: program version".to_string(),
        ]
    );
}

#[test]
fn failure_report_lines() {
    assert_eq!(
        BadCommand::Unknown("--gc-frobnicate").to_text(),
        "unknown command: '--gc-frobnicate'"
    );
    assert_eq!(
        BadCommand::NoWings("pilot").to_text(),
        "no wings assigned to pilot"
    );
    assert_eq!(
        BadCommand::TooManyWings("pilot", 5).to_text(),
        "too many wings attacking pilot (max 5 wings)"
    );
    assert_eq!(
        BadCommand::AlreadyWinged("pilot", 200).to_text(),
        "pilot already has 200 wings; use --gc-call-off to remove"
    );
}
