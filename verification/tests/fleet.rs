use ground_control::server::Server;
use ground_control::types::OccupancyGrid;
use ground_control::wing::{Flag, Wingman};

#[test]
fn flag_starts_low_and_raises_once() {
    let flag = Flag::new();
    assert!(!flag.read());
    let shared = flag.clone();
    flag.raise();
    assert!(shared.read());
    assert!(flag.read());
}

#[test]
fn wings_request_spawns_and_replies() {
    let mut server = Server::new(5, true);
    let outcome = server.handle_message(7, "X", "--gc-wings 3");
    assert_eq!(outcome.replies, vec!["OK X, 3 wings are coming!".to_string()]);
    assert_eq!(outcome.to_spawn.len(), 3);
    for flag in &outcome.to_spawn {
        assert!(!flag.read());
    }
    assert_eq!(server.wingman_count(7), 3);
    assert_eq!(server.wingman_count(8), 0);
}

#[test]
fn call_off_dismisses_and_raises_flags() {
    let mut server = Server::new(5, true);
    let spawned = server.handle_message(7, "X", "--gc-wings 2").to_spawn;
    assert_eq!(spawned.len(), 2);

    let outcome = server.handle_message(7, "X", "--gc-call-off");
    assert_eq!(outcome.replies, vec!["Calling off all wings from X".to_string()]);
    assert_eq!(outcome.to_spawn.len(), 0);
    assert_eq!(server.wingman_count(7), 0);
    for flag in &spawned {
        assert!(flag.read(), "a dismissed wingman's flag must be raised");
    }
}

#[test]
fn repeated_request_is_rejected_without_change() {
    let mut server = Server::new(5, true);
    server.handle_message(7, "X", "--gc-wings 2");
    let outcome = server.handle_message(7, "X", "--gc-wings 3");
    assert_eq!(
        outcome.replies,
        vec!["X already has 2 wings; use --gc-call-off to remove".to_string()]
    );
    assert_eq!(outcome.to_spawn.len(), 0);
    assert_eq!(server.wingman_count(7), 2);
}

#[test]
fn unaddressed_chat_changes_nothing() {
    let mut server = Server::new(5, true);
    server.handle_message(7, "X", "--gc-wings 2");
    let outcome = server.handle_message(7, "X", "hello everyone");
    assert!(outcome.replies.is_empty());
    assert!(outcome.to_spawn.is_empty());
    assert_eq!(server.wingman_count(7), 2);
}

#[test]
fn player_leave_clears_silently() {
    let mut server = Server::new(5, false);
    let spawned = server.handle_message(9, "Y", "--gc-wings 4").to_spawn;
    server.handle_player_leave(9);
    assert_eq!(server.wingman_count(9), 0);
    for flag in &spawned {
        assert!(flag.read());
    }
}

#[test]
fn announce_line_names_the_help_command() {
    assert_eq!(
        Server::announce_line("Newcomer"),
        "Ground Control, standing by for Newcomer! Use --gc-help for help."
    );
}

#[test]
fn fire_gate_needs_a_close_target() {
    let grid = OccupancyGrid::new(512, 256);
    let close = Wingman::plan_tick(&grid, 0, 0, 100, 100);
    assert!(close.fire);
    assert_eq!((close.aim_x, close.aim_y), (100, 100));

    let far = Wingman::plan_tick(&grid, 0, 0, 2000, 0);
    assert!(!far.fire);
    assert_eq!((far.aim_x, far.aim_y), (2000, 0));
}

#[test]
fn blocked_line_holds_fire_and_detours() {
    let mut grid = OccupancyGrid::new(512, 256);
    // Own cell is (256, 128); the target sits three cells to the right
    // with a wall cell in between.
    grid.block(258, 128);
    let target_x = 259 * 64 + 32 - 16384;
    let plan = Wingman::plan_tick(&grid, 0, 0, i64::from(target_x), 32);
    assert!(!plan.fire);
    // The near obstacle triggers the search: the aim moves off the raw
    // target onto the next path cell's center.
    assert_ne!((plan.aim_x, plan.aim_y), (i64::from(target_x), 32));
}

#[test]
fn far_obstacle_keeps_the_raw_heading() {
    let mut grid = OccupancyGrid::new(512, 256);
    // The wall sits 24 cells away from our own cell (256, 128).
    grid.block(280, 128);
    let target_x = 290 * 64 + 32 - 16384;
    let plan = Wingman::plan_tick(&grid, 0, 0, i64::from(target_x), 32);
    assert!(!plan.fire);
    assert_eq!((plan.aim_x, plan.aim_y), (i64::from(target_x), 32));
}

#[test]
fn tick_delay_clamps_doubled_latency() {
    assert_eq!(Wingman::tick_delay_millis(3), 10);
    assert_eq!(Wingman::tick_delay_millis(5), 10);
    assert_eq!(Wingman::tick_delay_millis(100), 200);
    assert_eq!(Wingman::tick_delay_millis(500), 1000);
    assert_eq!(Wingman::tick_delay_millis(60000), 1000);
}
