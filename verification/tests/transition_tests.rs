use shadow_scene::transition::Phase;
use shadow_scene::transition::Registry;
use shadow_scene::transition::TickAction;
use shadow_scene::transition::TransitionRecord;
use shadow_scene::transition::lerp;
use shadow_scene::transition::progress;
use shadow_scene::transition::scaled;
use shadow_scene::transition::tick_record;

fn removed(start: u64, duration: u64) -> TransitionRecord {
    TransitionRecord { phase: Phase::Removed, start, duration, dir_x: 40, dir_y: -16 }
}

#[test]
fn progress_is_clamped_per_mille() {
    assert_eq!(progress(5, 10, 100), 0);
    assert_eq!(progress(10, 10, 100), 0);
    assert_eq!(progress(60, 10, 100), 500);
    assert_eq!(progress(110, 10, 100), 1000);
    assert_eq!(progress(500, 10, 100), 1000);
    // a zero duration completes at once
    assert_eq!(progress(11, 10, 0), 1000);
    assert_eq!(progress(13, 10, 9), 333);
}

#[test]
fn scaling_rounds_toward_zero_and_never_grows() {
    assert_eq!(scaled(100, 500), 50);
    assert_eq!(scaled(-100, 250), -25);
    assert_eq!(scaled(7, 1000), 7);
    assert_eq!(scaled(7, 0), 0);
    assert_eq!(scaled(-7, 999), -6);
    assert_eq!(scaled(i64::MAX, 1000), i64::MAX);
    assert_eq!(scaled(i64::MIN, 1000), i64::MIN);
}

#[test]
fn lerp_moves_between_the_endpoints() {
    assert_eq!(lerp(0, 100, 250), 25);
    assert_eq!(lerp(100, 0, 500), 50);
    assert_eq!(lerp(-50, 50, 500), 0);
    assert_eq!(lerp(10, 10, 700), 10);
    assert_eq!(lerp(i64::MIN, i64::MAX, 1000), i64::MAX);
}

#[test]
fn removed_midway_scales_strictly_between_zero_and_one() {
    let rec = removed(0, 100);
    let step = tick_record(&rec, 50, None);
    assert!(step.keep);
    match step.action {
        TickAction::SetTransform { off_x, off_y, scale_pm } => {
            assert_eq!(off_x, 20);
            assert_eq!(off_y, -8);
            assert!(0 < scale_pm && scale_pm < 1000);
            assert_eq!(scale_pm, 500);
        },
        _ => panic!("expected a transform update"),
    }
}

#[test]
fn removed_completion_destroys_exactly_once() {
    let mut reg = Registry::new();
    reg.set(9, removed(0, 100));
    let layouts = Vec::new();
    // halfway: one transform update, the record stays
    let cmds = reg.tick(50, &layouts);
    assert_eq!(cmds.len(), 1);
    assert_eq!(reg.len(), 1);
    // at the full duration: exactly one destroy, and the record is dropped
    let cmds = reg.tick(100, &layouts);
    assert_eq!(cmds.len(), 1);
    assert_eq!(cmds[0].handle, 9);
    assert_eq!(cmds[0].action, TickAction::Destroy);
    assert_eq!(reg.len(), 0);
    // no further per-tick updates for that handle
    let cmds = reg.tick(200, &layouts);
    assert_eq!(cmds.len(), 0);
}

#[test]
fn inserted_entry_pose_approaches_identity() {
    let rec = TransitionRecord {
        phase: Phase::Inserted { entry: true },
        start: 0,
        duration: 100,
        dir_x: 100,
        dir_y: 0,
    };
    let step = tick_record(&rec, 25, None);
    assert!(step.keep);
    assert_eq!(
        step.action,
        TickAction::SetTransform { off_x: 75, off_y: 0, scale_pm: 250 },
    );
    // completed: the record settles and nothing more is applied
    let step = tick_record(&rec, 100, None);
    assert!(!step.keep);
    assert_eq!(step.action, TickAction::Hold);
}

#[test]
fn suppressed_insert_never_animates() {
    let rec = TransitionRecord {
        phase: Phase::Inserted { entry: false },
        start: 0,
        duration: 100,
        dir_x: 100,
        dir_y: 0,
    };
    let step = tick_record(&rec, 25, None);
    assert!(!step.keep);
    assert_eq!(step.action, TickAction::Hold);
}

#[test]
fn updated_interpolates_toward_live_position() {
    let rec = TransitionRecord {
        phase: Phase::Updated { from_x: 0, from_y: 0 },
        start: 0,
        duration: 100,
        dir_x: 0,
        dir_y: 0,
    };
    let step = tick_record(&rec, 50, Some((100, 40)));
    assert!(step.keep);
    assert_eq!(step.action, TickAction::SetPosition { x: 50, y: 20 });
}

#[test]
fn updated_with_unknown_layout_skips_the_tick() {
    let mut reg = Registry::new();
    reg.set(
        3,
        TransitionRecord {
            phase: Phase::Updated { from_x: 0, from_y: 0 },
            start: 0,
            duration: 100,
            dir_x: 0,
            dir_y: 0,
        },
    );
    // the backend no longer knows node 3: no command, record kept
    let cmds = reg.tick(50, &Vec::new());
    assert_eq!(cmds.len(), 0);
    assert_eq!(reg.len(), 1);
    // once the layout is known again, interpolation resumes
    let layouts = vec![(3u64, 100i64, 40i64)];
    let cmds = reg.tick(50, &layouts);
    assert_eq!(cmds.len(), 1);
    assert_eq!(cmds[0].action, TickAction::SetPosition { x: 50, y: 20 });
}

#[test]
fn assigning_a_new_phase_replaces_the_record() {
    let mut reg = Registry::new();
    reg.set(
        4,
        TransitionRecord {
            phase: Phase::Inserted { entry: true },
            start: 0,
            duration: 1000,
            dir_x: 10,
            dir_y: 10,
        },
    );
    assert_eq!(reg.len(), 1);
    // overwriting mid-animation replaces the record outright
    reg.set(4, removed(500, 100));
    assert_eq!(reg.len(), 1);
    let cmds = reg.tick(600, &Vec::new());
    assert_eq!(cmds.len(), 1);
    assert_eq!(cmds[0].action, TickAction::Destroy);
    assert_eq!(reg.len(), 0);
}
