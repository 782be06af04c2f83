use batch_transcode::staging::{step, Action, Event, Phase};
use batch_transcode::text::str_eq;
use batch_transcode::transcode::{output_name, scale_filter, PASS_THROUGH};

/// The staging directory as a test sees it.
#[derive(Clone, Copy, Debug, PartialEq)]
struct Dir {
    exists: bool,
    marker: bool,
    content: bool,
}

/// Performs `action` on `dir` as the caller of the protocol does.
fn perform(dir: &mut Dir, action: Action, outcomes: &[bool], teardown_ok: bool) -> Event {
    match action {
        Action::Sleep => Event::Observed { dir_exists: dir.exists, marker_present: dir.marker },
        Action::Acquire => {
            dir.exists = true;
            if dir.marker {
                Event::Claimed { won: false }
            } else {
                dir.marker = true;
                Event::Claimed { won: true }
            }
        }
        Action::Stage => {
            dir.content = true;
            Event::Succeeded
        }
        Action::Collect => Event::Collected { count: outcomes.len() },
        Action::Convert { index } => Event::Converted { ok: outcomes[index] },
        Action::Teardown => {
            if teardown_ok {
                dir.marker = false;
                dir.content = false;
                Event::Succeeded
            } else {
                Event::Failed
            }
        }
        Action::LockTimeout | Action::Exit { .. } => Event::Succeeded,
    }
}

/// Runs one whole run over `dir`, converting with `outcomes`; returns the actions.
fn run(dir: &mut Dir, outcomes: &[bool], teardown_ok: bool) -> Vec<Action> {
    let mut phase = Phase::Locking { waits_left: 3 };
    let mut action = Action::Sleep;
    let mut actions = Vec::new();
    loop {
        let event = perform(dir, action, outcomes, teardown_ok);
        let (next, a) = step(phase, event).expect("event fits phase");
        actions.push(a);
        phase = next;
        action = a;
        if matches!(a, Action::Exit { .. } | Action::LockTimeout) {
            break;
        }
    }
    actions
}

#[test]
fn unknown_resolution_passes_through() {
    let (filter, known) = scale_filter("4k");
    assert_eq!(filter, "scale=iw:ih");
    assert_eq!(filter, PASS_THROUGH);
    assert!(!known);
}

#[test]
fn known_resolutions_scale_to_height() {
    assert_eq!(scale_filter("1080p"), ("scale=-2:1080", true));
    assert_eq!(scale_filter("720p"), ("scale=-2:720", true));
    assert_eq!(scale_filter("480p"), ("scale=-2:480", true));
    assert_eq!(scale_filter("360p"), ("scale=-2:360", true));
    assert_eq!(scale_filter("240p"), ("scale=-2:240", true));
    assert_eq!(scale_filter("144p"), ("scale=-2:144", true));
    assert_eq!(scale_filter("720"), ("scale=iw:ih", false));
    assert_eq!(scale_filter(""), ("scale=iw:ih", false));
}

#[test]
fn failed_conversion_does_not_stop_batch() {
    let mut dir = Dir { exists: true, marker: false, content: false };
    let actions = run(&mut dir, &[true, false, true], true);
    assert_eq!(
        actions,
        vec![
            Action::Acquire,
            Action::Stage,
            Action::Collect,
            Action::Convert { index: 0 },
            Action::Convert { index: 1 },
            Action::Convert { index: 2 },
            Action::Teardown,
            Action::Exit { code: 0 },
        ]
    );
    assert_eq!(dir, Dir { exists: true, marker: false, content: false });
}

#[test]
fn failures_are_counted() {
    let p = Phase::Converting { next: 0, total: 2, failed: 0 };
    let (p, a) = step(p, Event::Converted { ok: false }).unwrap();
    assert_eq!(p, Phase::Converting { next: 1, total: 2, failed: 1 });
    assert_eq!(a, Action::Convert { index: 1 });
    let (p, a) = step(p, Event::Converted { ok: false }).unwrap();
    assert_eq!(p, Phase::TearingDown { failed: 2, exit_code: 0 });
    assert_eq!(a, Action::Teardown);
    let (p, a) = step(p, Event::Failed).unwrap();
    assert_eq!(p, Phase::Finished { exit_code: 0 });
    assert_eq!(a, Action::Exit { code: 0 });
}

#[test]
fn fresh_directory_is_created_and_claimed() {
    let mut dir = Dir { exists: false, marker: false, content: false };
    let actions = run(&mut dir, &[true], true);
    assert_eq!(actions[0], Action::Acquire);
    assert_eq!(actions.iter().filter(|a| **a == Action::Acquire).count(), 1);
    assert_eq!(dir, Dir { exists: true, marker: false, content: false });
}

#[test]
fn present_directory_gets_one_marker() {
    let mut dir = Dir { exists: true, marker: false, content: false };
    let actions = run(&mut dir, &[true, true], true);
    assert_eq!(actions.iter().filter(|a| **a == Action::Acquire).count(), 1);
    assert_eq!(actions[0], Action::Acquire);
    assert!(!dir.marker);
}

#[test]
fn two_sequential_runs_leave_directory_free() {
    let mut dir = Dir { exists: true, marker: false, content: false };
    let first = run(&mut dir, &[true, false], true);
    assert_eq!(first[0], Action::Acquire);
    assert_eq!(*first.last().unwrap(), Action::Exit { code: 0 });
    assert_eq!(dir, Dir { exists: true, marker: false, content: false });
    let second = run(&mut dir, &[true], true);
    assert_eq!(second[0], Action::Acquire);
    assert_eq!(*second.last().unwrap(), Action::Exit { code: 0 });
    assert_eq!(dir, Dir { exists: true, marker: false, content: false });
}

#[test]
fn racing_runs_on_fresh_directory_exclude_each_other() {
    // Both runs look at an absent directory before either claims it.
    let mut dir = Dir { exists: false, marker: false, content: false };
    let look = perform(&mut dir, Action::Sleep, &[], true);
    let (a1, act1) = step(Phase::Locking { waits_left: 2 }, look).unwrap();
    let (a3, act3) = step(Phase::Locking { waits_left: 2 }, look).unwrap();
    assert_eq!((act1, act3), (Action::Acquire, Action::Acquire));
    let (p1, s1) = step(a1, perform(&mut dir, act1, &[], true)).unwrap();
    assert_eq!((p1, s1), (Phase::Staging, Action::Stage));
    let (p3, s3) = step(a3, perform(&mut dir, act3, &[], true)).unwrap();
    assert_eq!((p3, s3), (Phase::Locking { waits_left: 1 }, Action::Sleep));
    // The loser keeps waiting while the winner holds the directory.
    let (p3, s3) = step(p3, perform(&mut dir, s3, &[], true)).unwrap();
    assert_eq!((p3, s3), (Phase::Locking { waits_left: 0 }, Action::Sleep));
    // The winner finishes and clears the directory.
    let (p1, t1) = step(p1, perform(&mut dir, s1, &[], true)).unwrap();
    let (p1, t1) = step(p1, perform(&mut dir, t1, &[], true)).unwrap();
    assert_eq!((p1, t1), (Phase::TearingDown { failed: 0, exit_code: 0 }, Action::Teardown));
    let (_, e1) = step(p1, perform(&mut dir, t1, &[], true)).unwrap();
    assert_eq!(e1, Action::Exit { code: 0 });
    // Only now does the loser get to claim it.
    let (p3, s3) = step(p3, perform(&mut dir, s3, &[], true)).unwrap();
    assert_eq!((p3, s3), (Phase::Acquiring { waits_left: 0 }, Action::Acquire));
    let (p3, _) = step(p3, perform(&mut dir, s3, &[], true)).unwrap();
    assert_eq!(p3, Phase::Staging);
}

#[test]
fn waiting_too_long_times_out() {
    let mut dir = Dir { exists: true, marker: true, content: true };
    let actions = run(&mut dir, &[], true);
    assert_eq!(
        actions,
        vec![Action::Sleep, Action::Sleep, Action::Sleep, Action::LockTimeout]
    );
    assert!(dir.marker);
}

#[test]
fn marked_directory_makes_run_wait() {
    let (p, a) = step(Phase::Locking { waits_left: 4 }, Event::Observed { dir_exists: true, marker_present: true }).unwrap();
    assert_eq!(p, Phase::Locking { waits_left: 3 });
    assert_eq!(a, Action::Sleep);
    let (p, a) = step(Phase::Locking { waits_left: 0 }, Event::Observed { dir_exists: true, marker_present: true }).unwrap();
    assert_eq!(p, Phase::Finished { exit_code: 1 });
    assert_eq!(a, Action::LockTimeout);
}

#[test]
fn empty_staging_goes_to_teardown() {
    let (p, a) = step(Phase::Collecting, Event::Collected { count: 0 }).unwrap();
    assert_eq!(p, Phase::TearingDown { failed: 0, exit_code: 0 });
    assert_eq!(a, Action::Teardown);
}

#[test]
fn staging_failures_still_tear_down() {
    for p in [Phase::Staging, Phase::Collecting] {
        let (q, a) = step(p, Event::Failed).unwrap();
        assert_eq!(q, Phase::TearingDown { failed: 0, exit_code: 1 });
        assert_eq!(a, Action::Teardown);
        let (q, a) = step(q, Event::Succeeded).unwrap();
        assert_eq!(q, Phase::Finished { exit_code: 1 });
        assert_eq!(a, Action::Exit { code: 1 });
    }
    let (q, a) = step(Phase::Acquiring { waits_left: 1 }, Event::Failed).unwrap();
    assert_eq!(q, Phase::Finished { exit_code: 1 });
    assert_eq!(a, Action::Exit { code: 1 });
}

#[test]
fn stray_event_is_refused() {
    assert_eq!(step(Phase::Locking { waits_left: 1 }, Event::Succeeded), None);
    assert_eq!(step(Phase::Finished { exit_code: 0 }, Event::Succeeded), None);
}

#[test]
fn strings_compare_by_characters() {
    assert!(str_eq("folder.lock", "folder.lock"));
    assert!(!str_eq("folder.lock", "folder.loc"));
    assert!(!str_eq("a", "b"));
    assert!(str_eq("", ""));
}

#[test]
fn output_name_keeps_name_without_extension() {
    assert_eq!(output_name("a.mp4", ""), "a.mp4");
}

#[test]
fn output_name_replaces_last_extension() {
    assert_eq!(output_name("a.mp4", "mkv"), "a.mkv");
    assert_eq!(output_name("clip.part.mov", "mp4"), "clip.part.mp4");
    assert_eq!(output_name("a.", "mp4"), "a.mp4");
}

#[test]
fn output_name_adds_extension_when_none() {
    assert_eq!(output_name("video", "mp4"), "video.mp4");
    assert_eq!(output_name(".hidden", "mp4"), ".hidden.mp4");
    assert_eq!(output_name("é.ü", "mkv"), "é.mkv");
}
