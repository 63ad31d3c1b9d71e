use jelly::persist::{
    compute_automatic_rename, current_boot_id, default_true, ensure_save_daemon,
    finish_first_run, handle_first_run, jelly_state_dir, kill_all_sessions, lock_contents,
    parse_listing, parse_pane, path_safe, pid_alive, proc_entry, restore_session, run_save_loop,
    save_all_sessions, server_has_sessions, session_file_name, session_files, sessions_dir,
    try_restore_session,
    usable_dir, AfterRecord, Config, FirstRun, LockClaim, LockReply, LockStep, SavedSession,
    SavedWindow, SaverAction, SaverEvent, StateRoot, TmuxCommand, DEFAULT_SAVE_INTERVAL,
    GUARD_FILE, LOCK_FILE, LOCK_TRIES, PANE_FORMAT,
};
use jelly::text::chars_of;

fn on() -> Config {
    Config { lazy_restore: Some(true), ..Default::default() }
}

fn show(commands: &[TmuxCommand]) -> Vec<String> {
    commands.iter().map(|c| format!("{c:?}")).collect()
}

// -- names ------------------------------------------------------------------

#[test]
fn path_safe_reduces_to_a_single_component() {
    assert_eq!(path_safe("repo-feature/foo"), "repo-feature_foo");
    assert_eq!(path_safe("a.b:c"), "a_b_c");
    assert_eq!(path_safe("plain_name-1"), "plain_name-1");
}

#[test]
fn path_safe_keeps_letters_and_digits_of_every_script() {
    assert_eq!(path_safe("naïve/日本 ½٣"), "naïve_日本_½٣");
    assert_eq!(path_safe("…💡\u{301}"), "___");
    for n in (0..=0x10ffffu32).step_by(7) {
        if let Some(c) = char::from_u32(n) {
            let kept = c.is_alphanumeric() || c == '-' || c == '_';
            let expected = if kept { c } else { '_' };
            assert_eq!(path_safe(&c.to_string()), expected.to_string());
        }
    }
}

#[test]
fn path_safe_is_idempotent_and_never_leaves_the_directory() {
    for name in ["", ".", "..", "../..", "a/b\\c", "\0", "~", "x y"] {
        let safe = path_safe(name);
        assert_eq!(path_safe(&safe), safe);
        assert!(!safe.contains('/') && !safe.contains('.'));
        assert_eq!(safe.chars().count(), name.chars().count());
    }
}

#[test]
fn session_files_are_named_after_their_sessions() {
    assert_eq!(session_file_name("proj"), "proj.json");
    assert_eq!(session_file_name("a.b"), "a%46%b.json");
    assert_eq!(session_file_name(""), ".json");
    assert_eq!(session_file_name("日本-1_x"), "日本-1_x.json");
    assert_eq!(session_file_name("…"), "%8230%.json");
}

#[test]
fn no_two_sessions_share_a_file() {
    let names = [
        "", "a", "b", "a/b", "a_b", "a.b", "a%47%b", "a%b", "%", "%%", "a/", "/", "..", "47",
        "%47", "47%", "a//b", "é", "e\u{301}",
    ];
    for a in names {
        let file = session_file_name(a);
        assert!(!file.contains('/') && file.matches('.').count() == 1, "{file:?}");
        for b in names {
            assert_eq!(file == session_file_name(b), a == b, "{a:?} {b:?}");
        }
    }
}

#[test]
fn an_older_snapshot_is_looked_for_under_the_reduced_name() {
    assert_eq!(
        session_files("repo-feature/foo"),
        vec!["repo-feature%47%foo.json", "repo-feature_foo.json"]
    );
    assert_eq!(session_files("proj"), vec!["proj.json", "proj.json"]);
    let old = SavedSession {
        name: "repo-feature/foo".to_string(),
        windows: vec![window("w", true, "", &["/a"])],
    };
    assert!(try_restore_session("repo-feature/foo", &on(), Some(&old)).is_some());
    assert!(try_restore_session("repo-feature_foo", &on(), Some(&old)).is_none());
}

#[test]
fn the_file_of_a_session_that_is_not_live_is_left_alone() {
    let files = save_all_sessions("a/b\t0\tw\tl\t0\t/x\t1\tsh\n");
    assert_eq!(files.len(), 1);
    assert_eq!(files[0].file_name, "a%47%b.json");
    assert_ne!(files[0].file_name, session_file_name("a_b"));
}

// -- automatic names --------------------------------------------------------

#[test]
fn auto_rename_heuristic_trusts_the_tmux_option() {
    assert!(compute_automatic_rename(true, "anything", &[]));
    assert!(compute_automatic_rename(true, "logs", &["zsh".into()]));
}

#[test]
fn auto_rename_heuristic_recovers_locked_loop_windows() {
    assert!(compute_automatic_rename(
        false,
        "nvim",
        &["zsh".to_string(), "nvim".to_string()],
    ));
}

#[test]
fn auto_rename_heuristic_preserves_truly_manual_names() {
    assert!(!compute_automatic_rename(
        false,
        "logs",
        &["zsh".to_string(), "tail".to_string()],
    ));
}

#[test]
fn auto_rename_heuristic_needs_a_name() {
    assert!(!compute_automatic_rename(false, "", &["".to_string()]));
    assert!(!compute_automatic_rename(false, "zsh", &[]));
    assert!(default_true());
}

// -- snapshots --------------------------------------------------------------

const LISTING: &str = "proj\t1\tlogs\tlay1\t0\t/b\t0\ttail\n\
    proj\t0\tzsh\tlay0\t1\t/home/b\t0\tnvim\n\
    proj\t0\tzsh\tlay0\t0\t/home/a\t0\tzsh\n\
    broken\tline\n\
    proj\tx\tzsh\tlay0\t0\t/home/a\t0\tzsh\n\
    proj\t0\tzsh\tlay0\t-1\t/home/a\t0\tzsh\n\
    a.b\t3\tw\t\t7\t/x\t1\ttop\n";

#[test]
fn the_pane_format_has_a_field_per_column() {
    assert_eq!(PANE_FORMAT.split('\t').count(), 8);
    assert!(PANE_FORMAT.starts_with("#{session_name}\t#{window_index}\t"));
    assert!(PANE_FORMAT.ends_with("\t#{E:automatic-rename}\t#{pane_current_command}"));
}

#[test]
fn a_pane_line_is_read_field_by_field() {
    let pane = parse_pane(&chars_of("s\t4294967295\tname\tlay\t+2\t/p q\t1\tcmd")).unwrap();
    assert_eq!(pane.session, "s");
    assert_eq!(pane.window_index, 4294967295);
    assert_eq!(pane.window_name, "name");
    assert_eq!(pane.layout, "lay");
    assert_eq!(pane.pane_index, 2);
    assert_eq!(pane.path, "/p q");
    assert!(pane.auto_rename);
    assert_eq!(pane.command, "cmd");
    for bad in [
        "",
        "s\t0\tn\tl\t0\t/p\t1",
        "s\t0\tn\tl\t0\t/p\t1\tc\textra",
        "s\t4294967296\tn\tl\t0\t/p\t1\tc",
        "s\t0\tn\tl\tx\t/p\t1\tc",
    ] {
        assert!(parse_pane(&chars_of(bad)).is_none(), "{bad:?}");
    }
    let off = parse_pane(&chars_of("s\t0\tn\tl\t0\t/p\ton\tc")).unwrap();
    assert!(!off.auto_rename);
}

#[test]
fn malformed_lines_are_left_out_of_the_listing() {
    assert_eq!(parse_listing(LISTING).len(), 4);
    assert_eq!(parse_listing("").len(), 0);
}

#[test]
fn a_snapshot_holds_every_session_in_order() {
    let files = save_all_sessions(LISTING);
    assert_eq!(files.len(), 2);
    assert_eq!(files[0].file_name, "a%46%b.json");
    assert_eq!(files[0].session.name, "a.b");
    assert!(files[0].session.windows[0].automatic_rename);
    assert_eq!(files[1].file_name, "proj.json");

    let proj = &files[1].session;
    assert_eq!(proj.name, "proj");
    assert_eq!(proj.windows.len(), 2);
    assert_eq!(proj.windows[0].name, "zsh");
    assert_eq!(proj.windows[0].layout, "lay0");
    assert_eq!(proj.windows[0].panes, vec!["/home/a", "/home/b"]);
    assert!(proj.windows[0].automatic_rename);
    assert_eq!(proj.windows[1].name, "logs");
    assert_eq!(proj.windows[1].panes, vec!["/b"]);
    assert!(!proj.windows[1].automatic_rename);
}

#[test]
fn the_order_of_the_listing_makes_no_difference() {
    let lines = [
        "p\t2\tlogs\tl2\t0\t/c\t0\ttail",
        "p\t10\tzsh\tl10\t11\t/b\t0\tnvim",
        "p\t10\tzsh\tl10\t9\t/a\t0\tzsh",
        "a\t0\tw\t\t0\t/x\t1\ttop",
        "no pane",
    ];
    let saved = |order: &[usize]| -> String {
        let listing: String = order.iter().map(|i| format!("{}\n", lines[*i])).collect();
        format!("{:?}", save_all_sessions(&listing))
    };
    let expected = saved(&[0, 1, 2, 3, 4]);
    for order in [[4, 3, 2, 1, 0], [2, 0, 4, 1, 3], [1, 2, 3, 0, 4], [3, 1, 0, 4, 2]] {
        assert_eq!(saved(&order), expected);
    }
    assert!(expected.contains(r#"panes: ["/a", "/b"]"#));
}

#[test]
fn the_first_line_of_a_window_names_it_and_the_last_of_a_pane_places_it() {
    let files = save_all_sessions(
        "s\t0\tfirst\tl1\t0\t/old\t0\tsh\ns\t0\tsecond\tl2\t0\t/new\t1\tfirst\n",
    );
    let window = &files[0].session.windows[0];
    assert_eq!(window.name, "first");
    assert_eq!(window.layout, "l1");
    assert_eq!(window.panes, vec!["/new"]);
    assert!(window.automatic_rename);
}

#[test]
fn no_pane_no_snapshot() {
    assert!(save_all_sessions("").is_empty());
    assert!(save_all_sessions("nothing here\n").is_empty());
}

// -- restoring --------------------------------------------------------------

fn window(name: &str, automatic_rename: bool, layout: &str, panes: &[&str]) -> SavedWindow {
    SavedWindow {
        name: name.to_string(),
        automatic_rename,
        layout: layout.to_string(),
        panes: panes.iter().map(|p| p.to_string()).collect(),
    }
}

#[test]
fn a_restore_rebuilds_windows_panes_and_layouts() {
    let saved = SavedSession {
        name: "proj".to_string(),
        windows: vec![
            window("main", false, "lay0", &["/a", "/b"]),
            window("zsh", true, "", &["/c"]),
            window("logs", false, "lay2", &[]),
            window("", false, "", &["", "/d"]),
        ],
    };
    let commands: Vec<TmuxCommand> =
        restore_session(&saved).into_iter().map(|c| c.resolve(true)).collect();
    assert_eq!(
        show(&commands),
        vec![
            r#"NewSession { name: "proj", dir: Some("/a") }"#,
            r#"RenameWindow { session: "proj", name: "main" }"#,
            r#"SplitWindow { session: "proj", dir: Some("/b") }"#,
            r#"SelectLayout { session: "proj", layout: "lay0" }"#,
            r#"NewWindow { session: "proj", window_name: None, dir: Some("/c") }"#,
            r#"NewWindow { session: "proj", window_name: Some("logs"), dir: None }"#,
            r#"SelectLayout { session: "proj", layout: "lay2" }"#,
            r#"NewWindow { session: "proj", window_name: None, dir: None }"#,
            r#"SplitWindow { session: "proj", dir: Some("/d") }"#,
        ]
    );
}

#[test]
fn only_existing_directories_are_handed_to_tmux() {
    assert_eq!(usable_dir("/a".to_string(), true), Some("/a".to_string()));
    assert_eq!(usable_dir("/a".to_string(), false), None);
    assert_eq!(usable_dir(String::new(), true), None);

    let split = || TmuxCommand::SplitWindow {
        session: "s".to_string(),
        dir: Some("/gone".to_string()),
    };
    assert_eq!(split().dir(), Some("/gone"));
    assert_eq!(split().resolve(true).dir(), Some("/gone"));
    assert_eq!(split().resolve(false).dir(), None);
    let layout = TmuxCommand::SelectLayout { session: "s".to_string(), layout: "l".to_string() };
    assert_eq!(layout.dir(), None);
    assert_eq!(
        format!("{:?}", layout.resolve(false)),
        r#"SelectLayout { session: "s", layout: "l" }"#
    );
}

#[test]
fn nothing_is_restored_without_lazy_restore_or_windows() {
    let saved = SavedSession {
        name: "proj".to_string(),
        windows: vec![window("w", true, "", &["/a"])],
    };
    let empty = SavedSession { name: "proj".to_string(), windows: vec![] };
    assert!(try_restore_session("proj", &on(), Some(&saved)).is_some());
    assert!(try_restore_session("proj", &on(), Some(&empty)).is_none());
    assert!(try_restore_session("proj", &on(), None).is_none());
    let off = Config { lazy_restore: Some(false), ..Default::default() };
    assert!(try_restore_session("proj", &off, Some(&saved)).is_none());
    assert!(try_restore_session("proj", &Config::default(), Some(&saved)).is_none());
}

#[test]
fn the_snapshot_of_another_session_does_not_count() {
    let other = SavedSession {
        name: "a_b".to_string(),
        windows: vec![window("w", true, "", &["/a"])],
    };
    assert!(try_restore_session("a/b", &on(), Some(&other)).is_none());
    assert!(try_restore_session("a_b", &on(), Some(&other)).is_some());
}

#[test]
fn a_saved_session_comes_back_as_it_was() {
    let files = save_all_sessions(
        "proj\t0\tzsh\tL0\t0\t/t/a\t1\tzsh\n\
         proj\t0\tzsh\tL0\t1\t/t/b\t1\tzsh\n\
         proj\t1\tmine\tL1\t0\t/t/a\t0\tzsh\n",
    );
    let commands = try_restore_session("proj", &on(), Some(&files[0].session)).unwrap();
    assert_eq!(
        show(&commands),
        vec![
            r#"NewSession { name: "proj", dir: Some("/t/a") }"#,
            r#"SplitWindow { session: "proj", dir: Some("/t/b") }"#,
            r#"SelectLayout { session: "proj", layout: "L0" }"#,
            r#"NewWindow { session: "proj", window_name: Some("mine"), dir: Some("/t/a") }"#,
            r#"SelectLayout { session: "proj", layout: "L1" }"#,
        ]
    );
}

// -- boots ------------------------------------------------------------------

#[test]
fn the_boot_id_comes_from_the_kernel_and_else_from_sysctl() {
    assert_eq!(current_boot_id(Some(" k1\n"), Some("s1")), Some("k1".to_string()));
    assert_eq!(current_boot_id(Some(" \n"), Some("s1\n")), Some("s1".to_string()));
    assert_eq!(current_boot_id(None, Some("s1")), Some("s1".to_string()));
    assert_eq!(current_boot_id(None, Some("")), None);
    assert_eq!(current_boot_id(None, None), None);
}

#[test]
fn the_clean_slate_follows_a_reboot_once() {
    let config = on();
    assert_eq!(handle_first_run(&config, true, Some("b2"), Some("b1\n")), FirstRun::RecordAndClear);
    assert_eq!(handle_first_run(&config, true, Some("b2"), Some(" b2\n")), FirstRun::Nothing);
    assert_eq!(handle_first_run(&config, true, Some("b2"), None), FirstRun::Record);
    assert_eq!(handle_first_run(&config, true, None, Some("b1")), FirstRun::Nothing);
    assert_eq!(handle_first_run(&config, false, Some("b2"), Some("b1")), FirstRun::Nothing);
    assert_eq!(
        handle_first_run(&Config::default(), true, Some("b2"), Some("b1")),
        FirstRun::Nothing
    );
}

#[test]
fn nothing_is_closed_before_the_boot_id_is_recorded() {
    assert_eq!(finish_first_run(FirstRun::RecordAndClear, true), AfterRecord::Clear);
    assert_eq!(finish_first_run(FirstRun::RecordAndClear, false), AfterRecord::Warn);
    assert_eq!(finish_first_run(FirstRun::Record, true), AfterRecord::Done);
    assert_eq!(finish_first_run(FirstRun::Record, false), AfterRecord::Done);
    assert_eq!(finish_first_run(FirstRun::Nothing, true), AfterRecord::Done);
}

#[test]
fn the_attached_session_is_spared() {
    let listing = "'one'\n'two'\n\n''\n'three'\n";
    assert_eq!(kill_all_sessions(Some("'two'\n"), listing), vec!["one", "three"]);
    assert_eq!(kill_all_sessions(None, listing), vec!["one", "two", "three"]);
    assert_eq!(kill_all_sessions(Some("''\n"), listing), vec!["one", "two", "three"]);
    assert_eq!(kill_all_sessions(Some("' pad '\n"), "' pad '\n'x'\n"), vec!["x"]);
    assert!(kill_all_sessions(None, "").is_empty());
}

// -- the lock ---------------------------------------------------------------

/// A lock file, as a claim finds it.
struct Disk {
    file: Option<String>,
}

/// Claims the lock for process `own`, with the given processes alive.
fn claim_lock(disk: &mut Disk, own: u32, alive: &[u32]) -> bool {
    let mut claim = LockClaim::start();
    loop {
        let reply = match claim.step {
            LockStep::Guard => LockReply::Guarded,
            LockStep::Open => match &disk.file {
                Some(contents) => LockReply::Exists { contents: Some(contents.clone()) },
                None => {
                    disk.file = Some(lock_contents(own));
                    LockReply::Created
                }
            },
            LockStep::Probe { pid } => LockReply::Alive { alive: alive.contains(&pid) },
            LockStep::Remove => {
                disk.file = None;
                LockReply::Removed { removed: true }
            }
            LockStep::Granted => return true,
            LockStep::Refused => return false,
        };
        claim = claim.next(reply);
    }
}

#[test]
fn lock_admits_one_holder() {
    let own: u32 = 77;
    let mut lock = Disk { file: None };
    assert!(claim_lock(&mut lock, own, &[own]), "first claim should succeed");
    assert!(!claim_lock(&mut lock, own, &[own]), "a held lock should reject a second claim");
    // A lock left by a dead process is reclaimable.
    lock.file = Some("4294967290".to_string());
    assert!(claim_lock(&mut lock, own, &[own]), "a stale lock should be reclaimable");
    assert_eq!(lock.file, Some("77".to_string()));
    assert_eq!(LOCK_FILE, "saver.pid");
    assert_eq!(GUARD_FILE, "saver.guard");
}

/// Runs three claims on one file, a step at a time, in the order of `turns`.
fn race(file: Option<&str>, turns: &[usize]) -> (Vec<LockStep>, Option<String>) {
    let pids: [u32; 3] = [10, 20, 25];
    let alive: [u32; 4] = [10, 20, 25, 30];
    let mut file = file.map(|s| s.to_string());
    let mut guard: Option<usize> = None;
    let mut claims = [LockClaim::start(); 3];
    let mut found = [false; 3];
    for &i in turns {
        let reply = match claims[i].step {
            LockStep::Guard if guard.is_some() => continue,
            LockStep::Guard => {
                guard = Some(i);
                LockReply::Guarded
            }
            LockStep::Open if found[i] => {
                found[i] = false;
                LockReply::Exists { contents: file.clone() }
            }
            LockStep::Open if file.is_some() => {
                found[i] = true;
                continue;
            }
            LockStep::Open => {
                file = Some(lock_contents(pids[i]));
                LockReply::Created
            }
            LockStep::Probe { pid } => LockReply::Alive { alive: alive.contains(&pid) },
            LockStep::Remove => LockReply::Removed { removed: file.take().is_some() },
            _ => continue,
        };
        claims[i] = claims[i].next(reply);
        if matches!(claims[i].step, LockStep::Granted | LockStep::Refused) {
            guard = None;
        }
    }
    (claims.iter().map(|c| c.step).collect(), file)
}

#[test]
fn of_claims_at_once_one_is_granted() {
    let count = |steps: &[LockStep], step: LockStep| steps.iter().filter(|s| **s == step).count();
    for seed in 0..3usize.pow(7) {
        let mut turns: Vec<usize> = Vec::new();
        let mut rest = seed;
        for _ in 0..7 {
            turns.push(rest % 3);
            rest /= 3;
        }
        for round in 0..60 {
            turns.push((round + seed) % 3);
        }
        for file in [None, Some("4294967290"), Some(""), Some("junk")] {
            let (steps, held) = race(file, &turns);
            assert_eq!(count(&steps, LockStep::Granted), 1, "{file:?} {turns:?}");
            assert_eq!(count(&steps, LockStep::Refused), 2, "{file:?} {turns:?}");
            let winner = steps.iter().position(|s| *s == LockStep::Granted).unwrap();
            assert_eq!(held, Some(["10", "20", "25"][winner].to_string()));
        }
        let (steps, held) = race(Some("30"), &turns);
        assert_eq!(count(&steps, LockStep::Refused), 3);
        assert_eq!(held, Some("30".to_string()));
    }
}

#[test]
fn an_unreadable_lock_counts_as_stale() {
    for contents in ["", "not a pid", "-3", "99999999999"] {
        let mut lock = Disk { file: Some(contents.to_string()) };
        assert!(claim_lock(&mut lock, 5, &[5]), "{contents:?}");
    }
    let claim =
        LockClaim::start().next(LockReply::Guarded).next(LockReply::Exists { contents: None });
    assert_eq!(claim.step, LockStep::Remove);
}

#[test]
fn a_live_holder_with_white_space_around_its_id_keeps_the_lock() {
    let mut lock = Disk { file: Some(" 12\n".to_string()) };
    assert!(!claim_lock(&mut lock, 5, &[5, 12]));
    assert_eq!(lock.file, Some(" 12\n".to_string()));
}

#[test]
fn a_claim_gives_up_where_the_file_cannot_be_had() {
    assert_eq!(LockClaim::start().step, LockStep::Guard);
    let open = LockClaim::start().next(LockReply::Guarded);
    assert_eq!(open.step, LockStep::Open);
    assert_eq!(open.next(LockReply::OpenFailed).step, LockStep::Refused);
    let stuck = open
        .next(LockReply::Exists { contents: None })
        .next(LockReply::Removed { removed: false });
    assert_eq!(stuck.step, LockStep::Refused);
    let mut claim = open;
    let mut opened = 0;
    while claim.step == LockStep::Open {
        opened += 1;
        claim = claim
            .next(LockReply::Exists { contents: Some("1".to_string()) })
            .next(LockReply::Alive { alive: false })
            .next(LockReply::Removed { removed: true });
    }
    assert_eq!(opened, LOCK_TRIES);
    assert_eq!(claim.step, LockStep::Refused);
}

#[test]
fn a_process_is_alive_by_its_entry_or_by_a_signal() {
    assert!(pid_alive(Some(true), None));
    assert!(!pid_alive(Some(false), Some(true)));
    assert!(pid_alive(None, Some(true)));
    assert!(!pid_alive(None, Some(false)));
    assert!(!pid_alive(None, None));
    assert_eq!(proc_entry(42), "/proc/42");
}

// -- the saver --------------------------------------------------------------

#[test]
fn the_saver_needs_lazy_restore_and_an_interval() {
    assert!(ensure_save_daemon(&on()));
    assert!(!ensure_save_daemon(&Config::default()));
    assert!(!ensure_save_daemon(&Config { lazy_restore: Some(true), save_interval: Some(0) }));
    assert!(ensure_save_daemon(&Config { lazy_restore: Some(true), save_interval: Some(1) }));
    assert_eq!(DEFAULT_SAVE_INTERVAL, 15);
}

#[test]
fn the_saver_sleeps_and_saves_until_the_server_is_gone() {
    let config = Config { lazy_restore: Some(true), save_interval: Some(2) };
    let act = |event: SaverEvent| run_save_loop(&config, &event);
    assert_eq!(act(SaverEvent::Started { has_state_dir: true }), SaverAction::ClaimLock);
    assert_eq!(act(SaverEvent::Started { has_state_dir: false }), SaverAction::Exit);
    assert_eq!(act(SaverEvent::Claimed { granted: false }), SaverAction::Exit);
    assert_eq!(act(SaverEvent::Claimed { granted: true }), SaverAction::Sleep { seconds: 120 });
    assert_eq!(act(SaverEvent::Woke { listing: "'s'\n".to_string() }), SaverAction::Save);
    assert_eq!(act(SaverEvent::Saved), SaverAction::Sleep { seconds: 120 });
    assert_eq!(act(SaverEvent::Woke { listing: "\n".to_string() }), SaverAction::ReleaseAndExit);
    assert_eq!(
        run_save_loop(&on(), &SaverEvent::Saved),
        SaverAction::Sleep { seconds: 900 }
    );
    assert_eq!(
        run_save_loop(&Config::default(), &SaverEvent::Started { has_state_dir: true }),
        SaverAction::Exit
    );
    let never = Config { lazy_restore: Some(true), save_interval: Some(0) };
    assert_eq!(
        run_save_loop(&never, &SaverEvent::Started { has_state_dir: true }),
        SaverAction::Exit
    );
}

#[test]
fn a_server_with_sessions_lists_something() {
    assert!(server_has_sessions("'a'\n"));
    assert!(!server_has_sessions(""));
    assert!(!server_has_sessions(" \n\t"));
}

// -- paths ------------------------------------------------------------------

#[test]
fn the_state_directory_prefers_xdg() {
    assert_eq!(jelly_state_dir(Some(false), true), Some(StateRoot::Xdg));
    assert_eq!(jelly_state_dir(Some(true), true), Some(StateRoot::Home));
    assert_eq!(jelly_state_dir(None, true), Some(StateRoot::Home));
    assert_eq!(jelly_state_dir(None, false), None);
    assert_eq!(jelly_state_dir(Some(true), false), None);
    assert_eq!(sessions_dir(StateRoot::Xdg), "jelly/sessions");
    assert_eq!(sessions_dir(StateRoot::Home), ".local/state/jelly/sessions");
    assert_eq!(StateRoot::Home.state_path(), ".local/state/jelly");
}
