use std::collections::HashMap;

use jelly::text::chars_of;
use jelly::usage::figures::{double_of, load_rank};
use jelly::usage::{
    basename, build_sessions, checked_build_sessions, collect, format_mem, index_processes,
    parse_panes, parse_sample, sample_processes, sort_by_metric, truncate, CpuLoad, Metric,
    ProcRow, Process, SessionProcesses, SessionUsage, PANE_PID_FORMAT,
};

fn load(cpu: f32) -> CpuLoad {
    CpuLoad {
        bits: cpu.to_bits(),
        tenths: (cpu as f64 * 10.0).round() as u64,
        text: format!("{cpu:.1}%"),
    }
}

fn proc(ppid: u32, cpu: f32, mem_kb: u64, command: &str) -> ProcRow {
    ProcRow { ppid, cpu: load(cpu), mem_kb, command: command.to_string() }
}

fn cpu_of(session: &SessionProcesses) -> f32 {
    session.processes.iter().map(|p| f32::from_bits(p.cpu.bits)).sum()
}

// -- figures ----------------------------------------------------------------

#[test]
fn basename_keeps_plain_names_and_strips_paths() {
    assert_eq!(basename("nvim"), "nvim");
    assert_eq!(basename("/usr/bin/cargo"), "cargo");
    assert_eq!(basename("/Applications/Foo.app/Contents/MacOS/foo"), "foo");
    assert_eq!(basename("trailing/"), "trailing/");
}

#[test]
fn basename_drops_white_space_around_the_command() {
    assert_eq!(basename("  /bin/sh \n"), "sh");
    assert_eq!(basename(""), "");
    assert_eq!(basename("/"), "/");
    assert_eq!(basename("a b/c d"), "c d");
}

#[test]
fn truncate_marks_cuts_with_an_ellipsis() {
    assert_eq!(truncate("short", 10), "short");
    assert_eq!(truncate("a-very-long-name", 6), "a-ver…");
}

#[test]
fn truncate_counts_characters() {
    assert_eq!(truncate("ééé", 3), "ééé");
    assert_eq!(truncate("éééé", 3), "éé…");
    assert_eq!(truncate("ab", 1), "…");
    assert_eq!(truncate("ab", 0), "");
    assert_eq!(truncate("", 0), "");
    for max in 0..20 {
        assert!(truncate("a-very-long-name", max).chars().count() <= max);
    }
}

#[test]
fn format_mem_switches_units_at_1000() {
    assert_eq!(format_mem(0), "0 KB");
    assert_eq!(format_mem(512), "512 KB");
    assert_eq!(format_mem(2048), "2 MB");
    assert_eq!(format_mem(2 * 1024 * 1024), "2.0 GB");
}

/// The figure in floating point.
fn float_mem(kb: u64) -> String {
    let kb_f = kb as f64;
    if kb < 1000 {
        format!("{kb} KB")
    } else if kb_f < 1000.0 * 1024.0 {
        format!("{:.0} MB", kb_f / 1024.0)
    } else {
        format!("{:.1} GB", kb_f / (1024.0 * 1024.0))
    }
}

#[test]
fn format_mem_agrees_with_floating_point() {
    for kb in 990..6000u64 {
        assert_eq!(format_mem(kb), float_mem(kb), "{kb}");
    }
    for kb in (1_000_000..1_100_000u64).chain(52_428..52_440).chain(157_200..157_400) {
        assert_eq!(format_mem(kb), float_mem(kb), "{kb}");
    }
    let mut kb: u64 = 3;
    while kb < u64::MAX / 7 {
        for near in [kb - 1, kb, kb + 1, kb * 3 / 2, kb * 5 / 4] {
            assert_eq!(format_mem(near), float_mem(near), "{near}");
        }
        kb = kb * 7 / 4 + 1;
    }
    for kb in [u64::MAX, u64::MAX - 1, 1 << 53, (1 << 53) + 1, (1 << 54) + 2, (1 << 63) + 1025] {
        assert_eq!(format_mem(kb), float_mem(kb), "{kb}");
    }
}

#[test]
fn counts_round_to_the_nearest_double() {
    for n in [
        0u64,
        1,
        (1 << 53) - 1,
        1 << 53,
        (1 << 53) + 1,
        (1 << 53) + 2,
        (1 << 53) + 3,
        (1 << 60) + 127,
        (1 << 60) + 128,
        (1 << 60) + 129,
        (1 << 60) + 384,
        u64::MAX - 1024,
        u64::MAX - 1023,
        u64::MAX,
    ] {
        assert_eq!(double_of(n), (n as f64) as u128, "{n}");
    }
}

#[test]
fn loads_rank_as_floating_point_orders_them() {
    let loads: [f32; 12] = [
        0.0,
        -0.0,
        0.1,
        1.0,
        99.9,
        100.0,
        -1.0,
        f32::MIN_POSITIVE,
        f32::INFINITY,
        f32::NEG_INFINITY,
        f32::NAN,
        -f32::NAN,
    ];
    for a in loads {
        for b in loads {
            let rank = load_rank(a.to_bits()).cmp(&load_rank(b.to_bits()));
            assert_eq!(rank, (a as f64).total_cmp(&(b as f64)), "{a} {b}");
        }
    }
}

#[test]
fn metrics_are_labelled() {
    assert_eq!(Metric::Cpu.label(), "CPU");
    assert_eq!(Metric::Mem.label(), "Memory");
}

// -- samples ----------------------------------------------------------------

#[test]
fn a_line_of_ps_is_read_column_by_column() {
    let s = parse_sample(&chars_of("  100     1  12.5  2048 /usr/bin/my  tool x"), 9).unwrap();
    assert_eq!((s.pid, s.ppid, s.mem_kb), (100, 1, 2048));
    assert_eq!(s.cpu, "12.5");
    assert_eq!(s.command, "my tool x");
    let bare = parse_sample(&chars_of("1 0 0.0 x"), 9).unwrap();
    assert_eq!(bare.mem_kb, 0);
    assert_eq!(bare.command, "");
    for bad in ["", "1 2 3", "x 2 0.0 1 sh", "1 -2 0.0 1 sh", "4294967296 1 0 0 sh"] {
        assert!(parse_sample(&chars_of(bad), 9).is_none(), "{bad:?}");
    }
}

#[test]
fn the_probe_itself_is_left_out() {
    let output = "1 0 0.0 10 init\n7 5 99.0 10 /bin/ps\n8 6 99.0 10 ps\n9 5 1.0 10 psx\n";
    let pids: Vec<u32> = sample_processes(output, 5).iter().map(|s| s.pid).collect();
    assert_eq!(pids, vec![1, 8, 9]);
}

#[test]
fn the_last_line_of_a_process_counts() {
    let samples = sample_processes("5 1 1.0 10 old\n6 1 1.0 20 six\n5 2 2.0 30 new\n", 99);
    let loads = vec![load(1.0), load(1.5), load(2.0)];
    let table = index_processes(&samples, &loads);
    assert_eq!(table.len(), 2);
    assert_eq!(table[&5].ppid, 2);
    assert_eq!(table[&5].mem_kb, 30);
    assert_eq!(table[&5].command, "new");
    assert_eq!(table[&5].cpu.text, "2.0%");
    assert_eq!(table[&6].cpu.tenths, 15);
}

#[test]
fn parse_panes_drops_malformed_lines() {
    let raw = "alpha\t100\nbeta\t200\nbroken-line\ngamma\tnot-a-pid\n";
    assert_eq!(
        parse_panes(raw),
        vec![("alpha".to_string(), 100), ("beta".to_string(), 200)]
    );
}

#[test]
fn parse_panes_needs_a_name_and_splits_at_the_first_tab() {
    assert_eq!(parse_panes("\t5\n"), vec![]);
    assert_eq!(parse_panes("a\t 5 \r\n"), vec![("a".to_string(), 5)]);
    assert_eq!(parse_panes("a\t5\t6\n"), vec![]);
    assert_eq!(PANE_PID_FORMAT, "#{session_name}\t#{pane_pid}");
}

#[test]
fn a_list_of_panes_reads_back() {
    let panes = vec![
        ("a b".to_string(), 0),
        ("é\r'".to_string(), u32::MAX),
        ("a b".to_string(), 0),
        (" ".to_string(), 17),
    ];
    let mut raw = String::new();
    for (name, pid) in &panes {
        raw.push_str(&format!("{name}\t{pid}\n"));
    }
    assert_eq!(parse_panes(&raw), panes);
}

#[test]
fn joined_lists_of_panes_hold_both() {
    let texts = ["", "a\t1", "a\t1\n", "a\t1\r", "\r", "x\ny\t2\r\nz", "\n\n", "b\t 3 "];
    for a in texts {
        for b in texts {
            let mut both = parse_panes(a);
            both.extend(parse_panes(b));
            assert_eq!(parse_panes(&format!("{a}\n{b}")), both, "{a:?} {b:?}");
        }
    }
}

// -- attribution ------------------------------------------------------------

#[test]
fn build_sessions_attributes_the_whole_process_subtree() {
    // pane root 100 -> shell; 100 spawns 101 (nvim), 101 spawns 102 (lsp).
    let mut procs = HashMap::new();
    procs.insert(100, proc(1, 1.0, 1000, "zsh"));
    procs.insert(101, proc(100, 10.0, 4000, "nvim"));
    procs.insert(102, proc(101, 5.0, 2000, "rust-analyzer"));
    // An unrelated process must not leak into the session.
    procs.insert(900, proc(1, 99.0, 99000, "unrelated"));

    let sessions = build_sessions(&procs, &[("work".to_string(), 100)]);

    assert_eq!(sessions.len(), 1);
    let work = &sessions[0];
    assert_eq!(work.name, "work");
    assert_eq!(work.processes.len(), 3);
    assert!((cpu_of(work) - 16.0).abs() < f32::EPSILON);
    assert_eq!(work.mem_kb, 7000);
}

#[test]
fn build_sessions_counts_each_process_once_across_panes() {
    // Two panes in the same session, each its own shell subtree.
    let mut procs = HashMap::new();
    procs.insert(100, proc(1, 1.0, 1000, "zsh"));
    procs.insert(101, proc(100, 2.0, 2000, "vim"));
    procs.insert(200, proc(1, 3.0, 3000, "zsh"));

    let sessions = build_sessions(
        &procs,
        &[("dev".to_string(), 100), ("dev".to_string(), 200)],
    );

    assert_eq!(sessions.len(), 1);
    assert_eq!(sessions[0].processes.len(), 3);
    assert_eq!(sessions[0].mem_kb, 6000);
}

#[test]
fn a_process_below_two_sessions_is_charged_to_one() {
    let mut procs = HashMap::new();
    procs.insert(10, proc(1, 1.0, 1, "zsh"));
    procs.insert(11, proc(10, 1.0, 2, "tmux"));
    procs.insert(12, proc(11, 1.0, 4, "vim"));
    let sessions = build_sessions(
        &procs,
        &[("outer".to_string(), 10), ("inner".to_string(), 11), ("outer".to_string(), 10)],
    );
    assert_eq!(sessions.len(), 2);
    assert_eq!((sessions[0].name.as_str(), sessions[0].mem_kb), ("outer", 7));
    assert_eq!((sessions[1].name.as_str(), sessions[1].mem_kb), ("inner", 0));
    assert!(sessions[1].processes.is_empty());
}

#[test]
fn loops_of_parents_end_and_missing_roots_count_nothing() {
    let mut procs = HashMap::new();
    procs.insert(1, proc(2, 0.0, 5, "a"));
    procs.insert(2, proc(1, 0.0, 6, "b"));
    procs.insert(3, proc(3, 0.0, 7, "c"));
    procs.insert(8, proc(404, 0.0, 8, "orphan"));
    let sessions = build_sessions(
        &procs,
        &[("s".to_string(), 1), ("t".to_string(), 3), ("u".to_string(), 404)],
    );
    let mems: Vec<u64> = sessions.iter().map(|s| s.mem_kb).collect();
    assert_eq!(mems, vec![11, 7, 8]);
}

#[test]
fn sessions_are_those_of_the_panes_and_their_memory_adds_up() {
    let mut procs = HashMap::new();
    procs.insert(1, proc(0, 0.0, 5, "a"));
    procs.insert(2, proc(1, 0.0, 6, "b"));
    let panes = [
        ("x".to_string(), 1),
        ("gone".to_string(), 99),
        ("x".to_string(), 2),
    ];
    let sessions = build_sessions(&procs, &panes);
    let found: Vec<&str> = sessions.iter().map(|s| s.name.as_str()).collect();
    assert_eq!(found, vec!["x", "gone"]);
    for s in &sessions {
        assert_eq!(s.mem_kb, s.processes.iter().map(|p| p.mem_kb).sum::<u64>());
    }
    assert!(sessions[1].processes.is_empty());
    assert!(build_sessions(&procs, &[]).is_empty());
}

#[test]
fn memory_beyond_sixty_four_bits_is_refused() {
    let mut procs = HashMap::new();
    procs.insert(1, proc(0, 0.0, u64::MAX, "a"));
    procs.insert(2, proc(1, 0.0, 1, "b"));
    assert!(checked_build_sessions(&procs, &[("s".to_string(), 1)]).is_none());
    let fits = checked_build_sessions(&procs, &[("s".to_string(), 2)]).unwrap();
    assert_eq!(fits[0].mem_kb, 1);
    assert!(collect(&procs, "s\t1\n").is_none());
}

#[test]
fn without_processes_there_are_no_sessions() {
    let none = HashMap::new();
    assert!(collect(&none, "work\t100\n").unwrap().is_empty());
    let mut procs = HashMap::new();
    procs.insert(100, proc(1, 1.0, 3, "zsh"));
    let sessions = collect(&procs, "work\t100\nidle\t7\nbroken\n").unwrap();
    assert_eq!(sessions.len(), 2);
    assert_eq!((sessions[0].name.as_str(), sessions[0].mem_kb), ("work", 3));
    assert_eq!((sessions[1].name.as_str(), sessions[1].mem_kb), ("idle", 0));
}

// -- order ------------------------------------------------------------------

fn process(cpu: f32, mem_kb: u64, command: &str) -> Process {
    Process { cpu: load(cpu), mem_kb, command: command.to_string() }
}

fn session(name: &str, cpu: f32, mem_kb: u64, processes: Vec<Process>) -> SessionUsage {
    SessionUsage { name: name.to_string(), cpu: load(cpu), mem_kb, processes }
}

fn names(sessions: &[SessionUsage]) -> Vec<&str> {
    sessions.iter().map(|s| s.name.as_str()).collect()
}

#[test]
fn sessions_and_processes_read_top_down() {
    let mut sessions = vec![
        session("small", 1.0, 900, vec![]),
        session(
            "big",
            9.5,
            100,
            vec![process(1.0, 50, "x"), process(5.0, 10, "y"), process(1.0, 40, "z")],
        ),
        session("also", 1.0, 900, vec![]),
        session("none", f32::NAN, 1, vec![]),
    ];
    sort_by_metric(&mut sessions, Metric::Cpu);
    assert_eq!(names(&sessions), vec!["none", "big", "also", "small"]);
    let commands = |s: &SessionUsage| -> Vec<String> {
        s.processes.iter().map(|p| p.command.clone()).collect()
    };
    assert_eq!(commands(&sessions[1]), vec!["y", "x", "z"]);
    sort_by_metric(&mut sessions, Metric::Cpu);
    assert_eq!(names(&sessions), vec!["none", "big", "also", "small"]);
    sort_by_metric(&mut sessions, Metric::Mem);
    assert_eq!(names(&sessions), vec!["also", "small", "big", "none"]);
    assert_eq!(commands(&sessions[2]), vec!["x", "z", "y"]);
}

#[test]
fn sorting_agrees_with_a_stable_sort_of_std() {
    let cpus: [f32; 5] = [0.0, 1.5, 1.5, 20.0, 3.25];
    let mut sessions = Vec::new();
    let mut plain = Vec::new();
    for i in 0..25usize {
        let name = format!("s{}", (i * 7) % 25);
        let cpu = cpus[i % 5];
        plain.push((name.clone(), cpu));
        sessions.push(session(&name, cpu, 0, vec![]));
    }
    plain.sort_by(|a, b| (b.1 as f64).total_cmp(&(a.1 as f64)).then_with(|| a.0.cmp(&b.0)));
    sort_by_metric(&mut sessions, Metric::Cpu);
    let expected: Vec<&str> = plain.iter().map(|p| p.0.as_str()).collect();
    assert_eq!(names(&sessions), expected);
}

#[test]
fn figures_follow_the_metric() {
    let s = session("s", 12.34, 2048, vec![]);
    assert_eq!(s.bar_value(Metric::Cpu), 123);
    assert_eq!(s.bar_value(Metric::Mem), 2048);
    assert_eq!(s.metric_display(Metric::Cpu), "12.3%");
    assert_eq!(s.metric_display(Metric::Mem), "2 MB");
    assert_eq!(s.metric(Metric::Mem), 2048);
    assert!(s.metric(Metric::Cpu) > session("t", 12.3, 0, vec![]).metric(Metric::Cpu));
    let p = process(0.5, 7, "p");
    assert_eq!(p.metric(Metric::Mem), 7);
}

#[test]
fn a_session_takes_its_cpu_from_its_processes() {
    let found = SessionProcesses {
        name: "s".to_string(),
        mem_kb: 3,
        processes: vec![process(1.5, 1, "a"), process(2.0, 2, "b")],
    };
    let cpu = cpu_of(&found);
    let usage = found.with_cpu(load(cpu));
    assert_eq!(usage.cpu.text, "3.5%");
    assert_eq!((usage.name.as_str(), usage.mem_kb, usage.processes.len()), ("s", 3, 2));
}
