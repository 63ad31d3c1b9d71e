use jelly::usage::screen::{compose, strip_heights};
use jelly::usage::{
    metric_figure_style, process_row, refresh_due, render, render_breakdown, render_chart,
    render_empty, render_footer, session_header, usage_command, Area, CpuLoad, Input, Key, Metric,
    Monitor, Process, Scene, SessionUsage, Step, StripHeight, StyledSpan, TextStyle, Tint,
    TmsError, BAR_WIDTH, MAX_PROCS, REFRESH_MILLIS, TICK_MILLIS,
};

fn load(cpu: f32) -> CpuLoad {
    CpuLoad {
        bits: cpu.to_bits(),
        tenths: (cpu as f64 * 10.0).round() as u64,
        text: format!("{cpu:.1}%"),
    }
}

fn process(cpu: f32, mem_kb: u64, command: &str) -> Process {
    Process { cpu: load(cpu), mem_kb, command: command.to_string() }
}

fn session(name: &str, cpu: f32, mem_kb: u64, count: usize) -> SessionUsage {
    SessionUsage {
        name: name.to_string(),
        cpu: load(cpu),
        mem_kb,
        processes: (0..count).map(|i| process(i as f32, i as u64, "sh")).collect(),
    }
}

fn shares(sessions: &[SessionUsage]) -> Vec<Vec<usize>> {
    sessions.iter().map(|s| vec![3; s.processes.len().min(MAX_PROCS)]).collect()
}

fn shown(line: &[StyledSpan]) -> String {
    line.iter().map(|s| s.text.as_str()).collect()
}

fn fg(tint: Tint) -> TextStyle {
    TextStyle { fg: Some(tint), bg: None, bold: false, reversed: false }
}

// -- the chart --------------------------------------------------------------

#[test]
fn the_chart_has_a_bar_per_session() {
    let sessions = vec![session("alphabetical", 20.0, 5, 0), session("b", 1.25, 9, 0)];
    let chart = render_chart(80, &sessions, Metric::Cpu, 1);
    assert_eq!(chart.title, " Resource usage by session · CPU ");
    assert_eq!((chart.bar_width, chart.bar_gap, chart.max), (14, 1, 200));
    assert_eq!(chart.bars.len(), 2);
    assert_eq!(chart.bars[0].value, 200);
    assert_eq!(chart.bars[0].label, "alphabetical");
    assert_eq!(chart.bars[0].text_value, "20.0%");
    assert_eq!(chart.bars[0].color, Tint::Yellow);
    assert_eq!(chart.bars[1].color, Tint::White);
    assert_eq!(chart.label_style, fg(Tint::Gray));
    assert!(chart.value_style.bold);

    let mem = render_chart(80, &sessions, Metric::Mem, 0);
    assert_eq!(mem.title, " Resource usage by session · Memory ");
    assert_eq!(mem.max, 9);
    assert_eq!(mem.bars[1].color, Tint::Cyan);
    assert_eq!(mem.bars[1].text_value, "9 KB");
}

#[test]
fn bars_share_the_width() {
    let width = |area: u16, count: usize| -> u16 {
        let sessions: Vec<SessionUsage> = (0..count).map(|_| session("s", 0.0, 0, 0)).collect();
        render_chart(area, &sessions, Metric::Mem, 0).bar_width
    };
    assert_eq!(width(80, 10), 6);
    assert_eq!(width(80, 1), 14);
    assert_eq!(width(12, 1), 10);
    assert_eq!(width(80, 0), 14);
    assert_eq!(width(0, 3), 1);
    assert_eq!(width(10, 200), 1);
}

#[test]
fn labels_keep_at_least_six_characters_and_the_scale_at_least_one() {
    let sessions: Vec<SessionUsage> = (0..40).map(|_| session("long-name", 0.0, 0, 0)).collect();
    let chart = render_chart(80, &sessions, Metric::Mem, 99);
    assert_eq!(chart.bar_width, 1);
    assert_eq!(chart.bars[0].label, "long-…");
    assert_eq!(chart.max, 1);
}

// -- the breakdown ----------------------------------------------------------

#[test]
fn a_header_shows_both_figures() {
    let line = session_header(&session("work", 12.3, 1_258_291, 3), Metric::Cpu);
    assert_eq!(shown(&line), "work                  CPU  12.3%   MEM    1.2 GB   3 proc");
    assert!(line[0].style.bold);
    assert_eq!(line[1].style, fg(Tint::Yellow));
    assert_eq!(line[3].style, fg(Tint::DarkGray));
    let mem = session_header(&session("a-session-with-a-long-name", 0.0, 0, 0), Metric::Mem);
    assert_eq!(mem[0].text, "a-session-with-a-long…");
    assert_eq!(mem[1].style, fg(Tint::DarkGray));
    assert_eq!(mem[3].style, fg(Tint::Cyan));
}

#[test]
fn a_process_shows_its_share() {
    let line = process_row(&process(1.5, 2048, "nvim"), Metric::Mem, 4);
    assert_eq!(shown(&line), "    nvim              ████░░░░░░░░░░    1.5%       2 MB");
    assert_eq!(line[1].style, fg(Tint::Gray));
    assert_eq!(line[2].style, fg(Tint::Cyan));
    assert_eq!(line[4].style, fg(Tint::DarkGray));
    assert_eq!(line[5].style, fg(Tint::Cyan));
    let full = process_row(&process(1.5, 2048, "nvim"), Metric::Cpu, BAR_WIDTH);
    assert_eq!(full[2].text.chars().count(), 14);
    assert_eq!(full[3].text, "");
}

#[test]
fn only_the_active_figure_is_bright() {
    assert_eq!(metric_figure_style(Metric::Cpu, Metric::Cpu), fg(Tint::Yellow));
    assert_eq!(metric_figure_style(Metric::Mem, Metric::Cpu), fg(Tint::DarkGray));
    assert_eq!(Metric::Cpu.color(), Tint::Yellow);
    assert_eq!(Metric::Mem.color(), Tint::Cyan);
}

#[test]
fn the_breakdown_lists_six_processes_and_counts_the_rest() {
    let sessions =
        vec![session("one", 0.0, 0, 6), session("two", 0.0, 0, 9), session("three", 0.0, 0, 0)];
    let list = render_breakdown(&sessions, &shares(&sessions), Metric::Cpu, 2);
    assert_eq!(list.title, " Processes by session ");
    assert_eq!(list.rows.len(), 7 + 8 + 1);
    assert!(shown(&list.rows[0]).starts_with("one "));
    assert!(shown(&list.rows[7]).starts_with("two "));
    assert_eq!(shown(&list.rows[14]), "      … 3 more");
    assert_eq!(list.selected_row, Some(15));
    assert_eq!(list.highlight_symbol, "▶ ");
    assert!(list.highlight_style.bold && list.highlight_style.reversed);
    let first = render_breakdown(&sessions, &shares(&sessions), Metric::Cpu, 1);
    assert_eq!(first.selected_row, Some(7));
    let out = render_breakdown(&sessions, &shares(&sessions), Metric::Cpu, 3);
    assert_eq!(out.selected_row, None);
}

// -- the footer and the empty screen ----------------------------------------

#[test]
fn the_footer_marks_the_active_metric() {
    let line = render_footer(Metric::Mem);
    assert_eq!(
        shown(&line),
        " q  quit    ↑↓  select    ⏎  switch    c  CPU    m  Memory    r  refresh"
    );
    assert_eq!(line[6].style.bg, Some(Tint::Gray));
    assert_eq!(line[8].style.bg, Some(Tint::Cyan));
    assert_eq!(line[8].style.fg, Some(Tint::Black));
    assert_eq!(render_footer(Metric::Cpu)[6].style.bg, Some(Tint::Yellow));
}

#[test]
fn the_empty_screen_says_so() {
    let lines = render_empty();
    assert_eq!(shown(&lines[0]), "No tmux sessions are running.");
    assert_eq!(shown(&lines[1]), "Press q to quit.");
    assert_eq!(lines[1][0].style, fg(Tint::DarkGray));
}

// -- the screen -------------------------------------------------------------

#[test]
fn the_screen_is_cut_into_strips() {
    let area = Area { x: 2, y: 1, width: 80, height: 24 };
    let sessions = vec![session("one", 1.0, 1, 2)];
    match render(area, &sessions, &shares(&sessions), Metric::Cpu, 0) {
        Scene::Usage { chart_area, chart, breakdown_area, breakdown, footer_area, footer } => {
            for strip in [chart_area, breakdown_area, footer_area] {
                assert_eq!((strip.x, strip.width), (2, 80));
                assert!(strip.y >= 1 && strip.y + strip.height <= 25);
                assert!(strip.height < 24);
            }
            assert_eq!((chart_area.y, chart_area.height), (1, 11));
            assert_eq!((breakdown_area.y, breakdown_area.height), (12, 12));
            assert_eq!((footer_area.y, footer_area.height), (24, 1));
            assert_eq!(chart.bars.len(), 1);
            assert_eq!(breakdown.rows.len(), 3);
            assert_eq!(footer.len(), 12);
        }
        Scene::Empty { .. } => panic!("there is a session"),
    }
}

#[test]
fn the_strips_have_their_rows() {
    let sessions = vec![session("one", 1.0, 1, 0)];
    for height in (0..120u16).chain([200, 255, 1000, 9999, 30000]) {
        for y in [0u16, 1, 13, 65535 - 30000] {
            let area = Area { x: 0, y, width: 20, height };
            let rows = height as u32;
            let chart = ((45 * rows + 50) / 100).min(rows.saturating_sub(4)) as u16;
            let keys = if height >= 4 { 1 } else { 0 };
            match render(area, &sessions, &shares(&sessions), Metric::Cpu, 0) {
                Scene::Usage { chart_area, breakdown_area, footer_area, .. } => {
                    assert_eq!((chart_area.y, chart_area.height), (y, chart), "{height}");
                    let middle = height - chart - keys;
                    assert_eq!(breakdown_area.y, y + chart, "{height}");
                    assert_eq!(breakdown_area.height, middle, "{height}");
                    assert_eq!(footer_area.y, y + chart + middle, "{height}");
                    assert_eq!(footer_area.height, keys, "{height}");
                }
                Scene::Empty { .. } => panic!("there is a session"),
            }
            let above = ((height + 1) / 2).min(height.saturating_sub(2));
            match render(area, &vec![], &vec![], Metric::Cpu, 0) {
                Scene::Empty { area, .. } => {
                    assert_eq!((area.y, area.height), (y + above, height.min(2)), "{height}");
                }
                Scene::Usage { .. } => panic!("there is no session"),
            }
        }
    }
}

#[test]
fn without_sessions_the_message_takes_two_rows() {
    let area = Area { x: 0, y: 0, width: 40, height: 20 };
    match render(area, &vec![], &vec![], Metric::Cpu, 0) {
        Scene::Empty { area, lines } => {
            assert_eq!((area.x, area.y, area.width, area.height), (0, 10, 40, 2));
            assert_eq!(lines.len(), 2);
        }
        Scene::Usage { .. } => panic!("there is no session"),
    }
}

#[test]
fn the_strips_are_filled_from_top_to_bottom() {
    let strip = |y: u16, height: u16| Area { x: 0, y, width: 30, height };
    let strips = vec![strip(0, 4), strip(4, 5), strip(9, 1)];
    let sessions = vec![session("one", 1.0, 1, 0)];
    match compose(&strips, &sessions, &shares(&sessions), Metric::Mem, 0) {
        Scene::Usage { chart_area, breakdown_area, footer_area, .. } => {
            assert_eq!(vec![chart_area, breakdown_area, footer_area], strips);
        }
        Scene::Empty { .. } => panic!("there is a session"),
    }
    match compose(&strips, &vec![], &vec![], Metric::Mem, 0) {
        Scene::Empty { area, .. } => assert_eq!(area, strips[1]),
        Scene::Usage { .. } => panic!("there is no session"),
    }
    assert_eq!(
        strip_heights(true),
        vec![
            StripHeight::Percentage { percent: 45 },
            StripHeight::Min { rows: 3 },
            StripHeight::Length { rows: 1 },
        ]
    );
    assert_eq!(
        strip_heights(false),
        vec![
            StripHeight::Percentage { percent: 50 },
            StripHeight::Length { rows: 2 },
            StripHeight::Min { rows: 0 },
        ]
    );
}

// -- the keys ---------------------------------------------------------------

fn three() -> Monitor {
    let mut monitor = Monitor::start(vec![
        session("a", 1.0, 30, 0),
        session("b", 3.0, 10, 0),
        session("c", 2.0, 20, 0),
    ]);
    monitor.settle();
    monitor
}

fn press(monitor: &mut Monitor, key: Key) -> Step {
    monitor.handle(Input::Press { key })
}

fn ch(c: char) -> Key {
    Key::Char { c }
}

#[test]
fn the_sample_is_refreshed_after_two_seconds() {
    assert!(!refresh_due(0));
    assert!(!refresh_due(1999));
    assert!(refresh_due(2000));
    assert!(refresh_due(u64::MAX));
    assert_eq!((REFRESH_MILLIS, TICK_MILLIS), (2000, 200));
}

#[test]
fn the_screen_starts_on_cpu_with_the_first_session() {
    let monitor = three();
    assert_eq!(monitor.metric, Metric::Cpu);
    assert_eq!(monitor.selected, 0);
    let names: Vec<&str> = monitor.sessions.iter().map(|s| s.name.as_str()).collect();
    assert_eq!(names, vec!["b", "c", "a"]);
}

#[test]
fn the_selection_goes_round() {
    let mut monitor = three();
    for (key, expected) in [
        (Key::Down, 1),
        (ch('j'), 2),
        (Key::Down, 0),
        (Key::Up, 2),
        (ch('k'), 1),
        (Key::Up, 0),
    ] {
        assert!(matches!(press(&mut monitor, key), Step::Continue));
        assert_eq!(monitor.selected, expected);
    }
    let mut empty = Monitor::start(vec![]);
    for key in [Key::Down, Key::Up, ch('j'), ch('k'), Key::Enter] {
        assert!(matches!(press(&mut empty, key), Step::Continue));
        assert_eq!(empty.selected, 0);
    }
}

#[test]
fn steps_down_and_up_add_up() {
    let mut monitor = three();
    let mut net: i64 = 0;
    for i in 0..50u32 {
        if (i * i + i / 3) % 5 < 2 {
            press(&mut monitor, Key::Up);
            net -= 1;
        } else {
            press(&mut monitor, ch('j'));
            net += 1;
        }
        if i % 7 == 0 {
            monitor.handle(Input::Idle);
            monitor.refresh(three().sessions);
        }
        monitor.settle();
        assert_eq!(monitor.selected as i64, net.rem_euclid(3));
    }
    let expected = ["b", "c", "a"][net.rem_euclid(3) as usize];
    match press(&mut monitor, Key::Enter) {
        Step::Switch { session } => assert_eq!(session, expected),
        other => panic!("{other:?}"),
    }
}

#[test]
fn the_metric_follows_the_keys() {
    let mut monitor = three();
    press(&mut monitor, ch('m'));
    assert_eq!(monitor.metric, Metric::Mem);
    press(&mut monitor, ch('c'));
    assert_eq!(monitor.metric, Metric::Cpu);
    press(&mut monitor, Key::Tab);
    assert_eq!(monitor.metric, Metric::Mem);
    monitor.settle();
    assert_eq!(monitor.sessions[0].name, "a");
    press(&mut monitor, Key::Tab);
    assert_eq!(monitor.metric, Metric::Cpu);
}

#[test]
fn enter_switches_to_the_selected_session() {
    let mut monitor = three();
    press(&mut monitor, Key::Down);
    match press(&mut monitor, Key::Enter) {
        Step::Switch { session } => assert_eq!(session, "c"),
        other => panic!("{other:?}"),
    }
}

#[test]
fn the_screen_closes_and_samples_on_request() {
    let mut monitor = three();
    assert!(matches!(press(&mut monitor, ch('q')), Step::Close));
    assert!(matches!(press(&mut monitor, Key::Esc), Step::Close));
    assert!(matches!(press(&mut monitor, ch('r')), Step::Sample));
    for key in [ch('Q'), ch('x'), Key::Other] {
        assert!(matches!(press(&mut monitor, key), Step::Continue));
    }
    assert!(matches!(monitor.handle(Input::Rest { key: ch('q') }), Step::Continue));
    assert!(matches!(monitor.handle(Input::Idle), Step::Continue));
    assert!(matches!(monitor.handle(Input::Other), Step::Continue));
    assert_eq!((monitor.metric, monitor.selected), (Metric::Cpu, 0));
}

#[test]
fn a_smaller_sample_keeps_the_selection_in_range() {
    let mut monitor = three();
    press(&mut monitor, Key::Up);
    assert_eq!(monitor.selected, 2);
    monitor.refresh(vec![session("x", 0.0, 0, 0), session("y", 0.0, 0, 0)]);
    monitor.settle();
    assert_eq!(monitor.selected, 1);
    monitor.refresh(vec![]);
    monitor.settle();
    assert_eq!(monitor.selected, 0);
}

#[test]
fn the_outcome_of_the_screen_is_a_session_or_an_error() {
    assert_eq!(usage_command(Ok(Some("s".to_string()))).unwrap(), Some("s".to_string()));
    assert_eq!(usage_command(Ok(None)).unwrap(), None);
    match usage_command(Err("no tty".to_string())) {
        Err(TmsError::TuiError { message }) => assert_eq!(message, "no tty"),
        other => panic!("{other:?}"),
    }
}
