//! What the usage screen shows.

use vstd::prelude::*;

use crate::text;
use crate::usage::attribution::Process;
use crate::usage::figures;
use crate::usage::figures::Metric;
use crate::usage::ranking::SessionUsage;

verus! {

/// Most processes listed under a single session before the rest are summarized.
pub const MAX_PROCS: usize = 6;

/// Width of a process's bar.
pub const BAR_WIDTH: usize = 14;

// ---------------------------------------------------------------------------
// Styled text
// ---------------------------------------------------------------------------

/// A colour of the terminal.
#[derive(Debug, Clone, Copy, PartialEq, Eq, Structural)]
pub enum Tint {
    Black,
    White,
    Gray,
    DarkGray,
    Yellow,
    Cyan,
}

/// How a text is drawn.
#[derive(Debug, Clone, Copy, PartialEq, Eq)]
pub struct TextStyle {
    pub fg: Option<Tint>,
    pub bg: Option<Tint>,
    pub bold: bool,
    pub reversed: bool,
}

/// The terminal's own style.
pub open spec fn plain_style() -> TextStyle {
    TextStyle { fg: None, bg: None, bold: false, reversed: false }
}

/// A text colour.
pub open spec fn tinted_style(tint: Tint) -> TextStyle {
    TextStyle { fg: Some(tint), bg: None, bold: false, reversed: false }
}

/// The terminal's own colours, in bold.
pub open spec fn bold_style() -> TextStyle {
    TextStyle { fg: None, bg: None, bold: true, reversed: false }
}

/// A text colour on a background.
pub open spec fn badge_style(bg: Tint) -> TextStyle {
    TextStyle { fg: Some(Tint::Black), bg: Some(bg), bold: false, reversed: false }
}

/// The terminal's own style.
pub fn plain() -> (style: TextStyle)
    ensures
        style == plain_style(),
{
    TextStyle { fg: None, bg: None, bold: false, reversed: false }
}

/// A text colour.
pub fn tinted(tint: Tint) -> (style: TextStyle)
    ensures
        style == tinted_style(tint),
{
    TextStyle { fg: Some(tint), bg: None, bold: false, reversed: false }
}

/// The terminal's own colours, in bold.
pub fn bold() -> (style: TextStyle)
    ensures
        style == bold_style(),
{
    TextStyle { fg: None, bg: None, bold: true, reversed: false }
}

/// Black text on a background.
pub fn badge(bg: Tint) -> (style: TextStyle)
    ensures
        style == badge_style(bg),
{
    TextStyle { fg: Some(Tint::Black), bg: Some(bg), bold: false, reversed: false }
}

/// A piece of text in one style.
#[derive(Debug)]
pub struct StyledSpan {
    pub text: String,
    pub style: TextStyle,
}

/// What a piece of text says.
#[verifier::ext_equal]
pub struct SpanView {
    pub text: Seq<char>,
    pub style: TextStyle,
}

impl View for StyledSpan {
    type V = SpanView;

    open spec fn view(&self) -> SpanView {
        SpanView { text: self.text@, style: self.style }
    }
}

/// What a line says.
pub open spec fn line_view(line: Seq<StyledSpan>) -> Seq<SpanView> {
    line.map_values(|s: StyledSpan| s@)
}

/// What the lines of a list say.
pub open spec fn line_views(lines: Seq<Vec<StyledSpan>>) -> Seq<Seq<SpanView>> {
    lines.map_values(|l: Vec<StyledSpan>| line_view(l@))
}

/// A piece of text.
fn span(shown: String, style: TextStyle) -> (piece: StyledSpan)
    ensures
        piece@ == (SpanView { text: shown@, style }),
{
    StyledSpan { text: shown, style }
}

/// Appends a piece of text to a line.
fn push_span(line: &mut Vec<StyledSpan>, shown: &str, style: TextStyle)
    ensures
        line_view(final(line)@) == line_view(old(line)@).push(SpanView { text: shown@, style }),
{
    line.push(span(shown.to_owned(), style));
    assert(line_view(line@) =~= line_view(old(line)@).push(SpanView { text: shown@, style }));
}

// ---------------------------------------------------------------------------
// Colours of the metrics
// ---------------------------------------------------------------------------

impl Metric {
    /// The metric's colour.
    pub open spec fn tint(self) -> Tint {
        match self {
            Metric::Cpu => Tint::Yellow,
            Metric::Mem => Tint::Cyan,
        }
    }

    /// Base color used for this metric's bars and figures.
    pub fn color(self) -> (tint: Tint)
        ensures
            tint == self.tint(),
    {
        match self {
            Metric::Cpu => Tint::Yellow,
            Metric::Mem => Tint::Cyan,
        }
    }
}

/// The style of a figure: bright when it is the active metric, dim otherwise.
pub open spec fn figure_style(active: Metric, figure: Metric) -> TextStyle {
    if active == figure {
        tinted_style(figure.tint())
    } else {
        tinted_style(Tint::DarkGray)
    }
}

/// Color a figure brightly when it is the active metric, dim otherwise.
pub fn metric_figure_style(active: Metric, figure: Metric) -> (style: TextStyle)
    ensures
        style == figure_style(active, figure),
{
    if active == figure {
        tinted(figure.color())
    } else {
        tinted(Tint::DarkGray)
    }
}

// ---------------------------------------------------------------------------
// The chart
// ---------------------------------------------------------------------------

/// One bar of the chart.
#[derive(Debug)]
pub struct ChartBar {
    pub value: u64,
    pub label: String,
    pub text_value: String,
    pub color: Tint,
}

/// The chart of the sessions.
#[derive(Debug)]
pub struct Chart {
    pub title: String,
    pub bar_width: u16,
    pub bar_gap: u16,
    /// The value of a bar of full height.
    pub max: u64,
    pub bars: Vec<ChartBar>,
    pub value_style: TextStyle,
    pub label_style: TextStyle,
}

/// What a bar says.
#[verifier::ext_equal]
pub struct BarView {
    pub value: u64,
    pub label: Seq<char>,
    pub text_value: Seq<char>,
    pub color: Tint,
}

/// What the chart says.
#[verifier::ext_equal]
pub struct ChartView {
    pub title: Seq<char>,
    pub bar_width: u16,
    pub bar_gap: u16,
    pub max: u64,
    pub bars: Seq<BarView>,
    pub value_style: TextStyle,
    pub label_style: TextStyle,
}

impl View for ChartBar {
    type V = BarView;

    open spec fn view(&self) -> BarView {
        BarView {
            value: self.value,
            label: self.label@,
            text_value: self.text_value@,
            color: self.color,
        }
    }
}

impl View for Chart {
    type V = ChartView;

    open spec fn view(&self) -> ChartView {
        ChartView {
            title: self.title@,
            bar_width: self.bar_width,
            bar_gap: self.bar_gap,
            max: self.max,
            bars: self.bars@.map_values(|b: ChartBar| b@),
            value_style: self.value_style,
            label_style: self.label_style,
        }
    }
}

/// `a - b`, and 0 where that is less.
pub open spec fn monus(a: int, b: int) -> int {
    if a >= b {
        a - b
    } else {
        0
    }
}

/// The width of a bar: the chart's width within its borders, less one column between any two
/// bars, shared out among the bars; at least 1 and at most 14. The number of bars counts
/// modulo 65536.
pub open spec fn bar_width_for(width: u16, sessions: nat) -> int {
    let n = (sessions % 0x1_0000) as int;
    let free = monus(monus(width as int, 2), monus(n, 1));
    let share = free / (if n > 0 {
        n
    } else {
        1
    });
    if share < 1 {
        1
    } else if share > 14 {
        14
    } else {
        share
    }
}

/// The largest bar value among the first `n` sessions, and at least 1.
pub open spec fn largest_bar(sessions: Seq<SessionUsage>, metric: Metric, n: int) -> u64
    decreases n,
{
    if n <= 0 {
        1
    } else if sessions[n - 1].bar(metric) > largest_bar(sessions, metric, n - 1) {
        sessions[n - 1].bar(metric)
    } else {
        largest_bar(sessions, metric, n - 1)
    }
}

/// The room for a label under a bar.
pub open spec fn label_room(bar_width: int) -> nat {
    if bar_width > 6 {
        bar_width as nat
    } else {
        6
    }
}

/// The bar of a session.
pub open spec fn bar_of(
    session: SessionUsage,
    metric: Metric,
    bar_width: int,
    is_selected: bool,
) -> BarView {
    BarView {
        value: session.bar(metric),
        label: figures::shortened(session.name@, label_room(bar_width)),
        text_value: session.figure(metric),
        color: if is_selected {
            Tint::White
        } else {
            metric.tint()
        },
    }
}

/// The chart of the sessions in an area of the given width.
pub open spec fn chart_of(
    width: u16,
    sessions: Seq<SessionUsage>,
    metric: Metric,
    selected: int,
) -> ChartView {
    ChartView {
        title: " Resource usage by session · "@ + metric.name() + " "@,
        bar_width: bar_width_for(width, sessions.len()) as u16,
        bar_gap: 1,
        max: largest_bar(sessions, metric, sessions.len() as int),
        bars: Seq::new(
            sessions.len(),
            |i: int|
                bar_of(
                    sessions[i],
                    metric,
                    bar_width_for(width, sessions.len()),
                    i == selected,
                ),
        ),
        value_style: TextStyle {
            fg: Some(Tint::Black),
            bg: None,
            bold: true,
            reversed: false,
        },
        label_style: tinted_style(Tint::Gray),
    }
}

/// Computes `bar_width_for`.
fn fit_bars(width: u16, sessions: usize) -> (bar_width: u16)
    ensures
        bar_width == bar_width_for(width, sessions as nat),
        1 <= bar_width <= 14,
{
    let n: u16 = (sessions % 0x1_0000) as u16;
    let inner: u16 = width.saturating_sub(2);
    let gaps: u16 = n.saturating_sub(1);
    let free: u16 = inner.saturating_sub(gaps);
    let share: u16 = if n > 0 {
        free / n
    } else {
        free
    };
    if share < 1 {
        1
    } else if share > 14 {
        14
    } else {
        share
    }
}

/// The headline: a bar chart with one bar per session.
pub fn render_chart(
    width: u16,
    sessions: &Vec<SessionUsage>,
    metric: Metric,
    selected: usize,
) -> (chart: Chart)
    ensures
        chart@ == chart_of(width, sessions@, metric, selected as int),
{
    let bar_width: u16 = fit_bars(width, sessions.len());
    let room: usize = if bar_width > 6 {
        bar_width as usize
    } else {
        6
    };
    let mut max: u64 = 1;
    let mut bars: Vec<ChartBar> = Vec::new();
    let mut i: usize = 0;
    while i < sessions.len()
        invariant
            i <= sessions@.len(),
            bar_width == bar_width_for(width, sessions@.len()),
            room == label_room(bar_width as int),
            max == largest_bar(sessions@, metric, i as int),
            bars@.len() == i,
            forall|k: int|
                0 <= k < i ==> (#[trigger] bars@[k])@ == bar_of(
                    sessions@[k],
                    metric,
                    bar_width as int,
                    k == selected,
                ),
        decreases sessions@.len() - i,
    {
        let session = &sessions[i];
        let value: u64 = session.bar_value(metric);
        if value > max {
            max = value;
        }
        let color = if i == selected {
            Tint::White
        } else {
            metric.color()
        };
        bars.push(
            ChartBar {
                value,
                label: figures::truncate(session.name.as_str(), room),
                text_value: session.metric_display(metric),
                color,
            },
        );
        i += 1;
    }
    let mut title = " Resource usage by session · ".to_owned();
    text::push_text(&mut title, metric.label());
    text::push_text(&mut title, " ");
    let chart = Chart {
        title,
        bar_width,
        bar_gap: 1,
        max,
        bars,
        value_style: TextStyle {
            fg: Some(Tint::Black),
            bg: None,
            bold: true,
            reversed: false,
        },
        label_style: tinted(Tint::Gray),
    };
    assert(chart@.bars =~= chart_of(width, sessions@, metric, selected as int).bars);
    chart
}

// ---------------------------------------------------------------------------
// The breakdown
// ---------------------------------------------------------------------------

/// A session header line: `name   CPU 12.3%   MEM 1.2 GB   3 proc`.
pub open spec fn header_of(session: SessionUsage, metric: Metric) -> Seq<SpanView> {
    seq![
        SpanView {
            text: text::pad_right(figures::shortened(session.name@, 22), 22),
            style: bold_style(),
        },
        SpanView {
            text: "CPU "@ + text::pad_left(session.cpu.text@, 6),
            style: figure_style(metric, Metric::Cpu),
        },
        SpanView { text: "   "@, style: plain_style() },
        SpanView {
            text: "MEM "@ + text::pad_left(figures::mem_text(session.mem_kb as nat), 9),
            style: figure_style(metric, Metric::Mem),
        },
        SpanView {
            text: "   "@ + text::decimal(session.processes@.len()) + " proc"@,
            style: tinted_style(Tint::DarkGray),
        },
    ]
}

/// One session header line: `name   CPU 12.3%   MEM 1.2 GB   3 proc`.
pub fn session_header(session: &SessionUsage, metric: Metric) -> (line: Vec<StyledSpan>)
    ensures
        line_view(line@) == header_of(*session, metric),
{
    let mut line: Vec<StyledSpan> = Vec::new();
    let name = text::left_aligned(figures::truncate(session.name.as_str(), 22).as_str(), 22);
    push_span(&mut line, name.as_str(), bold());
    let cpu = text::joined("CPU ", text::right_aligned(session.cpu.text.as_str(), 6).as_str());
    push_span(&mut line, cpu.as_str(), metric_figure_style(metric, Metric::Cpu));
    push_span(&mut line, "   ", plain());
    let mem = text::joined(
        "MEM ",
        text::right_aligned(figures::format_mem(session.mem_kb).as_str(), 9).as_str(),
    );
    push_span(&mut line, mem.as_str(), metric_figure_style(metric, Metric::Mem));
    let mut count = "   ".to_owned();
    text::push_decimal(&mut count, session.processes.len() as u64);
    text::push_text(&mut count, " proc");
    push_span(&mut line, count.as_str(), tinted(Tint::DarkGray));
    assert(line_view(line@) =~= header_of(*session, metric));
    line
}

/// A process line, indented under its session, of whose bar `filled` columns are filled.
pub open spec fn process_line(process: Process, metric: Metric, filled: nat) -> Seq<SpanView> {
    seq![
        SpanView { text: "    "@, style: plain_style() },
        SpanView {
            text: text::pad_right(figures::shortened(process.command@, 18), 18),
            style: tinted_style(Tint::Gray),
        },
        SpanView { text: text::repeated('█', filled), style: tinted_style(metric.tint()) },
        SpanView {
            text: text::repeated('░', (BAR_WIDTH - filled) as nat),
            style: tinted_style(Tint::DarkGray),
        },
        SpanView {
            text: "  "@ + text::pad_left(process.cpu.text@, 6),
            style: figure_style(metric, Metric::Cpu),
        },
        SpanView {
            text: "  "@ + text::pad_left(figures::mem_text(process.mem_kb as nat), 9),
            style: figure_style(metric, Metric::Mem),
        },
    ]
}

/// One process line, indented under its session, with a share-of-session bar of which
/// `filled` columns are filled.
pub fn process_row(process: &Process, metric: Metric, filled: usize) -> (line: Vec<StyledSpan>)
    requires
        filled <= BAR_WIDTH,
    ensures
        line_view(line@) == process_line(*process, metric, filled as nat),
{
    let mut line: Vec<StyledSpan> = Vec::new();
    push_span(&mut line, "    ", plain());
    let command = text::left_aligned(
        figures::truncate(process.command.as_str(), 18).as_str(),
        18,
    );
    push_span(&mut line, command.as_str(), tinted(Tint::Gray));
    let full = text::repeat_char('█', filled);
    push_span(&mut line, full.as_str(), tinted(metric.color()));
    let open = text::repeat_char('░', BAR_WIDTH - filled);
    push_span(&mut line, open.as_str(), tinted(Tint::DarkGray));
    let cpu = text::joined("  ", text::right_aligned(process.cpu.text.as_str(), 6).as_str());
    push_span(&mut line, cpu.as_str(), metric_figure_style(metric, Metric::Cpu));
    let mem = text::joined(
        "  ",
        text::right_aligned(figures::format_mem(process.mem_kb).as_str(), 9).as_str(),
    );
    push_span(&mut line, mem.as_str(), metric_figure_style(metric, Metric::Mem));
    assert(line_view(line@) =~= process_line(*process, metric, filled as nat));
    line
}

/// How many processes of a session are listed.
pub open spec fn listed_count(session: SessionUsage) -> int {
    if session.processes@.len() < MAX_PROCS {
        session.processes@.len() as int
    } else {
        MAX_PROCS as int
    }
}

/// The line that stands for the processes that are not listed.
pub open spec fn more_line(hidden: nat) -> Seq<SpanView> {
    seq![
        SpanView {
            text: "      … "@ + text::decimal(hidden) + " more"@,
            style: tinted_style(Tint::DarkGray),
        },
    ]
}

/// The lines of the first `n` processes of a session.
pub open spec fn process_lines(
    session: SessionUsage,
    shares: Seq<usize>,
    metric: Metric,
    n: int,
) -> Seq<Seq<SpanView>> {
    Seq::new(
        n as nat,
        |k: int| process_line(session.processes@[k], metric, shares[k] as nat),
    )
}

/// The lines of a session: its header, its first processes, and how many more there are.
pub open spec fn session_lines(
    session: SessionUsage,
    shares: Seq<usize>,
    metric: Metric,
) -> Seq<Seq<SpanView>> {
    let shown = seq![header_of(session, metric)] + process_lines(
        session,
        shares,
        metric,
        listed_count(session),
    );
    if session.processes@.len() > MAX_PROCS {
        shown.push(more_line((session.processes@.len() - MAX_PROCS) as nat))
    } else {
        shown
    }
}

/// The lines of the first `n` sessions.
pub open spec fn breakdown_lines(
    sessions: Seq<SessionUsage>,
    shares: Seq<Vec<usize>>,
    metric: Metric,
    n: int,
) -> Seq<Seq<SpanView>>
    decreases n,
{
    if n <= 0 {
        Seq::empty()
    } else {
        breakdown_lines(sessions, shares, metric, n - 1) + session_lines(
            sessions[n - 1],
            shares[n - 1]@,
            metric,
        )
    }
}

/// Whether `shares` holds, for every session, the filled columns of the bars of the processes
/// that are listed.
pub open spec fn shares_fit(sessions: Seq<SessionUsage>, shares: Seq<Vec<usize>>) -> bool {
    &&& shares.len() == sessions.len()
    &&& forall|i: int|
        0 <= i < sessions.len() ==> (#[trigger] shares[i])@.len() >= listed_count(sessions[i])
    &&& forall|i: int, k: int|
        0 <= i < shares.len() && 0 <= k < shares[i]@.len() ==> #[trigger] shares[i]@[k] <= BAR_WIDTH
}

/// The list of the sessions and their processes.
#[derive(Debug)]
pub struct Breakdown {
    pub title: &'static str,
    pub rows: Vec<Vec<StyledSpan>>,
    /// The row of the selected session's header.
    pub selected_row: Option<usize>,
    pub highlight_symbol: &'static str,
    pub highlight_style: TextStyle,
}

/// Whether `breakdown` is the list of the sessions and their processes.
pub open spec fn breaks_down(
    breakdown: Breakdown,
    sessions: Seq<SessionUsage>,
    shares: Seq<Vec<usize>>,
    metric: Metric,
    selected: int,
) -> bool {
    &&& breakdown.title@ == " Processes by session "@
    &&& line_views(breakdown.rows@) == breakdown_lines(
        sessions,
        shares,
        metric,
        sessions.len() as int,
    )
    &&& breakdown.selected_row is Some <==> selected < sessions.len()
    &&& breakdown.selected_row matches Some(row) ==> row == breakdown_lines(
        sessions,
        shares,
        metric,
        selected,
    ).len()
    &&& breakdown.highlight_symbol@ == "▶ "@
    &&& breakdown.highlight_style == (TextStyle {
        fg: Some(Tint::White),
        bg: None,
        bold: true,
        reversed: true,
    })
}

/// Appends a line.
fn push_line(rows: &mut Vec<Vec<StyledSpan>>, line: Vec<StyledSpan>)
    ensures
        line_views(final(rows)@) == line_views(old(rows)@).push(line_view(line@)),
{
    rows.push(line);
    assert(line_views(rows@) =~= line_views(old(rows)@).push(line_view(line@)));
}

/// Appends the lines of a session.
fn push_session(
    rows: &mut Vec<Vec<StyledSpan>>,
    session: &SessionUsage,
    shares: &Vec<usize>,
    metric: Metric,
)
    requires
        shares@.len() >= listed_count(*session),
        forall|k: int| 0 <= k < shares@.len() ==> #[trigger] shares@[k] <= BAR_WIDTH,
    ensures
        line_views(final(rows)@) == line_views(old(rows)@) + session_lines(
            *session,
            shares@,
            metric,
        ),
{
    let ghost before = line_views(rows@);
    push_line(rows, session_header(session, metric));
    let ghost headed = line_views(rows@);
    let mut k: usize = 0;
    assert(headed =~= headed + process_lines(*session, shares@, metric, 0));
    while k < session.processes.len() && k < MAX_PROCS
        invariant
            k <= listed_count(*session),
            shares@.len() >= listed_count(*session),
            forall|k: int| 0 <= k < shares@.len() ==> #[trigger] shares@[k] <= BAR_WIDTH,
            line_views(rows@) == headed + process_lines(*session, shares@, metric, k as int),
        decreases listed_count(*session) - k,
    {
        push_line(rows, process_row(&session.processes[k], metric, shares[k]));
        assert(line_views(rows@) =~= headed + process_lines(*session, shares@, metric, k + 1));
        k += 1;
    }
    assert(k == listed_count(*session));
    if session.processes.len() > MAX_PROCS {
        let hidden: usize = session.processes.len() - MAX_PROCS;
        let mut shown = "      … ".to_owned();
        text::push_decimal(&mut shown, hidden as u64);
        text::push_text(&mut shown, " more");
        let mut line: Vec<StyledSpan> = Vec::new();
        push_span(&mut line, shown.as_str(), tinted(Tint::DarkGray));
        assert(line_view(line@) =~= more_line(hidden as nat));
        push_line(rows, line);
    }
    assert(line_views(rows@) =~= before + session_lines(*session, shares@, metric));
}

/// The per-session breakdown: a session header followed by its processes, each with an inline
/// bar showing its share of that session's usage.
pub fn render_breakdown(
    sessions: &Vec<SessionUsage>,
    shares: &Vec<Vec<usize>>,
    metric: Metric,
    selected: usize,
) -> (breakdown: Breakdown)
    requires
        shares_fit(sessions@, shares@),
    ensures
        breaks_down(breakdown, sessions@, shares@, metric, selected as int),
{
    let mut rows: Vec<Vec<StyledSpan>> = Vec::new();
    let mut selected_row: Option<usize> = None;
    let mut i: usize = 0;
    assert(line_views(rows@) =~= breakdown_lines(sessions@, shares@, metric, 0));
    while i < sessions.len()
        invariant
            i <= sessions@.len(),
            shares_fit(sessions@, shares@),
            line_views(rows@) == breakdown_lines(sessions@, shares@, metric, i as int),
            selected_row is Some <==> selected < i,
            selected_row matches Some(row) ==> row == breakdown_lines(
                sessions@,
                shares@,
                metric,
                selected as int,
            ).len(),
        decreases sessions@.len() - i,
    {
        if i == selected {
            assert(line_views(rows@).len() == rows@.len());
            selected_row = Some(rows.len());
        }
        assert forall|k: int| 0 <= k < shares@[i as int]@.len() implies #[trigger]
            shares@[i as int]@[k] <= BAR_WIDTH by {}
        push_session(&mut rows, &sessions[i], &shares[i], metric);
        i += 1;
    }
    Breakdown {
        title: " Processes by session ",
        rows,
        selected_row,
        highlight_symbol: "▶ ",
        highlight_style: TextStyle {
            fg: Some(Tint::White),
            bg: None,
            bold: true,
            reversed: true,
        },
    }
}

// ---------------------------------------------------------------------------
// The footer and the empty screen
// ---------------------------------------------------------------------------

/// The style of the key that picks metric `of`.
pub open spec fn metric_key_style(of: Metric, active: Metric) -> TextStyle {
    if of == active {
        badge_style(of.tint())
    } else {
        badge_style(Tint::Gray)
    }
}

/// The line of the keys.
pub open spec fn footer_of(metric: Metric) -> Seq<SpanView> {
    let key = badge_style(Tint::Gray);
    seq![
        SpanView { text: " q "@, style: key },
        SpanView { text: " quit   "@, style: plain_style() },
        SpanView { text: " ↑↓ "@, style: key },
        SpanView { text: " select   "@, style: plain_style() },
        SpanView { text: " ⏎ "@, style: key },
        SpanView { text: " switch   "@, style: plain_style() },
        SpanView { text: " c "@, style: metric_key_style(Metric::Cpu, metric) },
        SpanView { text: " "@ + Metric::Cpu.name() + "   "@, style: plain_style() },
        SpanView { text: " m "@, style: metric_key_style(Metric::Mem, metric) },
        SpanView { text: " "@ + Metric::Mem.name() + "   "@, style: plain_style() },
        SpanView { text: " r "@, style: key },
        SpanView { text: " refresh"@, style: plain_style() },
    ]
}

/// Appends the key of a metric and its name.
fn push_metric_key(line: &mut Vec<StyledSpan>, key: &str, of: Metric, active: Metric)
    ensures
        line_view(final(line)@) == line_view(old(line)@).push(
            SpanView { text: key@, style: metric_key_style(of, active) },
        ).push(SpanView { text: " "@ + of.name() + "   "@, style: plain_style() }),
{
    let style = if of == active {
        badge(of.color())
    } else {
        badge(Tint::Gray)
    };
    push_span(line, key, style);
    let mut name = text::joined(" ", of.label());
    text::push_text(&mut name, "   ");
    push_span(line, name.as_str(), plain());
}

/// The line of the keys.
pub fn render_footer(metric: Metric) -> (line: Vec<StyledSpan>)
    ensures
        line_view(line@) == footer_of(metric),
{
    let mut line: Vec<StyledSpan> = Vec::new();
    push_span(&mut line, " q ", badge(Tint::Gray));
    push_span(&mut line, " quit   ", plain());
    push_span(&mut line, " ↑↓ ", badge(Tint::Gray));
    push_span(&mut line, " select   ", plain());
    push_span(&mut line, " ⏎ ", badge(Tint::Gray));
    push_span(&mut line, " switch   ", plain());
    push_metric_key(&mut line, " c ", Metric::Cpu, metric);
    push_metric_key(&mut line, " m ", Metric::Mem, metric);
    push_span(&mut line, " r ", badge(Tint::Gray));
    push_span(&mut line, " refresh", plain());
    assert(line_view(line@) =~= footer_of(metric));
    line
}

/// What is shown where there is no session.
pub open spec fn empty_message() -> Seq<Seq<SpanView>> {
    seq![
        seq![SpanView { text: "No tmux sessions are running."@, style: plain_style() }],
        seq![SpanView { text: "Press q to quit."@, style: tinted_style(Tint::DarkGray) }],
    ]
}

/// What is shown where there is no session.
pub fn render_empty() -> (lines: Vec<Vec<StyledSpan>>)
    ensures
        line_views(lines@) == empty_message(),
{
    let mut first: Vec<StyledSpan> = Vec::new();
    push_span(&mut first, "No tmux sessions are running.", plain());
    assert(line_view(first@) =~= empty_message()[0]);
    let mut second: Vec<StyledSpan> = Vec::new();
    push_span(&mut second, "Press q to quit.", tinted(Tint::DarkGray));
    assert(line_view(second@) =~= empty_message()[1]);
    let mut lines: Vec<Vec<StyledSpan>> = Vec::new();
    push_line(&mut lines, first);
    push_line(&mut lines, second);
    assert(line_views(lines@) =~= empty_message());
    lines
}

// ---------------------------------------------------------------------------
// The screen
// ---------------------------------------------------------------------------

/// A rectangle of the terminal.
#[derive(Debug, Clone, Copy, PartialEq, Eq, Structural)]
pub struct Area {
    pub x: u16,
    pub y: u16,
    pub width: u16,
    pub height: u16,
}

/// How high a strip of the screen is wanted.
#[derive(Debug, Clone, Copy, PartialEq, Eq, Structural)]
pub enum StripHeight {
    /// A share of the whole height.
    Percentage { percent: u16 },
    /// A number of rows.
    Length { rows: u16 },
    /// A number of rows, or more.
    Min { rows: u16 },
}

/// Whether an area is a strip of another: as wide, and within it.
pub open spec fn is_strip_of(strip: Area, area: Area) -> bool {
    &&& strip.x == area.x
    &&& strip.width == area.width
    &&& area.y <= strip.y
    &&& strip.y + strip.height <= area.y + area.height
}

/// The smaller of two numbers.
pub open spec fn smaller(a: int, b: int) -> int {
    if a < b {
        a
    } else {
        b
    }
}

/// The rows of the chart, the breakdown and the keys on a screen of `height` rows. The
/// breakdown has at least three, as far as there are as many; the keys have one from the fourth
/// row on; the chart has 45 percent, rounded, as far as these leave it.
pub open spec fn usage_rows(height: int) -> Seq<int> {
    let chart = smaller((45 * height + 50) / 100, monus(height, 4));
    let keys: int = if height >= 4 {
        1
    } else {
        0
    };
    seq![chart, height - chart - keys, keys]
}

/// The rows above the message, of the message and below it on a screen of `height` rows. The
/// message has two, as far as there are as many; above it is half of the screen, rounded, as
/// far as the message leaves it.
pub open spec fn empty_rows(height: int) -> Seq<int> {
    let above = smaller((height + 1) / 2, monus(height, 2));
    let message = smaller(height, 2);
    seq![above, message, height - above - message]
}

/// Whether the strips have the given rows and lie one right below the other, from the top of
/// the area on.
pub open spec fn stacked(strips: Seq<Area>, area: Area, rows: Seq<int>) -> bool {
    &&& strips.len() == rows.len()
    &&& forall|i: int| 0 <= i < strips.len() ==> (#[trigger] strips[i]).height == rows[i]
    &&& strips.len() > 0 ==> strips[0].y == area.y
    &&& forall|i: int, j: int|
        0 <= i && j == i + 1 && j < strips.len() ==> (#[trigger] strips[j]).y == (
        #[trigger] strips[i]).y + strips[i].height
}

/// Whether the rows of an area can all be numbered.
pub open spec fn on_screen(area: Area) -> bool {
    area.y + area.height <= u16::MAX
}

/// `Layout::split` of ratatui, for a vertical layout without margins and with the default
/// spacing: gives one strip of the area per wanted height, each as wide as the area and within
/// it. For the heights of the two screens it gives the rows of `usage_rows` and `empty_rows`,
/// one strip right below the other: the crate weighs no overlap before a least height, that
/// before a length, that before a percentage and that before growing, which leaves one solution
/// for each of the two, and rounds where the strips begin and end to whole rows.
///
/// Of other heights nothing more is said: the crate calls some results indeterminate, and takes
/// its unknowns in the order of a hash map that each process seeds.
#[verifier::external_body]
fn split_area(area: Area, heights: &Vec<StripHeight>) -> (strips: Vec<Area>)
    ensures
        strips@.len() == heights@.len(),
        forall|i: int| 0 <= i < strips@.len() ==> is_strip_of(#[trigger] strips@[i], area),
        heights@ == usage_heights() && on_screen(area) ==> stacked(
            strips@,
            area,
            usage_rows(area.height as int),
        ),
        heights@ == empty_heights() && on_screen(area) ==> stacked(
            strips@,
            area,
            empty_rows(area.height as int),
        ),
{
    let whole = ratatui::layout::Rect { x: area.x, y: area.y, width: area.width, height: area.height };
    let constraints = heights.iter().map(|h| match h {
        StripHeight::Percentage { percent } => ratatui::layout::Constraint::Percentage(*percent),
        StripHeight::Length { rows } => ratatui::layout::Constraint::Length(*rows),
        StripHeight::Min { rows } => ratatui::layout::Constraint::Min(*rows),
    });
    let layout = ratatui::layout::Layout::new(ratatui::layout::Direction::Vertical, constraints);
    let strips = layout.split(whole);
    strips.iter().map(|r| Area { x: r.x, y: r.y, width: r.width, height: r.height }).collect()
}

/// What fills the screen.
#[derive(Debug)]
pub enum Scene {
    /// No session: a centred message.
    Empty { area: Area, lines: Vec<Vec<StyledSpan>> },
    /// The chart over the breakdown over the keys.
    Usage {
        chart_area: Area,
        chart: Chart,
        breakdown_area: Area,
        breakdown: Breakdown,
        footer_area: Area,
        footer: Vec<StyledSpan>,
    },
}

/// The strips of the screen: the chart, the breakdown and the keys.
pub open spec fn usage_heights() -> Seq<StripHeight> {
    seq![
        StripHeight::Percentage { percent: 45 },
        StripHeight::Min { rows: 3 },
        StripHeight::Length { rows: 1 },
    ]
}

/// The strips of the screen without sessions: the message is the second.
pub open spec fn empty_heights() -> Seq<StripHeight> {
    seq![
        StripHeight::Percentage { percent: 50 },
        StripHeight::Length { rows: 2 },
        StripHeight::Min { rows: 0 },
    ]
}

/// The heights wanted of the strips.
pub fn strip_heights(any_sessions: bool) -> (heights: Vec<StripHeight>)
    ensures
        heights@ == (if any_sessions {
            usage_heights()
        } else {
            empty_heights()
        }),
{
    let mut heights: Vec<StripHeight> = Vec::new();
    if any_sessions {
        heights.push(StripHeight::Percentage { percent: 45 });
        heights.push(StripHeight::Min { rows: 3 });
        heights.push(StripHeight::Length { rows: 1 });
        assert(heights@ =~= usage_heights());
    } else {
        heights.push(StripHeight::Percentage { percent: 50 });
        heights.push(StripHeight::Length { rows: 2 });
        heights.push(StripHeight::Min { rows: 0 });
        assert(heights@ =~= empty_heights());
    }
    heights
}

/// Whether `scene` shows the sessions in the strips.
pub open spec fn scene_of(
    scene: Scene,
    strips: Seq<Area>,
    sessions: Seq<SessionUsage>,
    shares: Seq<Vec<usize>>,
    metric: Metric,
    selected: int,
) -> bool {
    match scene {
        Scene::Empty { area, lines } => {
            &&& sessions.len() == 0
            &&& area == strips[1]
            &&& line_views(lines@) == empty_message()
        },
        Scene::Usage {
            chart_area,
            chart,
            breakdown_area,
            breakdown,
            footer_area,
            footer,
        } => {
            &&& sessions.len() > 0
            &&& chart_area == strips[0]
            &&& chart@ == chart_of(strips[0].width, sessions, metric, selected)
            &&& breakdown_area == strips[1]
            &&& breaks_down(breakdown, sessions, shares, metric, selected)
            &&& footer_area == strips[2]
            &&& line_view(footer@) == footer_of(metric)
        },
    }
}

/// Fills the strips of the screen.
pub fn compose(
    strips: &Vec<Area>,
    sessions: &Vec<SessionUsage>,
    shares: &Vec<Vec<usize>>,
    metric: Metric,
    selected: usize,
) -> (scene: Scene)
    requires
        strips@.len() == 3,
        shares_fit(sessions@, shares@),
    ensures
        scene_of(scene, strips@, sessions@, shares@, metric, selected as int),
{
    if sessions.len() == 0 {
        return Scene::Empty { area: strips[1], lines: render_empty() };
    }
    Scene::Usage {
        chart_area: strips[0],
        chart: render_chart(strips[0].width, sessions, metric, selected),
        breakdown_area: strips[1],
        breakdown: render_breakdown(sessions, shares, metric, selected),
        footer_area: strips[2],
        footer: render_footer(metric),
    }
}

/// The screen for an area: strips as wide as the area, one right below the other, and in them
/// the chart, the breakdown and the keys, or the message that there is no session.
pub fn render(
    area: Area,
    sessions: &Vec<SessionUsage>,
    shares: &Vec<Vec<usize>>,
    metric: Metric,
    selected: usize,
) -> (scene: Scene)
    requires
        shares_fit(sessions@, shares@),
    ensures
        exists|strips: Seq<Area>|
            {
                &&& strips.len() == 3
                &&& forall|i: int| 0 <= i < 3 ==> is_strip_of(#[trigger] strips[i], area)
                &&& on_screen(area) ==> stacked(
                    strips,
                    area,
                    if sessions@.len() > 0 {
                        usage_rows(area.height as int)
                    } else {
                        empty_rows(area.height as int)
                    },
                )
                &&& #[trigger] scene_of(
                    scene,
                    strips,
                    sessions@,
                    shares@,
                    metric,
                    selected as int,
                )
            },
{
    let heights = strip_heights(sessions.len() > 0);
    let strips = split_area(area, &heights);
    compose(&strips, sessions, shares, metric, selected)
}

} // verus!
