//! What the screen promises to show.

use vstd::prelude::*;

use crate::text;
use crate::usage::attribution::Process;
use crate::usage::figures;
use crate::usage::figures::Metric;
use crate::usage::ranking::SessionUsage;
use crate::usage::screen;
use crate::usage::screen::{
    Area, Breakdown, Chart, ChartBar, Scene, StyledSpan, TextStyle, Tint,
};

verus! {

// ---------------------------------------------------------------------------
// What values say
// ---------------------------------------------------------------------------

/// A piece of text, a line and lines say all that they hold.
pub proof fn law_lines_say_everything(
    span: StyledSpan,
    line: Seq<StyledSpan>,
    lines: Seq<Vec<StyledSpan>>,
)
    ensures
        span@.text == span.text@ && span@.style == span.style,
        screen::line_view(line).len() == line.len(),
        forall|i: int| 0 <= i < line.len() ==> #[trigger] screen::line_view(line)[i] == line[i]@,
        screen::line_views(lines).len() == lines.len(),
        forall|i: int|
            0 <= i < lines.len() ==> #[trigger] screen::line_views(lines)[i] == screen::line_view(
                lines[i]@,
            ),
{
}

/// A chart says all that it holds.
pub proof fn law_charts_say_everything(bar: ChartBar, chart: Chart)
    ensures
        bar@.value == bar.value && bar@.label == bar.label@,
        bar@.text_value == bar.text_value@ && bar@.color == bar.color,
        chart@.title == chart.title@ && chart@.bar_width == chart.bar_width,
        chart@.bar_gap == chart.bar_gap && chart@.max == chart.max,
        chart@.value_style == chart.value_style && chart@.label_style == chart.label_style,
        chart@.bars.len() == chart.bars@.len(),
        forall|i: int|
            0 <= i < chart.bars@.len() ==> #[trigger] chart@.bars[i] == chart.bars@[i]@,
{
}

// ---------------------------------------------------------------------------
// Texts in columns
// ---------------------------------------------------------------------------

/// Whether `shown` is `s` in a column of the given width: `s` and then spaces, or as much of it
/// as leaves room for the mark of the cut.
pub open spec fn in_column(shown: Seq<char>, s: Seq<char>, width: int) -> bool {
    &&& shown.len() == width
    &&& s.len() <= width ==> shown.take(s.len() as int) == s && forall|i: int|
        s.len() <= i < width ==> shown[i] == ' '
    &&& s.len() > width ==> shown.take(width - 1) == s.take(width - 1) && shown[width - 1] == '…'
}

/// Whether `shown` is the lead, then spaces, then `s`, which takes up the given width or more.
pub open spec fn behind(shown: Seq<char>, lead: Seq<char>, s: Seq<char>, width: int) -> bool {
    &&& shown.len() == lead.len() + if s.len() < width {
        width
    } else {
        s.len() as int
    }
    &&& shown.take(lead.len() as int) == lead
    &&& shown.skip(shown.len() - s.len()) == s
    &&& forall|i: int| lead.len() <= i < shown.len() - s.len() ==> shown[i] == ' '
}

proof fn lemma_in_column(s: Seq<char>, width: nat)
    requires
        width > 0,
    ensures
        in_column(text::pad_right(figures::shortened(s, width), width), s, width as int),
{
    let short = figures::shortened(s, width);
    figures::law_shortened_fits(s, width);
    text::laws::law_padding_adds_spaces(short, width);
    let shown = text::pad_right(short, width);
    if s.len() > width {
        assert(shown.take(width as int) =~= short);
        assert(shown.take(width - 1) =~= s.take(width - 1));
    }
}

proof fn lemma_behind(lead: Seq<char>, s: Seq<char>, width: nat)
    ensures
        behind(lead + text::pad_left(s, width), lead, s, width as int),
{
    text::laws::law_padding_adds_spaces(s, width);
    let padded = text::pad_left(s, width);
    let shown = lead + padded;
    assert(shown.take(lead.len() as int) =~= lead);
    assert(shown.skip(shown.len() - s.len()) =~= padded.skip(padded.len() - s.len()));
    assert forall|i: int| lead.len() <= i < shown.len() - s.len() implies shown[i] == ' ' by {
        assert(shown[i] == padded[i - lead.len()]);
    }
}

/// Whether a text is `n` copies of a character.
pub open spec fn copies(shown: Seq<char>, c: char, n: int) -> bool {
    shown.len() == n && forall|i: int| 0 <= i < n ==> shown[i] == c
}

// ---------------------------------------------------------------------------
// Rows
// ---------------------------------------------------------------------------

/// The colour of a figure: its own where its metric is the active one, and else a dim one.
pub open spec fn figure_color(active: Metric, figure: Metric) -> Tint {
    if active != figure {
        Tint::DarkGray
    } else if figure == Metric::Cpu {
        Tint::Yellow
    } else {
        Tint::Cyan
    }
}

/// Whether a text has a colour and nothing else.
pub open spec fn only_fg(style: TextStyle, tint: Tint) -> bool {
    style.fg == Some(tint) && style.bg is None && !style.bold && !style.reversed
}

/// Whether a text is drawn in the terminal's own style.
pub open spec fn no_style(style: TextStyle) -> bool {
    style.fg is None && style.bg is None && !style.bold && !style.reversed
}

/// Whether a row shows a process: its command, its bar with `filled` columns filled, its CPU
/// percentage and its memory.
pub open spec fn shows_process(
    row: Seq<screen::SpanView>,
    process: Process,
    metric: Metric,
    filled: int,
) -> bool {
    &&& row.len() == 6
    &&& copies(row[0].text, ' ', 4)
    &&& no_style(row[0].style)
    &&& in_column(row[1].text, process.command@, 18)
    &&& only_fg(row[1].style, Tint::Gray)
    &&& copies(row[2].text, '█', filled)
    &&& only_fg(row[2].style, figure_color(metric, metric))
    &&& copies(row[3].text, '░', 14 - filled)
    &&& only_fg(row[3].style, Tint::DarkGray)
    &&& behind(row[4].text, seq![' ', ' '], process.cpu.text@, 6)
    &&& only_fg(row[4].style, figure_color(metric, Metric::Cpu))
    &&& behind(row[5].text, seq![' ', ' '], figures::mem_text(process.mem_kb as nat), 9)
    &&& only_fg(row[5].style, figure_color(metric, Metric::Mem))
}

/// Whether a row is the header of a session: its name, its CPU percentage, its memory and the
/// number of its processes.
pub open spec fn shows_session(
    row: Seq<screen::SpanView>,
    session: SessionUsage,
    metric: Metric,
) -> bool {
    &&& row.len() == 5
    &&& in_column(row[0].text, session.name@, 22)
    &&& row[0].style.bold && row[0].style.fg is None && row[0].style.bg is None
    &&& !row[0].style.reversed
    &&& behind(row[1].text, seq!['C', 'P', 'U', ' '], session.cpu.text@, 6)
    &&& only_fg(row[1].style, figure_color(metric, Metric::Cpu))
    &&& copies(row[2].text, ' ', 3)
    &&& no_style(row[2].style)
    &&& behind(
        row[3].text,
        seq!['M', 'E', 'M', ' '],
        figures::mem_text(session.mem_kb as nat),
        9,
    )
    &&& only_fg(row[3].style, figure_color(metric, Metric::Mem))
    &&& row[4].text == seq![' ', ' ', ' '] + text::decimal(session.processes@.len()) + seq![
        ' ',
        'p',
        'r',
        'o',
        'c',
    ]
    &&& only_fg(row[4].style, Tint::DarkGray)
}

/// The line of a process shows that process.
pub proof fn law_process_rows(process: Process, metric: Metric, filled: nat)
    requires
        filled <= 14,
    ensures
        shows_process(
            screen::process_line(process, metric, filled),
            process,
            metric,
            filled as int,
        ),
{
    reveal_strlit("    ");
    reveal_strlit("  ");
    assert("  "@ =~= seq![' ', ' ']);
    lemma_in_column(process.command@, 18);
    lemma_behind("  "@, process.cpu.text@, 6);
    lemma_behind("  "@, figures::mem_text(process.mem_kb as nat), 9);
    text::laws::law_copies('█', filled);
    text::laws::law_copies('░', (14 - filled) as nat);
}

/// The header of a session shows that session.
pub proof fn law_header_rows(session: SessionUsage, metric: Metric)
    ensures
        shows_session(screen::header_of(session, metric), session, metric),
{
    reveal_strlit("CPU ");
    reveal_strlit("MEM ");
    reveal_strlit("   ");
    reveal_strlit(" proc");
    assert("CPU "@ =~= seq!['C', 'P', 'U', ' ']);
    assert("MEM "@ =~= seq!['M', 'E', 'M', ' ']);
    assert("   "@ =~= seq![' ', ' ', ' ']);
    assert(" proc"@ =~= seq![' ', 'p', 'r', 'o', 'c']);
    lemma_in_column(session.name@, 22);
    lemma_behind("CPU "@, session.cpu.text@, 6);
    lemma_behind("MEM "@, figures::mem_text(session.mem_kb as nat), 9);
}

/// The row of the breakdown in which session `i` begins.
pub open spec fn header_row(
    sessions: Seq<SessionUsage>,
    shares: Seq<Vec<usize>>,
    metric: Metric,
    i: int,
) -> int {
    screen::breakdown_lines(sessions, shares, metric, i).len() as int
}

proof fn lemma_rows_stay(
    sessions: Seq<SessionUsage>,
    shares: Seq<Vec<usize>>,
    metric: Metric,
    m: int,
    n: int,
    row: int,
)
    requires
        0 <= m <= n,
        0 <= row < screen::breakdown_lines(sessions, shares, metric, m).len(),
    ensures
        row < screen::breakdown_lines(sessions, shares, metric, n).len(),
        screen::breakdown_lines(sessions, shares, metric, n)[row] == screen::breakdown_lines(
            sessions,
            shares,
            metric,
            m,
        )[row],
    decreases n,
{
    if m < n {
        lemma_rows_stay(sessions, shares, metric, m, n - 1, row);
    }
}

/// The breakdown, row by row: every session has its header; in the rows below stand its first
/// six processes, one row each, in their order, with the filled columns that they were given;
/// then, where there are more, how many; and right below begins the next session. The first
/// session begins in the first row.
pub proof fn law_breakdown_row_by_row(
    sessions: Seq<SessionUsage>,
    shares: Seq<Vec<usize>>,
    metric: Metric,
    i: int,
    k: int,
)
    requires
        screen::shares_fit(sessions, shares),
        0 <= i < sessions.len(),
    ensures
        ({
            let rows = screen::breakdown_lines(sessions, shares, metric, sessions.len() as int);
            let at = header_row(sessions, shares, metric, i);
            let count = sessions[i].processes@.len();
            &&& header_row(sessions, shares, metric, 0) == 0
            &&& header_row(sessions, shares, metric, i + 1) == at + 1 + if count <= 6 {
                count as int
            } else {
                7
            }
            &&& header_row(sessions, shares, metric, i + 1) <= rows.len()
            &&& header_row(sessions, shares, metric, sessions.len() as int) == rows.len()
            &&& shows_session(rows[at], sessions[i], metric)
            &&& 0 <= k < count && k < 6 ==> shows_process(
                rows[at + 1 + k],
                sessions[i].processes@[k],
                metric,
                shares[i]@[k] as int,
            )
            &&& count > 6 ==> rows[at + 7].len() == 1 && rows[at + 7][0].text == seq![
                ' ',
                ' ',
                ' ',
                ' ',
                ' ',
                ' ',
                '…',
                ' ',
            ] + text::decimal((count - 6) as nat) + seq![' ', 'm', 'o', 'r', 'e'] && only_fg(
                rows[at + 7][0].style,
                Tint::DarkGray,
            )
        }),
{
    let total = sessions.len() as int;
    let rows = screen::breakdown_lines(sessions, shares, metric, total);
    let upto = screen::breakdown_lines(sessions, shares, metric, i + 1);
    let own = screen::session_lines(sessions[i], shares[i]@, metric);
    let at = header_row(sessions, shares, metric, i);
    let count = sessions[i].processes@.len();
    assert(upto == screen::breakdown_lines(sessions, shares, metric, i) + own);
    assert(own.len() == 1 + if count <= 6 {
        count as int
    } else {
        7
    });
    assert forall|row: int| 0 <= row < upto.len() implies rows[row] == upto[row] && row
        < rows.len() by {
        lemma_rows_stay(sessions, shares, metric, i + 1, total, row);
    }
    assert(rows[upto.len() - 1] == upto[upto.len() - 1]);
    assert(upto[at] == own[0]);
    assert(rows[at] == upto[at]);
    law_header_rows(sessions[i], metric);
    assert(shares[i]@.len() >= screen::listed_count(sessions[i]));
    if 0 <= k < count && k < 6 {
        assert(rows[at + 1 + k] == upto[at + 1 + k]);
        assert(upto[at + 1 + k] == own[1 + k]);
        assert(shares[i]@[k] <= 14);
        law_process_rows(sessions[i].processes@[k], metric, shares[i]@[k] as nat);
    }
    if count > 6 {
        assert(rows[at + 7] == upto[at + 7]);
        assert(upto[at + 7] == own[7]);
        reveal_strlit("      … ");
        reveal_strlit(" more");
        assert("      … "@ =~= seq![' ', ' ', ' ', ' ', ' ', ' ', '…', ' ']);
        assert(" more"@ =~= seq![' ', 'm', 'o', 'r', 'e']);
    }
}

/// The row that is marked as selected is the header of the selected session, and none is where
/// no session is selected.
pub proof fn law_selected_session_is_marked(
    breakdown: Breakdown,
    sessions: Seq<SessionUsage>,
    shares: Seq<Vec<usize>>,
    metric: Metric,
    selected: int,
)
    requires
        screen::shares_fit(sessions, shares),
        selected >= 0,
        screen::breaks_down(breakdown, sessions, shares, metric, selected),
    ensures
        selected >= sessions.len() ==> breakdown.selected_row is None,
        selected < sessions.len() ==> (breakdown.selected_row matches Some(row) && row
            < breakdown.rows@.len() && shows_session(
            screen::line_view(breakdown.rows@[row as int]@),
            sessions[selected],
            metric,
        )),
        breakdown.title@ == " Processes by session "@,
        breakdown.highlight_symbol@ == "▶ "@,
        breakdown.highlight_style.bold && breakdown.highlight_style.reversed,
        breakdown.highlight_style.fg == Some(Tint::White) && breakdown.highlight_style.bg is None,
{
    if selected < sessions.len() {
        law_breakdown_row_by_row(sessions, shares, metric, selected, 0);
        let rows = screen::breakdown_lines(sessions, shares, metric, sessions.len() as int);
        let row = breakdown.selected_row->0 as int;
        assert(screen::line_views(breakdown.rows@).len() == breakdown.rows@.len());
        assert(rows[row] == screen::line_view(breakdown.rows@[row]@));
    }
}

/// The screen shows the chart of the sessions in its first strip, their breakdown in the second
/// and the keys in the third; without sessions the message is in the second.
pub proof fn law_strips_hold_their_parts(
    scene: Scene,
    strips: Seq<Area>,
    sessions: Seq<SessionUsage>,
    shares: Seq<Vec<usize>>,
    metric: Metric,
    selected: int,
)
    requires
        screen::scene_of(scene, strips, sessions, shares, metric, selected),
    ensures
        scene is Empty <==> sessions.len() == 0,
        match scene {
            Scene::Empty { area, lines } => area == strips[1] && lines@.len() == 2,
            Scene::Usage {
                chart_area,
                chart,
                breakdown_area,
                breakdown,
                footer_area,
                footer,
            } => {
                &&& chart_area == strips[0] && breakdown_area == strips[1] && footer_area
                    == strips[2]
                &&& chart@ == screen::chart_of(strips[0].width, sessions, metric, selected)
                &&& screen::breaks_down(breakdown, sessions, shares, metric, selected)
                &&& screen::line_view(footer@) == screen::footer_of(metric)
            },
        },
{
    if let Scene::Empty { area, lines } = scene {
        assert(screen::line_views(lines@).len() == lines@.len());
    }
}

// ---------------------------------------------------------------------------
// The chart
// ---------------------------------------------------------------------------

proof fn lemma_largest_bar(sessions: Seq<SessionUsage>, metric: Metric, n: int)
    requires
        0 <= n <= sessions.len(),
    ensures
        screen::largest_bar(sessions, metric, n) >= 1,
        forall|k: int|
            0 <= k < n ==> (#[trigger] sessions[k]).bar(metric) <= screen::largest_bar(
                sessions,
                metric,
                n,
            ),
        screen::largest_bar(sessions, metric, n) > 1 ==> exists|k: int|
            0 <= k < n && (#[trigger] sessions[k]).bar(metric) == screen::largest_bar(
                sessions,
                metric,
                n,
            ),
    decreases n,
{
    if n > 0 {
        lemma_largest_bar(sessions, metric, n - 1);
        let last = sessions[n - 1].bar(metric);
        let before = screen::largest_bar(sessions, metric, n - 1);
        if last <= before && before > 1 {
            let k = choose|k: int|
                0 <= k < n - 1 && (#[trigger] sessions[k]).bar(metric) == before;
            assert(sessions[k].bar(metric) == screen::largest_bar(sessions, metric, n));
        } else if last > before {
            assert(sessions[n - 1].bar(metric) == screen::largest_bar(sessions, metric, n));
        }
    }
}

/// The chart, bar by bar: each session has one, in order, as high as its figure by the metric,
/// with its name below and its figure in it, and white where it is selected. The highest bar
/// takes up the whole height.
pub proof fn law_chart_bar_by_bar(
    width: u16,
    sessions: Seq<SessionUsage>,
    metric: Metric,
    selected: int,
    k: int,
)
    requires
        0 <= k < sessions.len(),
    ensures
        ({
            let chart = screen::chart_of(width, sessions, metric, selected);
            let bar = chart.bars[k];
            let room: int = if chart.bar_width > 6 {
                chart.bar_width as int
            } else {
                6
            };
            let name = sessions[k].name@;
            &&& chart.bars.len() == sessions.len()
            &&& chart.bar_gap == 1
            &&& metric == Metric::Cpu ==> bar.value == sessions[k].cpu.tenths && bar.text_value
                == sessions[k].cpu.text@
            &&& metric == Metric::Mem ==> bar.value == sessions[k].mem_kb && bar.text_value
                == figures::mem_text(sessions[k].mem_kb as nat)
            &&& name.len() <= room ==> bar.label == name
            &&& name.len() > room ==> bar.label == name.take(room - 1) + seq!['…']
            &&& bar.color == if k == selected {
                Tint::White
            } else {
                figure_color(metric, metric)
            }
            &&& bar.value <= chart.max
            &&& chart.max >= 1
            &&& chart.max > 1 ==> exists|m: int|
                0 <= m < sessions.len() && (#[trigger] chart.bars[m]).value == chart.max
            &&& only_fg(chart.label_style, Tint::Gray)
            &&& chart.value_style.fg == Some(Tint::Black) && chart.value_style.bold
            &&& chart.title == " Resource usage by session · "@ + metric.name() + " "@
        }),
{
    let chart = screen::chart_of(width, sessions, metric, selected);
    let n = sessions.len() as int;
    lemma_largest_bar(sessions, metric, n);
    law_bars_share_the_width(width, sessions.len());
    let room = screen::label_room(chart.bar_width as int);
    let name = sessions[k].name@;
    if name.len() > room {
        assert(figures::shortened(name, room) =~= name.take(room - 1) + seq!['…']);
    }
    if chart.max > 1 {
        let m = choose|m: int| 0 <= m < n && (#[trigger] sessions[m]).bar(metric) == chart.max;
        assert(chart.bars[m].value == chart.max);
    }
}

/// The bars are as wide as the chart has room for, from 1 to 14 columns: with one column
/// between any two they fit within its borders, unless they are of one column, and wider ones
/// would not, unless they are of fourteen.
pub proof fn law_bars_share_the_width(width: u16, sessions: nat)
    ensures
        ({
            let bar = screen::bar_width_for(width, sessions);
            &&& 1 <= bar <= 14
            &&& 0 < sessions < 65536 && bar > 1 ==> sessions * bar + (sessions - 1) + 2 <= width
            &&& 0 < sessions < 65536 && bar < 14 ==> sessions * (bar + 1) + (sessions - 1) + 2
                > width
        }),
{
    let n = (sessions % 0x1_0000) as int;
    if 0 < sessions < 65536 {
        assert(n == sessions);
        let free = screen::monus(screen::monus(width as int, 2), screen::monus(n, 1));
        let share = free / n;
        vstd::arithmetic::div_mod::lemma_fundamental_div_mod(free, n);
        vstd::arithmetic::div_mod::lemma_mod_bound(free, n);
        let bar = screen::bar_width_for(width, sessions);
        assert(n * (share + 1) == n * share + n) by (nonlinear_arith);
        assert(n * (bar + 1) == n * bar + n) by (nonlinear_arith);
        if bar > 1 {
            assert(bar <= share);
            assert(n * bar <= n * share) by (nonlinear_arith)
                requires
                    bar <= share,
                    n > 0,
            ;
            assert(n * bar >= 2 * n) by (nonlinear_arith)
                requires
                    bar >= 2,
                    n > 0,
            ;
        }
        if bar < 14 {
            assert(bar >= share);
            assert(n * bar >= n * share) by (nonlinear_arith)
                requires
                    bar >= share,
                    n > 0,
            ;
        }
    }
}

// ---------------------------------------------------------------------------
// The keys
// ---------------------------------------------------------------------------

/// In the line of the keys the key of the active metric has that metric's colour, and the key
/// of the other is as all others are.
pub proof fn law_active_metric_is_marked(metric: Metric)
    ensures
        ({
            let line = screen::footer_of(metric);
            let (active, idle): (int, int) = if metric == Metric::Cpu {
                (6, 8)
            } else {
                (8, 6)
            };
            &&& line.len() == 12
            &&& line[active].style.bg == Some(figure_color(metric, metric))
            &&& line[active].style.fg == Some(Tint::Black)
            &&& line[idle].style == line[0].style
            &&& line[2].style == line[0].style && line[4].style == line[0].style
            &&& line[10].style == line[0].style
            &&& line[0].style.bg == Some(Tint::Gray) && line[0].style.fg == Some(Tint::Black)
        }),
{
}

/// The strips of a screen make up its rows: no strip is of less than nothing, and together they
/// are as high as the screen. From four rows on the breakdown has at least three and the keys
/// one; from two rows on the message has two.
pub proof fn law_rows_make_up_the_screen(height: int)
    requires
        height >= 0,
    ensures
        ({
            let usage = screen::usage_rows(height);
            let empty = screen::empty_rows(height);
            &&& usage.len() == 3 && empty.len() == 3
            &&& usage[0] >= 0 && usage[1] >= 0 && usage[2] >= 0
            &&& empty[0] >= 0 && empty[1] >= 0 && empty[2] >= 0
            &&& usage[0] + usage[1] + usage[2] == height
            &&& empty[0] + empty[1] + empty[2] == height
            &&& height >= 4 ==> usage[1] >= 3 && usage[2] == 1
            &&& height >= 2 ==> empty[1] == 2
        }),
{
}

} // verus!
