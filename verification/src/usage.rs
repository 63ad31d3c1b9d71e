//! Live resource usage, by session and by process.

pub mod attribution;
pub mod display;
pub mod figures;
pub mod laws;
pub mod monitor;
pub mod promises;
pub mod ranking;
pub mod sample;
pub mod screen;

pub use attribution::{
    build_sessions, checked_build_sessions, collect, Process, SessionProcesses,
};
pub use figures::{basename, format_mem, truncate, CpuLoad, Metric};
pub use monitor::{
    refresh_due, usage_command, Input, Key, Monitor, Step, TmsError, REFRESH_MILLIS, TICK_MILLIS,
};
pub use ranking::{sort_by_metric, SessionUsage};
pub use sample::{
    index_processes, parse_panes, parse_sample, sample_processes, ProcRow, ProcSample,
    PANE_PID_FORMAT,
};
pub use screen::{
    metric_figure_style, process_row, render, render_breakdown, render_chart, render_empty,
    render_footer, session_header, Area, Breakdown, Chart, ChartBar, Scene, StripHeight,
    StyledSpan, TextStyle, Tint, BAR_WIDTH, MAX_PROCS,
};
