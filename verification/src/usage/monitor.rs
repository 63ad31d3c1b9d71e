//! The usage screen's state, and what the keys do to it.

use vstd::prelude::*;

use crate::usage::figures::Metric;
use crate::usage::ranking;
use crate::usage::ranking::SessionUsage;

verus! {

/// How often the session/process sample is refreshed, in milliseconds.
pub const REFRESH_MILLIS: u64 = 2000;

/// Longest a single wait for input lasts before the screen ticks again, in milliseconds.
pub const TICK_MILLIS: u64 = 200;

/// Whether the sample is old enough for a fresh one.
pub fn refresh_due(elapsed_millis: u64) -> (due: bool)
    ensures
        due <==> elapsed_millis >= REFRESH_MILLIS,
{
    elapsed_millis >= REFRESH_MILLIS
}

/// A key of the keyboard.
#[derive(Debug, Clone, Copy, PartialEq, Eq, Structural)]
pub enum Key {
    Char { c: char },
    Esc,
    Tab,
    Up,
    Down,
    Enter,
    Other,
}

/// What came in within a tick.
#[derive(Debug, Clone, Copy, PartialEq, Eq, Structural)]
pub enum Input {
    /// Nothing.
    Idle,
    /// A key was pressed.
    Press { key: Key },
    /// A key was released, or repeats.
    Rest { key: Key },
    /// Something other than a key.
    Other,
}

/// What is to be done about an input.
#[derive(Debug)]
pub enum Step {
    /// Go on.
    Continue,
    /// Take a fresh sample.
    Sample,
    /// Close the screen.
    Close,
    /// Close the screen and switch to a session.
    Switch { session: String },
}

/// The state of the screen.
#[derive(Debug)]
pub struct Monitor {
    pub metric: Metric,
    pub selected: usize,
    pub sessions: Vec<SessionUsage>,
}

/// The metric after an input.
pub open spec fn next_metric(metric: Metric, input: Input) -> Metric {
    match input {
        Input::Press { key: Key::Char { c: 'c' } } => Metric::Cpu,
        Input::Press { key: Key::Char { c: 'm' } } => Metric::Mem,
        Input::Press { key: Key::Tab } => metric.other(),
        _ => metric,
    }
}

/// The selection one down, round from the last to the first.
pub open spec fn one_down(selected: int, count: int) -> int {
    (selected + 1) % count
}

/// The selection one up, round from the first to the last.
pub open spec fn one_up(selected: int, count: int) -> int {
    (selected + count - 1) % count
}

/// The selection after an input.
pub open spec fn next_selected(selected: int, count: int, input: Input) -> int {
    if count == 0 {
        selected
    } else {
        match input {
            Input::Press { key: Key::Down } => one_down(selected, count),
            Input::Press { key: Key::Char { c: 'j' } } => one_down(selected, count),
            Input::Press { key: Key::Up } => one_up(selected, count),
            Input::Press { key: Key::Char { c: 'k' } } => one_up(selected, count),
            _ => selected,
        }
    }
}

/// Whether the input closes the screen.
pub open spec fn closes(input: Input) -> bool {
    input == (Input::Press { key: Key::Char { c: 'q' } }) || input == (Input::Press {
        key: Key::Esc,
    })
}

/// Whether the input asks for a fresh sample.
pub open spec fn asks_for_sample(input: Input) -> bool {
    input == (Input::Press { key: Key::Char { c: 'r' } })
}

/// Whether the input picks the selected session.
pub open spec fn picks(input: Input) -> bool {
    input == (Input::Press { key: Key::Enter })
}

/// The selection that is kept among `count` sessions.
pub open spec fn kept_selection(selected: int, count: int) -> int {
    if selected < count {
        selected
    } else if count > 0 {
        count - 1
    } else {
        0
    }
}

impl Monitor {
    /// Whether a session is selected, if there is any.
    pub open spec fn settled(self) -> bool {
        self.selected < self.sessions@.len() || (self.selected == 0 && self.sessions@.len() == 0)
    }

    /// The screen on a first sample.
    pub fn start(sessions: Vec<SessionUsage>) -> (monitor: Monitor)
        ensures
            monitor.metric == Metric::Cpu,
            monitor.selected == 0,
            monitor.sessions == sessions,
            monitor.settled(),
    {
        Monitor { metric: Metric::Cpu, selected: 0, sessions }
    }

    /// Puts a fresh sample in place of the last.
    pub fn refresh(&mut self, sessions: Vec<SessionUsage>)
        ensures
            final(self).metric == old(self).metric,
            final(self).selected == old(self).selected,
            final(self).sessions == sessions,
    {
        self.sessions = sessions;
    }

    /// Puts the sessions in the order of the metric and the selection among them.
    pub fn settle(&mut self)
        ensures
            final(self).metric == old(self).metric,
            ranking::arranged(old(self).sessions@, final(self).sessions@, old(self).metric),
            final(self).selected == kept_selection(
                old(self).selected as int,
                final(self).sessions@.len() as int,
            ),
            final(self).settled(),
    {
        ranking::sort_by_metric(&mut self.sessions, self.metric);
        let count: usize = self.sessions.len();
        if self.selected >= count {
            self.selected = if count > 0 {
                count - 1
            } else {
                0
            };
        }
    }

    /// Does what an input asks for, as far as it is a matter of the screen, and says what is
    /// left to do.
    pub fn handle(&mut self, input: Input) -> (step: Step)
        requires
            old(self).settled(),
        ensures
            final(self).settled(),
            final(self).sessions == old(self).sessions,
            final(self).metric == next_metric(old(self).metric, input),
            final(self).selected == next_selected(
                old(self).selected as int,
                old(self).sessions@.len() as int,
                input,
            ),
            step is Close <==> closes(input),
            step is Sample <==> asks_for_sample(input),
            step is Switch <==> picks(input) && old(self).sessions@.len() > 0,
            step matches Step::Switch { session } ==> session@ == old(self).sessions@[old(
                self,
            ).selected as int].name@,
    {
        let key = match input {
            Input::Press { key } => key,
            _ => {
                return Step::Continue;
            },
        };
        let count: usize = self.sessions.len();
        match key {
            Key::Esc => {
                return Step::Close;
            },
            Key::Tab => {
                self.metric = match self.metric {
                    Metric::Cpu => Metric::Mem,
                    Metric::Mem => Metric::Cpu,
                };
            },
            Key::Down => {
                self.select_down(count);
            },
            Key::Up => {
                self.select_up(count);
            },
            Key::Enter => {
                if count > 0 {
                    return Step::Switch { session: self.sessions[self.selected].name.clone() };
                }
            },
            Key::Char { c } => {
                if c == 'q' {
                    return Step::Close;
                } else if c == 'c' {
                    self.metric = Metric::Cpu;
                } else if c == 'm' {
                    self.metric = Metric::Mem;
                } else if c == 'r' {
                    return Step::Sample;
                } else if c == 'j' {
                    self.select_down(count);
                } else if c == 'k' {
                    self.select_up(count);
                }
            },
            Key::Other => {},
        }
        Step::Continue
    }

    /// Selects the next session.
    fn select_down(&mut self, count: usize)
        requires
            old(self).settled(),
            count == old(self).sessions@.len(),
        ensures
            final(self).settled(),
            final(self).sessions == old(self).sessions,
            final(self).metric == old(self).metric,
            final(self).selected == if count > 0 {
                one_down(old(self).selected as int, count as int)
            } else {
                old(self).selected as int
            },
    {
        if count > 0 {
            self.selected = (self.selected + 1) % count;
        }
    }

    /// Selects the session before.
    fn select_up(&mut self, count: usize)
        requires
            old(self).settled(),
            count == old(self).sessions@.len(),
        ensures
            final(self).settled(),
            final(self).sessions == old(self).sessions,
            final(self).metric == old(self).metric,
            final(self).selected == if count > 0 {
                one_up(old(self).selected as int, count as int)
            } else {
                old(self).selected as int
            },
    {
        if count > 0 {
            proof {
                lemma_one_up(self.selected as int, count as int);
            }
            self.selected = if self.selected == 0 {
                count - 1
            } else {
                self.selected - 1
            };
        }
    }
}

/// What one up is, without a remainder.
pub proof fn lemma_one_up(selected: int, count: int)
    requires
        0 <= selected < count,
    ensures
        one_up(selected, count) == if selected == 0 {
            count - 1
        } else {
            selected - 1
        },
{
    if selected == 0 {
        vstd::arithmetic::div_mod::lemma_small_mod((count - 1) as nat, count as nat);
    } else {
        vstd::arithmetic::div_mod::lemma_small_mod((selected - 1) as nat, count as nat);
        vstd::arithmetic::div_mod::lemma_mod_add_multiples_vanish(selected - 1, count);
    }
}

/// What one down is, without a remainder.
pub proof fn lemma_one_down(selected: int, count: int)
    requires
        0 <= selected < count,
    ensures
        one_down(selected, count) == if selected == count - 1 {
            0
        } else {
            selected + 1
        },
{
    if selected == count - 1 {
        vstd::arithmetic::div_mod::lemma_mod_self_0(count);
    } else {
        vstd::arithmetic::div_mod::lemma_small_mod((selected + 1) as nat, count as nat);
    }
}

/// One up takes back one down, and one down takes back one up.
pub proof fn law_up_takes_back_down(selected: int, count: int)
    requires
        0 <= selected < count,
    ensures
        one_up(one_down(selected, count), count) == selected,
        one_down(one_up(selected, count), count) == selected,
{
    lemma_one_down(selected, count);
    lemma_one_up(selected, count);
    lemma_one_up(one_down(selected, count), count);
    lemma_one_down(one_up(selected, count), count);
}

/// The selection after `times` steps down.
pub open spec fn down_by(selected: int, count: int, times: nat) -> int
    decreases times,
{
    if times == 0 {
        selected
    } else {
        one_down(down_by(selected, count, (times - 1) as nat), count)
    }
}

proof fn lemma_down_by(selected: int, count: int, times: nat)
    requires
        0 <= selected < count,
        times <= count,
    ensures
        down_by(selected, count, times) == if selected + times < count {
            selected + times
        } else {
            selected + times - count
        },
    decreases times,
{
    if times > 0 {
        lemma_down_by(selected, count, (times - 1) as nat);
        lemma_one_down(down_by(selected, count, (times - 1) as nat), count);
    }
}

/// As many steps down as there are sessions lead round to where they began, and fewer lead to
/// every session.
pub proof fn law_down_goes_round(selected: int, target: int, count: int)
    requires
        0 <= selected < count,
        0 <= target < count,
    ensures
        down_by(selected, count, count as nat) == selected,
        exists|times: nat|
            times < count && #[trigger] down_by(selected, count, times) == target,
{
    lemma_down_by(selected, count, count as nat);
    let times = (if target >= selected {
        target - selected
    } else {
        target - selected + count
    }) as nat;
    lemma_down_by(selected, count, times);
    assert(down_by(selected, count, times) == target);
}

/// Whether the input selects the next session.
pub open spec fn goes_down(input: Input) -> bool {
    input == (Input::Press { key: Key::Down }) || input == (Input::Press {
        key: Key::Char { c: 'j' },
    })
}

/// Whether the input selects the session before.
pub open spec fn goes_up(input: Input) -> bool {
    input == (Input::Press { key: Key::Up }) || input == (Input::Press {
        key: Key::Char { c: 'k' },
    })
}

/// How many of the inputs go down, less how many go up.
pub open spec fn net_steps(inputs: Seq<Input>) -> int
    decreases inputs.len(),
{
    if inputs.len() == 0 {
        0
    } else {
        net_steps(inputs.drop_last()) + if goes_down(inputs.last()) {
            1int
        } else if goes_up(inputs.last()) {
            -1
        } else {
            0
        }
    }
}

/// The selection after inputs, one after the other.
pub open spec fn selected_after(selected: int, count: int, inputs: Seq<Input>) -> int
    decreases inputs.len(),
{
    if inputs.len() == 0 {
        selected
    } else {
        next_selected(
            selected_after(selected, count, inputs.drop_last()),
            count,
            inputs.last(),
        )
    }
}

/// What one input makes of a selection that is known by its remainder.
pub proof fn lemma_step_adds(total: int, count: int, input: Input)
    requires
        count > 0,
    ensures
        goes_down(input) ==> next_selected(total % count, count, input) == (total + 1) % count,
        goes_up(input) ==> next_selected(total % count, count, input) == (total - 1) % count,
        !goes_down(input) && !goes_up(input) ==> next_selected(total % count, count, input)
            == total % count,
{
    vstd::arithmetic::div_mod::lemma_add_mod_noop_right(1, total, count);
    vstd::arithmetic::div_mod::lemma_add_mod_noop_right(count - 1, total, count);
    vstd::arithmetic::div_mod::lemma_mod_add_multiples_vanish(total - 1, count);
}

/// Steps add up: any mix of steps down and up leads as far, round the sessions, as the steps
/// down exceed those up.
pub proof fn law_steps_add_up(selected: int, count: int, inputs: Seq<Input>)
    requires
        0 <= selected < count,
    ensures
        selected_after(selected, count, inputs) == (selected + net_steps(inputs)) % count,
    decreases inputs.len(),
{
    if inputs.len() == 0 {
        vstd::arithmetic::div_mod::lemma_small_mod(selected as nat, count as nat);
    } else {
        let before = inputs.drop_last();
        law_steps_add_up(selected, count, before);
        lemma_step_adds(selected + net_steps(before), count, inputs.last());
    }
}

/// Two presses of Tab lead back to the metric.
pub proof fn law_tab_takes_itself_back(metric: Metric)
    ensures
        next_metric(
            next_metric(metric, Input::Press { key: Key::Tab }),
            Input::Press { key: Key::Tab },
        ) == metric,
{
}

// ---------------------------------------------------------------------------
// After the screen
// ---------------------------------------------------------------------------

/// Why the screen failed.
#[derive(Debug)]
pub enum TmsError {
    TuiError { message: String },
}

/// What is left to do once the screen is closed and the terminal restored: to switch to the
/// session that was picked, if one was, or to report why the screen failed.
pub fn usage_command(outcome: Result<Option<String>, String>) -> (rest: Result<
    Option<String>,
    TmsError,
>)
    ensures
        outcome matches Ok(picked) ==> rest == Ok::<Option<String>, TmsError>(picked),
        outcome matches Err(message) ==> rest == Err::<Option<String>, TmsError>(
            TmsError::TuiError { message },
        ),
{
    match outcome {
        Ok(picked) => Ok(picked),
        Err(message) => Err(TmsError::TuiError { message }),
    }
}

} // verus!
