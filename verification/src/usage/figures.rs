//! The figures of the usage screen.

use vstd::prelude::*;

use crate::text;

verus! {

/// Which resource the chart is currently keyed on.
#[derive(Debug, Clone, Copy, PartialEq, Eq, Structural)]
pub enum Metric {
    Cpu,
    Mem,
}

impl Metric {
    /// The metric's name.
    pub open spec fn name(self) -> Seq<char> {
        match self {
            Metric::Cpu => "CPU"@,
            Metric::Mem => "Memory"@,
        }
    }

    /// The metric's name.
    pub fn label(self) -> (name: &'static str)
        ensures
            name@ == self.name(),
    {
        match self {
            Metric::Cpu => "CPU",
            Metric::Mem => "Memory",
        }
    }

    /// The other metric.
    pub open spec fn other(self) -> Metric {
        match self {
            Metric::Cpu => Metric::Mem,
            Metric::Mem => Metric::Cpu,
        }
    }
}

// ---------------------------------------------------------------------------
// CPU
// ---------------------------------------------------------------------------

/// A CPU percentage, as what the screen reads of it.
#[derive(Debug)]
pub struct CpuLoad {
    /// The percentage's single-precision IEEE 754 encoding.
    pub bits: u32,
    /// The percentage in tenths, rounded.
    pub tenths: u64,
    /// The percentage as it is shown.
    pub text: String,
}

/// What a CPU percentage says.
#[verifier::ext_equal]
pub struct LoadView {
    pub bits: u32,
    pub tenths: u64,
    pub text: Seq<char>,
}

impl View for CpuLoad {
    type V = LoadView;

    open spec fn view(&self) -> LoadView {
        LoadView { bits: self.bits, tenths: self.tenths, text: self.text@ }
    }
}

impl CpuLoad {
    /// A copy.
    pub fn duplicate(&self) -> (load: CpuLoad)
        ensures
            load@ == self@,
    {
        CpuLoad { bits: self.bits, tenths: self.tenths, text: self.text.clone() }
    }
}

/// The place of an encoded number in IEEE 754's total order: the encodings with the sign bit
/// come first, the greatest magnitude before the others; then those without, the smallest
/// first.
pub open spec fn total_order(bits: u32) -> int {
    if bits < 0x8000_0000 {
        bits as int
    } else {
        0x7fff_ffff - bits
    }
}

/// Computes `total_order`.
pub fn load_rank(bits: u32) -> (rank: i64)
    ensures
        rank == total_order(bits),
{
    if bits < 0x8000_0000 {
        bits as i64
    } else {
        0x7fff_ffff - bits as i64
    }
}

// ---------------------------------------------------------------------------
// Memory
// ---------------------------------------------------------------------------

/// `a / b`, rounded to the nearest integer, and to the even one of two that are equally near.
pub open spec fn half_even(a: nat, b: nat) -> nat {
    let q = a / b;
    let r = a % b;
    if 2 * r < b || (2 * r == b && q % 2 == 0) {
        q
    } else {
        q + 1
    }
}

/// Computes `half_even`.
pub fn divide_half_even(a: u128, b: u128) -> (q: u128)
    requires
        0 < b <= 0x1_0000_0000,
        a < 0x1_0000_0000_0000_0000_0000_0000,
    ensures
        q == half_even(a as nat, b as nat),
        q <= a / b + 1,
{
    let q: u128 = a / b;
    let r: u128 = a % b;
    proof {
        assert(r < b);
        assert(q <= a) by (nonlinear_arith)
            requires
                q == a / b,
                b > 0,
        ;
    }
    if 2 * r < b || (2 * r == b && q % 2 == 0) {
        q
    } else {
        q + 1
    }
}

/// The distance of neighbouring double-precision numbers around `n`, where it is at least 1.
pub open spec fn double_spacing(n: nat) -> nat
    decreases n,
{
    if n < 0x20_0000_0000_0000 {
        1
    } else {
        2 * double_spacing(n / 2)
    }
}

/// The double-precision number that stands for `n`: the nearest, and of two equally near the
/// one whose last bit is 0. All up to 2^53 stand for themselves.
pub open spec fn as_double(n: nat) -> nat {
    half_even(n, double_spacing(n)) * double_spacing(n)
}

/// Computes `double_spacing`.
fn spacing(n: u64) -> (gap: u64)
    ensures
        gap == double_spacing(n as nat),
        gap >= 1,
        gap == 1 || gap * 0x20_0000_0000_0000 <= 2 * n,
    decreases n,
{
    if n < 0x20_0000_0000_0000 {
        1
    } else {
        2 * spacing(n / 2)
    }
}

/// Computes `as_double`.
pub fn double_of(n: u64) -> (d: u128)
    ensures
        d == as_double(n as nat),
        d <= 0x1_0000_0000_0000_0000_0000,
{
    let gap: u64 = spacing(n);
    assert(gap <= 0x1000);
    let q: u128 = divide_half_even(n as u128, gap as u128);
    proof {
        vstd::arithmetic::div_mod::lemma_div_nonincreasing(n as int, gap as int);
        vstd::arithmetic::mul::lemma_mul_upper_bound(
            q as int,
            0x1_0000_0000_0000_0000,
            gap as int,
            0x1000,
        );
    }
    q * gap as u128
}

/// A memory figure: kilobytes below 1000, then megabytes, and gigabytes with one decimal from
/// 1000 megabytes on; each of 1024 of the smaller, and rounded to the even neighbour of two.
pub open spec fn mem_text(kb: nat) -> Seq<char> {
    if kb < 1000 {
        text::decimal(kb) + " KB"@
    } else if as_double(kb) < 1000 * 1024 {
        text::decimal(half_even(as_double(kb), 1024)) + " MB"@
    } else {
        let tenths = half_even(as_double(kb) * 10, 1024 * 1024);
        text::decimal(tenths / 10) + "."@ + text::decimal(tenths % 10) + " GB"@
    }
}

/// Render a KiB count as `KB` / `MB` / `GB`, switching unit at 1000.
pub fn format_mem(kb: u64) -> (shown: String)
    ensures
        shown@ == mem_text(kb as nat),
{
    let mut shown = String::new();
    if kb < 1000 {
        text::push_decimal(&mut shown, kb);
        text::push_text(&mut shown, " KB");
        assert(shown@ =~= mem_text(kb as nat));
        return shown;
    }
    let exact: u128 = double_of(kb);
    if exact < 1000 * 1024 {
        let mb: u128 = divide_half_even(exact, 1024);
        text::push_decimal(&mut shown, mb as u64);
        text::push_text(&mut shown, " MB");
        assert(shown@ =~= mem_text(kb as nat));
    } else {
        let tenths: u128 = divide_half_even(exact * 10, 1024 * 1024);
        text::push_decimal(&mut shown, (tenths / 10) as u64);
        text::push_text(&mut shown, ".");
        text::push_decimal(&mut shown, (tenths % 10) as u64);
        text::push_text(&mut shown, " GB");
        assert(shown@ =~= mem_text(kb as nat));
    }
    shown
}

// ---------------------------------------------------------------------------
// Names
// ---------------------------------------------------------------------------

/// The position after the last `/` of `s`; 0 when there is none.
pub open spec fn after_last_slash(s: Seq<char>) -> int
    decreases s.len(),
{
    if s.len() == 0 {
        0
    } else if s.last() == '/' {
        s.len() as int
    } else {
        after_last_slash(s.drop_last())
    }
}

/// The final path component of a command, with no white space around the command; the whole
/// command when it ends with a `/`.
pub open spec fn final_component(command: Seq<char>) -> Seq<char> {
    let whole = text::trim(command);
    let from = after_last_slash(whole);
    if from < whole.len() {
        whole.skip(from)
    } else {
        whole
    }
}

/// Computes `final_component`.
pub fn component_of(command: &[char]) -> (name: Vec<char>)
    ensures
        name@ == final_component(command@),
{
    let whole = text::trimmed(command);
    let mut from: usize = whole.len();
    assert(whole@.take(whole@.len() as int) == whole@);
    while from > 0 && whole[from - 1] != '/'
        invariant
            from <= whole@.len(),
            after_last_slash(whole@) == after_last_slash(whole@.take(from as int)),
        decreases from,
    {
        assert(whole@.take(from as int).drop_last() == whole@.take(from - 1));
        from -= 1;
    }
    if from < whole.len() {
        let name = text::copy_range(&whole, from, whole.len());
        assert(name@ =~= whole@.skip(from as int));
        name
    } else {
        whole
    }
}

/// Reduce a `comm` value to its final path component (`/usr/bin/nvim` -> `nvim`).
pub fn basename(command: &str) -> (name: String)
    ensures
        name@ == final_component(command@),
{
    let name = component_of(&text::chars_of(command));
    text::string_of(&name)
}

/// `s` when it has at most `max` characters; else its beginning and an ellipsis, `max`
/// characters in all, and nothing where none is allowed.
pub open spec fn shortened(s: Seq<char>, max: nat) -> Seq<char> {
    if s.len() <= max {
        s
    } else if max == 0 {
        Seq::empty()
    } else {
        s.take(max - 1).push('…')
    }
}

/// Shorten `s` to at most `max` characters, marking any cut with an ellipsis.
pub fn truncate(s: &str, max: usize) -> (short: String)
    ensures
        short@ == shortened(s@, max as nat),
{
    let chars = text::chars_of(s);
    if chars.len() <= max {
        return s.to_owned();
    }
    if max == 0 {
        return String::new();
    }
    let mut short = text::string_of_range(&chars, 0, max - 1);
    short.push('…');
    assert(short@ =~= shortened(s@, max as nat));
    short
}

/// A shortened text has at most `max` characters. What fits stays as it is, and a cut is
/// marked wherever there is room for the mark.
pub proof fn law_shortened_fits(s: Seq<char>, max: nat)
    ensures
        shortened(s, max).len() <= max,
        shortened(s, max) == s <==> s.len() <= max,
        s.len() > max > 0 ==> shortened(s, max).last() == '…',
{
}

/// A final component holds no `/`, but for a command that ends with one and stays whole.
pub proof fn law_final_component_has_no_slash(command: Seq<char>)
    requires
        text::trim(command).len() > 0 ==> text::trim(command).last() != '/',
    ensures
        !final_component(command).contains('/'),
{
    lemma_after_last_slash(text::trim(command));
}

proof fn lemma_after_last_slash(s: Seq<char>)
    ensures
        0 <= after_last_slash(s) <= s.len(),
        forall|i: int| after_last_slash(s) <= i < s.len() ==> s[i] != '/',
        s.len() > 0 && s.last() != '/' ==> after_last_slash(s) < s.len(),
    decreases s.len(),
{
    if s.len() > 0 && s.last() != '/' {
        lemma_after_last_slash(s.drop_last());
        assert forall|i: int| after_last_slash(s) <= i < s.len() implies s[i] != '/' by {
            if i < s.len() - 1 {
                assert(s[i] == s.drop_last()[i]);
            }
        }
    }
}

/// Memory counts up to 2^53 are shown as they are, with nothing lost.
pub proof fn law_small_counts_are_exact(kb: nat)
    requires
        kb < 0x20_0000_0000_0000,
    ensures
        as_double(kb) == kb,
{
    assert(double_spacing(kb) == 1);
    assert(half_even(kb, 1) == kb);
}

} // verus!
