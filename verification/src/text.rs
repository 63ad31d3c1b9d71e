//! Text as sequences of characters: the line, field, number and padding rules that the
//! rest of the library is stated with, and the functions that compute them.

use vstd::prelude::*;

pub mod laws;

verus! {

/// `String::push` of the standard library: the character is appended to the text, and
/// nothing else of it changes.
pub assume_specification[ String::push ](string: &mut String, c: char)
    ensures
        final(string)@ == old(string)@.push(c),
;

// ---------------------------------------------------------------------------
// Strings and characters
// ---------------------------------------------------------------------------

/// What the strings of a list say.
pub open spec fn texts(list: Seq<String>) -> Seq<Seq<char>> {
    list.map_values(|s: String| s@)
}

/// What the character vectors of a list hold.
pub open spec fn char_rows(list: Seq<Vec<char>>) -> Seq<Seq<char>> {
    list.map_values(|v: Vec<char>| v@)
}

/// What an optional string says.
pub open spec fn opt_text(text: Option<String>) -> Option<Seq<char>> {
    match text {
        Some(s) => Some(s@),
        None => None,
    }
}

/// What an optional borrowed text says.
pub open spec fn opt_str(text: Option<&str>) -> Option<Seq<char>> {
    match text {
        Some(s) => Some(s@),
        None => None,
    }
}

/// The characters of `text`, in order.
pub fn chars_of(text: &str) -> (chars: Vec<char>)
    ensures
        chars@ == text@,
{
    let mut chars: Vec<char> = Vec::new();
    for c in it: text.chars()
        invariant
            chars@ == it.seq().take(it.index() as int),
            it.seq() == text@,
    {
        chars.push(c);
    }
    chars
}

/// The text that consists of `chars`.
pub fn string_of(chars: &[char]) -> (text: String)
    ensures
        text@ == chars@,
{
    string_of_range(chars, 0, chars.len())
}

/// The text of the characters from `from` up to, not including, `to`.
pub fn string_of_range(chars: &[char], from: usize, to: usize) -> (text: String)
    requires
        from <= to <= chars@.len(),
    ensures
        text@ == chars@.subrange(from as int, to as int),
{
    let mut text = String::new();
    let mut i: usize = from;
    while i < to
        invariant
            from <= i <= to <= chars@.len(),
            text@ == chars@.subrange(from as int, i as int),
        decreases to - i,
    {
        text.push(chars[i]);
        i += 1;
    }
    text
}

/// The characters from `from` up to, not including, `to`.
pub fn copy_range(chars: &[char], from: usize, to: usize) -> (part: Vec<char>)
    requires
        from <= to <= chars@.len(),
    ensures
        part@ == chars@.subrange(from as int, to as int),
{
    let mut part: Vec<char> = Vec::new();
    let mut i: usize = from;
    while i < to
        invariant
            from <= i <= to <= chars@.len(),
            part@ == chars@.subrange(from as int, i as int),
        decreases to - i,
    {
        part.push(chars[i]);
        i += 1;
    }
    part
}

/// Whether two character sequences are the same.
pub fn same_chars(a: &[char], b: &[char]) -> (same: bool)
    ensures
        same == (a@ == b@),
{
    if a.len() != b.len() {
        return false;
    }
    let mut i: usize = 0;
    while i < a.len()
        invariant
            i <= a@.len(),
            a@.len() == b@.len(),
            a@.take(i as int) == b@.take(i as int),
        decreases a@.len() - i,
    {
        if a[i] != b[i] {
            assert(a@[i as int] != b@[i as int]);
            return false;
        }
        assert(a@.take(i + 1) == a@.take(i as int).push(a@[i as int]));
        assert(b@.take(i + 1) == b@.take(i as int).push(b@[i as int]));
        i += 1;
    }
    assert(a@.take(a@.len() as int) == a@);
    assert(b@.take(b@.len() as int) == b@);
    true
}

/// Whether two texts are the same.
pub fn same_text(a: &str, b: &str) -> (same: bool)
    ensures
        same == (a@ == b@),
{
    let left = chars_of(a);
    let right = chars_of(b);
    same_chars(&left, &right)
}

/// Appends `tail` to `text`.
pub fn push_text(text: &mut String, tail: &str)
    ensures
        final(text)@ == old(text)@ + tail@,
{
    let chars = chars_of(tail);
    let ghost before = text@;
    let mut i: usize = 0;
    while i < chars.len()
        invariant
            i <= chars@.len(),
            chars@ == tail@,
            text@ == before + chars@.take(i as int),
        decreases chars@.len() - i,
    {
        text.push(chars[i]);
        assert(chars@.take(i + 1) == chars@.take(i as int).push(chars@[i as int]));
        i += 1;
    }
    assert(chars@.take(chars@.len() as int) == chars@);
}

/// The two texts one after the other.
pub fn joined(head: &str, tail: &str) -> (text: String)
    ensures
        text@ == head@ + tail@,
{
    let mut text = head.to_owned();
    push_text(&mut text, tail);
    text
}

/// `n` copies of `c`.
pub open spec fn repeated(c: char, n: nat) -> Seq<char> {
    Seq::new(n, |i: int| c)
}

/// Builds `n` copies of `c`.
pub fn repeat_char(c: char, n: usize) -> (text: String)
    ensures
        text@ == repeated(c, n as nat),
{
    let mut text = String::new();
    let mut i: usize = 0;
    while i < n
        invariant
            i <= n,
            text@ == repeated(c, i as nat),
        decreases n - i,
    {
        text.push(c);
        i += 1;
    }
    text
}

// ---------------------------------------------------------------------------
// Searching and splitting
// ---------------------------------------------------------------------------

/// How many characters of `s` come before the first `c`; all of them when there is none.
pub open spec fn before_first(s: Seq<char>, c: char) -> nat
    decreases s.len(),
{
    if s.len() == 0 || s[0] == c {
        0
    } else {
        1 + before_first(s.skip(1), c)
    }
}

/// What `before_first` counts: no `c` among the characters counted, and a `c` right after
/// them unless they are all.
pub proof fn lemma_before_first(s: Seq<char>, c: char)
    ensures
        before_first(s, c) <= s.len(),
        forall|i: int| 0 <= i < before_first(s, c) ==> s[i] != c,
        before_first(s, c) < s.len() ==> s[before_first(s, c) as int] == c,
    decreases s.len(),
{
    if s.len() != 0 && s[0] != c {
        lemma_before_first(s.skip(1), c);
        assert forall|i: int| 0 <= i < before_first(s, c) implies s[i] != c by {
            if i > 0 {
                assert(s[i] == s.skip(1)[i - 1]);
            }
        }
    }
}

/// A position with no `c` before it, and either a `c` at it or nothing left, is the one that
/// `before_first` gives.
pub proof fn lemma_before_first_unique(s: Seq<char>, c: char, n: nat)
    requires
        n <= s.len(),
        forall|i: int| 0 <= i < n ==> s[i] != c,
        n < s.len() ==> s[n as int] == c,
    ensures
        before_first(s, c) == n,
{
    lemma_before_first(s, c);
    let m = before_first(s, c);
    if m < n {
        assert(s[m as int] == c);
    }
    if n < m {
        assert(s[n as int] == c);
    }
}

/// The position of the first `c` at or after `from`; the length when there is none.
pub fn find_from(chars: &[char], from: usize, c: char) -> (at: usize)
    requires
        from <= chars@.len(),
    ensures
        from <= at <= chars@.len(),
        at == from + before_first(chars@.skip(from as int), c),
{
    let ghost rest = chars@.skip(from as int);
    let mut i: usize = from;
    while i < chars.len() && chars[i] != c
        invariant
            from <= i <= chars@.len(),
            rest == chars@.skip(from as int),
            forall|k: int| 0 <= k < i - from ==> rest[k] != c,
        decreases chars@.len() - i,
    {
        i += 1;
    }
    proof {
        lemma_before_first_unique(rest, c, (i - from) as nat);
    }
    i
}

/// The parts of `s` between the occurrences of `c`: always one more than there are `c`s.
pub open spec fn split_on(s: Seq<char>, c: char) -> Seq<Seq<char>>
    decreases s.len(),
    via split_on_decreases
{
    let n = before_first(s, c) as int;
    if n >= s.len() {
        seq![s]
    } else {
        seq![s.take(n)] + split_on(s.skip(n + 1), c)
    }
}

#[via_fn]
proof fn split_on_decreases(s: Seq<char>, c: char) {
    lemma_before_first(s, c);
}

/// Computes `split_on`.
pub fn split_chars(chars: &[char], c: char) -> (parts: Vec<Vec<char>>)
    ensures
        char_rows(parts@) == split_on(chars@, c),
{
    let mut parts: Vec<Vec<char>> = Vec::new();
    let mut from: usize = 0;
    assert(chars@.skip(0) == chars@);
    assert(char_rows(parts@) == Seq::<Seq<char>>::empty());
    loop
        invariant
            from <= chars@.len(),
            split_on(chars@, c) == char_rows(parts@) + split_on(chars@.skip(from as int), c),
        decreases chars@.len() - from,
    {
        let at: usize = find_from(chars, from, c);
        let part = copy_range(chars, from, at);
        let ghost rest = chars@.skip(from as int);
        let ghost before = char_rows(parts@);
        assert(part@ == rest.take(at - from));
        parts.push(part);
        assert(char_rows(parts@) == before.push(part@));
        if at == chars.len() {
            assert(rest.take(at - from) == rest);
            assert(split_on(rest, c) == seq![rest]);
            assert(char_rows(parts@) == before + seq![rest]);
            return parts;
        }
        assert(rest.skip(at - from + 1) == chars@.skip(at + 1));
        assert(split_on(rest, c) == seq![part@] + split_on(chars@.skip(at + 1), c));
        assert(before + (seq![part@] + split_on(chars@.skip(at + 1), c)) == before.push(part@)
            + split_on(chars@.skip(at + 1), c));
        from = at + 1;
    }
}

/// A line as it stands before a newline: without the carriage return that may end it.
pub open spec fn without_cr(s: Seq<char>) -> Seq<char> {
    if s.len() > 0 && s.last() == '\r' {
        s.drop_last()
    } else {
        s
    }
}

/// The lines of `s`. A line ends at a newline, or at a carriage return and a newline; what
/// follows the last newline is a line too unless it is empty.
pub open spec fn lines(s: Seq<char>) -> Seq<Seq<char>>
    decreases s.len(),
    via lines_decreases
{
    let n = before_first(s, '\n') as int;
    if s.len() == 0 {
        Seq::empty()
    } else if n >= s.len() {
        seq![s]
    } else {
        seq![without_cr(s.take(n))] + lines(s.skip(n + 1))
    }
}

#[via_fn]
proof fn lines_decreases(s: Seq<char>) {
    lemma_before_first(s, '\n');
}

/// Computes `lines`.
pub fn split_lines(text: &str) -> (rows: Vec<Vec<char>>)
    ensures
        char_rows(rows@) == lines(text@),
{
    let chars = chars_of(text);
    let mut rows: Vec<Vec<char>> = Vec::new();
    let mut from: usize = 0;
    assert(chars@.skip(0) == chars@);
    assert(char_rows(rows@) == Seq::<Seq<char>>::empty());
    while from < chars.len()
        invariant
            from <= chars@.len(),
            chars@ == text@,
            lines(text@) == char_rows(rows@) + lines(chars@.skip(from as int)),
        decreases chars@.len() - from,
    {
        let at: usize = find_from(&chars, from, '\n');
        let ghost rest = chars@.skip(from as int);
        let ghost before = char_rows(rows@);
        if at == chars.len() {
            let row = copy_range(&chars, from, at);
            assert(row@ == rest);
            assert(lines(rest) == seq![rest]);
            rows.push(row);
            assert(char_rows(rows@) == before + seq![rest]);
            assert(char_rows(rows@) == before + lines(rest));
            from = at;
            assert(chars@.skip(from as int) == Seq::<char>::empty());
            assert(lines(chars@.skip(from as int)) == Seq::<Seq<char>>::empty());
            assert(char_rows(rows@) + Seq::<Seq<char>>::empty() == char_rows(rows@));
        } else {
            let end: usize = if at > from && chars[at - 1] == '\r' {
                at - 1
            } else {
                at
            };
            let row = copy_range(&chars, from, end);
            assert(row@ == without_cr(rest.take(at - from)));
            rows.push(row);
            assert(char_rows(rows@) == before.push(row@));
            assert(rest.skip(at - from + 1) == chars@.skip(at + 1));
            assert(lines(rest) == seq![row@] + lines(chars@.skip(at + 1)));
            assert(before + (seq![row@] + lines(chars@.skip(at + 1))) == before.push(row@) + lines(
                chars@.skip(at + 1),
            ));
            from = at + 1;
        }
    }
    assert(chars@.skip(from as int) == Seq::<char>::empty());
    assert(char_rows(rows@) + Seq::<Seq<char>>::empty() == char_rows(rows@));
    rows
}

// ---------------------------------------------------------------------------
// White space
// ---------------------------------------------------------------------------

/// The characters with Unicode's `White_Space` property.
pub open spec fn white_space(c: char) -> bool {
    let n = c as u32;
    ||| 0x9 <= n <= 0xd
    ||| n == 0x20
    ||| n == 0x85
    ||| n == 0xa0
    ||| n == 0x1680
    ||| 0x2000 <= n <= 0x200a
    ||| n == 0x2028
    ||| n == 0x2029
    ||| n == 0x202f
    ||| n == 0x205f
    ||| n == 0x3000
}

/// Whether `c` is white space.
pub fn is_white_space(c: char) -> (white: bool)
    ensures
        white == white_space(c),
{
    let n: u32 = c as u32;
    (0x9 <= n && n <= 0xd) || n == 0x20 || n == 0x85 || n == 0xa0 || n == 0x1680 || (0x2000 <= n
        && n <= 0x200a) || n == 0x2028 || n == 0x2029 || n == 0x202f || n == 0x205f || n == 0x3000
}

/// `s` without the white space that it begins with.
pub open spec fn trim_start(s: Seq<char>) -> Seq<char>
    decreases s.len(),
{
    if s.len() > 0 && white_space(s[0]) {
        trim_start(s.skip(1))
    } else {
        s
    }
}

/// `s` without the white space that it ends with.
pub open spec fn trim_end(s: Seq<char>) -> Seq<char>
    decreases s.len(),
{
    if s.len() > 0 && white_space(s.last()) {
        trim_end(s.drop_last())
    } else {
        s
    }
}

/// `s` without the white space at its two ends.
pub open spec fn trim(s: Seq<char>) -> Seq<char> {
    trim_end(trim_start(s))
}

/// Where the text of `chars` begins and ends once the white space around it is left out.
pub fn trim_bounds(chars: &[char]) -> (bounds: (usize, usize))
    ensures
        bounds.0 <= bounds.1 <= chars@.len(),
        chars@.subrange(bounds.0 as int, bounds.1 as int) == trim(chars@),
{
    let mut start: usize = 0;
    assert(chars@.skip(0) == chars@);
    while start < chars.len() && is_white_space(chars[start])
        invariant
            start <= chars@.len(),
            trim_start(chars@) == trim_start(chars@.skip(start as int)),
        decreases chars@.len() - start,
    {
        assert(chars@.skip(start as int).skip(1) == chars@.skip(start + 1));
        start += 1;
    }
    let ghost inner = chars@.skip(start as int);
    assert(trim_start(chars@) == inner);
    let mut end: usize = chars.len();
    assert(chars@.subrange(start as int, end as int) == inner);
    while end > start && is_white_space(chars[end - 1])
        invariant
            start <= end <= chars@.len(),
            trim_end(inner) == trim_end(chars@.subrange(start as int, end as int)),
        decreases end,
    {
        assert(chars@.subrange(start as int, end as int).drop_last() == chars@.subrange(
            start as int,
            end - 1,
        ));
        end -= 1;
    }
    (start, end)
}

/// Computes `trim`.
pub fn trimmed(chars: &[char]) -> (inner: Vec<char>)
    ensures
        inner@ == trim(chars@),
{
    let bounds = trim_bounds(chars);
    copy_range(chars, bounds.0, bounds.1)
}

/// Trimming leaves nothing more to trim.
pub proof fn lemma_trim_idempotent(s: Seq<char>)
    ensures
        trim(trim(s)) == trim(s),
{
    lemma_trim_start_edge(s);
    lemma_trim_end_edge(trim_start(s));
    let t = trim(s);
    if t.len() > 0 {
        assert(t[0] == trim_start(s)[0]);
    }
}

/// What is left of `trim_start` begins with no white space.
pub proof fn lemma_trim_start_edge(s: Seq<char>)
    ensures
        trim_start(s).len() > 0 ==> !white_space(trim_start(s)[0]),
    decreases s.len(),
{
    if s.len() > 0 && white_space(s[0]) {
        lemma_trim_start_edge(s.skip(1));
    }
}

/// What is left of `trim_end` ends with no white space, and begins as the whole did.
pub proof fn lemma_trim_end_edge(s: Seq<char>)
    ensures
        trim_end(s).len() <= s.len(),
        trim_end(s).len() > 0 ==> !white_space(trim_end(s).last()),
        trim_end(s).len() > 0 ==> trim_end(s)[0] == s[0],
    decreases s.len(),
{
    if s.len() > 0 && white_space(s.last()) {
        lemma_trim_end_edge(s.drop_last());
    }
}

/// White space at the end makes no difference to what trimming leaves.
pub proof fn lemma_trim_ignores_end(s: Seq<char>)
    requires
        s.len() > 0,
        white_space(s.last()),
    ensures
        trim(s) == trim(s.drop_last()),
    decreases s.len(),
{
    let bare = s.drop_last();
    if bare.len() == 0 {
        assert(s.skip(1) =~= bare);
        assert(trim_start(s) == trim_start(bare));
    } else if white_space(s[0]) {
        assert(s.skip(1).drop_last() =~= bare.skip(1));
        lemma_trim_ignores_end(s.skip(1));
    }
}

/// How many characters of `s` come before its first white space.
pub open spec fn word_len(s: Seq<char>) -> nat
    decreases s.len(),
{
    if s.len() == 0 || white_space(s[0]) {
        0
    } else {
        1 + word_len(s.skip(1))
    }
}

/// The words of `s`: its longest runs of characters that are no white space.
pub open spec fn words(s: Seq<char>) -> Seq<Seq<char>>
    decreases s.len(),
    via words_decreases
{
    let t = trim_start(s);
    if t.len() == 0 {
        Seq::empty()
    } else {
        seq![t.take(word_len(t) as int)] + words(t.skip(word_len(t) as int))
    }
}

/// Nothing is added by `trim_start`.
pub proof fn lemma_trim_start_len(s: Seq<char>)
    ensures
        trim_start(s).len() <= s.len(),
    decreases s.len(),
{
    if s.len() > 0 && white_space(s[0]) {
        lemma_trim_start_len(s.skip(1));
    }
}

proof fn lemma_word_len(s: Seq<char>)
    ensures
        word_len(s) <= s.len(),
    decreases s.len(),
{
    if s.len() > 0 && !white_space(s[0]) {
        lemma_word_len(s.skip(1));
    }
}

#[via_fn]
proof fn words_decreases(s: Seq<char>) {
    lemma_trim_start_len(s);
    lemma_trim_start_edge(s);
    lemma_word_len(trim_start(s));
}

/// Computes `words`.
pub fn split_words(chars: &[char]) -> (parts: Vec<Vec<char>>)
    ensures
        char_rows(parts@) == words(chars@),
{
    let mut parts: Vec<Vec<char>> = Vec::new();
    let mut i: usize = 0;
    assert(chars@.skip(0) == chars@);
    assert(char_rows(parts@) == Seq::<Seq<char>>::empty());
    loop
        invariant
            i <= chars@.len(),
            words(chars@) == char_rows(parts@) + words(chars@.skip(i as int)),
        decreases chars@.len() - i,
    {
        let ghost rest = chars@.skip(i as int);
        let ghost began: int = i as int;
        while i < chars.len() && is_white_space(chars[i])
            invariant
                began <= i <= chars@.len(),
                trim_start(rest) == trim_start(chars@.skip(i as int)),
            decreases chars@.len() - i,
        {
            assert(chars@.skip(i as int).skip(1) == chars@.skip(i + 1));
            i += 1;
        }
        let ghost inner = chars@.skip(i as int);
        assert(trim_start(rest) == inner);
        if i == chars.len() {
            assert(words(rest) == Seq::<Seq<char>>::empty());
            assert(char_rows(parts@) + Seq::<Seq<char>>::empty() == char_rows(parts@));
            return parts;
        }
        let from: usize = i;
        assert(chars@.skip(from as int) == inner);
        while i < chars.len() && !is_white_space(chars[i])
            invariant
                began <= from <= i <= chars@.len(),
                inner == chars@.skip(from as int),
                word_len(inner) == (i - from) + word_len(chars@.skip(i as int)),
            decreases chars@.len() - i,
        {
            assert(chars@.skip(i as int).skip(1) == chars@.skip(i + 1));
            i += 1;
        }
        assert(word_len(inner) == i - from);
        let part = copy_range(chars, from, i);
        let ghost before = char_rows(parts@);
        assert(part@ == inner.take(word_len(inner) as int));
        assert(inner.skip(word_len(inner) as int) == chars@.skip(i as int));
        parts.push(part);
        assert(char_rows(parts@) == before.push(part@));
        assert(words(rest) == seq![part@] + words(chars@.skip(i as int)));
        assert(before + (seq![part@] + words(chars@.skip(i as int))) == before.push(part@) + words(
            chars@.skip(i as int),
        ));
    }
}

// ---------------------------------------------------------------------------
// Numbers
// ---------------------------------------------------------------------------

/// Whether every character of `s` is one of the ten digits.
pub open spec fn all_digits(s: Seq<char>) -> bool {
    forall|i: int| 0 <= i < s.len() ==> '0' <= #[trigger] s[i] <= '9'
}

/// The number that the digits of `s` write in base ten.
pub open spec fn digits_value(s: Seq<char>) -> nat
    decreases s.len(),
{
    if s.len() == 0 {
        0
    } else {
        digits_value(s.drop_last()) * 10 + (s.last() as nat - '0' as nat) as nat
    }
}

/// The digits of `s`: all of it but for one plus sign in front.
pub open spec fn unsigned_digits(s: Seq<char>) -> Seq<char> {
    if s.len() > 0 && s[0] == '+' {
        s.skip(1)
    } else {
        s
    }
}

/// Reads `s` as a number from 0 to `max`: digits, at least one, with at most one plus sign in
/// front.
pub open spec fn unsigned(s: Seq<char>, max: nat) -> Option<nat> {
    let digits = unsigned_digits(s);
    if digits.len() > 0 && all_digits(digits) && digits_value(digits) <= max {
        Some(digits_value(digits))
    } else {
        None
    }
}

proof fn lemma_digits_value_grows(s: Seq<char>, n: int)
    requires
        0 <= n <= s.len(),
    ensures
        digits_value(s.take(n)) <= digits_value(s),
    decreases s.len() - n,
{
    if n == s.len() {
        assert(s.take(n) == s);
    } else {
        lemma_digits_value_grows(s, n + 1);
        assert(s.take(n + 1).drop_last() == s.take(n));
    }
}

/// Reads the characters as a number from 0 to `max`.
pub fn parse_unsigned(chars: &[char], max: u64) -> (number: Option<u64>)
    ensures
        number == (match unsigned(chars@, max as nat) {
            Some(n) => Some(n as u64),
            None => None,
        }),
        unsigned(chars@, max as nat) is Some ==> unsigned(chars@, max as nat)->0 <= max,
{
    let start: usize = if chars.len() > 0 && chars[0] == '+' {
        1
    } else {
        0
    };
    let ghost digits = unsigned_digits(chars@);
    assert(digits == chars@.skip(start as int));
    if start == chars.len() {
        return None;
    }
    let mut value: u64 = 0;
    let mut i: usize = start;
    assert(digits.take(0) == Seq::<char>::empty());
    while i < chars.len()
        invariant
            start <= i <= chars@.len(),
            start < chars@.len(),
            digits == unsigned_digits(chars@),
            digits == chars@.skip(start as int),
            value == digits_value(digits.take(i - start)),
            value <= max,
            all_digits(digits.take(i - start)),
        decreases chars@.len() - i,
    {
        let c = chars[i];
        assert(c == digits[i - start]);
        if c < '0' || c > '9' {
            return None;
        }
        let digit: u64 = (c as u32 - '0' as u32) as u64;
        let wide: u128 = value as u128 * 10 + digit as u128;
        proof {
            let longer = digits.take(i - start + 1);
            assert(longer.drop_last() == digits.take(i - start));
            assert(digits_value(longer) == wide);
            assert forall|k: int| 0 <= k < longer.len() implies '0' <= #[trigger] longer[k]
                <= '9' by {
                if k < i - start {
                    assert(longer[k] == digits.take(i - start)[k]);
                }
            }
            lemma_digits_value_grows(digits, i - start + 1);
        }
        if wide > max as u128 {
            return None;
        }
        value = wide as u64;
        i += 1;
    }
    assert(digits.take(i - start) == digits);
    Some(value)
}

/// Reads the characters as a number that fits 32 bits.
pub fn parse_u32(chars: &[char]) -> (number: Option<u32>)
    ensures
        number == (match unsigned(chars@, u32::MAX as nat) {
            Some(n) => Some(n as u32),
            None => None,
        }),
{
    match parse_unsigned(chars, u32::MAX as u64) {
        Some(n) => Some(n as u32),
        None => None,
    }
}

/// The character of a digit.
pub open spec fn digit_char(d: nat) -> char {
    ((48 + d) as u8) as char
}

/// `n` written in base ten, without leading zeros.
pub open spec fn decimal(n: nat) -> Seq<char>
    decreases n,
{
    if n < 10 {
        seq![digit_char(n)]
    } else {
        decimal(n / 10).push(digit_char(n % 10))
    }
}

/// Appends `n` in base ten.
pub fn push_decimal(text: &mut String, n: u64)
    ensures
        final(text)@ == old(text)@ + decimal(n as nat),
    decreases n,
{
    if n >= 10 {
        push_decimal(text, n / 10);
    }
    let c = (48u8 + (n % 10) as u8) as char;
    text.push(c);
}

/// A number written in base ten reads back as itself, with no white space around it.
pub proof fn law_decimal_reads_back(n: nat, max: nat)
    requires
        n <= max,
    ensures
        unsigned(trim(decimal(n)), max) == Some(n),
{
    lemma_decimal(n);
    let s = decimal(n);
    assert('0' <= s[0] <= '9');
    assert('0' <= s.last() <= '9');
    assert(trim_start(s) == s);
    assert(trim(s) == s);
    assert(unsigned_digits(s) == s);
}

/// A number in base ten has digits alone, at least one, and they write the number.
pub proof fn lemma_decimal(n: nat)
    ensures
        decimal(n).len() > 0,
        all_digits(decimal(n)),
        digits_value(decimal(n)) == n,
    decreases n,
{
    let s = decimal(n);
    if n < 10 {
        assert(s.drop_last() == Seq::<char>::empty());
        assert(digits_value(s.drop_last()) == 0);
        assert(s.last() as nat == 48 + n);
    } else {
        lemma_decimal(n / 10);
        assert(s.drop_last() == decimal(n / 10));
        assert(s.last() as nat == 48 + n % 10);
        assert forall|i: int| 0 <= i < s.len() implies '0' <= #[trigger] s[i] <= '9' by {
            if i < s.len() - 1 {
                assert(s[i] == decimal(n / 10)[i]);
            }
        }
    }
}

// ---------------------------------------------------------------------------
// Padding and order
// ---------------------------------------------------------------------------

/// `s` followed by the spaces that bring it to `width` characters.
pub open spec fn pad_right(s: Seq<char>, width: nat) -> Seq<char> {
    if s.len() < width {
        s + repeated(' ', (width - s.len()) as nat)
    } else {
        s
    }
}

/// `s` behind the spaces that bring it to `width` characters.
pub open spec fn pad_left(s: Seq<char>, width: nat) -> Seq<char> {
    if s.len() < width {
        repeated(' ', (width - s.len()) as nat) + s
    } else {
        s
    }
}

/// Computes `pad_right`.
pub fn left_aligned(text: &str, width: usize) -> (padded: String)
    ensures
        padded@ == pad_right(text@, width as nat),
{
    let n: usize = chars_of(text).len();
    let mut padded = text.to_owned();
    if n < width {
        let spaces = repeat_char(' ', width - n);
        push_text(&mut padded, spaces.as_str());
    }
    padded
}

/// Computes `pad_left`.
pub fn right_aligned(text: &str, width: usize) -> (padded: String)
    ensures
        padded@ == pad_left(text@, width as nat),
{
    let n: usize = chars_of(text).len();
    if n < width {
        let mut padded = repeat_char(' ', width - n);
        push_text(&mut padded, text);
        padded
    } else {
        text.to_owned()
    }
}

/// Whether `a` comes before `b` in the order of strings: by the first character in which they
/// differ, and a prefix before what it begins.
pub open spec fn lex_less(a: Seq<char>, b: Seq<char>) -> bool
    decreases b.len(),
{
    if b.len() == 0 {
        false
    } else if a.len() == 0 {
        true
    } else if a[0] != b[0] {
        a[0] < b[0]
    } else {
        lex_less(a.skip(1), b.skip(1))
    }
}

/// Computes `lex_less`.
pub fn comes_before(a: &[char], b: &[char]) -> (less: bool)
    ensures
        less == lex_less(a@, b@),
{
    let mut i: usize = 0;
    assert(a@.skip(0) == a@);
    assert(b@.skip(0) == b@);
    while i < a.len() && i < b.len()
        invariant
            i <= a@.len(),
            i <= b@.len(),
            lex_less(a@, b@) == lex_less(a@.skip(i as int), b@.skip(i as int)),
        decreases a@.len() - i,
    {
        if a[i] != b[i] {
            return a[i] < b[i];
        }
        assert(a@.skip(i as int).skip(1) == a@.skip(i + 1));
        assert(b@.skip(i as int).skip(1) == b@.skip(i + 1));
        i += 1;
    }
    i < b.len()
}

/// Of two different texts one comes before the other, and not the other way round.
pub proof fn lemma_lex_total(a: Seq<char>, b: Seq<char>)
    ensures
        a == b || lex_less(a, b) || lex_less(b, a),
        !(lex_less(a, b) && lex_less(b, a)),
        a == b ==> !lex_less(a, b),
    decreases a.len(),
{
    if a.len() > 0 && b.len() > 0 && a[0] == b[0] {
        lemma_lex_total(a.skip(1), b.skip(1));
        if a.skip(1) == b.skip(1) {
            assert(a == seq![a[0]] + a.skip(1));
            assert(b == seq![b[0]] + b.skip(1));
        }
    } else if a.len() == 0 && b.len() == 0 {
        assert(a == b);
    }
}

/// The order of texts is transitive.
pub proof fn lemma_lex_transitive(a: Seq<char>, b: Seq<char>, c: Seq<char>)
    requires
        lex_less(a, b),
        lex_less(b, c),
    ensures
        lex_less(a, c),
    decreases a.len(),
{
    if a.len() > 0 && a[0] == b[0] && b[0] == c[0] {
        lemma_lex_transitive(a.skip(1), b.skip(1), c.skip(1));
    }
}

} // verus!
