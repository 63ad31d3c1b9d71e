//! What the rules on text promise, piece by piece.

use vstd::prelude::*;

use crate::text;

verus! {

// ---------------------------------------------------------------------------
// Lines
// ---------------------------------------------------------------------------

/// A text without a newline is one line, unless it is empty; the empty text has none.
pub proof fn law_text_without_newline_is_a_line(row: Seq<char>)
    requires
        !row.contains('\n'),
    ensures
        row.len() > 0 ==> text::lines(row) == seq![row],
        row.len() == 0 ==> text::lines(row).len() == 0,
{
    assert forall|i: int| 0 <= i < row.len() implies row[i] != '\n' by {
        assert(row.contains(row[i]));
    }
    text::lemma_before_first_unique(row, '\n', row.len());
}

/// A line ends at its newline, and what follows is read for itself. A carriage return right
/// before the newline belongs to the end of the line.
pub proof fn law_lines_one_by_one(row: Seq<char>, rest: Seq<char>)
    requires
        !row.contains('\n'),
    ensures
        row.len() == 0 || row.last() != '\r' ==> text::lines(row + seq!['\n'] + rest) == seq![row]
            + text::lines(rest),
        text::lines(row + seq!['\r', '\n'] + rest) == seq![row] + text::lines(rest),
{
    assert forall|i: int| 0 <= i < row.len() implies row[i] != '\n' by {
        assert(row.contains(row[i]));
    }
    let plain = row + seq!['\n'] + rest;
    text::lemma_before_first_unique(plain, '\n', row.len());
    assert(plain.take(row.len() as int) =~= row);
    assert(plain.skip(row.len() + 1 as int) =~= rest);
    let marked = row + seq!['\r', '\n'] + rest;
    assert forall|i: int| 0 <= i < row.len() + 1 implies marked[i] != '\n' by {
        if i < row.len() {
            assert(marked[i] == row[i]);
        }
    }
    text::lemma_before_first_unique(marked, '\n', (row.len() + 1) as nat);
    assert(marked.take(row.len() + 1 as int) =~= row.push('\r'));
    assert(row.push('\r').drop_last() =~= row);
    assert(marked.skip(row.len() + 2 as int) =~= rest);
}

/// The rows with a newline behind each.
pub open spec fn unlines(rows: Seq<Seq<char>>) -> Seq<char>
    decreases rows.len(),
{
    if rows.len() == 0 {
        Seq::empty()
    } else {
        rows[0] + seq!['\n'] + unlines(rows.skip(1))
    }
}

/// Rows that were written out with a newline behind each read back as themselves.
pub proof fn law_lines_read_back(rows: Seq<Seq<char>>)
    requires
        forall|i: int| 0 <= i < rows.len() ==> !(#[trigger] rows[i]).contains('\n'),
        forall|i: int|
            0 <= i < rows.len() ==> (#[trigger] rows[i]).len() == 0 || rows[i].last() != '\r',
    ensures
        text::lines(unlines(rows)) == rows,
    decreases rows.len(),
{
    if rows.len() == 0 {
        assert(text::lines(unlines(rows)) =~= rows);
    } else {
        let rest = rows.skip(1);
        assert forall|i: int| 0 <= i < rest.len() implies !(#[trigger] rest[i]).contains('\n') && (
        rest[i].len() == 0 || rest[i].last() != '\r') by {
            assert(rest[i] == rows[i + 1]);
        }
        law_lines_read_back(rest);
        law_lines_one_by_one(rows[0], unlines(rest));
        assert(seq![rows[0]] + rest =~= rows);
    }
}

// ---------------------------------------------------------------------------
// Fields
// ---------------------------------------------------------------------------

/// A field ends at the separator, and what follows is read for itself; a text without the
/// separator is one field.
pub proof fn law_fields_one_by_one(field: Seq<char>, rest: Seq<char>, c: char)
    requires
        !field.contains(c),
    ensures
        text::split_on(field, c) == seq![field],
        text::split_on(field + seq![c] + rest, c) == seq![field] + text::split_on(rest, c),
{
    assert forall|i: int| 0 <= i < field.len() implies field[i] != c by {
        assert(field.contains(field[i]));
    }
    text::lemma_before_first_unique(field, c, field.len());
    let whole = field + seq![c] + rest;
    text::lemma_before_first_unique(whole, c, field.len());
    assert(whole.take(field.len() as int) =~= field);
    assert(whole.skip(field.len() + 1 as int) =~= rest);
}

/// The fields with the separator between them.
pub open spec fn fields_joined(fields: Seq<Seq<char>>, c: char) -> Seq<char>
    decreases fields.len(),
{
    if fields.len() == 0 {
        Seq::empty()
    } else if fields.len() == 1 {
        fields[0]
    } else {
        fields[0] + seq![c] + fields_joined(fields.skip(1), c)
    }
}

/// Fields that were joined by the separator read back as themselves.
pub proof fn law_fields_read_back(fields: Seq<Seq<char>>, c: char)
    requires
        fields.len() > 0,
        forall|i: int| 0 <= i < fields.len() ==> !(#[trigger] fields[i]).contains(c),
    ensures
        text::split_on(fields_joined(fields, c), c) == fields,
    decreases fields.len(),
{
    if fields.len() == 1 {
        law_fields_one_by_one(fields[0], Seq::empty(), c);
        assert(fields =~= seq![fields[0]]);
    } else {
        let rest = fields.skip(1);
        assert forall|i: int| 0 <= i < rest.len() implies !(#[trigger] rest[i]).contains(c) by {
            assert(rest[i] == fields[i + 1]);
        }
        law_fields_read_back(rest, c);
        law_fields_one_by_one(fields[0], fields_joined(rest, c), c);
        assert(seq![fields[0]] + rest =~= fields);
    }
}

/// The fields of a text hold no separator, and joined by it they are the text.
pub proof fn law_fields_make_up_the_text(s: Seq<char>, c: char)
    ensures
        text::split_on(s, c).len() > 0,
        forall|i: int|
            0 <= i < text::split_on(s, c).len() ==> !(#[trigger] text::split_on(s, c)[i]).contains(
                c,
            ),
        fields_joined(text::split_on(s, c), c) == s,
    decreases s.len(),
{
    text::lemma_before_first(s, c);
    let n = text::before_first(s, c) as int;
    let fields = text::split_on(s, c);
    if n < s.len() {
        let rest = s.skip(n + 1);
        law_fields_make_up_the_text(rest, c);
        assert(fields.skip(1) =~= text::split_on(rest, c));
        assert forall|i: int| 0 <= i < fields.len() implies !(#[trigger] fields[i]).contains(c) by {
            if i > 0 {
                assert(fields[i] == text::split_on(rest, c)[i - 1]);
            }
        }
        assert(s.take(n) + seq![c] + rest =~= s);
    }
}

// ---------------------------------------------------------------------------
// White space and words
// ---------------------------------------------------------------------------

/// Whether a text is white space alone.
pub open spec fn all_white(s: Seq<char>) -> bool {
    forall|i: int| 0 <= i < s.len() ==> text::white_space(#[trigger] s[i])
}

/// Whether a text neither begins nor ends with white space.
pub open spec fn bare(s: Seq<char>) -> bool {
    s.len() > 0 ==> !text::white_space(s[0]) && !text::white_space(s.last())
}

proof fn lemma_trim_start_white(pre: Seq<char>, rest: Seq<char>)
    requires
        all_white(pre),
        rest.len() > 0 ==> !text::white_space(rest[0]),
    ensures
        text::trim_start(pre + rest) == rest,
    decreases pre.len(),
{
    if pre.len() == 0 {
        assert(pre + rest =~= rest);
    } else {
        let less = pre.skip(1);
        assert forall|i: int| 0 <= i < less.len() implies text::white_space(#[trigger] less[i]) by {
            assert(less[i] == pre[i + 1]);
        }
        assert(text::white_space(pre[0]));
        assert((pre + rest).skip(1) =~= less + rest);
        lemma_trim_start_white(less, rest);
    }
}

proof fn lemma_trim_end_white(core: Seq<char>, post: Seq<char>)
    requires
        all_white(post),
        core.len() > 0 ==> !text::white_space(core.last()),
    ensures
        text::trim_end(core + post) == core,
    decreases post.len(),
{
    if post.len() == 0 {
        assert(core + post =~= core);
    } else {
        let less = post.drop_last();
        assert forall|i: int| 0 <= i < less.len() implies text::white_space(#[trigger] less[i]) by {
            assert(less[i] == post[i]);
        }
        assert(text::white_space(post[post.len() - 1]));
        assert((core + post).drop_last() =~= core + less);
        lemma_trim_end_white(core, less);
    }
}

/// Trimming takes away the white space around a text, all of it and nothing else.
pub proof fn law_trim_leaves_the_inside(pre: Seq<char>, core: Seq<char>, post: Seq<char>)
    requires
        all_white(pre),
        all_white(post),
        bare(core),
    ensures
        text::trim(pre + core + post) == core,
{
    if core.len() > 0 {
        assert(pre + core + post =~= pre + (core + post));
        assert((core + post)[0] == core[0]);
        lemma_trim_start_white(pre, core + post);
        lemma_trim_end_white(core, post);
    } else {
        let white = pre + post;
        assert(pre + core + post =~= white);
        assert forall|i: int| 0 <= i < white.len() implies text::white_space(
            #[trigger] white[i],
        ) by {
            if i < pre.len() {
                assert(white[i] == pre[i]);
            } else {
                assert(white[i] == post[i - pre.len()]);
            }
        }
        lemma_trim_start_white(white, core);
        assert(white + core =~= white);
        lemma_trim_end_white(core, core);
        assert(core + core =~= core);
    }
}

/// A text is what trimming leaves, with white space around it.
pub proof fn lemma_trim_parts(s: Seq<char>) -> (parts: (Seq<char>, Seq<char>))
    ensures
        all_white(parts.0),
        all_white(parts.1),
        bare(text::trim(s)),
        s == parts.0 + text::trim(s) + parts.1,
{
    let rest = text::trim_start(s);
    let pre = lemma_start_part(s);
    let post = lemma_end_part(rest);
    text::lemma_trim_start_edge(s);
    text::lemma_trim_end_edge(rest);
    assert(s =~= pre + text::trim(s) + post);
    (pre, post)
}

proof fn lemma_start_part(s: Seq<char>) -> (pre: Seq<char>)
    ensures
        all_white(pre),
        s == pre + text::trim_start(s),
    decreases s.len(),
{
    if s.len() > 0 && text::white_space(s[0]) {
        let less = lemma_start_part(s.skip(1));
        let pre = seq![s[0]] + less;
        assert forall|i: int| 0 <= i < pre.len() implies text::white_space(#[trigger] pre[i]) by {
            if i > 0 {
                assert(pre[i] == less[i - 1]);
            }
        }
        assert(s =~= pre + text::trim_start(s)) by {
            assert(s =~= seq![s[0]] + s.skip(1));
        }
        pre
    } else {
        assert(s =~= Seq::<char>::empty() + text::trim_start(s));
        Seq::empty()
    }
}

proof fn lemma_end_part(s: Seq<char>) -> (post: Seq<char>)
    ensures
        all_white(post),
        s == text::trim_end(s) + post,
    decreases s.len(),
{
    if s.len() > 0 && text::white_space(s.last()) {
        let less = lemma_end_part(s.drop_last());
        let post = less.push(s.last());
        assert forall|i: int| 0 <= i < post.len() implies text::white_space(#[trigger] post[i]) by {
            if i < less.len() {
                assert(post[i] == less[i]);
            }
        }
        assert(s =~= text::trim_end(s) + post) by {
            assert(s =~= s.drop_last().push(s.last()));
        }
        post
    } else {
        assert(s =~= text::trim_end(s) + Seq::<char>::empty());
        Seq::empty()
    }
}

proof fn lemma_word_len(word: Seq<char>, rest: Seq<char>)
    requires
        forall|i: int| 0 <= i < word.len() ==> !text::white_space(#[trigger] word[i]),
        rest.len() > 0 ==> text::white_space(rest[0]),
    ensures
        text::word_len(word + rest) == word.len(),
    decreases word.len(),
{
    if word.len() == 0 {
        assert(word + rest =~= rest);
    } else {
        let less = word.skip(1);
        assert forall|i: int| 0 <= i < less.len() implies !text::white_space(
            #[trigger] less[i],
        ) by {
            assert(less[i] == word[i + 1]);
        }
        assert(!text::white_space(word[0]));
        assert((word + rest).skip(1) =~= less + rest);
        lemma_word_len(less, rest);
    }
}

/// A word is a run without white space, up to white space or the end; what follows is read for
/// itself, and white space alone holds no word.
pub proof fn law_words_one_by_one(pre: Seq<char>, word: Seq<char>, rest: Seq<char>)
    requires
        all_white(pre),
        word.len() > 0,
        forall|i: int| 0 <= i < word.len() ==> !text::white_space(#[trigger] word[i]),
        rest.len() > 0 ==> text::white_space(rest[0]),
    ensures
        text::words(pre + word + rest) == seq![word] + text::words(rest),
        text::words(pre).len() == 0,
{
    let tail = word + rest;
    assert(!text::white_space(word[0]));
    assert(tail[0] == word[0]);
    assert(pre + word + rest =~= pre + tail);
    lemma_trim_start_white(pre, tail);
    lemma_word_len(word, rest);
    assert(tail.take(word.len() as int) =~= word);
    assert(tail.skip(word.len() as int) =~= rest);
    lemma_trim_start_white(pre, Seq::empty());
    assert(pre + Seq::<char>::empty() =~= pre);
}

// ---------------------------------------------------------------------------
// Numbers
// ---------------------------------------------------------------------------

/// The ten digits are those from `0` to `9`, in order.
pub proof fn law_digits(d: nat)
    requires
        d < 10,
    ensures
        text::digit_char(d) as u32 == '0' as u32 + d,
{
}

/// A number is written digit by digit, the last digit being what is left over by ten.
pub proof fn law_decimal_digit_by_digit(n: nat, d: nat)
    requires
        d < 10,
    ensures
        text::decimal(d).len() == 1 && text::decimal(d)[0] as u32 == '0' as u32 + d,
        n > 0 ==> text::decimal(10 * n + d) == text::decimal(n) + text::decimal(d),
{
    if n > 0 {
        assert((10 * n + d) / 10 == n);
        assert((10 * n + d) % 10 == d);
        assert(text::decimal(10 * n + d) =~= text::decimal(n) + text::decimal(d));
    }
}

/// Numbers are read digit by digit, a plus sign in front makes no difference, and nothing but
/// digits is a number.
pub proof fn law_numbers_are_read_digit_by_digit(s: Seq<char>, c: char, max: nat)
    ensures
        text::unsigned(Seq::empty(), max) is None,
        text::unsigned(seq!['+'], max) is None,
        '0' <= c <= '9' && c as nat - '0' as nat <= max ==> text::unsigned(seq![c], max) == Some(
            (c as nat - '0' as nat) as nat,
        ),
        '0' <= c <= '9' && text::unsigned(s, max) is Some ==> text::unsigned(s.push(c), max) == {
            let n = text::unsigned(s, max)->0 * 10 + (c as nat - '0' as nat);
            if n <= max {
                Some(n as nat)
            } else {
                None
            }
        },
        !('0' <= c <= '9') && s.len() > 0 ==> text::unsigned(s.push(c), max) is None,
        text::unsigned(s, max) is Some && s[0] != '+' ==> text::unsigned(seq!['+'] + s, max)
            == text::unsigned(s, max),
        text::unsigned(s, max) matches Some(n) ==> n <= max,
{
    let one = seq![c];
    assert(one.drop_last() =~= Seq::<char>::empty());
    assert(text::digits_value(one.drop_last()) == 0);
    assert(seq!['+'].skip(1) =~= Seq::<char>::empty());
    let digits = text::unsigned_digits(s);
    let longer = s.push(c);
    if s.len() > 0 {
        assert(text::unsigned_digits(longer) =~= digits.push(c));
        assert(digits.push(c).drop_last() =~= digits);
        assert(digits.push(c).last() == c);
        if text::all_digits(digits) && '0' <= c <= '9' {
            assert forall|i: int| 0 <= i < digits.push(c).len() implies '0'
                <= #[trigger] digits.push(c)[i] <= '9' by {
                if i < digits.len() {
                    assert(digits.push(c)[i] == digits[i]);
                }
            }
        }
        if text::all_digits(digits.push(c)) {
            assert('0' <= digits.push(c)[digits.len() as int] <= '9');
        }
        assert((seq!['+'] + s).skip(1) =~= s);
    }
}

// ---------------------------------------------------------------------------
// Padding and order
// ---------------------------------------------------------------------------

/// Padding adds spaces on one side, up to the width, and changes nothing else.
pub proof fn law_padding_adds_spaces(s: Seq<char>, width: nat)
    ensures
        text::pad_right(s, width).len() == if s.len() < width {
            width
        } else {
            s.len()
        },
        text::pad_left(s, width).len() == text::pad_right(s, width).len(),
        text::pad_right(s, width).take(s.len() as int) == s,
        text::pad_left(s, width).skip(text::pad_left(s, width).len() - s.len()) == s,
        forall|i: int|
            s.len() <= i < text::pad_right(s, width).len() ==> #[trigger] text::pad_right(
                s,
                width,
            )[i] == ' ',
        forall|i: int|
            0 <= i < text::pad_left(s, width).len() - s.len() ==> #[trigger] text::pad_left(
                s,
                width,
            )[i] == ' ',
{
    assert(text::pad_right(s, width).take(s.len() as int) =~= s);
    assert(text::pad_left(s, width).skip(text::pad_left(s, width).len() - s.len()) =~= s);
}

/// Copies of a character are that character, as often as it was asked for.
pub proof fn law_copies(c: char, n: nat)
    ensures
        text::repeated(c, n).len() == n,
        forall|i: int| 0 <= i < n ==> #[trigger] text::repeated(c, n)[i] == c,
{
}

/// Texts are ordered by the first character in which they differ, and a text comes before
/// those that it begins.
pub proof fn law_order_of_texts(
    prefix: Seq<char>,
    x: char,
    a: Seq<char>,
    y: char,
    b: Seq<char>,
)
    ensures
        x != y ==> (text::lex_less(prefix + seq![x] + a, prefix + seq![y] + b) <==> (x as u32)
            < (y as u32)),
        text::lex_less(prefix, prefix + seq![y] + b),
        !text::lex_less(prefix, prefix),
    decreases prefix.len(),
{
    let left = prefix + seq![x] + a;
    let right = prefix + seq![y] + b;
    text::lemma_lex_total(prefix, prefix);
    if prefix.len() > 0 {
        let less = prefix.skip(1);
        law_order_of_texts(less, x, a, y, b);
        assert(left.skip(1) =~= less + seq![x] + a);
        assert(right.skip(1) =~= less + seq![y] + b);
        assert(left[0] == prefix[0] && right[0] == prefix[0]);
    } else {
        assert(left[0] == x && right[0] == y);
    }
}

/// What the strings of a list say is what each of them says, in order.
pub proof fn law_texts_are_the_strings(
    list: Seq<String>,
    rows: Seq<Vec<char>>,
    string: String,
    borrowed: &str,
)
    ensures
        text::texts(list).len() == list.len(),
        forall|i: int| 0 <= i < list.len() ==> #[trigger] text::texts(list)[i] == list[i]@,
        text::char_rows(rows).len() == rows.len(),
        forall|i: int| 0 <= i < rows.len() ==> #[trigger] text::char_rows(rows)[i] == rows[i]@,
        text::opt_text(Some(string)) == Some(string@),
        text::opt_text(None) is None,
        text::opt_str(Some(borrowed)) == Some(borrowed@),
        text::opt_str(None) is None,
{
}

} // verus!
