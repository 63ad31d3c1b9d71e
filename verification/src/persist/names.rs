//! Names of state files and directories.

use vstd::prelude::*;

use crate::text;

verus! {

/// What `char::is_alphanumeric` answers for a character.
pub uninterp spec fn unicode_alphanumeric(c: char) -> bool;

/// The letters and digits of ASCII.
pub open spec fn ascii_alphanumeric(c: char) -> bool {
    'a' <= c <= 'z' || 'A' <= c <= 'Z' || '0' <= c <= '9'
}

/// `char::is_alphanumeric` of the standard library: whether the character is alphabetic or
/// numeric in Unicode, which depends on the character alone. Of the ASCII characters these
/// are the letters and the digits. Which other characters are is left to the name.
pub assume_specification[ char::is_alphanumeric ](c: char) -> (yes: bool)
    ensures
        yes == unicode_alphanumeric(c),
        (c as u32) < 128 ==> yes == ascii_alphanumeric(c),
;

/// Whether a character of a session name is safe in a path component: a letter, a digit, a
/// hyphen or an underscore.
pub open spec fn keeps(c: char) -> bool {
    ||| (c as u32) < 128 && ascii_alphanumeric(c)
    ||| (c as u32) >= 128 && unicode_alphanumeric(c)
    ||| c == '-'
    ||| c == '_'
}

/// The safe character that stands for `c`.
pub open spec fn safe_char(c: char) -> char {
    if keeps(c) {
        c
    } else {
        '_'
    }
}

/// The path component that stands for `name`.
pub open spec fn safe_name(name: Seq<char>) -> Seq<char> {
    name.map_values(|c: char| safe_char(c))
}

/// Whether `s` can stand in a path as one component: no separator, no dot, no NUL.
pub open spec fn single_component(s: Seq<char>) -> bool {
    forall|i: int| 0 <= i < s.len() ==> #[trigger] s[i] != '/' && s[i] != '.' && s[i] != '\0'
}

/// Reduce a session name to a single safe path component. Different names may come out alike;
/// `session_file_name` keeps them apart.
pub fn path_safe(name: &str) -> (safe: String)
    ensures
        safe@ == safe_name(name@),
        single_component(safe@),
{
    let chars = text::chars_of(name);
    let mut safe = String::new();
    let mut i: usize = 0;
    while i < chars.len()
        invariant
            i <= chars@.len(),
            chars@ == name@,
            safe@ == safe_name(chars@.take(i as int)),
            single_component(safe@),
        decreases chars@.len() - i,
    {
        let c = chars[i];
        let kept = if c.is_alphanumeric() || c == '-' || c == '_' {
            c
        } else {
            '_'
        };
        assert(kept != '/' && kept != '.' && kept != '\0');
        let ghost before = safe@;
        safe.push(kept);
        assert(safe@ == safe_name(chars@.take(i + 1)));
        assert forall|k: int| 0 <= k < safe@.len() implies #[trigger] safe@[k] != '/' && safe@[k]
            != '.' && safe@[k] != '\0' by {
            if k < before.len() {
                assert(safe@[k] == before[k]);
            }
        }
        i += 1;
    }
    assert(chars@.take(chars@.len() as int) == chars@);
    safe
}

/// What stands for `c` in a file name: a safe character as it is, and of any other the number
/// between two percent signs, which no safe name holds.
pub open spec fn escaped_char(c: char) -> Seq<char> {
    if keeps(c) {
        seq![c]
    } else {
        seq!['%'] + text::decimal(c as u32 as nat) + seq!['%']
    }
}

/// What stands for `name` in a file name.
pub open spec fn escaped(name: Seq<char>) -> Seq<char>
    decreases name.len(),
{
    if name.len() == 0 {
        Seq::empty()
    } else {
        escaped(name.drop_last()) + escaped_char(name.last())
    }
}

/// The file that holds the snapshot of session `name`.
pub open spec fn file_name(name: Seq<char>) -> Seq<char> {
    escaped(name) + ".json"@
}

/// Appends what stands for a character in a file name.
fn push_escaped(file: &mut String, c: char)
    ensures
        final(file)@ == old(file)@ + escaped_char(c),
{
    if c.is_alphanumeric() || c == '-' || c == '_' {
        file.push(c);
    } else {
        file.push('%');
        text::push_decimal(file, c as u64);
        file.push('%');
    }
    assert(file@ =~= old(file)@ + escaped_char(c));
}

/// The name of the file, in the sessions directory, that holds the snapshot of `name`. It is
/// one path component, and no two sessions share it.
pub fn session_file_name(name: &str) -> (file: String)
    ensures
        file@ == file_name(name@),
{
    let chars = text::chars_of(name);
    let mut file = String::new();
    let mut i: usize = 0;
    assert(file@ =~= escaped(chars@.take(0)));
    while i < chars.len()
        invariant
            i <= chars@.len(),
            file@ == escaped(chars@.take(i as int)),
        decreases chars@.len() - i,
    {
        assert(chars@.take(i + 1).drop_last() == chars@.take(i as int));
        push_escaped(&mut file, chars[i]);
        i += 1;
    }
    assert(chars@.take(chars@.len() as int) == chars@);
    text::push_text(&mut file, ".json");
    file
}

/// The file that an older snapshot of session `name` may be in, from when files were named by
/// the reduced name.
pub open spec fn older_file_name(name: Seq<char>) -> Seq<char> {
    safe_name(name) + ".json"@
}

/// The files that may hold the snapshot of session `name`; the first that is there counts.
pub open spec fn snapshot_files(name: Seq<char>) -> Seq<Seq<char>> {
    seq![file_name(name), older_file_name(name)]
}

/// The names of the files, in the sessions directory, that may hold the snapshot of `name`. The
/// first that is there counts. The second is where an older snapshot may be; it may also be the
/// file of another session, whose snapshot bears that session's name.
pub fn session_files(name: &str) -> (files: Vec<String>)
    ensures
        text::texts(files@) == snapshot_files(name@),
{
    let mut files: Vec<String> = Vec::new();
    files.push(session_file_name(name));
    let safe = path_safe(name);
    files.push(text::joined(safe.as_str(), ".json"));
    assert(text::texts(files@) =~= snapshot_files(name@));
    files
}

/// A name made of safe characters alone stands for itself, so reducing a name twice changes
/// nothing more.
pub proof fn law_safe_name_keeps_safe_names(name: Seq<char>)
    requires
        forall|i: int| 0 <= i < name.len() ==> keeps(#[trigger] name[i]),
    ensures
        safe_name(name) == name,
{
    assert(safe_name(name) =~= name);
}

/// Reducing a reduced name changes nothing.
pub proof fn law_safe_name_idempotent(name: Seq<char>)
    ensures
        safe_name(safe_name(name)) == safe_name(name),
{
    assert(safe_name(safe_name(name)) =~= safe_name(name));
}

/// A name made of safe characters alone stands in its file name as it is, and its older file is
/// the same.
pub proof fn law_safe_names_stand_in_their_files(name: Seq<char>)
    requires
        forall|i: int| 0 <= i < name.len() ==> keeps(#[trigger] name[i]),
    ensures
        file_name(name) == name + ".json"@,
        older_file_name(name) == file_name(name),
{
    lemma_escaped_safe(name);
    law_safe_name_keeps_safe_names(name);
}

proof fn lemma_escaped_safe(name: Seq<char>)
    requires
        forall|i: int| 0 <= i < name.len() ==> keeps(#[trigger] name[i]),
    ensures
        escaped(name) == name,
    decreases name.len(),
{
    if name.len() == 0 {
        assert(escaped(name) =~= name);
    } else {
        let rest = name.drop_last();
        assert forall|i: int| 0 <= i < rest.len() implies keeps(#[trigger] rest[i]) by {
            assert(rest[i] == name[i]);
        }
        lemma_escaped_safe(rest);
        assert(keeps(name[name.len() - 1]));
        assert(escaped(name) =~= name);
    }
}

/// A file name is one path component, whatever the session is called: it holds no separator
/// and no NUL, and no dot but that of its ending.
pub proof fn law_file_names_stay_in_the_directory(name: Seq<char>)
    ensures
        single_component(escaped(name)),
    decreases name.len(),
{
    if name.len() > 0 {
        let rest = name.drop_last();
        let c = name.last();
        law_file_names_stay_in_the_directory(rest);
        text::lemma_decimal(c as u32 as nat);
        let all = escaped(name);
        let before = escaped(rest);
        assert forall|i: int| 0 <= i < all.len() implies #[trigger] all[i] != '/' && all[i] != '.'
            && all[i] != '\0' by {
            if i < before.len() {
                assert(all[i] == before[i]);
            } else {
                assert(all[i] == escaped_char(c)[i - before.len()]);
                if !keeps(c) && 0 < i - before.len() <= text::decimal(c as u32 as nat).len() {
                    assert(all[i] == text::decimal(c as u32 as nat)[i - before.len() - 1]);
                }
            }
        }
    }
}

/// Where two texts end in a number between percent signs and are equal, the numbers are equal
/// and so is what comes before.
proof fn lemma_same_escape(s: Seq<char>, m: nat, t: Seq<char>, n: nat)
    requires
        s + (seq!['%'] + text::decimal(m) + seq!['%']) == t + (seq!['%'] + text::decimal(n)
            + seq!['%']),
    ensures
        m == n,
        s == t,
{
    let dm = text::decimal(m);
    let dn = text::decimal(n);
    let a = s + (seq!['%'] + dm + seq!['%']);
    let b = t + (seq!['%'] + dn + seq!['%']);
    text::lemma_decimal(m);
    text::lemma_decimal(n);
    assert(a.len() == s.len() + dm.len() + 2);
    assert(b.len() == t.len() + dn.len() + 2);
    assert(a[s.len() as int] == '%');
    assert(b[t.len() as int] == '%');
    if s.len() < t.len() {
        assert(a[t.len() as int] == dm[t.len() - s.len() - 1]);
    }
    if t.len() < s.len() {
        assert(b[s.len() as int] == dn[s.len() - t.len() - 1]);
    }
    assert(s.len() == t.len());
    assert forall|k: int| 0 <= k < s.len() implies s[k] == t[k] by {
        assert(a[k] == s[k] && b[k] == t[k]);
    }
    assert(s =~= t);
    assert forall|k: int| 0 <= k < dm.len() implies dm[k] == dn[k] by {
        assert(a[s.len() + 1 + k] == dm[k]);
        assert(b[t.len() + 1 + k] == dn[k]);
    }
    assert(dm =~= dn);
}

/// Characters with the same number are one.
proof fn lemma_same_code(x: char, y: char)
    requires
        x as u32 == y as u32,
    ensures
        x == y,
{
}

proof fn lemma_escaped_injective(a: Seq<char>, b: Seq<char>)
    requires
        escaped(a) == escaped(b),
    ensures
        a == b,
    decreases a.len(),
{
    if a.len() == 0 || b.len() == 0 {
        assert(a =~= b);
    } else {
        let s = escaped(a.drop_last());
        let t = escaped(b.drop_last());
        let x = a.last();
        let y = b.last();
        let whole = escaped(a);
        assert(!keeps('%'));
        assert(whole.last() == if keeps(x) {
            x
        } else {
            '%'
        });
        assert(whole.last() == if keeps(y) {
            y
        } else {
            '%'
        });
        if keeps(x) {
            assert(s =~= whole.drop_last());
            assert(t =~= whole.drop_last());
        } else {
            lemma_same_escape(s, x as u32 as nat, t, y as u32 as nat);
            lemma_same_code(x, y);
        }
        lemma_escaped_injective(a.drop_last(), b.drop_last());
        assert(a =~= a.drop_last().push(x));
        assert(b =~= b.drop_last().push(y));
    }
}

/// No two sessions share a file.
pub proof fn law_sessions_never_share_a_file(a: Seq<char>, b: Seq<char>)
    requires
        file_name(a) == file_name(b),
    ensures
        a == b,
{
    assert(file_name(a).len() == escaped(a).len() + ".json"@.len());
    assert(file_name(b).len() == escaped(b).len() + ".json"@.len());
    assert(file_name(a).take(escaped(a).len() as int) =~= escaped(a));
    assert(file_name(b).take(escaped(b).len() as int) =~= escaped(b));
    lemma_escaped_injective(a, b);
}

} // verus!
