//! Small helpers shared by the other modules: quoting, slugs, input lines.

use crate::text;
use vstd::prelude::*;
use vstd::string::*;

verus! {

/// A control character that a TOML basic string cannot hold as it is: any but tab.
pub open spec fn is_forbidden_control(c: char) -> bool {
    c as u32 <= 8 || 10 <= c as u32 <= 31 || c as u32 == 127
}

/// A hexadecimal digit.
pub open spec fn hex_digit(d: int) -> char {
    if d < 10 {
        (48 + d) as char
    } else {
        (55 + d) as char
    }
}

/// A character as a TOML basic string holds it: a backslash in front of a backslash
/// and of a double quote, an escape for a control character, else the character.
pub open spec fn escape_of(c: char) -> Seq<char> {
    if c == '\\' || c == '"' {
        seq!['\\', c]
    } else if c == '\n' {
        seq!['\\', 'n']
    } else if c == '\r' {
        seq!['\\', 'r']
    } else if is_forbidden_control(c) {
        seq!['\\', 'u', '0', '0', hex_digit(c as int / 16), hex_digit(c as int % 16)]
    } else {
        seq![c]
    }
}

/// `s` as it stands between the quotes of a TOML basic string.
pub open spec fn escaped(s: Seq<char>) -> Seq<char>
    decreases s.len(),
{
    if s.len() == 0 {
        Seq::empty()
    } else {
        escaped(s.drop_last()) + escape_of(s.last())
    }
}

/// `s` as a TOML basic string: escaped, between double quotes.
pub open spec fn quoted(s: Seq<char>) -> Seq<char> {
    seq!['"'] + escaped(s) + seq!['"']
}

/// An ASCII letter or digit.
pub open spec fn is_alnum(c: char) -> bool {
    'a' <= c <= 'z' || 'A' <= c <= 'Z' || '0' <= c <= '9'
}

/// The lower case of an ASCII letter; any other character as it is.
pub open spec fn lower(c: char) -> char {
    if 'A' <= c <= 'Z' {
        ((c as u8) + 32) as u8 as char
    } else {
        c
    }
}

/// The maximal runs of ASCII letters and digits of `s`, in order, in lower case.
pub open spec fn words(s: Seq<char>) -> Seq<Seq<char>>
    decreases s.len(),
{
    if s.len() == 0 {
        Seq::empty()
    } else {
        let before = words(s.drop_last());
        let c = s.last();
        if !is_alnum(c) {
            before
        } else if s.len() >= 2 && is_alnum(s[s.len() - 2]) {
            before.drop_last().push(before.last().push(lower(c)))
        } else {
            before.push(seq![lower(c)])
        }
    }
}

/// The words of `s` with single dashes between them.
pub open spec fn slug_of(s: Seq<char>) -> Seq<char> {
    text::join(words(s), seq!['-'])
}

/// Resolve the project root.
/// Priority: the explicit flag, else the current directory.
pub fn project_root<P>(flag: Option<P>, cwd: Option<P>) -> (r: Option<P>)
    ensures
        r == (if flag is Some {
            flag
        } else {
            cwd
        }),
{
    match flag {
        Some(p) => Some(p),
        None => cwd,
    }
}

/// Writes a hexadecimal digit.
fn hex(d: u8) -> (r: char)
    requires
        d < 16,
    ensures
        r == hex_digit(d as int),
{
    if d < 10 {
        (48 + d) as char
    } else {
        (55 + d) as char
    }
}

/// Appends a character as a TOML basic string holds it.
fn push_escaped(r: &mut String, c: char)
    ensures
        final(r)@ == old(r)@ + escape_of(c),
{
    let code: u32 = c as u32;
    if c == '\\' || c == '"' {
        r.push('\\');
        r.push(c);
    } else if c == '\n' {
        r.push('\\');
        r.push('n');
    } else if c == '\r' {
        r.push('\\');
        r.push('r');
    } else if code <= 8 || (10 <= code && code <= 31) || code == 127 {
        let byte: u8 = code as u8;
        r.push('\\');
        r.push('u');
        r.push('0');
        r.push('0');
        r.push(hex(byte / 16));
        r.push(hex(byte % 16));
    } else {
        r.push(c);
    }
    assert(r@ =~= old(r)@ + escape_of(c));
}

/// Quote a string as a TOML basic string.
pub fn toml_quote(s: &str) -> (r: String)
    ensures
        r@ == quoted(s@),
        forall|i: int| 0 <= i < r@.len() ==> !is_forbidden_control(#[trigger] r@[i]),
{
    let mut r = String::new();
    r.push('"');
    for c in it: s.chars()
        invariant
            it.seq() == s@,
            r@ == seq!['"'] + escaped(s@.take(it.index())),
    {
        push_escaped(&mut r, c);
        proof {
            let t = s@.take(it.index() + 1);
            assert(t.drop_last() =~= s@.take(it.index()));
            assert(t.last() == c);
            assert(r@ =~= seq!['"'] + escaped(t));
        }
    }
    assert(s@.take(s@.len() as int) =~= s@);
    r.push('"');
    proof {
        assert(r@ =~= quoted(s@));
        law_quoted_text_is_clean(s@);
    }
    r
}

/// Lowercase, alphanumerics kept, runs of non-alphanumerics collapsed to a
/// single dash, leading/trailing dashes stripped.
pub fn slugify(s: &str) -> (r: String)
    ensures
        r@ == slug_of(s@),
{
    let mut out = String::new();
    let mut pending_dash = false;
    for c in it: s.chars()
        invariant
            it.seq() == s@,
            out@ == slug_of(s@.take(it.index())),
            it.index() == 0 ==> !pending_dash,
            it.index() > 0 ==> pending_dash == !is_alnum(s@[it.index() - 1]),
    {
        let ghost t = s@.take(it.index() + 1);
        let ghost before = words(s@.take(it.index()));
        proof {
            assert(t.drop_last() =~= s@.take(it.index()));
            assert(t.last() == c);
            lemma_words_not_empty(s@.take(it.index()));
        }
        if is_alphanumeric(c) {
            let empty = out.as_str().is_empty();
            proof {
                lemma_join_empty(before, seq!['-']);
            }
            if pending_dash && !empty {
                out.push('-');
            }
            out.push(lowercase(c));
            pending_dash = false;
            proof {
                let dash = seq!['-'];
                if it.index() > 0 && is_alnum(s@[it.index() - 1]) {
                    lemma_join_extend_last(before, dash, lower(c));
                    assert(out@ =~= slug_of(t));
                } else {
                    let w = before.push(seq![lower(c)]);
                    assert(w.drop_last() =~= before);
                    assert(out@ =~= slug_of(t));
                }
            }
        } else {
            pending_dash = true;
        }
    }
    assert(s@.take(s@.len() as int) =~= s@);
    out
}

/// Whether `c` is an ASCII letter or digit.
fn is_alphanumeric(c: char) -> (r: bool)
    ensures
        r == is_alnum(c),
{
    ('a' <= c && c <= 'z') || ('A' <= c && c <= 'Z') || ('0' <= c && c <= '9')
}

/// The lower case of an ASCII letter; any other character as it is.
fn lowercase(c: char) -> (r: char)
    ensures
        r == lower(c),
{
    if 'A' <= c && c <= 'Z' {
        let d: u8 = c as u8 + 32;
        d as char
    } else {
        c
    }
}

/// The answer in a line read from the terminal: the line without its ending.
pub fn prompt(line: &str) -> (r: String)
    ensures
        r@ == text::without_line_end(line@),
{
    text::trim_line_end(line)
}

/// No word is empty, and the last word ends where the text does unless the
/// text ends in a separator.
proof fn lemma_words_not_empty(s: Seq<char>)
    ensures
        forall|i: int| 0 <= i < words(s).len() ==> #[trigger] words(s)[i].len() > 0,
        s.len() > 0 && is_alnum(s.last()) ==> words(s).len() > 0,
    decreases s.len(),
{
    if s.len() > 0 {
        lemma_words_not_empty(s.drop_last());
        let before = words(s.drop_last());
        if s.len() >= 2 {
            assert(s.drop_last().last() == s[s.len() - 2]);
        }
        assert forall|i: int| 0 <= i < words(s).len() implies #[trigger] words(s)[i].len() > 0 by {
            if i < before.len() {
                assert(before[i].len() > 0);
            }
        }
    }
}

/// A join of non-empty parts is empty only where there are no parts.
proof fn lemma_join_empty(parts: Seq<Seq<char>>, sep: Seq<char>)
    requires
        forall|i: int| 0 <= i < parts.len() ==> #[trigger] parts[i].len() > 0,
    ensures
        text::join(parts, sep).len() == 0 <==> parts.len() == 0,
{
    if parts.len() > 1 {
        assert(parts.last().len() > 0);
    }
}

/// Extending the last part extends the join.
proof fn lemma_join_extend_last(parts: Seq<Seq<char>>, sep: Seq<char>, c: char)
    requires
        parts.len() > 0,
    ensures
        text::join(parts.drop_last().push(parts.last().push(c)), sep) == text::join(parts, sep).push(c),
{
    let longer = parts.drop_last().push(parts.last().push(c));
    assert(longer.drop_last() =~= parts.drop_last());
    assert(text::join(longer, sep) =~= text::join(parts, sep).push(c));
}

/// The value of a hexadecimal digit.
pub open spec fn hex_value(c: char) -> int {
    if '0' <= c <= '9' {
        c as int - 48
    } else if 'A' <= c <= 'F' {
        c as int - 55
    } else if 'a' <= c <= 'f' {
        c as int - 87
    } else {
        0
    }
}

/// The character that a backslash and `c` stand for in a TOML basic string.
pub open spec fn named_escape(c: char) -> char {
    if c == 'b' {
        8u8 as char
    } else if c == 't' {
        '\t'
    } else if c == 'n' {
        '\n'
    } else if c == 'f' {
        12u8 as char
    } else if c == 'r' {
        '\r'
    } else {
        c
    }
}

/// The text that the inside of a TOML basic string stands for.
pub open spec fn unescaped(t: Seq<char>) -> Seq<char>
    decreases t.len(),
{
    if t.len() == 0 {
        Seq::empty()
    } else if t[0] == '\\' && t.len() >= 6 && t[1] == 'u' {
        seq![
            (4096 * hex_value(t[2]) + 256 * hex_value(t[3]) + 16 * hex_value(t[4]) + hex_value(
                t[5],
            )) as char,
        ] + unescaped(t.skip(6))
    } else if t[0] == '\\' && t.len() >= 2 {
        seq![named_escape(t[1])] + unescaped(t.skip(2))
    } else {
        seq![t[0]] + unescaped(t.skip(1))
    }
}

/// The index of the first double quote at or after `i` that no backslash escapes.
pub open spec fn closing_quote(t: Seq<char>, i: int) -> Option<int>
    decreases t.len() - i,
{
    if i < 0 || i >= t.len() {
        None
    } else if t[i] == '"' {
        Some(i)
    } else if t[i] == '\\' && i + 1 < t.len() {
        closing_quote(t, i + 2)
    } else {
        closing_quote(t, i + 1)
    }
}

/// Escaping works character by character.
proof fn lemma_escaped_concat(a: Seq<char>, b: Seq<char>)
    ensures
        escaped(a + b) == escaped(a) + escaped(b),
    decreases b.len(),
{
    if b.len() == 0 {
        assert(a + b =~= a);
        assert(escaped(a) + escaped(b) =~= escaped(a));
    } else {
        lemma_escaped_concat(a, b.drop_last());
        assert((a + b).drop_last() =~= a + b.drop_last());
        assert(escaped(a + b) =~= escaped(a) + escaped(b));
    }
}

/// The escaped form of one character comes first.
proof fn lemma_escaped_first(s: Seq<char>)
    requires
        s.len() > 0,
    ensures
        escaped(s) == escape_of(s[0]) + escaped(s.skip(1)),
{
    let head = s.take(1);
    assert(s =~= head + s.skip(1));
    lemma_escaped_concat(head, s.skip(1));
    assert(head.drop_last() =~= Seq::<char>::empty());
    reveal_with_fuel(escaped, 2);
    assert(escaped(head) =~= escape_of(s[0]));
}

/// What is between 0 and 15 is the value of its digit, which is an ASCII letter or digit.
proof fn lemma_hex_digit(d: int)
    requires
        0 <= d < 16,
    ensures
        hex_value(hex_digit(d)) == d,
        is_alnum(hex_digit(d)),
{
}

proof fn lemma_unescaped_first(c: char, rest: Seq<char>)
    ensures
        unescaped(escape_of(c) + rest) == seq![c] + unescaped(rest),
{
    let e = escape_of(c);
    let t = e + rest;
    assert(t.skip(e.len() as int) =~= rest);
    if e.len() == 6 {
        let n = c as int;
        lemma_hex_digit(n / 16);
        lemma_hex_digit(n % 16);
        assert(16 * (n / 16) + n % 16 == n);
        assert(hex_value('0') == 0);
        assert(unescaped(t) == seq![c] + unescaped(rest));
    }
}

proof fn lemma_unescaped_escaped(s: Seq<char>)
    ensures
        unescaped(escaped(s)) == s,
    decreases s.len(),
{
    if s.len() == 0 {
        assert(unescaped(escaped(s)) =~= s);
    } else {
        lemma_escaped_first(s);
        lemma_unescaped_escaped(s.skip(1));
        lemma_unescaped_first(s[0], escaped(s.skip(1)));
        assert(unescaped(escaped(s)) =~= s);
    }
}

/// The search for the closing quote passes over an escaped character.
proof fn lemma_closing_quote_skips(before: Seq<char>, c: char, rest: Seq<char>)
    ensures
        closing_quote(before + escape_of(c) + rest, before.len() as int) == closing_quote(
            before + escape_of(c) + rest,
            (before.len() + escape_of(c).len()) as int,
        ),
{
    let e = escape_of(c);
    let t = before + e + rest;
    let n = before.len() as int;
    assert forall|i: int| 0 <= i < e.len() implies #[trigger] t[n + i] == e[i] by {}
    assert(t[n] == e[0]);
    reveal_with_fuel(closing_quote, 6);
    if e.len() == 6 {
        lemma_hex_digit(c as int / 16);
        lemma_hex_digit(c as int % 16);
        assert(t[n + 2] == e[2]);
        assert(t[n + 3] == e[3]);
        assert(t[n + 4] == e[4]);
        assert(t[n + 5] == e[5]);
    }
}

proof fn lemma_closing_quote_after(before: Seq<char>, s: Seq<char>, rest: Seq<char>)
    ensures
        closing_quote(before + escaped(s) + seq!['"'] + rest, before.len() as int) == Some(
            (before.len() + escaped(s).len()) as int,
        ),
    decreases s.len(),
{
    let t = before + escaped(s) + seq!['"'] + rest;
    let n = before.len() as int;
    if s.len() == 0 {
        assert(t[n] == '"');
    } else {
        lemma_escaped_first(s);
        let tail = escaped(s.skip(1));
        let longer = before + escape_of(s[0]);
        lemma_closing_quote_after(longer, s.skip(1), rest);
        assert(t =~= longer + tail + seq!['"'] + rest);
        lemma_closing_quote_skips(before, s[0], tail + seq!['"'] + rest);
        assert(t =~= before + escape_of(s[0]) + (tail + seq!['"'] + rest));
    }
}

/// A quoted text holds no control character but tab.
pub proof fn law_quoted_text_is_clean(s: Seq<char>)
    ensures
        forall|i: int| 0 <= i < quoted(s).len() ==> !is_forbidden_control(#[trigger] quoted(s)[i]),
{
    lemma_escaped_clean(s);
    assert forall|i: int| 0 <= i < quoted(s).len() implies !is_forbidden_control(
        #[trigger] quoted(s)[i],
    ) by {
        if 0 < i < quoted(s).len() - 1 {
            assert(quoted(s)[i] == escaped(s)[i - 1]);
        }
    }
}

proof fn lemma_escape_of_clean(c: char)
    ensures
        forall|i: int|
            0 <= i < escape_of(c).len() ==> !is_forbidden_control(#[trigger] escape_of(c)[i]),
{
    if is_forbidden_control(c) {
        lemma_hex_digit(c as int / 16);
        lemma_hex_digit(c as int % 16);
    }
}

proof fn lemma_escaped_clean(s: Seq<char>)
    ensures
        forall|i: int|
            0 <= i < escaped(s).len() ==> !is_forbidden_control(#[trigger] escaped(s)[i]),
    decreases s.len(),
{
    if s.len() > 0 {
        let front = escaped(s.drop_last());
        let c = s.last();
        let e = escape_of(c);
        lemma_escaped_clean(s.drop_last());
        lemma_escape_of_clean(c);
        assert forall|i: int| 0 <= i < escaped(s).len() implies !is_forbidden_control(
            #[trigger] escaped(s)[i],
        ) by {
            if i < front.len() {
                assert(escaped(s)[i] == front[i]);
            } else {
                assert(escaped(s)[i] == e[i - front.len()]);
            }
        }
    }
}

/// A quoted text can be read back, whatever follows it: the first double quote
/// that is not escaped is the closing one, and what stands between the two
/// quotes stands for the text that was quoted.
pub proof fn law_quoted_text_reads_back(s: Seq<char>, rest: Seq<char>)
    ensures
        (quoted(s) + rest)[0] == '"',
        closing_quote(quoted(s) + rest, 1) == Some(quoted(s).len() - 1),
        unescaped((quoted(s) + rest).subrange(1, quoted(s).len() - 1)) == s,
{
    let t = quoted(s) + rest;
    lemma_closing_quote_after(seq!['"'], s, rest);
    assert(t =~= seq!['"'] + escaped(s) + seq!['"'] + rest);
    assert(t.subrange(1, quoted(s).len() - 1) =~= escaped(s));
    lemma_unescaped_escaped(s);
}

/// A lower-case ASCII letter or a digit.
pub open spec fn is_slug_char(c: char) -> bool {
    'a' <= c <= 'z' || '0' <= c <= '9'
}

proof fn lemma_words_in_lower_case(s: Seq<char>)
    ensures
        forall|i: int, j: int|
            0 <= i < words(s).len() && 0 <= j < words(s)[i].len() ==> is_slug_char(
                #[trigger] words(s)[i][j],
            ),
    decreases s.len(),
{
    if s.len() > 0 {
        lemma_words_in_lower_case(s.drop_last());
        lemma_words_not_empty(s.drop_last());
        let before = words(s.drop_last());
        if s.len() >= 2 {
            assert(s.drop_last().last() == s[s.len() - 2]);
        }
        assert forall|i: int, j: int|
            0 <= i < words(s).len() && 0 <= j < words(s)[i].len() implies is_slug_char(
            #[trigger] words(s)[i][j],
        ) by {
            if i < before.len() && j < before[i].len() {
                assert(is_slug_char(before[i][j]));
            }
        }
    }
}

/// What a join of words with dashes looks like, seen from its end.
proof fn lemma_join_shape(parts: Seq<Seq<char>>)
    requires
        forall|i: int| 0 <= i < parts.len() ==> #[trigger] parts[i].len() > 0,
        forall|i: int, j: int|
            0 <= i < parts.len() && 0 <= j < parts[i].len() ==> is_slug_char(
                #[trigger] parts[i][j],
            ),
    ensures
        forall|k: int|
            0 <= k < text::join(parts, seq!['-']).len() ==> (is_slug_char(
                #[trigger] text::join(parts, seq!['-'])[k],
            ) || text::join(parts, seq!['-'])[k] == '-'),
        text::join(parts, seq!['-']).len() > 0 ==> is_slug_char(
            text::join(parts, seq!['-'])[0],
        ) && is_slug_char(text::join(parts, seq!['-']).last()),
        forall|k: int|
            0 <= k < text::join(parts, seq!['-']).len() - 1 && #[trigger] text::join(
                parts,
                seq!['-'],
            )[k] == '-' ==> is_slug_char(text::join(parts, seq!['-'])[k + 1]),
    decreases parts.len(),
{
    let dash = seq!['-'];
    let whole = text::join(parts, dash);
    if parts.len() == 1 {
        assert(whole == parts[0]);
        assert forall|k: int| 0 <= k < whole.len() implies is_slug_char(#[trigger] whole[k]) by {
            assert(is_slug_char(parts[0][k]));
        }
        assert(is_slug_char(parts[0][0]));
    } else if parts.len() > 1 {
        let front = parts.drop_last();
        assert forall|i: int| 0 <= i < front.len() implies #[trigger] front[i].len() > 0 by {
            assert(parts[i].len() > 0);
        }
        assert forall|i: int, j: int|
            0 <= i < front.len() && 0 <= j < front[i].len() implies is_slug_char(
            #[trigger] front[i][j],
        ) by {
            assert(is_slug_char(parts[i][j]));
        }
        lemma_join_shape(front);
        lemma_join_empty(front, dash);
        let head = text::join(front, dash);
        let tail = parts.last();
        assert(tail.len() > 0);
        assert(whole == head + dash + tail);
        assert forall|k: int| 0 <= k < whole.len() implies (is_slug_char(#[trigger] whole[k])
            || whole[k] == '-') by {
            if k < head.len() {
                assert(whole[k] == head[k]);
            } else if k > head.len() {
                assert(whole[k] == parts[parts.len() - 1][k - head.len() - 1]);
            }
        }
        assert(whole[0] == head[0]);
        assert(whole.last() == parts[parts.len() - 1][tail.len() - 1]);
        assert forall|k: int|
            0 <= k < whole.len() - 1 && #[trigger] whole[k] == '-' implies is_slug_char(
            whole[k + 1],
        ) by {
            if k < head.len() - 1 {
                assert(whole[k] == head[k]);
                assert(whole[k + 1] == head[k + 1]);
            } else if k == head.len() - 1 {
                assert(head.last() == whole[k]);
            } else if k == head.len() {
                assert(whole[k + 1] == parts[parts.len() - 1][0]);
            } else {
                assert(whole[k] == parts[parts.len() - 1][k - head.len() - 1]);
            }
        }
    }
}

/// A slug holds lower-case letters, digits and dashes only; it neither begins
/// nor ends with a dash, and no two dashes follow each other.
pub proof fn law_slug_shape(s: Seq<char>)
    ensures
        forall|k: int|
            0 <= k < slug_of(s).len() ==> is_slug_char(#[trigger] slug_of(s)[k]) || slug_of(s)[k]
                == '-',
        slug_of(s).len() > 0 ==> is_slug_char(slug_of(s)[0]) && is_slug_char(slug_of(s).last()),
        forall|k: int|
            0 <= k < slug_of(s).len() - 1 && #[trigger] slug_of(s)[k] == '-' ==> slug_of(s)[k + 1]
                != '-',
{
    lemma_words_not_empty(s);
    lemma_words_in_lower_case(s);
    lemma_join_shape(words(s));
}

/// Reading off the words of a join of words gives the words back.
proof fn lemma_words_of_join(parts: Seq<Seq<char>>)
    requires
        forall|i: int| 0 <= i < parts.len() ==> #[trigger] parts[i].len() > 0,
        forall|i: int, j: int|
            0 <= i < parts.len() && 0 <= j < parts[i].len() ==> is_slug_char(
                #[trigger] parts[i][j],
            ),
    ensures
        words(text::join(parts, seq!['-'])) == parts,
    decreases parts.len(), parts.last().len(),
{
    let dash = seq!['-'];
    let whole = text::join(parts, dash);
    if parts.len() == 0 {
        assert(words(whole) =~= parts);
    } else {
        let last = parts.last();
        let c = last.last();
        assert(is_slug_char(parts[parts.len() - 1][last.len() - 1]));
        assert(lower(c) == c);
        if last.len() > 1 {
            let shorter = parts.drop_last().push(last.drop_last());
            assert forall|i: int| 0 <= i < shorter.len() implies #[trigger] shorter[i].len() > 0 by {
                assert(parts[i].len() > 0);
            }
            assert forall|i: int, j: int|
                0 <= i < shorter.len() && 0 <= j < shorter[i].len() implies is_slug_char(
                #[trigger] shorter[i][j],
            ) by {
                assert(is_slug_char(parts[i][j]));
            }
            lemma_words_of_join(shorter);
            lemma_join_extend_last(shorter, dash, c);
            assert(shorter.drop_last().push(shorter.last().push(c)) =~= parts) by {
                assert(shorter.drop_last() =~= parts.drop_last());
                assert(last.drop_last().push(c) =~= last);
            }
            let w = text::join(shorter, dash);
            assert(whole == w.push(c));
            assert(whole.drop_last() =~= w);
            lemma_join_shape(shorter);
            lemma_join_empty(shorter, dash);
            assert(whole[whole.len() - 2] == w.last());
            assert(words(whole) =~= parts);
        } else {
            let front = parts.drop_last();
            assert forall|i: int| 0 <= i < front.len() implies #[trigger] front[i].len() > 0 by {
                assert(parts[i].len() > 0);
            }
            assert forall|i: int, j: int|
                0 <= i < front.len() && 0 <= j < front[i].len() implies is_slug_char(
                #[trigger] front[i][j],
            ) by {
                assert(is_slug_char(parts[i][j]));
            }
            lemma_words_of_join(front);
            assert(last =~= seq![c]);
            if parts.len() == 1 {
                assert(whole =~= seq![c]);
                assert(whole.drop_last() =~= Seq::<char>::empty());
                assert(words(whole) =~= parts);
            } else {
                let w = text::join(front, dash);
                assert(whole =~= w.push('-').push(c));
                assert(whole.drop_last() =~= w.push('-'));
                assert(w.push('-').drop_last() =~= w);
                assert(words(w.push('-')) == front);
                assert(whole[whole.len() - 2] == '-');
                assert(words(whole) =~= parts);
            }
        }
    }
}

/// The slug of a slug is the slug itself.
pub proof fn law_slug_is_its_own_slug(s: Seq<char>)
    ensures
        slug_of(slug_of(s)) == slug_of(s),
{
    lemma_words_not_empty(s);
    lemma_words_in_lower_case(s);
    lemma_words_of_join(words(s));
}

/// The slug is empty exactly where the text holds no ASCII letter or digit.
pub proof fn law_slug_empty(s: Seq<char>)
    ensures
        slug_of(s).len() == 0 <==> forall|i: int| 0 <= i < s.len() ==> !is_alnum(#[trigger] s[i]),
    decreases s.len(),
{
    lemma_words_not_empty(s);
    lemma_join_empty(words(s), seq!['-']);
    if s.len() > 0 {
        let front = s.drop_last();
        law_slug_empty(front);
        lemma_words_not_empty(front);
        lemma_join_empty(words(front), seq!['-']);
        if words(s).len() == 0 {
            assert forall|i: int| 0 <= i < s.len() implies !is_alnum(#[trigger] s[i]) by {
                if i < front.len() {
                    assert(s[i] == front[i]);
                }
            }
        } else if forall|i: int| 0 <= i < s.len() ==> !is_alnum(#[trigger] s[i]) {
            assert(!is_alnum(s[s.len() - 1]));
            assert forall|i: int| 0 <= i < front.len() implies !is_alnum(#[trigger] front[i]) by {
                assert(front[i] == s[i]);
            }
        }
    }
}

/// Texts are quoted character by character: the quoted text of two texts one behind
/// the other is theirs, without the quotes where they meet.
pub proof fn law_characters_are_quoted_one_by_one(a: Seq<char>, b: Seq<char>)
    ensures
        quoted(a + b) == quoted(a).drop_last() + quoted(b).skip(1),
{
    lemma_escaped_concat(a, b);
    assert(quoted(a + b) =~= quoted(a).drop_last() + quoted(b).skip(1));
}

/// Only a double quote, a backslash and a control character change when they are
/// quoted; the first two get a backslash in front.
pub proof fn law_only_special_characters_are_escaped(c: char)
    ensures
        quoted(Seq::empty()) == seq!['"', '"'],
        c == '"' || c == '\\' ==> quoted(seq![c]) == seq!['"', '\\', c, '"'],
        c != '"' && c != '\\' && (c as u32 >= 32 && c as u32 != 127 || c == '\t') ==> quoted(seq![c])
            == seq!['"', c, '"'],
{
    reveal_with_fuel(escaped, 2);
    assert(seq![c].drop_last() =~= Seq::<char>::empty());
    assert(escaped(seq![c]) =~= escape_of(c));
    assert(quoted(Seq::empty()) =~= seq!['"', '"']);
    if c == '"' || c == '\\' {
        assert(quoted(seq![c]) =~= seq!['"', '\\', c, '"']);
    } else {
        if !is_forbidden_control(c) {
            assert(quoted(seq![c]) =~= seq!['"', c, '"']);
        }
    }
}

/// The slug of a text of letters and digits is the text itself in lower case.
pub proof fn law_slug_of_a_word(s: Seq<char>)
    requires
        forall|i: int|
            0 <= i < s.len() ==> ('a' <= #[trigger] s[i] <= 'z' || 'A' <= s[i] <= 'Z' || '0' <= s[i]
                <= '9'),
    ensures
        slug_of(s).len() == s.len(),
        forall|i: int|
            0 <= i < s.len() ==> #[trigger] slug_of(s)[i] as int == (if 'A' <= s[i] <= 'Z' {
                s[i] as int + 32
            } else {
                s[i] as int
            }),
{
    lemma_words_of_a_word(s);
    if s.len() > 0 {
        assert(words(s)[0] == slug_of(s));
    }
}

proof fn lemma_words_of_a_word(s: Seq<char>)
    requires
        forall|i: int| 0 <= i < s.len() ==> is_alnum(#[trigger] s[i]),
    ensures
        s.len() == 0 ==> words(s).len() == 0,
        s.len() > 0 ==> words(s).len() == 1 && words(s)[0].len() == s.len() && forall|i: int|
            0 <= i < s.len() ==> #[trigger] words(s)[0][i] == lower(s[i]),
    decreases s.len(),
{
    if s.len() > 0 {
        let front = s.drop_last();
        assert forall|i: int| 0 <= i < front.len() implies is_alnum(#[trigger] front[i]) by {
            assert(front[i] == s[i]);
        }
        lemma_words_of_a_word(front);
        assert(is_alnum(s[s.len() - 1]));
        if s.len() >= 2 {
            assert(is_alnum(s[s.len() - 2]));
            let before = words(front);
            assert(words(s) == before.drop_last().push(before.last().push(lower(s.last()))));
            assert forall|i: int| 0 <= i < s.len() implies #[trigger] words(s)[0][i] == lower(
                s[i],
            ) by {
                if i < front.len() {
                    assert(words(s)[0][i] == words(front)[0][i]);
                }
            }
        } else {
            assert(words(s) =~= seq![seq![lower(s.last())]]);
        }
    }
}

proof fn lemma_words_apart(a: Seq<char>, c: char, b: Seq<char>)
    requires
        !is_alnum(c),
    ensures
        words(a.push(c) + b) == words(a) + words(b),
    decreases b.len(),
{
    let s = a.push(c) + b;
    if b.len() == 0 {
        assert(s =~= a.push(c));
        assert(a.push(c).drop_last() =~= a);
        assert(words(a) + words(b) =~= words(a));
    } else {
        let front = b.drop_last();
        lemma_words_apart(a, c, front);
        assert(s.drop_last() =~= a.push(c) + front);
        assert(s.last() == b.last());
        if b.len() == 1 {
            assert(s[s.len() - 2] == c);
            assert(words(front) =~= Seq::empty());
        } else {
            assert(s[s.len() - 2] == b[b.len() - 2]);
            lemma_words_not_empty(front);
            assert(front.last() == b[b.len() - 2]);
        }
        assert(words(s) =~= words(a) + words(b));
    }
}

proof fn lemma_join_of_two(x: Seq<Seq<char>>, y: Seq<Seq<char>>, sep: Seq<char>)
    requires
        x.len() > 0,
        y.len() > 0,
    ensures
        text::join(x + y, sep) == text::join(x, sep) + sep + text::join(y, sep),
    decreases y.len(),
{
    assert((x + y).drop_last() =~= x + y.drop_last());
    if y.len() == 1 {
        assert(x + y.drop_last() =~= x);
    } else {
        lemma_join_of_two(x, y.drop_last(), sep);
        assert(text::join(x + y, sep) =~= text::join(x, sep) + sep + text::join(y, sep));
    }
}

/// What is neither letter nor digit stands for one dash between two slugs, and for
/// nothing where there is no slug on either side.
pub proof fn law_other_characters_become_a_dash(a: Seq<char>, c: char, b: Seq<char>)
    requires
        !('a' <= c <= 'z' || 'A' <= c <= 'Z' || '0' <= c <= '9'),
    ensures
        slug_of(a.push(c) + b) == (if slug_of(a).len() == 0 {
            slug_of(b)
        } else if slug_of(b).len() == 0 {
            slug_of(a)
        } else {
            slug_of(a) + seq!['-'] + slug_of(b)
        }),
{
    let dash = seq!['-'];
    lemma_words_apart(a, c, b);
    lemma_words_not_empty(a);
    lemma_words_not_empty(b);
    lemma_join_empty(words(a), dash);
    lemma_join_empty(words(b), dash);
    if words(a).len() == 0 {
        assert(words(a) + words(b) =~= words(b));
    } else if words(b).len() == 0 {
        assert(words(a) + words(b) =~= words(a));
    } else {
        lemma_join_of_two(words(a), words(b), dash);
    }
}

/// Whatever a text holds, no character of what is written of it stands in front of the
/// space, but for tab, and none is that of the delete key.
pub proof fn law_quoted_text_is_printable(s: Seq<char>, c: char)
    requires
        quoted(s).contains(c),
    ensures
        c == '\t' || c >= ' ' && c as u32 != 127,
{
    law_quoted_text_is_clean(s);
    let i = choose|i: int| 0 <= i < quoted(s).len() && quoted(s)[i] == c;
    assert(!is_forbidden_control(quoted(s)[i]));
}

} // verus!
