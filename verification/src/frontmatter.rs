//! What the frontmatter of a stop file stands for, and that a stop that was
//! written is read back.
//!
//! The reading follows TOML as far as a stop file uses it: one key and its value
//! per line, basic strings, plain decimal integers, inline tables.

use crate::cli::{AnchorKind, StopArgs};
use crate::stop;
use crate::stop::StopFrontmatter;
use crate::text;
use crate::util;
use vstd::prelude::*;

verus! {

/// A string or an integer.
pub ghost enum ScalarView {
    Integer(int),
    Text(Seq<char>),
}

/// What an anchor's table holds.
pub ghost struct AnchorView {
    pub kind: Seq<char>,
    pub value: Option<ScalarView>,
    pub query: Option<Seq<char>>,
}

/// What the lines of a frontmatter stand for.
pub ghost struct FrontmatterView {
    pub id: Option<Seq<char>>,
    pub file: Option<Seq<char>>,
    pub anchor: Option<AnchorView>,
    pub title: Option<Seq<char>>,
    pub highlight: Option<int>,
}

/// The lines of a text: its pieces between line feeds.
pub open spec fn lines_of(s: Seq<char>) -> Seq<Seq<char>>
    decreases s.len(),
{
    if s.len() == 0 {
        seq![Seq::empty()]
    } else {
        let before = lines_of(s.drop_last());
        if s.last() == '\n' {
            before.push(Seq::empty())
        } else {
            before.drop_last().push(before.last().push(s.last()))
        }
    }
}

/// What stands between `open`, at the start of `v`, and `close`, at its end.
pub open spec fn between(v: Seq<char>, open: Seq<char>, close: Seq<char>) -> Option<Seq<char>> {
    if v.len() >= open.len() + close.len() && text::begins_with(v, open) && v.skip(
        v.len() - close.len(),
    ) == close {
        Some(v.subrange(open.len() as int, v.len() - close.len()))
    } else {
        None
    }
}

/// What follows `key` in the first line from index `i` on that begins with it.
pub open spec fn value_after(lines: Seq<Seq<char>>, key: Seq<char>, i: int) -> Option<Seq<char>>
    decreases lines.len() - i,
{
    if i < 0 || i >= lines.len() {
        None
    } else if text::begins_with(lines[i], key) {
        Some(lines[i].skip(key.len() as int))
    } else {
        value_after(lines, key, i + 1)
    }
}

/// The text that a basic string stands for, where `v` is one.
pub open spec fn read_text(v: Seq<char>) -> Option<Seq<char>> {
    if v.len() >= 2 && v[0] == '"' && util::closing_quote(v, 1) == Some(v.len() - 1) {
        Some(util::unescaped(v.subrange(1, v.len() - 1)))
    } else {
        None
    }
}

/// A decimal digit.
pub open spec fn is_digit(c: char) -> bool {
    '0' <= c <= '9'
}

/// The number that digits stand for.
pub open spec fn digits_value(s: Seq<char>) -> nat
    decreases s.len(),
{
    if s.len() == 0 {
        0
    } else {
        digits_value(s.drop_last()) * 10 + (s.last() as int - '0' as int) as nat
    }
}

/// Digits, the first of which is no zero unless it is the only one.
pub open spec fn is_decimal(s: Seq<char>) -> bool {
    &&& s.len() > 0
    &&& forall|i: int| 0 <= i < s.len() ==> is_digit(#[trigger] s[i])
    &&& s[0] == '0' ==> s.len() == 1
}

/// The number that `v` stands for, where it is a plain decimal integer.
pub open spec fn read_integer(v: Seq<char>) -> Option<int> {
    if is_decimal(v) {
        Some(digits_value(v) as int)
    } else if v.len() > 0 && v[0] == '-' && is_decimal(v.skip(1)) {
        Some(-(digits_value(v.skip(1)) as int))
    } else {
        None
    }
}

/// The string or the integer that `v` stands for.
pub open spec fn read_scalar(v: Seq<char>) -> Option<ScalarView> {
    match read_text(v) {
        Some(t) => Some(ScalarView::Text(t)),
        None => match read_integer(v) {
            Some(n) => Some(ScalarView::Integer(n)),
            None => None,
        },
    }
}

/// What an optional basic string stands for.
pub open spec fn read_optional(v: Option<Seq<char>>) -> Option<Seq<char>> {
    match v {
        Some(v) => read_text(v),
        None => None,
    }
}

/// The entries of an anchor's table: the kind, then the value or the query.
pub open spec fn read_anchor_entries(m: Seq<char>) -> Option<AnchorView> {
    match util::closing_quote(m, 1) {
        Some(end) => {
            let kind = util::unescaped(m.subrange(1, end));
            let rest = m.skip(end + 1);
            match (between(rest, ", value = "@, Seq::empty()), between(
                rest,
                ", query = "@,
                Seq::empty(),
            )) {
                (Some(value), _) => Some(
                    AnchorView { kind, value: read_scalar(value), query: None },
                ),
                (None, Some(query)) => Some(
                    AnchorView { kind, value: None, query: read_text(query) },
                ),
                (None, None) => None,
            }
        },
        None => None,
    }
}

/// The anchor that an inline table stands for.
pub open spec fn read_anchor(v: Seq<char>) -> Option<AnchorView> {
    match between(v, "{ kind = "@, " }"@) {
        Some(m) => if m.len() > 0 && m[0] == '"' {
            read_anchor_entries(m)
        } else {
            None
        },
        None => None,
    }
}

/// The number of lines that a highlight's inline table stands for.
pub open spec fn read_highlight(v: Seq<char>) -> Option<int> {
    match between(v, "{ lines = "@, " }"@) {
        Some(m) => read_integer(m),
        None => None,
    }
}

/// What a frontmatter stands for.
pub open spec fn read_frontmatter(f: Seq<char>) -> FrontmatterView {
    let lines = lines_of(f);
    FrontmatterView {
        id: read_optional(value_after(lines, "id = "@, 0)),
        file: read_optional(value_after(lines, "file = "@, 0)),
        anchor: match value_after(lines, "anchor = "@, 0) {
            Some(v) => read_anchor(v),
            None => None,
        },
        title: read_optional(value_after(lines, "title = "@, 0)),
        highlight: match value_after(lines, "highlight = "@, 0) {
            Some(v) => read_highlight(v),
            None => None,
        },
    }
}

/// The name of an anchor kind.
pub open spec fn kind_name(kind: AnchorKind) -> Seq<char> {
    match kind {
        AnchorKind::Line => "line"@,
        AnchorKind::Pattern => "pattern"@,
        AnchorKind::Treesitter => "treesitter"@,
    }
}

/// The anchor that was given for a stop.
pub open spec fn given_anchor(kind: AnchorKind, value: Seq<char>) -> AnchorView {
    AnchorView {
        kind: kind_name(kind),
        value: match kind {
            AnchorKind::Line => Some(ScalarView::Integer(read_integer(value).unwrap())),
            AnchorKind::Pattern => Some(ScalarView::Text(value)),
            AnchorKind::Treesitter => None,
        },
        query: match kind {
            AnchorKind::Treesitter => Some(value),
            _ => None,
        },
    }
}

/// What was given for a stop.
pub open spec fn given(stop: StopArgs) -> FrontmatterView {
    FrontmatterView {
        id: text::opt_text(stop.id),
        file: text::opt_text(stop.file),
        anchor: Some(given_anchor(stop.anchor_kind.unwrap(), stop.anchor.unwrap()@)),
        title: text::opt_text(stop.title),
        highlight: match stop.highlight_lines {
            Some(n) => Some(n as int),
            None => None,
        },
    }
}

proof fn lemma_one_line(s: Seq<char>)
    requires
        forall|i: int| 0 <= i < s.len() ==> #[trigger] s[i] != '\n',
    ensures
        lines_of(s) == seq![s],
    decreases s.len(),
{
    if s.len() > 0 {
        let front = s.drop_last();
        assert forall|i: int| 0 <= i < front.len() implies #[trigger] front[i] != '\n' by {
            assert(front[i] == s[i]);
        }
        lemma_one_line(front);
        assert(front.push(s.last()) =~= s);
        assert(lines_of(s) =~= seq![s]);
    } else {
        assert(lines_of(s)[0] =~= s);
        assert(lines_of(s) =~= seq![s]);
    }
}

proof fn lemma_next_line(a: Seq<char>, b: Seq<char>)
    requires
        forall|i: int| 0 <= i < b.len() ==> #[trigger] b[i] != '\n',
    ensures
        lines_of(a + seq!['\n'] + b) == lines_of(a).push(b),
    decreases b.len(),
{
    let s = a + seq!['\n'] + b;
    if b.len() > 0 {
        let front = b.drop_last();
        assert forall|i: int| 0 <= i < front.len() implies #[trigger] front[i] != '\n' by {
            assert(front[i] == b[i]);
        }
        lemma_next_line(a, front);
        assert(s.drop_last() =~= a + seq!['\n'] + front);
        assert(s.last() == b.last());
        assert(front.push(b.last()) =~= b);
        assert(lines_of(s) =~= lines_of(a).push(b));
    } else {
        assert(s.drop_last() =~= a);
        assert(Seq::<char>::empty() =~= b);
    }
}

/// Lines that were put together come apart again.
proof fn lemma_lines_of_join(parts: Seq<Seq<char>>)
    requires
        parts.len() > 0,
        forall|k: int, i: int|
            0 <= k < parts.len() && 0 <= i < parts[k].len() ==> #[trigger] parts[k][i] != '\n',
    ensures
        lines_of(text::join(parts, seq!['\n'])) == parts,
    decreases parts.len(),
{
    let last = parts.last();
    assert forall|i: int| 0 <= i < last.len() implies #[trigger] last[i] != '\n' by {
        assert(parts[parts.len() - 1][i] != '\n');
    }
    if parts.len() == 1 {
        lemma_one_line(last);
        assert(parts =~= seq![last]);
    } else {
        let front = parts.drop_last();
        assert forall|k: int, i: int|
            0 <= k < front.len() && 0 <= i < front[k].len() implies #[trigger] front[k][i]
            != '\n' by {
            assert(parts[k][i] != '\n');
        }
        lemma_lines_of_join(front);
        lemma_next_line(text::join(front, seq!['\n']), last);
        assert(front.push(last) =~= parts);
    }
}

proof fn lemma_between(open: Seq<char>, m: Seq<char>, close: Seq<char>)
    ensures
        between(open + m + close, open, close) == Some(m),
{
    let v = open + m + close;
    assert(v.subrange(0, open.len() as int) =~= open);
    assert(v.skip(v.len() - close.len()) =~= close);
    assert(v.subrange(open.len() as int, v.len() - close.len()) =~= m);
}

/// A line that begins with another character does not begin with the key.
proof fn lemma_other_key(line: Seq<char>, key: Seq<char>)
    requires
        line.len() > 0,
        key.len() > 0,
        line[0] != key[0],
    ensures
        !text::begins_with(line, key),
{
    if text::begins_with(line, key) {
        assert(line.subrange(0, key.len() as int)[0] == line[0]);
    }
}

/// The line at `k` is the only one that begins as the key does.
proof fn lemma_value_after(lines: Seq<Seq<char>>, key: Seq<char>, value: Seq<char>, k: int, i: int)
    requires
        0 <= i <= k < lines.len(),
        key.len() > 0,
        lines[k] == key + value,
        forall|j: int|
            0 <= j < lines.len() && j != k ==> #[trigger] lines[j].len() > 0 && lines[j][0]
                != key[0],
    ensures
        value_after(lines, key, i) == Some(value),
    decreases k - i,
{
    if i == k {
        assert(lines[k].subrange(0, key.len() as int) =~= key);
        assert(lines[k].skip(key.len() as int) =~= value);
    } else {
        assert(lines[i].len() > 0);
        lemma_other_key(lines[i], key);
        lemma_value_after(lines, key, value, k, i + 1);
    }
}

/// No line begins as the key does.
proof fn lemma_no_value_after(lines: Seq<Seq<char>>, key: Seq<char>, i: int)
    requires
        0 <= i <= lines.len(),
        key.len() > 0,
        forall|j: int|
            0 <= j < lines.len() ==> #[trigger] lines[j].len() > 0 && lines[j][0] != key[0],
    ensures
        value_after(lines, key, i) is None,
    decreases lines.len() - i,
{
    if i < lines.len() {
        assert(lines[i].len() > 0);
        lemma_other_key(lines[i], key);
        lemma_no_value_after(lines, key, i + 1);
    }
}

/// A quoted text that stands alone is read back.
proof fn lemma_read_text(s: Seq<char>)
    ensures
        read_text(util::quoted(s)) == Some(s),
{
    util::law_quoted_text_reads_back(s, Seq::empty());
    assert(util::quoted(s) + Seq::<char>::empty() =~= util::quoted(s));
}

/// A number in decimal is read back.
pub proof fn law_decimal_reads_back(n: nat)
    ensures
        is_decimal(text::decimal_text(n)),
        read_integer(text::decimal_text(n)) == Some(n as int),
{
    lemma_decimal(n);
}

proof fn lemma_decimal(n: nat)
    ensures
        is_decimal(text::decimal_text(n)),
        digits_value(text::decimal_text(n)) == n,
        n > 0 ==> text::decimal_text(n)[0] != '0',
    decreases n,
{
    let s = text::decimal_text(n);
    let d = n % 10;
    stop::lemma_decimal_digits(n);
    assert forall|i: int| 0 <= i < s.len() implies is_digit(#[trigger] s[i]) by {}
    assert((48 + d) as u8 == 48 + d);
    reveal_with_fuel(digits_value, 2);
    if n >= 10 {
        lemma_decimal(n / 10);
        let front = text::decimal_text(n / 10);
        assert(s.drop_last() =~= front);
        assert(s[0] == front[0]);
        assert(n == (n / 10) * 10 + d);
    } else {
        assert(s.drop_last() =~= Seq::<char>::empty());
    }
}

/// A text without characters that need an escape is quoted as it is.
proof fn lemma_plain(s: Seq<char>)
    requires
        forall|i: int| 0 <= i < s.len() ==> util::is_alnum(#[trigger] s[i]),
    ensures
        util::escaped(s) == s,
    decreases s.len(),
{
    if s.len() > 0 {
        let front = s.drop_last();
        assert forall|i: int| 0 <= i < front.len() implies util::is_alnum(#[trigger] front[i]) by {
            assert(front[i] == s[i]);
        }
        lemma_plain(front);
        assert(util::is_alnum(s[s.len() - 1]));
        assert(util::escaped(s) =~= s);
    } else {
        assert(util::escaped(s) =~= s);
    }
}

/// The middle of an anchor's table is read back, where what follows the kind is.
proof fn lemma_anchor_entries(kind: Seq<char>, tail: Seq<char>)
    ensures
        (util::quoted(kind) + tail)[0] == '"',
        util::closing_quote(util::quoted(kind) + tail, 1) == Some(util::quoted(kind).len() - 1),
        util::unescaped((util::quoted(kind) + tail).subrange(1, util::quoted(kind).len() - 1))
            == kind,
        (util::quoted(kind) + tail).skip(util::quoted(kind).len() as int) == tail,
{
    util::law_quoted_text_reads_back(kind, tail);
    assert((util::quoted(kind) + tail).skip(util::quoted(kind).len() as int) =~= tail);
}

/// The value of the anchor's line.
spec fn anchor_value(kind: AnchorKind, value: Seq<char>) -> Seq<char> {
    "{ kind = "@ + anchor_middle(kind, value) + " }"@
}

spec fn anchor_middle(kind: AnchorKind, value: Seq<char>) -> Seq<char> {
    util::quoted(kind_name(kind)) + match kind {
        AnchorKind::Line => ", value = "@ + value,
        AnchorKind::Pattern => ", value = "@ + util::quoted(value),
        AnchorKind::Treesitter => ", query = "@ + util::quoted(value),
    }
}

proof fn lemma_anchor_line(kind: AnchorKind, value: Seq<char>)
    ensures
        stop::anchor_entry(kind, value) == "anchor = "@ + anchor_value(kind, value),
{
    reveal_strlit("anchor = ");
    reveal_strlit("{ kind = ");
    reveal_strlit(" }");
    reveal_strlit(", value = ");
    reveal_strlit(", query = ");
    match kind {
        AnchorKind::Line => {
            reveal_strlit("line");
            lemma_plain("line"@);
            reveal_strlit("anchor = { kind = \"line\", value = ");
            assert("anchor = { kind = \"line\", value = "@ =~= "anchor = "@ + "{ kind = "@
                + util::quoted("line"@) + ", value = "@);
        },
        AnchorKind::Pattern => {
            reveal_strlit("pattern");
            lemma_plain("pattern"@);
            reveal_strlit("anchor = { kind = \"pattern\", value = ");
            assert("anchor = { kind = \"pattern\", value = "@ =~= "anchor = "@ + "{ kind = "@
                + util::quoted("pattern"@) + ", value = "@);
        },
        AnchorKind::Treesitter => {
            reveal_strlit("treesitter");
            lemma_plain("treesitter"@);
            reveal_strlit("anchor = { kind = \"treesitter\", query = ");
            assert("anchor = { kind = \"treesitter\", query = "@ =~= "anchor = "@ + "{ kind = "@
                + util::quoted("treesitter"@) + ", query = "@);
        },
    }
    assert(stop::anchor_entry(kind, value) =~= "anchor = "@ + anchor_value(kind, value));
}

/// An anchor that was written is read back.
proof fn lemma_anchor_reads_back(kind: AnchorKind, value: Seq<char>)
    requires
        kind is Line ==> read_integer(value) is Some,
    ensures
        read_anchor(anchor_value(kind, value)) == Some(given_anchor(kind, value)),
{
    let m = anchor_middle(kind, value);
    lemma_between("{ kind = "@, m, " }"@);
    let name = kind_name(kind);
    reveal_strlit(", value = ");
    reveal_strlit(", query = ");
    let none = Seq::<char>::empty();
    match kind {
        AnchorKind::Line => {
            let tail = ", value = "@ + value;
            lemma_anchor_entries(name, tail);
            lemma_between(", value = "@, value, none);
            assert(tail + none =~= tail);
            assert(value[0] != '"') by {
                if is_decimal(value) {
                    assert(is_digit(value[0]));
                }
            }
        },
        AnchorKind::Pattern => {
            let tail = ", value = "@ + util::quoted(value);
            lemma_anchor_entries(name, tail);
            lemma_between(", value = "@, util::quoted(value), none);
            assert(tail + none =~= tail);
            lemma_read_text(value);
        },
        AnchorKind::Treesitter => {
            let tail = ", query = "@ + util::quoted(value);
            lemma_anchor_entries(name, tail);
            lemma_between(", query = "@, util::quoted(value), none);
            assert(tail + none =~= tail);
            lemma_read_text(value);
            assert(between(tail, ", value = "@, none) is None) by {
                if text::begins_with(tail, ", value = "@) {
                    assert(tail.subrange(0, 10)[2] == tail[2]);
                }
            }
        },
    }
}

/// The lines of a stop's frontmatter, the optional ones in place or missing.
spec fn given_lines(
    id: Option<Seq<char>>,
    file: Seq<char>,
    anchor: Seq<char>,
    title: Option<Seq<char>>,
    highlight: Option<Seq<char>>,
) -> Seq<Seq<char>> {
    stop::optional_line(id) + seq![file, anchor] + stop::optional_line(title)
        + stop::optional_line(highlight)
}

/// Each key finds its own line, and none where its line is missing.
proof fn lemma_each_key(
    id: Option<Seq<char>>,
    file: Seq<char>,
    anchor: Seq<char>,
    title: Option<Seq<char>>,
    highlight: Option<Seq<char>>,
)
    ensures
        ({
            let lines = given_lines(
                keyed("id = "@, id),
                "file = "@ + file,
                "anchor = "@ + anchor,
                keyed("title = "@, title),
                keyed("highlight = "@, highlight),
            );
            &&& value_after(lines, "id = "@, 0) == id
            &&& value_after(lines, "file = "@, 0) == Some(file)
            &&& value_after(lines, "anchor = "@, 0) == Some(anchor)
            &&& value_after(lines, "title = "@, 0) == title
            &&& value_after(lines, "highlight = "@, 0) == highlight
        }),
{
    reveal_strlit("id = ");
    reveal_strlit("file = ");
    reveal_strlit("anchor = ");
    reveal_strlit("title = ");
    reveal_strlit("highlight = ");
    let lines = given_lines(
        keyed("id = "@, id),
        "file = "@ + file,
        "anchor = "@ + anchor,
        keyed("title = "@, title),
        keyed("highlight = "@, highlight),
    );
    let a: int = if id is Some {
        1
    } else {
        0
    };
    let b: int = if title is Some {
        a + 3
    } else {
        a + 2
    };
    assert(lines[a] == "file = "@ + file);
    assert(lines[a + 1] == "anchor = "@ + anchor);
    match id {
        Some(v) => {
            assert(lines[0] == "id = "@ + v);
            lemma_value_after(lines, "id = "@, v, 0, 0);
        },
        None => lemma_no_value_after(lines, "id = "@, 0),
    }
    lemma_value_after(lines, "file = "@, file, a, 0);
    lemma_value_after(lines, "anchor = "@, anchor, a + 1, 0);
    match title {
        Some(v) => {
            assert(lines[a + 2] == "title = "@ + v);
            lemma_value_after(lines, "title = "@, v, a + 2, 0);
        },
        None => lemma_no_value_after(lines, "title = "@, 0),
    }
    match highlight {
        Some(v) => {
            assert(lines[b] == "highlight = "@ + v);
            lemma_value_after(lines, "highlight = "@, v, b, 0);
        },
        None => lemma_no_value_after(lines, "highlight = "@, 0),
    }
}

/// An optional value behind its key.
spec fn keyed(key: Seq<char>, value: Option<Seq<char>>) -> Option<Seq<char>> {
    match value {
        Some(v) => Some(key + v),
        None => None,
    }
}

/// An optional text, quoted.
spec fn optional_quoted(t: Option<Seq<char>>) -> Option<Seq<char>> {
    match t {
        Some(t) => Some(util::quoted(t)),
        None => None,
    }
}

spec fn highlight_value(n: Option<usize>) -> Option<Seq<char>> {
    match n {
        Some(n) => Some("{ lines = "@ + text::decimal_text(n as nat) + " }"@),
        None => None,
    }
}

proof fn lemma_entries(stop: StopArgs)
    requires
        stop.is_complete(),
    ensures
        stop::entries(stop) == given_lines(
            keyed("id = "@, optional_quoted(text::opt_text(stop.id))),
            "file = "@ + util::quoted(stop.file.unwrap()@),
            "anchor = "@ + anchor_value(stop.anchor_kind.unwrap(), stop.anchor.unwrap()@),
            keyed("title = "@, optional_quoted(text::opt_text(stop.title))),
            keyed("highlight = "@, highlight_value(stop.highlight_lines)),
        ),
{
    lemma_anchor_line(stop.anchor_kind.unwrap(), stop.anchor.unwrap()@);
    reveal_strlit("highlight = { lines = ");
    reveal_strlit("highlight = ");
    reveal_strlit("{ lines = ");
    if let Some(n) = stop.highlight_lines {
        assert("highlight = { lines = "@ + text::decimal_text(n as nat) + " }"@ =~= "highlight = "@
            + ("{ lines = "@ + text::decimal_text(n as nat) + " }"@));
    }
}

/// No line of a stop's frontmatter holds a line feed, where a line anchor holds none.
proof fn lemma_entries_are_lines(stop: StopArgs)
    requires
        stop.is_complete(),
        stop.anchor_kind == Some(AnchorKind::Line) ==> forall|i: int|
            0 <= i < stop.anchor.unwrap()@.len() ==> #[trigger] stop.anchor.unwrap()@[i] != '\n',
    ensures
        forall|k: int, i: int|
            0 <= k < stop::entries(stop).len() && 0 <= i < stop::entries(stop)[k].len()
                ==> #[trigger] stop::entries(stop)[k][i] != '\n',
{
    reveal_strlit("id = ");
    reveal_strlit("file = ");
    reveal_strlit("title = ");
    reveal_strlit("highlight = { lines = ");
    reveal_strlit(" }");
    reveal_strlit("anchor = { kind = \"line\", value = ");
    reveal_strlit("anchor = { kind = \"pattern\", value = ");
    reveal_strlit("anchor = { kind = \"treesitter\", query = ");
    if let Some(id) = stop.id {
        stop::lemma_quoted_line(id@);
    }
    stop::lemma_quoted_line(stop.file.unwrap()@);
    stop::lemma_quoted_line(stop.anchor.unwrap()@);
    if let Some(title) = stop.title {
        stop::lemma_quoted_line(title@);
    }
    if let Some(n) = stop.highlight_lines {
        stop::lemma_decimal_digits(n as nat);
    }
}

/// A plain decimal integer holds no line feed.
proof fn lemma_integer_line(v: Seq<char>)
    requires
        read_integer(v) is Some,
    ensures
        forall|i: int| 0 <= i < v.len() ==> #[trigger] v[i] != '\n',
        stop::has_no_closing(v),
{
    assert forall|i: int| 0 <= i < v.len() implies #[trigger] v[i] != '\n' by {
        if is_decimal(v) {
            assert(is_digit(v[i]));
        } else if i > 0 {
            assert(is_digit(v.skip(1)[i - 1]));
        }
    }
    stop::lemma_no_line_feed(v);
}

/// A stop that was written is read back: its file, cut at the dashes, gives a
/// frontmatter whose lines stand for what was given, and its commentary behind an
/// empty line. A line anchor is a plain decimal integer.
pub proof fn law_written_stop_reads_back(stop: StopArgs, file_body: Seq<char>)
    requires
        stop.is_complete(),
        stop.anchor_kind == Some(AnchorKind::Line) ==> read_integer(stop.anchor.unwrap()@) is Some,
    ensures
        stop::split(stop::stop_text(stop, file_body)) matches Some((f, b)) && read_frontmatter(f)
            == given(stop) && b == seq!['\n'] + stop::with_line_feed(
            stop::commentary(stop, file_body),
        ),
{
    let value = stop.anchor.unwrap()@;
    let kind = stop.anchor_kind.unwrap();
    if kind is Line {
        lemma_integer_line(value);
    }
    stop::law_split_undoes_build(stop, file_body);
    lemma_entries_are_lines(stop);
    lemma_lines_of_join(stop::entries(stop));
    lemma_entries(stop);
    lemma_each_key(
        optional_quoted(text::opt_text(stop.id)),
        util::quoted(stop.file.unwrap()@),
        anchor_value(kind, value),
        optional_quoted(text::opt_text(stop.title)),
        highlight_value(stop.highlight_lines),
    );
    if let Some(id) = stop.id {
        lemma_read_text(id@);
    }
    lemma_read_text(stop.file.unwrap()@);
    lemma_anchor_reads_back(kind, value);
    if let Some(title) = stop.title {
        lemma_read_text(title@);
    }
    if let Some(n) = stop.highlight_lines {
        lemma_between("{ lines = "@, text::decimal_text(n as nat), " }"@);
        law_decimal_reads_back(n as nat);
    }
}

/// The value is the string or the integer.
pub open spec fn is_scalar(v: Option<stop::Value>, s: Option<ScalarView>) -> bool {
    match s {
        Some(ScalarView::Integer(n)) => stop::integer_of(v) == Some(n),
        Some(ScalarView::Text(t)) => stop::text_of(v) == Some(t),
        None => v is None,
    }
}

/// `fm` holds what a frontmatter stands for.
pub open spec fn holds(fm: StopFrontmatter, v: FrontmatterView) -> bool {
    &&& v.file == Some(fm.file@)
    &&& v.title == text::opt_text(fm.title)
    &&& v.anchor matches Some(a) && {
        &&& fm.anchor.kind@ == a.kind
        &&& is_scalar(fm.anchor.value, a.value)
        &&& text::opt_text(fm.anchor.query) == a.query
    }
    &&& match v.highlight {
        Some(n) => fm.highlight matches Some(h) && stop::integer_of(
            stop::value_under(h, "lines"@),
        ) == Some(n),
        None => fm.highlight is None,
    }
}

/// A stop that was written and parsed again has the same file, title, kind,
/// anchor and highlight, under the name that its slug gives.
pub proof fn law_parsed_stop_is_the_written_one(
    stop: StopArgs,
    file_body: Seq<char>,
    fm: StopFrontmatter,
)
    requires
        stop.is_complete(),
        stop.anchor_kind == Some(AnchorKind::Line) ==> read_integer(stop.anchor.unwrap()@) is Some,
        stop::split(stop::stop_text(stop, file_body)) matches Some((f, _)) ==> holds(
            fm,
            read_frontmatter(f),
        ),
    ensures
        stop::stop_file_name(stop) == stop.stop_slug() + ".md"@,
        fm.file@ == stop.file.unwrap()@,
        text::opt_text(fm.title) == text::opt_text(stop.title),
        fm.anchor.kind@ == kind_name(stop.anchor_kind.unwrap()),
        match stop.anchor_kind.unwrap() {
            AnchorKind::Line => stop::integer_of(fm.anchor.value) == read_integer(
                stop.anchor.unwrap()@,
            ),
            AnchorKind::Pattern => stop::text_of(fm.anchor.value) == Some(stop.anchor.unwrap()@),
            AnchorKind::Treesitter => text::opt_text(fm.anchor.query) == Some(
                stop.anchor.unwrap()@,
            ),
        },
        match stop.highlight_lines {
            Some(n) => fm.highlight matches Some(h) && stop::integer_of(
                stop::value_under(h, "lines"@),
            ) == Some(n as int),
            None => fm.highlight is None,
        },
{
    law_written_stop_reads_back(stop, file_body);
}

/// A number with its sign is read back.
pub proof fn law_signed_decimal_reads_back(n: int)
    ensures
        read_integer(text::signed_decimal_text(n)) == Some(n),
{
    if n < 0 {
        let digits = text::decimal_text((-n) as nat);
        law_decimal_reads_back((-n) as nat);
        lemma_decimal((-n) as nat);
        let s = seq!['-'] + digits;
        assert(s.skip(1) =~= digits);
        assert(!is_decimal(s)) by {
            if is_decimal(s) {
                assert(is_digit(s[0]));
            }
        }
    } else {
        law_decimal_reads_back(n as nat);
    }
}

} // verus!
