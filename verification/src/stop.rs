//! Stop files: TOML frontmatter between two lines of dashes, then the commentary.

use crate::cli;
use crate::cli::{AnchorKind, StopArgs};
use crate::text;
use crate::util;
use vstd::prelude::*;
use vstd::string::*;

verus! {

/// A TOML value, as far as stops use it.
#[derive(Debug)]
pub enum Value {
    Integer(i64),
    Text(String),
    /// Keys and values. A key stands there once.
    Table(Vec<(String, Value)>),
    /// Any other kind of value.
    Other,
}

/// Frontmatter shape, as parsed from a stop file.
#[derive(Debug)]
pub struct StopFrontmatter {
    pub file: String,
    pub anchor: Anchor,
    pub title: Option<String>,
    pub highlight: Option<Value>,
}

/// Where a stop points at in its file.
#[derive(Debug)]
pub struct Anchor {
    pub kind: String,
    pub value: Option<Value>,
    pub query: Option<String>,
}

/// The integer in an optional value, if it is one.
pub open spec fn integer_of(v: Option<Value>) -> Option<int> {
    match v {
        Some(Value::Integer(n)) => Some(n as int),
        _ => None,
    }
}

/// The text in an optional value, if it is one.
pub open spec fn text_of(v: Option<Value>) -> Option<Seq<char>> {
    match v {
        Some(Value::Text(s)) => Some(s@),
        _ => None,
    }
}

/// The first entry from index `i` on with that key.
pub open spec fn entry_from(entries: Seq<(String, Value)>, key: Seq<char>, i: int) -> Option<Value>
    decreases entries.len() - i,
{
    if i < 0 || i >= entries.len() {
        None
    } else if entries[i].0@ == key {
        Some(entries[i].1)
    } else {
        entry_from(entries, key, i + 1)
    }
}

/// The value under `key`, where `v` is a table that holds it.
pub open spec fn value_under(v: Value, key: Seq<char>) -> Option<Value> {
    match v {
        Value::Table(entries) => entry_from(entries@, key, 0),
        _ => None,
    }
}

/// The text, or a question mark where there is none.
pub open spec fn or_question_mark(t: Option<Seq<char>>) -> Seq<char> {
    match t {
        Some(s) => s,
        None => "?"@,
    }
}

/// An anchor in a few words.
pub open spec fn anchor_words(anchor: Anchor) -> Seq<char> {
    if anchor.kind@ == "line"@ {
        "line "@ + or_question_mark(
            match integer_of(anchor.value) {
                Some(n) => Some(text::signed_decimal_text(n)),
                None => None,
            },
        )
    } else if anchor.kind@ == "pattern"@ {
        "pattern /"@ + or_question_mark(text_of(anchor.value)) + "/"@
    } else if anchor.kind@ == "treesitter"@ {
        "ts "@ + or_question_mark(text::opt_text(anchor.query))
    } else {
        anchor.kind@
    }
}

impl Value {
    /// The number, where the value is an integer.
    pub fn as_integer(&self) -> (r: Option<i64>)
        ensures
            r == (match *self {
                Value::Integer(n) => Some(n),
                _ => None,
            }),
    {
        match self {
            Value::Integer(n) => Some(*n),
            _ => None,
        }
    }

    /// The text, where the value is a string.
    pub fn as_str(&self) -> (r: Option<&str>)
        ensures
            match r {
                Some(s) => *self matches Value::Text(t) && t@ == s@,
                None => !(*self is Text),
            },
    {
        match self {
            Value::Text(s) => Some(s.as_str()),
            _ => None,
        }
    }

    /// The value under `key`, where the value is a table that holds it.
    pub fn get(&self, key: &str) -> (r: Option<&Value>)
        ensures
            match r {
                Some(v) => value_under(*self, key@) == Some(*v),
                None => value_under(*self, key@) is None,
            },
    {
        match self {
            Value::Table(entries) => {
                let mut i: usize = 0;
                while i < entries.len()
                    invariant
                        *self == Value::Table(*entries),
                        i <= entries@.len(),
                        value_under(*self, key@) == entry_from(entries@, key@, i as int),
                    decreases entries@.len() - i,
                {
                    if text::same_text(entries[i].0.as_str(), key) {
                        return Some(&entries[i].1);
                    }
                    i = i + 1;
                }
                None
            },
            _ => None,
        }
    }
}

impl StopFrontmatter {
    /// Compact human-readable summary of the anchor for tabular display.
    pub fn anchor_display(&self) -> (r: String)
        ensures
            r@ == anchor_words(self.anchor),
    {
        let kind = self.anchor.kind.as_str();
        if text::same_text(kind, "line") {
            let n = match &self.anchor.value {
                Some(v) => v.as_integer(),
                None => None,
            };
            match n {
                Some(n) => {
                    let number = text::signed_decimal(n);
                    text::concat2("line ", number.as_str())
                },
                None => text::concat2("line ", "?"),
            }
        } else if text::same_text(kind, "pattern") {
            let pattern = match &self.anchor.value {
                Some(v) => match v.as_str() {
                    Some(s) => s,
                    None => "?",
                },
                None => "?",
            };
            text::concat3("pattern /", pattern, "/")
        } else if text::same_text(kind, "treesitter") {
            match &self.anchor.query {
                Some(q) => text::concat2("ts ", q.as_str()),
                None => text::concat2("ts ", "?"),
            }
        } else {
            self.anchor.kind.clone()
        }
    }
}

/// The line break, the dashes and the line break that end the frontmatter.
pub open spec fn closing() -> Seq<char> {
    seq!['\n', '-', '-', '-', '\n']
}

/// The same, in a file with carriage returns.
pub open spec fn closing_crlf() -> Seq<char> {
    seq!['\n', '-', '-', '-', '\r', '\n']
}

/// The frontmatter line for an anchor.
pub open spec fn anchor_entry(kind: AnchorKind, value: Seq<char>) -> Seq<char> {
    match kind {
        AnchorKind::Line => "anchor = { kind = \"line\", value = "@ + value + " }"@,
        AnchorKind::Pattern => "anchor = { kind = \"pattern\", value = "@ + util::quoted(value)
            + " }"@,
        AnchorKind::Treesitter => "anchor = { kind = \"treesitter\", query = "@ + util::quoted(
            value,
        ) + " }"@,
    }
}

/// One line where there is something to write, else none.
pub open spec fn optional_line(line: Option<Seq<char>>) -> Seq<Seq<char>> {
    match line {
        Some(l) => seq![l],
        None => Seq::empty(),
    }
}

/// The frontmatter lines of a stop: the id where there is one, file and anchor,
/// then title and highlight where there are.
pub open spec fn entries(stop: StopArgs) -> Seq<Seq<char>> {
    optional_line(
        match stop.id {
            Some(id) => Some("id = "@ + util::quoted(id@)),
            None => None,
        },
    ) + seq![
        "file = "@ + util::quoted(stop.file.unwrap()@),
        anchor_entry(stop.anchor_kind.unwrap(), stop.anchor.unwrap()@),
    ] + optional_line(
        match stop.title {
            Some(title) => Some("title = "@ + util::quoted(title@)),
            None => None,
        },
    ) + optional_line(
        match stop.highlight_lines {
            Some(n) => Some("highlight = { lines = "@ + text::decimal_text(n as nat) + " }"@),
            None => None,
        },
    )
}

/// The frontmatter of a stop.
pub open spec fn frontmatter(stop: StopArgs) -> Seq<char> {
    text::join(entries(stop), seq!['\n'])
}

/// The commentary of a stop: given inline, else read from its file, else empty.
pub open spec fn commentary(stop: StopArgs, file_body: Seq<char>) -> Seq<char> {
    match stop.body {
        Some(b) => b@,
        None => if stop.body_file is Some {
            file_body
        } else {
            Seq::empty()
        },
    }
}

/// `s`, with a line feed at its end.
pub open spec fn with_line_feed(s: Seq<char>) -> Seq<char> {
    if s.len() > 0 && s.last() == '\n' {
        s
    } else {
        s.push('\n')
    }
}

/// The whole stop file.
pub open spec fn stop_text(stop: StopArgs, file_body: Seq<char>) -> Seq<char> {
    "---\n"@ + frontmatter(stop) + "\n---\n\n"@ + with_line_feed(commentary(stop, file_body))
}

/// The name of the stop file.
pub open spec fn stop_file_name(stop: StopArgs) -> Seq<char> {
    stop.stop_slug() + ".md"@
}

/// The line for an anchor.
fn anchor_line(kind: AnchorKind, value: &str) -> (r: String)
    ensures
        r@ == anchor_entry(kind, value@),
{
    match kind {
        AnchorKind::Line => text::concat3("anchor = { kind = \"line\", value = ", value, " }"),
        AnchorKind::Pattern => {
            let q = util::toml_quote(value);
            text::concat3("anchor = { kind = \"pattern\", value = ", q.as_str(), " }")
        },
        AnchorKind::Treesitter => {
            let q = util::toml_quote(value);
            text::concat3("anchor = { kind = \"treesitter\", query = ", q.as_str(), " }")
        },
    }
}

/// The frontmatter lines of a stop.
fn entry_lines(stop: &StopArgs) -> (r: Vec<String>)
    requires
        stop.is_complete(),
    ensures
        text::texts(r@) == entries(*stop),
{
    let mut lines: Vec<String> = Vec::new();
    if let Some(id) = &stop.id {
        let q = util::toml_quote(id.as_str());
        lines.push(text::concat2("id = ", q.as_str()));
    }
    if let Some(file) = &stop.file {
        let q = util::toml_quote(file.as_str());
        lines.push(text::concat2("file = ", q.as_str()));
    }
    if let Some(kind) = stop.anchor_kind {
        if let Some(value) = &stop.anchor {
            lines.push(anchor_line(kind, value.as_str()));
        }
    }
    if let Some(title) = &stop.title {
        let q = util::toml_quote(title.as_str());
        lines.push(text::concat2("title = ", q.as_str()));
    }
    if let Some(n) = stop.highlight_lines {
        let number = text::decimal(n);
        lines.push(text::concat3("highlight = { lines = ", number.as_str(), " }"));
    }
    assert(text::texts(lines@) =~= entries(*stop));
    lines
}

/// Build the full text of a stop file (frontmatter + body). `file_body` is the
/// text of the body file, where the body is in a file.
pub fn build_content(stop: &StopArgs, file_body: &str) -> (r: String)
    requires
        stop.is_complete(),
    ensures
        r@ == stop_text(*stop, file_body@),
{
    let lines = entry_lines(stop);
    let head = text::join_strings(&lines, "\n");
    let mut out = text::concat3("---\n", head.as_str(), "\n---\n\n");
    let body: &str = match &stop.body {
        Some(b) => b.as_str(),
        None => if stop.body_file.is_some() {
            file_body
        } else {
            ""
        },
    };
    proof {
        reveal_strlit("\n");
        reveal_strlit("");
        assert("\n"@ =~= seq!['\n']);
        assert(body@ =~= commentary(*stop, file_body@));
    }
    out.append(body);
    let n: usize = body.unicode_len();
    if n == 0 || body.get_char(n - 1) != '\n' {
        out.push('\n');
    }
    assert(out@ =~= stop_text(*stop, file_body@));
    out
}

/// A stop file that is to be written.
#[derive(Debug)]
pub struct StopFile {
    pub filename: String,
    pub content: String,
}

/// The name of the file that a stop is written to.
pub fn file_name(stop: &StopArgs) -> (r: String)
    ensures
        r@ == stop_file_name(*stop),
{
    let slug = stop.slug();
    text::concat2(slug.as_str(), ".md")
}

/// The stop needs the text of its body file.
pub open spec fn needs_body_file(stop: StopArgs) -> bool {
    stop.body is None && stop.body_file is Some
}

/// What comes of writing a stop: an error where its file exists or its body file
/// could not be read, else the file's name and text. `path` is where the file
/// goes; `file_body` is what reading the body file gave, where there is one.
pub fn write_file(
    stop: &StopArgs,
    path: &str,
    exists: bool,
    file_body: &Result<String, String>,
) -> (r: Result<StopFile, String>)
    requires
        stop.is_complete(),
    ensures
        match r {
            Ok(f) => {
                &&& !exists
                &&& !(needs_body_file(*stop) && *file_body is Err)
                &&& f.filename@ == stop_file_name(*stop)
                &&& f.content@ == stop_text(
                    *stop,
                    match *file_body {
                        Ok(b) => b@,
                        Err(_) => Seq::empty(),
                    },
                )
            },
            Err(m) => if exists {
                m@ == path@ + " already exists"@
            } else {
                &&& needs_body_file(*stop)
                &&& *file_body matches Err(e) && m@ == "reading "@ + stop.body_file.unwrap()@
                    + ": "@ + e@
            },
        },
{
    if exists {
        return Err(text::concat2(path, " already exists"));
    }
    let body: &str = match file_body {
        Ok(b) => b.as_str(),
        Err(e) => {
            if stop.body.is_none() {
                if let Some(p) = &stop.body_file {
                    let mut m = text::concat3("reading ", p.as_str(), ": ");
                    m.append(e.as_str());
                    return Err(m);
                }
            }
            ""
        },
    };
    proof {
        reveal_strlit("");
        assert(""@ =~= Seq::<char>::empty());
    }
    Ok(StopFile { filename: file_name(stop), content: build_content(stop, body) })
}

/// A stop file cut at its dashes: frontmatter and body.
pub open spec fn split(t: Seq<char>) -> Option<(Seq<char>, Seq<char>)> {
    if text::begins_with(t, "---\n"@) {
        split_rest(t.skip(4))
    } else if text::begins_with(t, "---\r\n"@) {
        split_rest(t.skip(5))
    } else {
        None
    }
}

/// `rest`, cut at closing dashes that are `len` characters long and stand at `end`.
pub open spec fn cut(rest: Seq<char>, end: int, len: int) -> (Seq<char>, Seq<char>) {
    (rest.take(end), rest.skip(end + len))
}

/// What follows the opening dashes, cut at the first closing ones, whichever their
/// line ending.
pub open spec fn split_rest(rest: Seq<char>) -> Option<(Seq<char>, Seq<char>)> {
    match (text::first_at(rest, closing()), text::first_at(rest, closing_crlf())) {
        (Some(lf), Some(crlf)) => Some(
            if lf < crlf {
                cut(rest, lf, 5)
            } else {
                cut(rest, crlf, 6)
            },
        ),
        (Some(lf), None) => Some(cut(rest, lf, 5)),
        (None, Some(crlf)) => Some(cut(rest, crlf, 6)),
        (None, None) => None,
    }
}

/// The index of the first `needle` in `hay`, searching from `from` on.
fn find_after(hay: &Vec<char>, from: usize, needle: &str) -> (r: Option<usize>)
    requires
        from <= hay@.len(),
    ensures
        match r {
            Some(i) => from <= i <= hay@.len() && i + needle@.len() <= hay@.len()
                && text::first_at(hay@.skip(from as int), needle@) == Some(i - from),
            None => text::first_at(hay@.skip(from as int), needle@) is None,
        },
{
    let n = text::chars_of(needle);
    let r = text::find_from(hay, &n, from);
    proof {
        let rest = hay@.skip(from as int);
        assert forall|j: int| #[trigger]
            text::occurs_at(rest, needle@, j) implies text::occurs_at(hay@, needle@, from + j) by {
            assert(hay@.subrange(from + j, from + j + needle@.len()) =~= rest.subrange(
                j,
                j + needle@.len(),
            ));
        }
        match r {
            Some(i) => {
                assert(rest.subrange(i - from, i - from + needle@.len()) =~= hay@.subrange(
                    i as int,
                    i + needle@.len(),
                ));
                text::lemma_first_at(rest, needle@, i - from);
            },
            None => {},
        }
    }
    r
}

/// Split a stop file's text into (frontmatter, body) by the leading `---` block.
pub fn split_frontmatter<'a>(file_text: &'a str) -> (r: Option<(&'a str, &'a str)>)
    ensures
        match r {
            Some((f, b)) => split(file_text@) == Some((f@, b@)),
            None => split(file_text@) is None,
        },
{
    let chars = text::chars_of(file_text);
    let n: usize = chars.len();
    let lf = text::chars_of("---\n");
    let crlf = text::chars_of("---\r\n");
    proof {
        reveal_strlit("---\n");
        reveal_strlit("---\r\n");
        reveal_strlit("\n---\n");
        reveal_strlit("\n---\r\n");
        assert("\n---\n"@ =~= closing());
        assert("\n---\r\n"@ =~= closing_crlf());
    }
    let from: usize = if text::stands_at(&chars, &lf, 0) {
        4
    } else if text::stands_at(&chars, &crlf, 0) {
        5
    } else {
        return None;
    };
    let ghost rest = file_text@.skip(from as int);
    let (end, len): (usize, usize) = match (
        find_after(&chars, from, "\n---\n"),
        find_after(&chars, from, "\n---\r\n"),
    ) {
        (Some(lf), Some(crlf)) => if lf < crlf {
            (lf, 5)
        } else {
            (crlf, 6)
        },
        (Some(lf), None) => (lf, 5),
        (None, Some(crlf)) => (crlf, 6),
        (None, None) => {
            return None;
        },
    };
    assert(file_text@.subrange(from as int, end as int) =~= rest.take(end - from));
    assert(file_text@.subrange(end + len, n as int) =~= rest.skip(end - from + len));
    Some((file_text.substring_char(from, end), file_text.substring_char(end + len, n)))
}

/// What comes of a stop file that was read: its frontmatter and its body, as
/// text. `read` is what reading the file at `path` gave.
pub fn parse(path: &str, read: &Result<String, String>) -> (r: Result<(String, String), String>)
    ensures
        match *read {
            Err(e) => r matches Err(m) && m@ == "reading "@ + path@ + ": "@ + e@,
            Ok(t) => match split(t@) {
                Some((f, b)) => r matches Ok((rf, rb)) && rf@ == f && rb@ == b,
                None => r matches Err(m) && m@ == path@
                    + ": missing `---` frontmatter delimiters"@,
            },
        },
{
    match read {
        Err(e) => {
            let mut m = text::concat3("reading ", path, ": ");
            m.append(e.as_str());
            Err(m)
        },
        Ok(t) => match split_frontmatter(t.as_str()) {
            Some((f, b)) => Ok((text::owned(f), text::owned(b))),
            None => Err(text::concat2(path, ": missing `---` frontmatter delimiters")),
        },
    }
}

/// The frontmatter of a stop file that was read, as text.
pub fn parse_frontmatter(path: &str, read: &Result<String, String>) -> (r: Result<String, String>)
    ensures
        match *read {
            Err(e) => r matches Err(m) && m@ == "reading "@ + path@ + ": "@ + e@,
            Ok(t) => match split(t@) {
                Some((f, _)) => r matches Ok(rf) && rf@ == f,
                None => r matches Err(m) && m@ == path@
                    + ": missing `---` frontmatter delimiters"@,
            },
        },
{
    match parse(path, read) {
        Ok((f, _)) => Ok(f),
        Err(m) => Err(m),
    }
}

/// The message for frontmatter that is not what a stop calls for; `e` says why.
pub fn bad_frontmatter(path: &str, e: &str) -> (r: String)
    ensures
        r@ == "parsing frontmatter in "@ + path@ + ": "@ + e@,
{
    let mut m = text::concat3("parsing frontmatter in ", path, ": ");
    m.append(e);
    m
}

/// A character of the closing dashes.
spec fn is_closing_char(c: char) -> bool {
    c == '\n' || c == '-' || c == '\r'
}

/// Closing dashes of either kind.
spec fn is_closing(close: Seq<char>) -> bool {
    close == closing() || close == closing_crlf()
}

/// No closing dashes stand in `s`.
pub open spec fn has_no_closing(s: Seq<char>) -> bool {
    !text::occurs(s, closing()) && !text::occurs(s, closing_crlf())
}

/// A line that no closing dashes stand in, and that neither begins nor ends with
/// a character of theirs.
spec fn is_safe_line(l: Seq<char>) -> bool {
    &&& l.len() > 0
    &&& !is_closing_char(l[0])
    &&& !is_closing_char(l.last())
    &&& has_no_closing(l)
}

proof fn lemma_match_chars(hay: Seq<char>, close: Seq<char>, j: int)
    requires
        is_closing(close),
        text::occurs_at(hay, close, j),
    ensures
        forall|i: int| j <= i < j + close.len() ==> is_closing_char(#[trigger] hay[i]),
        hay[j] == '\n',
        hay[j + 1] == '-',
{
    let m = hay.subrange(j, (j + close.len()) as int);
    assert forall|i: int| j <= i < j + close.len() implies is_closing_char(#[trigger] hay[i]) by {
        assert(m[i - j] == hay[i]);
    }
    assert(m[0] == hay[j] && m[1] == hay[j + 1]);
}

/// Closing dashes that stand in a text stand in every piece that holds them whole.
proof fn lemma_match_in_piece(hay: Seq<char>, close: Seq<char>, j: int, from: int, to: int)
    requires
        text::occurs_at(hay, close, j),
        0 <= from <= j,
        j + close.len() <= to <= hay.len(),
    ensures
        text::occurs(hay.subrange(from, to), close),
{
    let p = hay.subrange(from, to);
    assert(p.subrange(j - from, j - from + close.len()) =~= hay.subrange(
        j,
        (j + close.len()) as int,
    ));
    assert(text::occurs_at(p, close, j - from));
}

/// A text without a line feed holds no closing dashes.
pub proof fn lemma_no_line_feed(s: Seq<char>)
    requires
        forall|i: int| 0 <= i < s.len() ==> #[trigger] s[i] != '\n',
    ensures
        has_no_closing(s),
{
    assert forall|close: Seq<char>, j: int| is_closing(close) implies !#[trigger] text::occurs_at(
        s,
        close,
        j,
    ) by {
        if text::occurs_at(s, close, j) {
            lemma_match_chars(s, close, j);
            assert(s[j] == '\n');
        }
    }
    assert(is_closing(closing()) && is_closing(closing_crlf()));
}

/// Closing dashes do not stand across a character that is not theirs.
proof fn lemma_no_match_across(a: Seq<char>, b: Seq<char>)
    requires
        has_no_closing(a),
        has_no_closing(b),
        a.len() > 0 && !is_closing_char(a.last()) || b.len() > 0 && !is_closing_char(b[0]),
    ensures
        has_no_closing(a + b),
{
    let s = a + b;
    let n = a.len() as int;
    assert(s.subrange(0, n) =~= a);
    assert(s.subrange(n, s.len() as int) =~= b);
    assert forall|close: Seq<char>, j: int| is_closing(close) implies !#[trigger] text::occurs_at(
        s,
        close,
        j,
    ) by {
        if text::occurs_at(s, close, j) {
            lemma_match_chars(s, close, j);
            if j + close.len() <= n {
                lemma_match_in_piece(s, close, j, 0, n);
            } else if j >= n {
                lemma_match_in_piece(s, close, j, n, s.len() as int);
            } else {
                assert(is_closing_char(s[n - 1]));
                assert(is_closing_char(s[n]));
            }
        }
    }
    assert(is_closing(closing()) && is_closing(closing_crlf()));
}

/// A quoted text is one line, between its quotes.
pub proof fn lemma_quoted_line(s: Seq<char>)
    ensures
        util::quoted(s).len() >= 2,
        util::quoted(s)[0] == '"',
        util::quoted(s).last() == '"',
        forall|i: int| 0 <= i < util::quoted(s).len() ==> #[trigger] util::quoted(s)[i] != '\n',
{
    util::law_quoted_text_is_clean(s);
    assert forall|i: int| 0 <= i < util::quoted(s).len() implies #[trigger] util::quoted(s)[i]
        != '\n' by {
        assert(!util::is_forbidden_control(util::quoted(s)[i]));
    }
}

/// A key with its value is a safe line.
proof fn lemma_entry_safe(key: Seq<char>, value: Seq<char>)
    requires
        key.len() > 0,
        forall|i: int| 0 <= i < key.len() ==> #[trigger] key[i] != '\n',
        !is_closing_char(key[0]),
        key.last() == ' ',
        value.len() > 0,
        has_no_closing(value),
        !is_closing_char(value.last()),
    ensures
        is_safe_line(key + value),
{
    lemma_no_line_feed(key);
    lemma_no_match_across(key, value);
    assert((key + value)[0] == key[0]);
    assert((key + value).last() == value.last());
}

/// A text with a closing brace behind it.
proof fn lemma_brace_safe(value: Seq<char>)
    requires
        has_no_closing(value),
    ensures
        has_no_closing(value + " }"@),
        (value + " }"@).len() > 0,
        (value + " }"@).last() == '}',
{
    reveal_strlit(" }");
    lemma_no_line_feed(" }"@);
    lemma_no_match_across(value, " }"@);
}

/// A number in decimal is made of digits.
pub proof fn lemma_decimal_digits(n: nat)
    ensures
        text::decimal_text(n).len() > 0,
        forall|i: int|
            0 <= i < text::decimal_text(n).len() ==> '0' <= #[trigger] text::decimal_text(n)[i]
                <= '9',
    decreases n,
{
    let d = n % 10;
    assert((48 + d) as u8 == 48 + d);
    if n >= 10 {
        lemma_decimal_digits(n / 10);
        let front = text::decimal_text(n / 10);
        assert forall|i: int| 0 <= i < text::decimal_text(n).len() implies '0' <= #[trigger]
        text::decimal_text(n)[i] <= '9' by {
            if i < front.len() {
                assert(text::decimal_text(n)[i] == front[i]);
            }
        }
    }
}

proof fn lemma_anchor_safe(kind: AnchorKind, value: Seq<char>)
    requires
        kind is Line ==> has_no_closing(value),
    ensures
        is_safe_line(anchor_entry(kind, value)),
{
    reveal_strlit("anchor = { kind = \"line\", value = ");
    reveal_strlit("anchor = { kind = \"pattern\", value = ");
    reveal_strlit("anchor = { kind = \"treesitter\", query = ");
    let quoted = util::quoted(value);
    lemma_quoted_line(value);
    lemma_no_line_feed(quoted);
    match kind {
        AnchorKind::Line => {
            let key = "anchor = { kind = \"line\", value = "@;
            lemma_brace_safe(value);
            lemma_entry_safe(key, value + " }"@);
            assert(key + (value + " }"@) =~= anchor_entry(kind, value));
        },
        AnchorKind::Pattern => {
            let key = "anchor = { kind = \"pattern\", value = "@;
            lemma_brace_safe(quoted);
            lemma_entry_safe(key, quoted + " }"@);
            assert(key + (quoted + " }"@) =~= anchor_entry(kind, value));
        },
        AnchorKind::Treesitter => {
            let key = "anchor = { kind = \"treesitter\", query = "@;
            lemma_brace_safe(quoted);
            lemma_entry_safe(key, quoted + " }"@);
            assert(key + (quoted + " }"@) =~= anchor_entry(kind, value));
        },
    }
}

proof fn lemma_entries_safe(stop: StopArgs)
    requires
        stop.is_complete(),
        stop.anchor_kind == Some(AnchorKind::Line) ==> has_no_closing(stop.anchor.unwrap()@),
    ensures
        forall|i: int| 0 <= i < entries(stop).len() ==> is_safe_line(#[trigger] entries(stop)[i]),
{
    reveal_strlit("id = ");
    reveal_strlit("file = ");
    reveal_strlit("title = ");
    reveal_strlit("highlight = { lines = ");
    if let Some(id) = stop.id {
        lemma_quoted_line(id@);
        lemma_no_line_feed(util::quoted(id@));
        lemma_entry_safe("id = "@, util::quoted(id@));
    }
    let file = stop.file.unwrap();
    lemma_quoted_line(file@);
    lemma_no_line_feed(util::quoted(file@));
    lemma_entry_safe("file = "@, util::quoted(file@));
    lemma_anchor_safe(stop.anchor_kind.unwrap(), stop.anchor.unwrap()@);
    if let Some(title) = stop.title {
        lemma_quoted_line(title@);
        lemma_no_line_feed(util::quoted(title@));
        lemma_entry_safe("title = "@, util::quoted(title@));
    }
    if let Some(n) = stop.highlight_lines {
        let d = text::decimal_text(n as nat);
        lemma_decimal_digits(n as nat);
        lemma_no_line_feed(d);
        lemma_brace_safe(d);
        lemma_entry_safe("highlight = { lines = "@, d + " }"@);
        assert("highlight = { lines = "@ + (d + " }"@) =~= "highlight = { lines = "@ + d + " }"@);
    }
}

/// Safe lines put together hold no closing dashes.
proof fn lemma_join_safe(lines: Seq<Seq<char>>)
    requires
        lines.len() > 0,
        forall|i: int| 0 <= i < lines.len() ==> is_safe_line(#[trigger] lines[i]),
    ensures
        is_safe_line(text::join(lines, seq!['\n'])),
    decreases lines.len(),
{
    let last = lines.last();
    assert(is_safe_line(lines[lines.len() - 1]));
    if lines.len() > 1 {
        let front = lines.drop_last();
        assert forall|i: int| 0 <= i < front.len() implies is_safe_line(#[trigger] front[i]) by {
            assert(front[i] == lines[i]);
        }
        lemma_join_safe(front);
        let a = text::join(front, seq!['\n']);
        let b = seq!['\n'] + last;
        assert(has_no_closing(b)) by {
            assert(b.subrange(1, b.len() as int) =~= last);
            assert forall|close: Seq<char>, j: int| is_closing(close) implies !#[trigger]
                text::occurs_at(b, close, j) by {
                if text::occurs_at(b, close, j) {
                    lemma_match_chars(b, close, j);
                    if j > 0 {
                        lemma_match_in_piece(b, close, j, 1, b.len() as int);
                    } else {
                        assert(b[1] == last[0]);
                    }
                }
            }
            assert(is_closing(closing()) && is_closing(closing_crlf()));
        }
        lemma_no_match_across(a, b);
        let s = a + seq!['\n'] + last;
        assert(s =~= a + b);
        assert(s[0] == a[0]);
        assert(s.last() == last.last());
    }
}

/// What is written is read back: a stop file cut at its dashes gives its
/// frontmatter and, behind an empty line, its commentary. A line number is written
/// as it is given; one that holds closing dashes is left out.
pub proof fn law_split_undoes_build(stop: StopArgs, file_body: Seq<char>)
    requires
        stop.is_complete(),
        stop.anchor_kind == Some(AnchorKind::Line) ==> has_no_closing(stop.anchor.unwrap()@),
    ensures
        split(stop_text(stop, file_body)) == Some(
            (frontmatter(stop), seq!['\n'] + with_line_feed(commentary(stop, file_body))),
        ),
{
    reveal_strlit("---\n");
    reveal_strlit("\n---\n\n");
    let f = frontmatter(stop);
    let n = f.len() as int;
    let body = with_line_feed(commentary(stop, file_body));
    let t = stop_text(stop, file_body);
    assert(t.subrange(0, 4) =~= "---\n"@);
    let rest = t.skip(4);
    assert(rest =~= f + "\n---\n\n"@ + body);
    lemma_entries_safe(stop);
    lemma_join_safe(entries(stop));
    assert(rest.subrange(n, n + 5) =~= closing());
    assert(rest.subrange(0, n) =~= f);
    assert forall|close: Seq<char>, j: int| is_closing(close) && 0 <= j < n implies !#[trigger]
        text::occurs_at(rest, close, j) by {
        if text::occurs_at(rest, close, j) {
            lemma_match_chars(rest, close, j);
            if j + close.len() <= n {
                lemma_match_in_piece(rest, close, j, 0, n);
            } else {
                assert(is_closing_char(rest[n - 1]));
                assert(rest[n - 1] == f.last());
            }
        }
    }
    assert(is_closing(closing()) && is_closing(closing_crlf()));
    text::lemma_first_at(rest, closing(), n);
    text::lemma_first_at_is_first(rest, closing_crlf());
    if let Some(crlf) = text::first_at(rest, closing_crlf()) {
        assert(text::occurs_at(rest, closing_crlf(), crlf));
        if crlf == n {
            assert(rest.subrange(n, n + 6)[4] == rest[n + 4]);
            assert(rest[n + 4] == '\n');
        }
    }
    assert(rest.take(n) =~= f);
    assert(rest.skip(n + 5) =~= seq!['\n'] + body);
}

/// A text that was cut at some closing dashes, put together again.
proof fn lemma_cut(rest: Seq<char>, close: Seq<char>, end: int)
    requires
        text::occurs_at(rest, close, end),
    ensures
        rest == rest.take(end) + close + rest.skip((end + close.len()) as int),
{
    let m = rest.subrange(end, (end + close.len()) as int);
    assert(rest =~= rest.take(end) + m + rest.skip((end + close.len()) as int));
}

/// The closing dashes at which a text is cut.
spec fn closing_used(rest: Seq<char>) -> Seq<char> {
    match (text::first_at(rest, closing()), text::first_at(rest, closing_crlf())) {
        (Some(lf), Some(crlf)) => if lf < crlf {
            closing()
        } else {
            closing_crlf()
        },
        (Some(_), None) => closing(),
        _ => closing_crlf(),
    }
}

proof fn lemma_split_rest(rest: Seq<char>)
    ensures
        split_rest(rest) matches Some((f, b)) ==> rest == f + closing_used(rest) + b,
{
    text::lemma_first_at_is_first(rest, closing());
    text::lemma_first_at_is_first(rest, closing_crlf());
    if let Some(lf) = text::first_at(rest, closing()) {
        lemma_cut(rest, closing(), lf);
    }
    if let Some(crlf) = text::first_at(rest, closing_crlf()) {
        lemma_cut(rest, closing_crlf(), crlf);
    }
}

/// The frontmatter ends at the first closing dashes: none stand in it.
pub proof fn law_split_takes_the_leading_block(t: Seq<char>)
    ensures
        split(t) matches Some((f, _)) ==> has_no_closing(f),
{
    if let Some((f, _)) = split(t) {
        let rest = if text::begins_with(t, "---\n"@) {
            t.skip(4)
        } else {
            t.skip(5)
        };
        let n = f.len() as int;
        text::lemma_first_at_is_first(rest, closing());
        text::lemma_first_at_is_first(rest, closing_crlf());
        lemma_split_rest(rest);
        assert(f == rest.take(n));
        assert forall|close: Seq<char>, j: int| is_closing(close) implies !#[trigger]
            text::occurs_at(f, close, j) by {
            if text::occurs_at(f, close, j) {
                assert(rest.subrange(j, (j + close.len()) as int) =~= f.subrange(
                    j,
                    (j + close.len()) as int,
                ));
                assert(text::occurs_at(rest, close, j));
                assert(text::occurs(rest, close));
            }
        }
        assert(is_closing(closing()) && is_closing(closing_crlf()));
    }
}

/// Cutting a stop file loses nothing but the dashes: opening dashes, frontmatter,
/// closing dashes and body, put together, are the file.
#[verifier::spinoff_prover]
pub proof fn law_split_loses_nothing(t: Seq<char>)
    ensures
        split(t) matches Some((f, b)) ==> exists|open: Seq<char>, close: Seq<char>|
            #![trigger open + f + close + b]
            (open == "---\n"@ || open == "---\r\n"@) && (close == closing() || close
                == closing_crlf()) && t == open + f + close + b,
{
    if let Some((f, b)) = split(t) {
        reveal_strlit("---\n");
        reveal_strlit("---\r\n");
        let open = if text::begins_with(t, "---\n"@) {
            "---\n"@
        } else {
            "---\r\n"@
        };
        let rest = t.skip(open.len() as int);
        let close = closing_used(rest);
        lemma_split_rest(rest);
        assert(t.subrange(0, open.len() as int) == open);
        assert(t =~= open + rest);
        assert(t =~= open + f + close + b);
    }
}

/// A stop file stays in the tour's directory: its name holds no separator, does not
/// begin with a dot, and ends with `.md`.
pub proof fn law_stop_file_stays_in_its_directory(stop: StopArgs)
    ensures
        stop_file_name(stop).len() > 3,
        stop_file_name(stop)[0] != '.',
        forall|i: int|
            0 <= i < stop_file_name(stop).len() ==> #[trigger] stop_file_name(stop)[i] != '/'
                && stop_file_name(stop)[i] != '\\',
        stop_file_name(stop).skip(stop_file_name(stop).len() - 3) == ".md"@,
{
    reveal_strlit(".md");
    cli::law_stop_slug_shape(stop);
    let slug = stop.stop_slug();
    let name = stop_file_name(stop);
    assert forall|i: int| 0 <= i < name.len() implies #[trigger] name[i] != '/' && name[i]
        != '\\' by {
        if i < slug.len() {
            assert(name[i] == slug[i]);
            assert(util::is_slug_char(slug[i]) || slug[i] == '-');
        } else {
            assert(name[i] == ".md"@[i - slug.len()]);
        }
    }
    assert(name[0] == slug[0]);
    assert(util::is_slug_char(slug[0]) || slug[0] == '-');
    assert(name.skip(name.len() - 3) =~= ".md"@);
}

/// A text between opening and closing dashes is cut there, whatever the line endings
/// of either: what stands between them is the frontmatter, what follows is the body.
pub proof fn law_split_finds_the_dashes(
    open: Seq<char>,
    f: Seq<char>,
    close: Seq<char>,
    b: Seq<char>,
)
    requires
        open == seq!['-', '-', '-', '\n'] || open == seq!['-', '-', '-', '\r', '\n'],
        close == seq!['\n', '-', '-', '-', '\n'] || close == seq!['\n', '-', '-', '-', '\r', '\n'],
        forall|j: int|
            0 <= j < f.len() ==> !#[trigger] text::occurs_at(f + close + b, closing(), j),
        forall|j: int|
            0 <= j < f.len() ==> !#[trigger] text::occurs_at(f + close + b, closing_crlf(), j),
    ensures
        split(open + f + close + b) == Some((f, b)),
{
    reveal_strlit("---\n");
    reveal_strlit("---\r\n");
    let rest = f + close + b;
    let t = open + f + close + b;
    let n = f.len() as int;
    let m = open.len() as int;
    assert(t.skip(m) =~= rest);
    assert(t.subrange(0, m) =~= open);
    assert("---\n"@ =~= seq!['-', '-', '-', '\n']);
    assert("---\r\n"@ =~= seq!['-', '-', '-', '\r', '\n']);
    assert(t[3] == open[3]);
    if open.len() == 5 && text::begins_with(t, "---\n"@) {
        assert(t.subrange(0, 4)[3] == t[3]);
    }
    assert(split(t) == split_rest(rest));
    assert(rest.subrange(n, (n + close.len()) as int) =~= close);
    lemma_split_rest_at(rest, close, n);
    assert(rest.take(n) =~= f);
    assert(rest.skip((n + close.len()) as int) =~= b);
}

/// A text is cut at closing dashes that stand in front of all others.
proof fn lemma_split_rest_at(rest: Seq<char>, close: Seq<char>, n: int)
    requires
        is_closing(close),
        0 <= n,
        n + close.len() <= rest.len(),
        rest.subrange(n, (n + close.len()) as int) == close,
        forall|j: int| 0 <= j < n ==> !#[trigger] text::occurs_at(rest, closing(), j),
        forall|j: int| 0 <= j < n ==> !#[trigger] text::occurs_at(rest, closing_crlf(), j),
    ensures
        split_rest(rest) == Some((rest.take(n), rest.skip((n + close.len()) as int))),
{
    let other = if close == closing() {
        closing_crlf()
    } else {
        closing()
    };
    assert(text::occurs_at(rest, close, n));
    text::lemma_first_at(rest, close, n);
    text::lemma_first_at_is_first(rest, other);
    assert(rest.subrange(n, (n + close.len()) as int)[4] == rest[n + 4]);
    if text::occurs_at(rest, other, n) {
        assert(rest.subrange(n, (n + other.len()) as int)[4] == rest[n + 4]);
        assert(close[4] != other[4]);
    }
}

/// A text is not a stop file just where it does not begin with dashes, or no dashes
/// close what follows.
pub proof fn law_split_fails_without_dashes(t: Seq<char>)
    ensures
        split(t) is None <==> {
            &&& text::occurs_at(t, seq!['-', '-', '-', '\n'], 0) ==> has_no_closing(t.skip(4))
            &&& text::occurs_at(t, seq!['-', '-', '-', '\r', '\n'], 0) ==> has_no_closing(t.skip(5))
        },
{
    reveal_strlit("---\n");
    reveal_strlit("---\r\n");
    assert("---\n"@ =~= seq!['-', '-', '-', '\n']);
    assert("---\r\n"@ =~= seq!['-', '-', '-', '\r', '\n']);
    if text::begins_with(t, "---\n"@) && text::begins_with(t, "---\r\n"@) {
        assert(t.subrange(0, 4)[3] == t[3]);
        assert(t.subrange(0, 5)[3] == t[3]);
    }
    text::lemma_first_at_is_first(t.skip(4), closing());
    text::lemma_first_at_is_first(t.skip(4), closing_crlf());
    text::lemma_first_at_is_first(t.skip(5), closing());
    text::lemma_first_at_is_first(t.skip(5), closing_crlf());
}

/// The commentary that is given inline is written, else that of the body file, else
/// none; it ends with a line feed, which is added only where it is missing.
pub proof fn law_commentary_is_written_whole(stop: StopArgs, file_body: Seq<char>)
    ensures
        ({
            let c = match stop.body {
                Some(b) => b@,
                None => if stop.body_file is Some {
                    file_body
                } else {
                    Seq::empty()
                },
            };
            let t = stop_text(stop, file_body);
            let whole = if c.len() > 0 && c.last() == '\n' {
                c
            } else {
                c.push('\n')
            };
            &&& t.len() > whole.len()
            &&& t.skip(t.len() - whole.len()) == whole
            &&& t.last() == '\n'
        }),
{
    reveal_strlit("---\n");
    let t = stop_text(stop, file_body);
    let whole = with_line_feed(commentary(stop, file_body));
    assert(t.skip(t.len() - whole.len()) =~= whole);
}

/// The commentary changes nothing in front of it: stops that differ only in it have
/// the same frontmatter.
pub proof fn law_frontmatter_does_not_depend_on_the_commentary(a: StopArgs, b: StopArgs)
    requires
        a.file == b.file,
        a.anchor_kind == b.anchor_kind,
        a.anchor == b.anchor,
        a.title == b.title,
        a.id == b.id,
        a.highlight_lines == b.highlight_lines,
    ensures
        frontmatter(a) == frontmatter(b),
{
}

/// A line number is written as it is given, without quotes.
pub proof fn law_line_anchor_is_written_as_given(v: Seq<char>)
    ensures
        anchor_entry(AnchorKind::Line, v).len() == anchor_entry(
            AnchorKind::Line,
            Seq::empty(),
        ).len() + v.len(),
        anchor_entry(AnchorKind::Line, v).subrange(
            anchor_entry(AnchorKind::Line, v).len() - 2 - v.len(),
            anchor_entry(AnchorKind::Line, v).len() - 2,
        ) == v,
{
    reveal_strlit(" }");
    let e = anchor_entry(AnchorKind::Line, v);
    assert(e.subrange(e.len() - 2 - v.len(), e.len() - 2) =~= v);
}

/// In the table of stops a line anchor shows its number, a pattern its text between
/// slashes, a tree-sitter anchor its query, and any other its kind; one without them
/// shows a question mark.
pub proof fn law_anchor_words_show_the_anchor(anchor: Anchor)
    ensures
        anchor.kind@ == "line"@ ==> (match anchor.value {
            Some(Value::Integer(n)) => anchor_words(anchor) == "line "@
                + text::signed_decimal_text(n as int),
            _ => anchor_words(anchor) == "line ?"@,
        }),
        anchor.kind@ == "pattern"@ ==> (match anchor.value {
            Some(Value::Text(s)) => anchor_words(anchor) == "pattern /"@ + s@ + "/"@,
            _ => anchor_words(anchor) == "pattern /?/"@,
        }),
        anchor.kind@ == "treesitter"@ ==> (match anchor.query {
            Some(q) => anchor_words(anchor) == "ts "@ + q@,
            None => anchor_words(anchor) == "ts ?"@,
        }),
        anchor.kind@ != "line"@ && anchor.kind@ != "pattern"@ && anchor.kind@ != "treesitter"@
            ==> anchor_words(anchor) == anchor.kind@,
{
    reveal_strlit("line");
    reveal_strlit("pattern");
    reveal_strlit("treesitter");
    reveal_strlit("line ");
    reveal_strlit("line ?");
    reveal_strlit("pattern /");
    reveal_strlit("pattern /?/");
    reveal_strlit("/");
    reveal_strlit("?");
    reveal_strlit("ts ");
    reveal_strlit("ts ?");
    assert("line"@.len() != "pattern"@.len());
    assert("line"@.len() != "treesitter"@.len());
    assert("pattern"@.len() != "treesitter"@.len());
    assert("line "@ + "?"@ =~= "line ?"@);
    assert("pattern /"@ + "?"@ + "/"@ =~= "pattern /?/"@);
    assert("ts "@ + "?"@ =~= "ts ?"@);
}

/// In a table in which a key stands once its value is found under it, and nothing is
/// found under a key that is not there, nor in what is no table.
pub proof fn law_table_gives_the_value_of_a_key(
    entries: Vec<(String, Value)>,
    key: Seq<char>,
    k: int,
)
    ensures
        0 <= k < entries@.len() && entries@[k].0@ == key && (forall|i: int|
            0 <= i < k ==> (#[trigger] entries@[i]).0@ != key) ==> value_under(
            Value::Table(entries),
            key,
        ) == Some(entries@[k].1),
        (forall|i: int| 0 <= i < entries@.len() ==> (#[trigger] entries@[i]).0@ != key)
            ==> value_under(Value::Table(entries), key) is None,
        forall|v: Value| !(v is Table) ==> #[trigger] value_under(v, key) is None,
{
    if 0 <= k < entries@.len() && entries@[k].0@ == key && (forall|i: int|
        0 <= i < k ==> (#[trigger] entries@[i]).0@ != key) {
        lemma_entry_from(entries@, key, 0, k);
    }
    if forall|i: int| 0 <= i < entries@.len() ==> (#[trigger] entries@[i]).0@ != key {
        lemma_entry_from(entries@, key, 0, entries@.len() as int);
    }
}

proof fn lemma_entry_from(entries: Seq<(String, Value)>, key: Seq<char>, i: int, k: int)
    requires
        0 <= i <= k <= entries.len(),
        forall|j: int| i <= j < k ==> (#[trigger] entries[j]).0@ != key,
        k < entries.len() ==> entries[k].0@ == key,
    ensures
        entry_from(entries, key, i) == (if k < entries.len() {
            Some(entries[k].1)
        } else {
            None
        }),
    decreases k - i,
{
    if i < k {
        assert(entries[i].0@ != key);
        lemma_entry_from(entries, key, i + 1, k);
    }
}

} // verus!
