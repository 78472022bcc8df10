//! Finding the line that a stop points at.

use crate::source;
use crate::stop;
use crate::stop::{Anchor, Value};
use crate::text;
use regex::Regex;
use vstd::prelude::*;
use vstd::string::*;
use vstd::utf8::*;

verus! {

/// `regex::Regex`: a compiled regular expression. Opaque.
#[verifier::external_type_specification]
#[verifier::external_body]
pub struct ExRegex(regex::Regex);

/// `Regex::new` accepts the pattern.
pub uninterp spec fn regex_compiles(pattern: Seq<char>) -> bool;

/// The regular expression was compiled from that pattern.
pub uninterp spec fn compiled_from(re: &Regex, pattern: Seq<char>) -> bool;

/// The byte offset at which the first match of the pattern starts in the text.
pub uninterp spec fn regex_match_start(pattern: Seq<char>, hay: Seq<char>) -> Option<nat>;

/// A character that means something in a regular expression.
pub open spec fn is_meta(c: char) -> bool {
    ||| c == '\\' || c == '.' || c == '+' || c == '*' || c == '?' || c == '(' || c == ')'
    ||| c == '|' || c == '[' || c == ']' || c == '{' || c == '}' || c == '^' || c == '$'
    ||| c == '#' || c == '&' || c == '-' || c == '~'
}

/// The pattern that stands for `s` itself: a backslash in front of each
/// character that means something.
pub open spec fn literal_pattern(s: Seq<char>) -> Seq<char>
    decreases s.len(),
{
    if s.len() == 0 {
        Seq::empty()
    } else if is_meta(s.last()) {
        literal_pattern(s.drop_last()).push('\\').push(s.last())
    } else {
        literal_pattern(s.drop_last()).push(s.last())
    }
}

/// `Regex::new`: the compiled pattern, or nothing where it is not a regular
/// expression or is too large.
#[verifier::external_body]
fn compile(pattern: &str) -> (r: Option<Regex>)
    ensures
        r is Some <==> regex_compiles(pattern@),
        r matches Some(re) ==> compiled_from(&re, pattern@),
{
    Regex::new(pattern).ok()
}

/// `Regex::find`: the byte offset at which the first match starts. It is a
/// character boundary of the text. A pattern that stands for a text itself
/// matches first where that text first stands.
#[verifier::external_body]
fn first_match(re: &Regex, hay: &str) -> (r: Option<usize>)
    ensures
        r matches Some(o) ==> o <= hay.spec_bytes().len() && is_char_boundary(
            hay.spec_bytes(),
            o as int,
        ),
        forall|p: Seq<char>| #[trigger]
            compiled_from(re, p) ==> match r {
                Some(o) => regex_match_start(p, hay@) == Some(o as nat),
                None => regex_match_start(p, hay@) is None,
            },
        forall|s: Seq<char>| #[trigger]
            compiled_from(re, literal_pattern(s)) ==> match r {
                Some(o) => text::occurs_first_at(hay.spec_bytes(), encode_utf8(s), o as int),
                None => !text::occurs(hay.spec_bytes(), encode_utf8(s)),
            },
{
    re.find(hay).map(|m| m.start())
}

/// `regex::escape`: the pattern that stands for a text itself.
#[verifier::external_body]
fn escape(s: &str) -> (r: String)
    ensures
        r@ == literal_pattern(s@),
{
    regex::escape(s)
}

/// The number of the line in which byte `o` of a text stands, counted from one.
pub open spec fn line_at(bytes: Seq<u8>, o: int) -> nat {
    text::count(bytes.take(o), 10u8) + 1
}

/// A number, where the machine can hold it.
pub open spec fn fits(n: int) -> Option<usize> {
    if 0 <= n <= usize::MAX {
        Some(n as usize)
    } else {
        None
    }
}

/// The line in which the byte stands that a search found.
pub open spec fn found_line(bytes: Seq<u8>, found: Option<int>) -> Option<usize> {
    match found {
        Some(o) => fits(line_at(bytes, o) as int),
        None => None,
    }
}

/// The line in which the first match of the pattern starts, counted from one;
/// nothing where there is none or the pattern is not a regular expression.
pub open spec fn match_line(pattern: Seq<char>, hay: Seq<char>) -> Option<usize> {
    if regex_compiles(pattern) {
        found_line(
            encode_utf8(hay),
            match regex_match_start(pattern, hay) {
                Some(o) => Some(o as int),
                None => None,
            },
        )
    } else {
        None
    }
}

/// The line in which the text `s` itself first stands; nothing where it does not
/// stand there, or where it is too large for a pattern.
pub open spec fn literal_line(s: Seq<char>, hay: Seq<char>) -> Option<usize> {
    if regex_compiles(literal_pattern(s)) {
        found_line(encode_utf8(hay), text::first_at(encode_utf8(hay), encode_utf8(s)))
    } else {
        None
    }
}

/// The number of line feeds in front of byte `o`.
fn line_feeds_before(hay: &str, o: usize) -> (r: usize)
    requires
        o <= hay.spec_bytes().len(),
    ensures
        r == text::count(hay.spec_bytes().take(o as int), 10u8),
{
    let bytes = hay.as_bytes();
    let mut n: usize = 0;
    for i in 0..o
        invariant
            o <= bytes@.len(),
            n <= i,
            n == text::count(bytes@.take(i as int), 10u8),
    {
        assert(bytes@.take(i + 1).drop_last() =~= bytes@.take(i as int));
        if bytes[i] == 10 {
            n = n + 1;
        }
    }
    n
}

/// The line in which the byte stands that a search found, counted from one.
pub fn line_of_match(hay: &str, found: Option<usize>) -> (r: Option<usize>)
    requires
        found matches Some(o) ==> o <= hay.spec_bytes().len(),
    ensures
        r == found_line(
            hay.spec_bytes(),
            match found {
                Some(o) => Some(o as int),
                None => None,
            },
        ),
{
    match found {
        Some(o) => line_feeds_before(hay, o).checked_add(1),
        None => None,
    }
}

/// The line in which the first match of a pattern starts, counted from one;
/// nothing where there is none or the pattern is not a regular expression.
pub fn regex_find_line(pat: &str, file_text: &str) -> (r: Option<usize>)
    ensures
        r == match_line(pat@, file_text@),
        forall|s: Seq<char>|
            pat@ == #[trigger] literal_pattern(s) ==> r == literal_line(s, file_text@),
        r matches Some(l) ==> 1 <= l <= text::count(file_text.spec_bytes(), 10u8) + 1,
{
    match compile(pat) {
        Some(re) => {
            let found = first_match(&re, file_text);
            proof {
                assert forall|s: Seq<char>| pat@ == #[trigger] literal_pattern(s) implies (
                match found {
                    Some(o) => text::first_at(file_text.spec_bytes(), encode_utf8(s)) == Some(
                        o as int,
                    ),
                    None => text::first_at(file_text.spec_bytes(), encode_utf8(s)) is None,
                }) by {
                    assert(compiled_from(&re, literal_pattern(s)));
                    if let Some(o) = found {
                        text::lemma_first_at(file_text.spec_bytes(), encode_utf8(s), o as int);
                    }
                }
            }
            proof {
                if let Some(o) = found {
                    text::lemma_count_prefix(file_text.spec_bytes(), 10u8, o as int);
                }
            }
            line_of_match(file_text, found)
        },
        None => None,
    }
}

/// The index of the first double quote from byte `j` on that no backslash escapes.
pub open spec fn next_quote(bytes: Seq<u8>, j: int) -> Option<int>
    decreases bytes.len() - j,
{
    if j < 0 || j >= bytes.len() {
        None
    } else if bytes[j] == 34 {
        Some(j)
    } else if bytes[j] == 92 && j + 1 < bytes.len() {
        next_quote(bytes, j + 2)
    } else {
        next_quote(bytes, j + 1)
    }
}

/// The double-quoted literals of a query from byte `i` on: what stands between one
/// unescaped quote and the next, then the same behind that one. A literal that is
/// not closed is none.
pub open spec fn literals_from(bytes: Seq<u8>, i: int) -> Seq<Seq<char>>
    decreases bytes.len() - i,
{
    match next_quote(bytes, i) {
        Some(a) => match next_quote(bytes, a + 1) {
            Some(b) => if i <= a < b < bytes.len() {
                seq![source::piece(bytes, a + 1, b)] + literals_from(bytes, b + 1)
            } else {
                Seq::empty()
            },
            None => Seq::empty(),
        },
        None => Seq::empty(),
    }
}

/// The index of the first double quote from byte `from` on that no backslash escapes.
fn find_quote(bytes: &[u8], from: usize) -> (r: Option<usize>)
    requires
        from <= bytes@.len(),
    ensures
        match r {
            Some(j) => from <= j < bytes@.len() && bytes@[j as int] == 34 && next_quote(
                bytes@,
                from as int,
            ) == Some(j as int),
            None => next_quote(bytes@, from as int) is None,
        },
{
    let n: usize = bytes.len();
    let mut j: usize = from;
    while j < n && bytes[j] != 34
        invariant
            n == bytes@.len(),
            from <= j <= n,
            next_quote(bytes@, from as int) == next_quote(bytes@, j as int),
        decreases n - j,
    {
        if bytes[j] == 92 && j + 1 < n {
            j = j + 2;
        } else {
            j = j + 1;
        }
    }
    if j < n {
        Some(j)
    } else {
        None
    }
}

/// Extract every substring between unescaped double quotes from a tree-sitter query.
pub fn extract_query_literals<'a>(query: &'a str) -> (r: Vec<&'a str>)
    ensures
        text::str_texts(r@) == literals_from(query.spec_bytes(), 0),
{
    let bytes = query.as_bytes();
    let n: usize = bytes.len();
    let ghost all = literals_from(bytes@, 0);
    let mut result: Vec<&'a str> = Vec::new();
    let mut i: usize = 0;
    proof {
        assert(text::str_texts(result@) =~= Seq::empty());
        encode_utf8_valid_utf8(query@);
    }
    while i < n
        invariant
            n == bytes@.len(),
            i <= n,
            bytes@ == query.spec_bytes(),
            valid_utf8(bytes@),
            all == literals_from(query.spec_bytes(), 0),
            all =~= text::str_texts(result@) + literals_from(bytes@, i as int),
        decreases n - i,
    {
        let a: usize = match find_quote(bytes, i) {
            Some(a) => a,
            None => {
                return result;
            },
        };
        let b: usize = match find_quote(bytes, a + 1) {
            Some(b) => b,
            None => {
                return result;
            },
        };
        proof {
            text::lemma_ascii_boundaries(bytes@, a as int);
            text::lemma_ascii_boundaries(bytes@, b as int);
        }
        let s = text::slice(query, a + 1, b);
        proof {
            encode_utf8_decode_utf8(s@);
            assert(text::str_texts(result@.push(s)) =~= text::str_texts(result@).push(s@));
        }
        result.push(s);
        i = b + 1;
    }
    result
}

/// The longest of some texts, measured in bytes; the last of several.
pub open spec fn longest(texts: Seq<Seq<char>>) -> Option<Seq<char>>
    decreases texts.len(),
{
    if texts.len() == 0 {
        None
    } else {
        match longest(texts.drop_last()) {
            Some(best) => if encode_utf8(texts.last()).len() >= encode_utf8(best).len() {
                Some(texts.last())
            } else {
                Some(best)
            },
            None => Some(texts.last()),
        }
    }
}

/// The longest of some strings, the last of several.
fn longest_literal<'a>(literals: &Vec<&'a str>) -> (r: Option<&'a str>)
    ensures
        match r {
            Some(s) => longest(text::str_texts(literals@)) == Some(s@),
            None => longest(text::str_texts(literals@)) is None,
        },
{
    let ghost all = text::str_texts(literals@);
    let mut best: Option<&'a str> = None;
    for i in 0..literals.len()
        invariant
            all == text::str_texts(literals@),
            all.len() == literals@.len(),
            match best {
                Some(s) => longest(all.take(i as int)) == Some(s@),
                None => longest(all.take(i as int)) is None,
            },
    {
        let s: &'a str = literals[i];
        proof {
            assert(all.take(i + 1).drop_last() =~= all.take(i as int));
            assert(all.take(i + 1).last() == s@);
        }
        best =
        match best {
            Some(b) => if s.as_bytes().len() >= b.as_bytes().len() {
                Some(s)
            } else {
                Some(b)
            },
            None => Some(s),
        };
    }
    assert(all.take(all.len() as int) =~= all);
    best
}

/// What an anchor comes to: a line, counted from one, and a warning.
pub struct Resolved {
    pub line: Option<usize>,
    pub warning: Option<Seq<char>>,
}

/// What a tree-sitter anchor comes to: the line in which the longest literal of
/// its query first stands.
pub open spec fn resolved_treesitter(query: Option<Seq<char>>, hay: Seq<char>) -> Resolved {
    match query {
        None => Resolved {
            line: None,
            warning: Some("tree-sitter anchor missing `query` field"@),
        },
        Some(q) => match longest(literals_from(encode_utf8(q), 0)) {
            Some(n) if n.len() > 0 => Resolved {
                line: literal_line(n, hay),
                warning: Some(
                    "tree-sitter not bundled — fell back to literal match on \""@ + n + "\""@,
                ),
            },
            _ => Resolved {
                line: None,
                warning: Some(
                    "tree-sitter not bundled and no quoted literal in query for fallback"@,
                ),
            },
        },
    }
}

/// What a line anchor comes to: the number itself, whether or not the file has so
/// many lines; nothing where it is no line number, which counts from one.
pub open spec fn given_line(n: int) -> Option<usize> {
    if n >= 1 {
        fits(n)
    } else {
        None
    }
}

/// What an anchor comes to, in a file with the text `hay`.
pub open spec fn resolved(anchor: Anchor, hay: Seq<char>) -> Resolved {
    if anchor.kind@ == "line"@ {
        Resolved {
            line: match stop::integer_of(anchor.value) {
                Some(n) => given_line(n),
                None => None,
            },
            warning: None,
        }
    } else if anchor.kind@ == "pattern"@ {
        Resolved {
            line: match stop::text_of(anchor.value) {
                Some(p) => match_line(p, hay),
                None => None,
            },
            warning: None,
        }
    } else if anchor.kind@ == "treesitter"@ {
        resolved_treesitter(text::opt_text(anchor.query), hay)
    } else {
        Resolved { line: None, warning: Some("unknown anchor kind: "@ + anchor.kind@) }
    }
}

/// A number that is not negative, where the machine can hold it.
fn index_of(n: i64) -> (r: Option<usize>)
    ensures
        r == fits(n as int),
{
    if n >= 0 && n as u64 <= usize::MAX as u64 {
        Some(n as usize)
    } else {
        None
    }
}

/// There are no bundled tree-sitter grammars. Fall back to the longest
/// double-quoted literal in the query (typically the identifier from
/// `(#eq? @cap "name")`) and match it literally.
pub fn resolve_treesitter_fallback(anchor: &Anchor, file_text: &str) -> (r: (
    Option<usize>,
    Option<String>,
))
    ensures
        r.0 matches Some(l) ==> l >= 1,
        r.0 == resolved_treesitter(text::opt_text(anchor.query), file_text@).line,
        text::opt_text(r.1) == resolved_treesitter(
            text::opt_text(anchor.query),
            file_text@,
        ).warning,
{
    let query: &str = match &anchor.query {
        Some(q) => q.as_str(),
        None => {
            return (None, Some(text::owned("tree-sitter anchor missing `query` field")));
        },
    };
    let literals = extract_query_literals(query);
    match longest_literal(&literals) {
        Some(n) => {
            if !n.is_empty() {
                let pattern = escape(n);
                let line = regex_find_line(pattern.as_str(), file_text);
                let warning = text::concat3(
                    "tree-sitter not bundled — fell back to literal match on \"",
                    n,
                    "\"",
                );
                return (line, Some(warning));
            }
        },
        None => {},
    }
    (
        None,
        Some(text::owned("tree-sitter not bundled and no quoted literal in query for fallback")),
    )
}

/// Resolve an anchor against the source text, returning a 1-based line
/// number (or `None` if unresolved) and an optional warning to surface to
/// the user. A line anchor is taken as it is given, also where it is past the
/// last line.
pub fn resolve_anchor(anchor: &Anchor, file_text: &str) -> (r: (Option<usize>, Option<String>))
    ensures
        r.0 matches Some(l) ==> l >= 1,
        anchor.kind@ == "line"@ ==> forall|n: int|
            stop::integer_of(anchor.value) == Some(n) && 1 <= n <= usize::MAX ==> r.0 == #[trigger] fits(
                n,
            ),
        r.0 == resolved(*anchor, file_text@).line,
        text::opt_text(r.1) == resolved(*anchor, file_text@).warning,
{
    let kind = anchor.kind.as_str();
    if text::same_text(kind, "line") {
        let line = match &anchor.value {
            Some(v) => match v.as_integer() {
                Some(n) => if n >= 1 {
                    index_of(n)
                } else {
                    None
                },
                None => None,
            },
            None => None,
        };
        (line, None)
    } else if text::same_text(kind, "pattern") {
        let line = match &anchor.value {
            Some(v) => match v.as_str() {
                Some(p) => regex_find_line(p, file_text),
                None => None,
            },
            None => None,
        };
        (line, None)
    } else if text::same_text(kind, "treesitter") {
        resolve_treesitter_fallback(anchor, file_text)
    } else {
        (None, Some(text::concat2("unknown anchor kind: ", kind)))
    }
}

/// The number of lines that a `highlight` table asks for.
pub open spec fn highlight_count(highlight: Option<Value>) -> Option<usize> {
    match highlight {
        Some(v) => match stop::integer_of(stop::value_under(v, "lines"@)) {
            Some(n) => fits(n),
            None => None,
        },
        None => None,
    }
}

/// The number of lines to highlight, where the frontmatter gives one.
pub fn extract_highlight_lines(highlight: &Option<Value>) -> (r: Option<usize>)
    ensures
        r == highlight_count(*highlight),
{
    match highlight {
        Some(v) => match v.get("lines") {
            Some(n) => match n.as_integer() {
                Some(n) => index_of(n),
                None => None,
            },
            None => None,
        },
        None => None,
    }
}

/// Lines count from one.
pub proof fn law_anchor_lines_count_from_one(anchor: Anchor, hay: Seq<char>)
    ensures
        resolved(anchor, hay).line matches Some(l) ==> l >= 1,
{
}

/// A line anchor does not depend on the file.
pub proof fn law_line_anchor_is_taken_as_given(anchor: Anchor, hay: Seq<char>, n: int)
    requires
        anchor.kind@ == "line"@,
        stop::integer_of(anchor.value) == Some(n),
    ensures
        resolved(anchor, hay).line == (if 1 <= n <= usize::MAX {
            Some(n as usize)
        } else {
            None
        }),
        resolved(anchor, hay).warning is None,
{
}

/// The longest of some texts is one of them, none is longer, and there is one
/// unless there is none to choose from.
pub proof fn law_longest_is_the_longest(texts: Seq<Seq<char>>)
    ensures
        match longest(texts) {
            Some(best) => texts.contains(best) && forall|i: int|
                0 <= i < texts.len() ==> encode_utf8(#[trigger] texts[i]).len() <= encode_utf8(
                    best,
                ).len(),
            None => texts.len() == 0,
        },
    decreases texts.len(),
{
    if texts.len() > 0 {
        let front = texts.drop_last();
        law_longest_is_the_longest(front);
        let best = longest(texts).unwrap();
        assert(texts[texts.len() - 1] == texts.last());
        if best != texts.last() {
            let k = choose|k: int| 0 <= k < front.len() && front[k] == best;
            assert(texts[k] == best);
        }
        assert forall|i: int| 0 <= i < texts.len() implies encode_utf8(#[trigger] texts[i]).len()
            <= encode_utf8(best).len() by {
            if i < front.len() {
                assert(texts[i] == front[i]);
            }
        }
    }
}

/// In front of a line of a text stand as many line feeds as lines.
proof fn lemma_line_feeds_before_line(bytes: Seq<u8>, ranges: Seq<source::SourceLineRange>, i: int)
    requires
        source::are_lines(bytes, ranges),
        0 <= i < ranges.len(),
    ensures
        text::count(bytes.take(ranges[i].full_start as int), 10u8) == i,
    decreases i,
{
    let r = ranges[i];
    assert(source::is_line(bytes, r));
    if i == 0 {
        assert(bytes.take(0) =~= Seq::empty());
    } else {
        let p = ranges[i - 1];
        assert(source::is_line(bytes, p));
        assert(r.full_start == p.full_end);
        lemma_line_feeds_before_line(bytes, ranges, i - 1);
        lemma_line_feeds_in_line(bytes, p, p.full_end - 1);
        let front = bytes.take(p.full_end as int);
        assert(front.drop_last() =~= bytes.take(p.full_end - 1));
        assert(front.last() == bytes[p.full_end - 1]);
        assert(bytes[p.full_end - 1] == 10);
    }
}

/// No line feed stands in a line but at its end.
proof fn lemma_line_feeds_in_line(bytes: Seq<u8>, r: source::SourceLineRange, o: int)
    requires
        source::is_line(bytes, r),
        r.full_start <= o < r.full_end,
    ensures
        text::count(bytes.take(o), 10u8) == text::count(bytes.take(r.full_start as int), 10u8),
    decreases o,
{
    if o > r.full_start {
        lemma_line_feeds_in_line(bytes, r, o - 1);
        assert(bytes.take(o).drop_last() =~= bytes.take(o - 1));
        assert(bytes.take(o).last() == bytes[o - 1]);
    }
}

/// The line found for a match is the line that holds the byte at which it starts, as
/// the code pane counts the lines: lines in front of it end in front of the match. Only
/// a match behind a line feed that ends the text is in none; it gets the next number.
pub proof fn law_found_line_holds_the_match(
    bytes: Seq<u8>,
    ranges: Seq<source::SourceLineRange>,
    o: int,
)
    requires
        source::are_lines(bytes, ranges),
        0 <= o <= bytes.len() < usize::MAX,
    ensures
        found_line(bytes, None) is None,
        found_line(bytes, Some(o)) matches Some(l) && 1 <= l <= ranges.len() + 1 && {
            &&& forall|i: int| 0 <= i < l - 1 ==> (#[trigger] ranges[i]).full_end <= o
            &&& l <= ranges.len() ==> ranges[l - 1].full_start <= o && (o < ranges[l - 1].full_end
                || o == bytes.len())
            &&& o < bytes.len() ==> l <= ranges.len()
            &&& o == bytes.len() && o > 0 && bytes[o - 1] != 10 ==> l == ranges.len()
        },
{
    let n = ranges.len() as int;
    if n == 0 {
        assert(bytes.take(o) =~= Seq::empty());
    } else {
        assert(source::is_line(bytes, ranges[n - 1]));
        assert(ranges[n - 1].full_end == bytes.len());
        text::lemma_count_bound(bytes.take(o), 10u8);
        if o < bytes.len() {
            lemma_line_of(bytes, ranges, o, n - 1);
        } else {
            let last = ranges[n - 1];
            lemma_line_feeds_before_line(bytes, ranges, n - 1);
            lemma_line_feeds_in_line(bytes, last, o - 1);
            assert(bytes.take(o).drop_last() =~= bytes.take(o - 1));
            assert(bytes.take(o).last() == bytes[o - 1]);
            assert forall|i: int| 0 <= i < n implies (#[trigger] ranges[i]).full_end <= o by {
                assert(source::is_line(bytes, ranges[i]));
            }
        }
    }
}

/// The line of a byte, counted down from a line that does not end in front of it.
proof fn lemma_line_of(bytes: Seq<u8>, ranges: Seq<source::SourceLineRange>, o: int, i: int)
    requires
        source::are_lines(bytes, ranges),
        0 <= i < ranges.len(),
        0 <= o < ranges[i].full_end,
    ensures
        text::count(bytes.take(o), 10u8) <= i,
        ({
            let k = text::count(bytes.take(o), 10u8) as int;
            &&& ranges[k].full_start <= o < ranges[k].full_end
            &&& forall|j: int| 0 <= j < k ==> (#[trigger] ranges[j]).full_end <= o
        }),
    decreases i,
{
    assert(source::is_line(bytes, ranges[i]));
    if ranges[i].full_start <= o {
        lemma_line_feeds_before_line(bytes, ranges, i);
        lemma_line_feeds_in_line(bytes, ranges[i], o);
        lemma_lines_end_before(bytes, ranges, i);
    } else {
        assert(i > 0);
        assert(ranges[i].full_start == ranges[i - 1].full_end);
        lemma_line_of(bytes, ranges, o, i - 1);
    }
}

/// The lines in front of a line end where it begins at the latest.
proof fn lemma_lines_end_before(bytes: Seq<u8>, ranges: Seq<source::SourceLineRange>, i: int)
    requires
        source::are_lines(bytes, ranges),
        0 <= i < ranges.len(),
    ensures
        forall|j: int| 0 <= j < i ==> (#[trigger] ranges[j]).full_end <= ranges[i].full_start,
    decreases i,
{
    if i > 0 {
        lemma_lines_end_before(bytes, ranges, i - 1);
        assert(source::is_line(bytes, ranges[i - 1]));
        assert(ranges[i].full_start == ranges[i - 1].full_end);
    }
}

/// A pattern anchor comes to the line that holds the start of the pattern's first
/// match, to none where there is no match or no pattern, and never to a warning.
pub proof fn law_pattern_anchor_finds_its_match(
    anchor: Anchor,
    hay: Seq<char>,
    ranges: Seq<source::SourceLineRange>,
    p: Seq<char>,
    o: nat,
)
    requires
        anchor.kind@ == "pattern"@,
        stop::text_of(anchor.value) == Some(p),
        source::are_lines(encode_utf8(hay), ranges),
        o <= encode_utf8(hay).len() < usize::MAX,
    ensures
        resolved(anchor, hay).warning is None,
        !regex_compiles(p) || regex_match_start(p, hay) is None ==> resolved(anchor, hay).line
            is None,
        regex_compiles(p) && regex_match_start(p, hay) == Some(o) ==> (resolved(
            anchor,
            hay,
        ).line matches Some(l) && 1 <= l <= ranges.len() + 1 && (o < encode_utf8(hay).len() ==> l
            <= ranges.len() && ranges[l - 1].full_start <= o < ranges[l - 1].full_end)),
{
    reveal_strlit("line");
    reveal_strlit("pattern");
    assert("line"@.len() != "pattern"@.len());
    law_found_line_holds_the_match(encode_utf8(hay), ranges, o as int);
}

/// A tree-sitter anchor comes to the line that holds the start of the first place at
/// which the longest literal of its query stands, to none where it does not stand in
/// the text; and the warning names the literal.
pub proof fn law_treesitter_anchor_finds_its_literal(
    anchor: Anchor,
    hay: Seq<char>,
    ranges: Seq<source::SourceLineRange>,
    n: Seq<char>,
    o: int,
)
    requires
        anchor.kind@ == "treesitter"@,
        anchor.query matches Some(q) && longest(literals_from(encode_utf8(q@), 0)) == Some(n),
        n.len() > 0,
        regex_compiles(literal_pattern(n)),
        source::are_lines(encode_utf8(hay), ranges),
        encode_utf8(hay).len() < usize::MAX,
    ensures
        resolved(anchor, hay).warning matches Some(w) && text::occurs(w, n),
        !text::occurs(encode_utf8(hay), encode_utf8(n)) ==> resolved(anchor, hay).line is None,
        text::occurs_first_at(encode_utf8(hay), encode_utf8(n), o) && o < encode_utf8(hay).len()
            ==> (resolved(anchor, hay).line matches Some(l) && 1 <= l <= ranges.len()
            && ranges[l - 1].full_start <= o < ranges[l - 1].full_end),
{
    reveal_strlit("line");
    reveal_strlit("pattern");
    reveal_strlit("treesitter");
    assert("line"@.len() != "treesitter"@.len());
    assert("pattern"@.len() != "treesitter"@.len());
    let bytes = encode_utf8(hay);
    let needle = encode_utf8(n);
    let intro = "tree-sitter not bundled — fell back to literal match on \""@;
    let w = intro + n + "\""@;
    assert(w.subrange(intro.len() as int, (intro.len() + n.len()) as int) =~= n);
    assert(text::occurs_at(w, n, intro.len() as int));
    text::lemma_first_at_is_first(bytes, needle);
    if text::occurs_first_at(bytes, needle, o) && o < bytes.len() {
        text::lemma_first_at(bytes, needle, o);
        law_found_line_holds_the_match(bytes, ranges, o);
    }
}

/// An anchor of another kind comes to no line, and the warning names the kind; a
/// tree-sitter anchor without a query or without a literal comes to none either.
pub proof fn law_unresolved_anchors_come_with_a_warning(anchor: Anchor, hay: Seq<char>)
    ensures
        anchor.kind@ != "line"@ && anchor.kind@ != "pattern"@ && anchor.kind@ != "treesitter"@ ==> {
            &&& resolved(anchor, hay).line is None
            &&& resolved(anchor, hay).warning matches Some(w) && text::occurs(w, anchor.kind@)
        },
        anchor.kind@ == "treesitter"@ && (anchor.query matches Some(q) ==> (longest(
            literals_from(encode_utf8(q@), 0),
        ) matches Some(n) ==> n.len() == 0)) ==> {
            &&& resolved(anchor, hay).line is None
            &&& resolved(anchor, hay).warning is Some
        },
        anchor.kind@ == "treesitter"@ ==> resolved(anchor, hay).warning is Some,
{
    reveal_strlit("line");
    reveal_strlit("pattern");
    reveal_strlit("treesitter");
    assert("line"@.len() != "treesitter"@.len());
    assert("pattern"@.len() != "treesitter"@.len());
    let intro = "unknown anchor kind: "@;
    let w = intro + anchor.kind@;
    assert(w.subrange(intro.len() as int, w.len() as int) =~= anchor.kind@);
    assert(text::occurs_at(w, anchor.kind@, intro.len() as int));
}

/// As many lines are highlighted as the table asks for, where it asks with a number
/// that is not negative.
pub proof fn law_highlight_count_is_the_number_of_lines(table: Value, n: int)
    ensures
        highlight_count(None) is None,
        stop::integer_of(stop::value_under(table, "lines"@)) == Some(n) && 0 <= n <= usize::MAX
            ==> (highlight_count(Some(table)) matches Some(k) && k == n),
        stop::integer_of(stop::value_under(table, "lines"@)) == Some(n) && n < 0
            ==> highlight_count(Some(table)) is None,
        stop::integer_of(stop::value_under(table, "lines"@)) is None ==> highlight_count(
            Some(table),
        ) is None,
{
}

/// The number of backslashes right in front of byte `k`, back to byte `from`.
pub open spec fn backslashes(bytes: Seq<u8>, from: int, k: int) -> nat
    decreases k - from,
{
    if k <= from || bytes[k - 1] != 92 {
        0
    } else {
        1 + backslashes(bytes, from, k - 1)
    }
}

/// A double quote from byte `from` on that no backslash escapes: an even number of
/// them stands in front of it.
pub open spec fn is_quote(bytes: Seq<u8>, from: int, k: int) -> bool {
    from <= k < bytes.len() && bytes[k] == 34 && backslashes(bytes, from, k) % 2 == 0
}

proof fn lemma_backslashes_shift(bytes: Seq<u8>, j: int, k: int)
    requires
        0 <= j,
        j + 2 <= k <= bytes.len(),
        bytes[j] == 92,
    ensures
        backslashes(bytes, j, k) % 2 == backslashes(bytes, j + 2, k) % 2,
    decreases k,
{
    reveal_with_fuel(backslashes, 3);
    if k > j + 2 && bytes[k - 1] == 92 {
        lemma_backslashes_shift(bytes, j, k - 1);
    }
}

proof fn lemma_backslashes_step(bytes: Seq<u8>, j: int, k: int)
    requires
        0 <= j,
        j + 1 <= k <= bytes.len(),
        bytes[j] != 92,
    ensures
        backslashes(bytes, j, k) == backslashes(bytes, j + 1, k),
    decreases k,
{
    reveal_with_fuel(backslashes, 2);
    if k > j + 1 && bytes[k - 1] == 92 {
        lemma_backslashes_step(bytes, j, k - 1);
    }
}

/// The next quote is the first double quote that no backslash escapes, and there is
/// none only where every double quote is escaped.
pub proof fn law_next_quote_is_the_first_unescaped(bytes: Seq<u8>, j: int)
    requires
        0 <= j,
    ensures
        match next_quote(bytes, j) {
            Some(k) => is_quote(bytes, j, k) && forall|m: int| j <= m < k ==> !#[trigger] is_quote(
                bytes,
                j,
                m,
            ),
            None => forall|m: int| !#[trigger] is_quote(bytes, j, m),
        },
    decreases bytes.len() - j,
{
    reveal_with_fuel(backslashes, 2);
    if j < bytes.len() && bytes[j] != 34 {
        if bytes[j] == 92 && j + 1 < bytes.len() {
            law_next_quote_is_the_first_unescaped(bytes, j + 2);
            assert forall|m: int| j <= m < bytes.len() implies #[trigger] is_quote(bytes, j, m)
                == is_quote(bytes, j + 2, m) by {
                if m >= j + 2 {
                    lemma_backslashes_shift(bytes, j, m);
                } else if m == j + 1 {
                    assert(backslashes(bytes, j, j + 1) == 1);
                }
            }
        } else {
            law_next_quote_is_the_first_unescaped(bytes, j + 1);
            assert forall|m: int| j <= m < bytes.len() implies #[trigger] is_quote(bytes, j, m)
                == is_quote(bytes, j + 1, m) by {
                if m >= j + 1 && bytes[j] != 92 {
                    lemma_backslashes_step(bytes, j, m);
                }
            }
        }
    }
}

/// The literals of a query are what stands between its first quote and the second,
/// then between the third and the fourth, and so on; a quote without a partner makes
/// none.
pub proof fn law_literals_stand_between_quotes(bytes: Seq<u8>, i: int, a: int, b: int)
    requires
        0 <= i,
        is_quote(bytes, i, a),
        forall|m: int| i <= m < a ==> !#[trigger] is_quote(bytes, i, m),
    ensures
        is_quote(bytes, a + 1, b) && (forall|m: int|
            a < m < b ==> !#[trigger] is_quote(bytes, a + 1, m)) ==> {
            &&& literals_from(bytes, i).len() > 0
            &&& literals_from(bytes, i)[0] == source::piece(bytes, a + 1, b)
            &&& literals_from(bytes, i).skip(1) == literals_from(bytes, b + 1)
        },
        (forall|m: int| !#[trigger] is_quote(bytes, a + 1, m)) ==> literals_from(bytes, i).len()
            == 0,
{
    law_next_quote_is_the_first_unescaped(bytes, i);
    law_next_quote_is_the_first_unescaped(bytes, a + 1);
    assert(next_quote(bytes, i) == Some(a));
    if is_quote(bytes, a + 1, b) && (forall|m: int|
        a < m < b ==> !#[trigger] is_quote(bytes, a + 1, m)) {
        assert(next_quote(bytes, a + 1) == Some(b));
        assert(literals_from(bytes, i).skip(1) =~= literals_from(bytes, b + 1));
    }
}

/// A query without a quote has no literal.
pub proof fn law_no_quote_no_literal(bytes: Seq<u8>, i: int)
    requires
        0 <= i,
        forall|m: int| !#[trigger] is_quote(bytes, i, m),
    ensures
        literals_from(bytes, i).len() == 0,
{
    law_next_quote_is_the_first_unescaped(bytes, i);
}

/// Of several literals that are equally long the last one is taken.
pub proof fn law_longest_is_the_last_of_its_length(texts: Seq<Seq<char>>, k: int)
    requires
        0 <= k < texts.len(),
        forall|i: int|
            0 <= i < texts.len() ==> encode_utf8(#[trigger] texts[i]).len() <= encode_utf8(
                texts[k],
            ).len(),
        forall|i: int|
            k < i < texts.len() ==> encode_utf8(#[trigger] texts[i]).len() < encode_utf8(
                texts[k],
            ).len(),
    ensures
        longest(texts) == Some(texts[k]),
    decreases texts.len(),
{
    let front = texts.drop_last();
    law_longest_is_the_longest(front);
    assert(texts.last() == texts[texts.len() - 1]);
    if k < front.len() {
        assert forall|i: int| 0 <= i < front.len() implies encode_utf8(#[trigger] front[i]).len()
            <= encode_utf8(front[k]).len() by {
            assert(front[i] == texts[i]);
        }
        assert forall|i: int| k < i < front.len() implies encode_utf8(#[trigger] front[i]).len()
            < encode_utf8(front[k]).len() by {
            assert(front[i] == texts[i]);
        }
        law_longest_is_the_last_of_its_length(front, k);
    } else if front.len() > 0 {
        let best = longest(front).unwrap();
        let i = choose|i: int| 0 <= i < front.len() && front[i] == best;
        assert(texts[i] == best);
    }
}

} // verus!
