//! Source files as the code pane shows them: lines, their colours, and the cache
//! of lines that were drawn before.

use crate::highlight;
use crate::highlight::{Assets, HighlightCheckpoint};
use crate::style;
use crate::style::Line;
use crate::text;
use std::collections::HashMap;
use syntect::easy::HighlightLines;
use vstd::prelude::*;
use vstd::string::*;
use vstd::utf8::*;

verus! {

/// A checkpoint is kept after every line whose number is a multiple of this.
pub const CHECKPOINT_INTERVAL: usize = 64;

/// A checkpoint further back than this is not used.
pub const MAX_RESUME_DISTANCE: usize = 512;

/// Where a line stands in the bytes of its file.
#[derive(Debug, Clone, Copy, PartialEq, Eq, Structural)]
pub struct SourceLineRange {
    /// The first byte of the line.
    pub full_start: usize,
    /// The end of the line without its line ending.
    pub content_end: usize,
    /// The end of the line with its line ending.
    pub full_end: usize,
}

/// `r` is a line of `bytes`: it holds no line feed but at its end, it ends with
/// a line feed or with the text, and its content leaves out the line feed and a
/// carriage return in front of it.
pub open spec fn is_line(bytes: Seq<u8>, r: SourceLineRange) -> bool {
    &&& r.full_start < r.full_end <= bytes.len()
    &&& forall|k: int| r.full_start <= k < r.full_end - 1 ==> #[trigger] bytes[k] != 10
    &&& bytes[r.full_end - 1] == 10 || r.full_end == bytes.len()
    &&& r.content_end == (if bytes[r.full_end - 1] != 10 {
        r.full_end as int
    } else if r.full_end - 1 > r.full_start && bytes[r.full_end - 2] == 13 {
        r.full_end - 2
    } else {
        r.full_end - 1
    })
}

/// The lines `v` cover `bytes` up to `end`, in order and without gaps.
pub open spec fn are_lines_up_to(bytes: Seq<u8>, v: Seq<SourceLineRange>, end: int) -> bool {
    &&& v.len() == 0 ==> end == 0
    &&& v.len() > 0 ==> v[0].full_start == 0 && v.last().full_end == end
    &&& forall|i: int| 0 <= i < v.len() ==> is_line(bytes, #[trigger] v[i])
    &&& forall|i: int, j: int|
        0 <= i && j == i + 1 && j < v.len() ==> (#[trigger] v[j]).full_start == (
        #[trigger] v[i]).full_end
}

/// `v` are the lines of `bytes`, in order.
pub open spec fn are_lines(bytes: Seq<u8>, v: Seq<SourceLineRange>) -> bool {
    are_lines_up_to(bytes, v, bytes.len() as int)
}

/// The lines of a text.
pub fn line_ranges(file_text: &str) -> (r: Vec<SourceLineRange>)
    ensures
        are_lines(file_text.spec_bytes(), r@),
{
    let bytes = file_text.as_bytes();
    let n: usize = bytes.len();
    let mut ranges: Vec<SourceLineRange> = Vec::new();
    let mut start: usize = 0;
    for i in 0..n
        invariant
            n == bytes@.len(),
            start <= i,
            are_lines_up_to(bytes@, ranges@, start as int),
            forall|k: int| start <= k < i ==> #[trigger] bytes@[k] != 10,
    {
        if bytes[i] == 10 {
            let content_end: usize = if i > start && bytes[i - 1] == 13 {
                i - 1
            } else {
                i
            };
            ranges.push(SourceLineRange { full_start: start, content_end, full_end: i + 1 });
            start = i + 1;
        }
    }
    if start < n {
        ranges.push(SourceLineRange { full_start: start, content_end: n, full_end: n });
    }
    ranges
}

/// The text between two byte offsets of an encoded text.
pub open spec fn piece(bytes: Seq<u8>, from: int, to: int) -> Seq<char> {
    decode_utf8(bytes.subrange(from, to))
}

/// A character that may separate the parts of a path on some platform.
pub open spec fn is_path_separator(c: char) -> bool {
    c == '/' || c == '\\' || c == ':'
}

/// The last index at which `c` stands in `s`, or -1.
pub open spec fn last_index(s: Seq<char>, c: char) -> int
    decreases s.len(),
{
    if s.len() == 0 {
        -1
    } else if s.last() == c {
        s.len() - 1
    } else {
        last_index(s.drop_last(), c)
    }
}

/// `path` begins with a plain component, or with one slash and a plain component.
pub open spec fn has_plain_start(path: Seq<char>) -> bool {
    &&& path.len() > 1
    &&& path[0] != '\\' && path[0] != ':'
    &&& path[0] == '/' ==> !is_path_separator(path[1])
}

/// No separator stands in `path` behind index `d`, and something else does.
pub open spec fn ends_plainly(path: Seq<char>, d: int) -> bool {
    &&& d < path.len() - 1
    &&& forall|i: int| d < i < path.len() ==> !is_path_separator(#[trigger] path[i])
}

/// The extension of a path that every platform reads alike: what follows the
/// last dot, where that is not empty, holds no separator, and the dot neither
/// starts the path nor follows a separator.
pub open spec fn plain_extension(path: Seq<char>) -> Option<Seq<char>> {
    let d = last_index(path, '.');
    if has_plain_start(path) && 0 < d && ends_plainly(path, d) && !is_path_separator(path[d - 1]) {
        Some(path.skip(d + 1))
    } else {
        None
    }
}

/// A path that every platform reads as one without an extension: it has no dot, or
/// its last dot starts the name of the file.
pub open spec fn has_no_extension(path: Seq<char>) -> bool {
    let d = last_index(path, '.');
    d < 0 || has_plain_start(path) && ends_plainly(path, d) && (d == 0 || path[d - 1] == '/')
}

/// `Path::extension` of the standard library: a path without a dot, or with its last
/// dot at the start of the file's name, has none; another path that every platform
/// reads alike has what follows its last dot. What it returns on any other path (a
/// separator or nothing behind the last dot, two separators at the start) depends on
/// the platform and is not stated.
#[verifier::external_body]
fn file_extension(file: &str) -> (r: Option<String>)
    ensures
        plain_extension(file@) matches Some(e) ==> text::opt_text(r) == Some(e),
        has_no_extension(file@) ==> r is None,
{
    std::path::Path::new(file).extension().and_then(|e| e.to_str()).map(|e| e.to_string())
}

/// A file, its lines, and what has been drawn of it.
pub struct LoadedSource {
    pub file: String,
    pub extension: Option<String>,
    pub file_text: String,
    pub line_ranges: Vec<SourceLineRange>,
    /// The code lines drawn so far, by index.
    pub rendered_lines: HashMap<usize, Line>,
    /// States of the highlighter, by the index of the line that follows.
    pub checkpoints: HashMap<usize, HighlightCheckpoint>,
    pub color: bool,
}

/// The lines from `from` up to `to`, each with its line ending.
pub open spec fn lines_between(
    bytes: Seq<u8>,
    ranges: Seq<SourceLineRange>,
    from: int,
    to: int,
) -> Seq<Seq<char>> {
    Seq::new(
        (to - from) as nat,
        |i: int|
            piece(bytes, ranges[from + i].full_start as int, ranges[from + i].full_end as int),
    )
}

/// Every checkpoint holds the state that its place in the file calls for.
pub open spec fn are_checkpoints(
    extension: Option<Seq<char>>,
    bytes: Seq<u8>,
    ranges: Seq<SourceLineRange>,
    points: Map<usize, HighlightCheckpoint>,
) -> bool {
    forall|k: usize| #[trigger]
        points.contains_key(k) ==> {
            &&& points[k].started_at() <= k <= ranges.len()
            &&& points[k].is_after(
                extension,
                lines_between(bytes, ranges, points[k].started_at() as int, k as int),
            )
            &&& highlight::are_short(
                lines_between(bytes, ranges, points[k].started_at() as int, k as int),
            )
        }
}

/// The largest member of `lines` between `low` and `k`.
pub open spec fn nearest_from(lines: Set<usize>, k: int, low: int) -> Option<int>
    decreases k - low + 1,
{
    if k < low {
        None
    } else if lines.contains(k as usize) {
        Some(k)
    } else {
        nearest_from(lines, k - 1, low)
    }
}

/// `new` is `old` with the lines from `low` to `high` added, each as
/// `source` shows it; a line that was there stays as it was.
#[verifier::opaque]
pub open spec fn filled(
    old_lines: Map<usize, Line>,
    new_lines: Map<usize, Line>,
    low: int,
    high: int,
    source: LoadedSource,
    from: Option<int>,
) -> bool {
    forall|k: usize| #![trigger new_lines.contains_key(k)] #![trigger new_lines[k]]
        {
            &&& new_lines.contains_key(k) <==> old_lines.contains_key(k) || low <= k <= high
            &&& old_lines.contains_key(k) ==> new_lines[k] == old_lines[k]
            &&& !old_lines.contains_key(k) && low <= k <= high ==> new_lines[k]@ == source.code_line(
                from,
                k as int,
            ) && source.shows_line(new_lines[k]@, k as int)
        }
}

/// A checkpoint is kept after line `i` when the lines up to `last` are drawn.
pub open spec fn is_checkpoint_line(i: int, last: int) -> bool {
    i == last || (i + 1) % (CHECKPOINT_INTERVAL as int) == 0
}

/// `new` is `old` with a checkpoint after each line from `low` to `high` that
/// calls for one, of a highlighter that had started at `from`.
#[verifier::opaque]
pub open spec fn checkpointed(
    old_points: Map<usize, HighlightCheckpoint>,
    new_points: Map<usize, HighlightCheckpoint>,
    low: int,
    high: int,
    last: int,
    from: nat,
) -> bool {
    forall|k: usize| #![trigger new_points.contains_key(k)] #![trigger new_points[k]]
        {
            let due = low < k <= high + 1 && is_checkpoint_line(k - 1, last);
            &&& new_points.contains_key(k) <==> old_points.contains_key(k) || due
            &&& old_points.contains_key(k) ==> new_points[k] == old_points[k]
            &&& !old_points.contains_key(k) && due ==> new_points[k].started_at() == from
        }
}

proof fn lemma_filled_start(
    lines: Map<usize, Line>,
    low: int,
    source: LoadedSource,
    from: Option<int>,
)
    ensures
        filled(lines, lines, low, low - 1, source, from),
{
    reveal(filled);
}

proof fn lemma_filled_step(
    old_lines: Map<usize, Line>,
    lines: Map<usize, Line>,
    low: int,
    i: usize,
    line: Line,
    source: LoadedSource,
    from: Option<int>,
)
    requires
        filled(old_lines, lines, low, i - 1, source, from),
        low <= i,
        line@ == source.code_line(from, i as int),
        source.shows_line(line@, i as int),
    ensures
        lines.contains_key(i) ==> filled(old_lines, lines, low, i as int, source, from),
        !lines.contains_key(i) ==> filled(old_lines, lines.insert(i, line), low, i as int, source, from),
{
    reveal(filled);
    assert(lines.contains_key(i) <==> old_lines.contains_key(i));
}

proof fn lemma_checkpointed_start(
    points: Map<usize, HighlightCheckpoint>,
    low: int,
    last: int,
    from: nat,
)
    ensures
        checkpointed(points, points, low, low - 1, last, from),
{
    reveal(checkpointed);
}

proof fn lemma_checkpointed_skip(
    old_points: Map<usize, HighlightCheckpoint>,
    points: Map<usize, HighlightCheckpoint>,
    low: int,
    i: usize,
    last: int,
    from: nat,
)
    requires
        checkpointed(old_points, points, low, i - 1, last, from),
        low <= i,
        !is_checkpoint_line(i as int, last),
    ensures
        checkpointed(old_points, points, low, i as int, last, from),
{
    reveal(checkpointed);
}

proof fn lemma_checkpointed_step(
    old_points: Map<usize, HighlightCheckpoint>,
    points: Map<usize, HighlightCheckpoint>,
    low: int,
    i: usize,
    last: int,
    from: nat,
    point: HighlightCheckpoint,
)
    requires
        checkpointed(old_points, points, low, i - 1, last, from),
        low <= i < usize::MAX,
        is_checkpoint_line(i as int, last),
        point.started_at() == from,
    ensures
        points.contains_key((i + 1) as usize) ==> checkpointed(
            old_points,
            points,
            low,
            i as int,
            last,
            from,
        ),
        !points.contains_key((i + 1) as usize) ==> checkpointed(
            old_points,
            points.insert((i + 1) as usize, point),
            low,
            i as int,
            last,
            from,
        ),
{
    reveal(checkpointed);
    let next = (i + 1) as usize;
    assert(points.contains_key(next) <==> old_points.contains_key(next));
}

/// Whether a checkpoint is kept after line `idx` when the lines up to
/// `last_needed` are drawn.
pub fn should_store_checkpoint(idx: usize, last_needed: usize) -> (r: bool)
    requires
        idx < usize::MAX,
    ensures
        r == is_checkpoint_line(idx as int, last_needed as int),
{
    idx == last_needed || (idx + 1) % CHECKPOINT_INTERVAL == 0
}

/// The lowest index from `low` up to `high` that is not drawn yet, or `high`.
pub open spec fn first_missing(lines: Set<usize>, low: int, high: int) -> int
    decreases high - low,
{
    if low >= high || !lines.contains(low as usize) {
        low
    } else {
        first_missing(lines, low + 1, high)
    }
}

/// The highest index from `low` up to `high` that is not drawn yet, or `low - 1`.
pub open spec fn last_missing(lines: Set<usize>, low: int, high: int) -> int
    decreases high - low,
{
    if low >= high || !lines.contains((high - 1) as usize) {
        high - 1
    } else {
        last_missing(lines, low, high - 1)
    }
}

#[verifier::spinoff_prover]
proof fn lemma_missing(lines: Set<usize>, low: int, high: int)
    requires
        0 <= low <= high <= usize::MAX,
    ensures
        low <= first_missing(lines, low, high) <= high,
        low - 1 <= last_missing(lines, low, high) < high,
        forall|k: usize|
            low <= k < first_missing(lines, low, high) ==> #[trigger] lines.contains(k),
        forall|k: usize|
            last_missing(lines, low, high) < k < high ==> #[trigger] lines.contains(k),
        first_missing(lines, low, high) < high <==> last_missing(lines, low, high) >= low,
        first_missing(lines, low, high) < high ==> first_missing(lines, low, high)
            <= last_missing(lines, low, high) && !lines.contains(
            first_missing(lines, low, high) as usize,
        ) && !lines.contains(last_missing(lines, low, high) as usize),
    decreases high - low,
{
    if low < high {
        lemma_missing(lines, low + 1, high);
        lemma_missing(lines, low, high - 1);
        if first_missing(lines, low, high) < high {
            let f = first_missing(lines, low, high) as usize;
            let l = last_missing(lines, low, high);
            if l < f {
                assert(lines.contains(f));
            }
        }
        if last_missing(lines, low, high) >= low {
            let l = last_missing(lines, low, high) as usize;
            if first_missing(lines, low, high) > l {
                assert(lines.contains(l));
            }
        }
    }
}

impl LoadedSource {
    /// The bytes of the file.
    pub open spec fn bytes(&self) -> Seq<u8> {
        encode_utf8(self.file_text@)
    }

    /// The number of lines.
    pub open spec fn line_count(&self) -> nat {
        self.line_ranges@.len()
    }

    /// Line `i` without its line ending.
    pub open spec fn content(&self, i: int) -> Seq<char> {
        piece(
            self.bytes(),
            self.line_ranges@[i].full_start as int,
            self.line_ranges@[i].content_end as int,
        )
    }

    /// Line `i` with its line ending.
    pub open spec fn full_line(&self, i: int) -> Seq<char> {
        piece(
            self.bytes(),
            self.line_ranges@[i].full_start as int,
            self.line_ranges@[i].full_end as int,
        )
    }

    /// The lines from `from` up to `to`, each with its line ending.
    pub open spec fn full_lines(&self, from: int, to: int) -> Seq<Seq<char>> {
        lines_between(self.bytes(), self.line_ranges@, from, to)
    }

    /// The lines from `from` up to `to` can be given to a highlighter.
    pub open spec fn lines_are_short(&self, from: int, to: int) -> bool {
        highlight::are_short(self.full_lines(from, to))
    }

    /// Line `i` with its colours, where highlighting started at line `from`.
    pub open spec fn colored_line(&self, from: int, i: int) -> Seq<style::SpanView> {
        style::highlighted_code_line(
            (i + 1) as nat,
            self.content(i),
            highlight::regions_of_last(
                text::opt_text(self.extension),
                self.full_lines(from, i + 1),
            ),
        )
    }

    /// Line `i` without colours.
    pub open spec fn plain_line(&self, i: int) -> Seq<style::SpanView> {
        style::plain_code_line((i + 1) as nat, self.content(i))
    }

    /// Line `i` as it is drawn: with its colours where highlighting started at some
    /// line, else without.
    pub open spec fn code_line(&self, from: Option<int>, i: int) -> Seq<style::SpanView> {
        match from {
            Some(f) => self.colored_line(f, i),
            None => self.plain_line(i),
        }
    }

    /// The spans show line `i` with its number in front, where the line holds no
    /// carriage return but at its end.
    pub open spec fn shows_line(&self, spans: Seq<style::SpanView>, i: int) -> bool {
        !self.content(i).contains('\r') ==> style::shown_text(spans) == style::gutter(
            (i + 1) as nat,
        ).content + self.content(i)
    }

    /// The line ranges are those of the text, and every checkpoint holds the state
    /// that its place in the file calls for.
    pub open spec fn wf(&self) -> bool {
        &&& are_lines(self.bytes(), self.line_ranges@)
        &&& are_checkpoints(
            text::opt_text(self.extension),
            self.bytes(),
            self.line_ranges@,
            self.checkpoints@,
        )
    }

    /// Nothing but what has been drawn differs.
    pub open spec fn same_file(&self, other: LoadedSource) -> bool {
        &&& self.file == other.file
        &&& self.extension == other.extension
        &&& self.file_text == other.file_text
        &&& self.line_ranges == other.line_ranges
        &&& self.color == other.color
    }

    /// The line of the checkpoint to go on from in order to draw line `target`.
    pub open spec fn checkpoint_before(&self, target: int) -> Option<int> {
        nearest_from(
            self.checkpoints@.dom(),
            target,
            if target >= MAX_RESUME_DISTANCE {
                target - MAX_RESUME_DISTANCE
            } else {
                0
            },
        )
    }

    /// The first line that is drawn in order to draw line `target`.
    pub open spec fn resume_line(&self, target: int) -> int {
        match self.checkpoint_before(target) {
            Some(l) => l,
            None => if target >= CHECKPOINT_INTERVAL {
                target - CHECKPOINT_INTERVAL
            } else {
                0
            },
        }
    }

    /// The line at which the highlighter that draws line `target` starts.
    pub open spec fn start_line(&self, target: int) -> int {
        match self.checkpoint_before(target) {
            Some(l) => self.checkpoints@[l as usize].started_at() as int,
            None => self.resume_line(target),
        }
    }

    /// The file of that name and text, of which nothing has been drawn yet.
    pub open spec fn is_fresh(&self, file: Seq<char>, file_text: String, color: bool) -> bool {
        &&& self.wf()
        &&& self.file@ == file
        &&& self.file_text == file_text
        &&& self.color == color
        &&& plain_extension(file) matches Some(e) ==> text::opt_text(self.extension) == Some(e)
        &&& has_no_extension(file) ==> self.extension is None
        &&& self.rendered_lines@ == Map::<usize, Line>::empty()
        &&& self.checkpoints@ == Map::<usize, HighlightCheckpoint>::empty()
    }

    /// A file that nothing has been drawn of yet.
    pub fn new(file: &str, file_text: String, color: bool) -> (r: LoadedSource)
        ensures
            r.is_fresh(file@, file_text, color),
    {
        let ranges = line_ranges(file_text.as_str());
        LoadedSource {
            file: text::owned(file),
            extension: file_extension(file),
            file_text,
            line_ranges: ranges,
            rendered_lines: HashMap::new(),
            checkpoints: HashMap::new(),
            color,
        }
    }

    proof fn lemma_line_boundaries(&self, i: int)
        requires
            self.wf(),
            0 <= i < self.line_count(),
        ensures
            valid_utf8(self.bytes()),
            is_char_boundary(self.bytes(), self.line_ranges@[i].full_start as int),
            is_char_boundary(self.bytes(), self.line_ranges@[i].content_end as int),
            is_char_boundary(self.bytes(), self.line_ranges@[i].full_end as int),
    {
        let bytes = self.bytes();
        let r = self.line_ranges@[i];
        encode_utf8_valid_utf8(self.file_text@);
        assert(is_line(bytes, r));
        is_char_boundary_start_end_of_seq(bytes);
        if i > 0 {
            let p = self.line_ranges@[i - 1];
            assert(is_line(bytes, p));
            assert(r.full_start == p.full_end);
            assert(bytes[p.full_end - 1] == 10);
            text::lemma_ascii_boundaries(bytes, p.full_end - 1);
        }
        if bytes[r.full_end - 1] == 10 {
            text::lemma_ascii_boundaries(bytes, r.full_end - 1);
            if r.full_end - 1 > r.full_start && bytes[r.full_end - 2] == 13 {
                text::lemma_ascii_boundaries(bytes, r.full_end - 2);
            }
        }
    }

    /// Line `idx` without its line ending.
    pub fn source_line(&self, idx: usize) -> (r: Option<&str>)
        requires
            self.wf(),
        ensures
            match r {
                Some(s) => idx < self.line_count() && s@ == self.content(idx as int),
                None => idx >= self.line_count(),
            },
    {
        if idx >= self.line_ranges.len() {
            return None;
        }
        proof {
            self.lemma_line_boundaries(idx as int);
        }
        let range = self.line_ranges[idx];
        let s = text::slice(self.file_text.as_str(), range.full_start, range.content_end);
        proof {
            encode_utf8_decode_utf8(s@);
        }
        Some(s)
    }

    /// Line `idx` with its line ending.
    pub fn source_line_with_ending(&self, idx: usize) -> (r: Option<&str>)
        requires
            self.wf(),
        ensures
            match r {
                Some(s) => idx < self.line_count() && s@ == self.full_line(idx as int),
                None => idx >= self.line_count(),
            },
    {
        if idx >= self.line_ranges.len() {
            return None;
        }
        proof {
            self.lemma_line_boundaries(idx as int);
        }
        let range = self.line_ranges[idx];
        let s = text::slice(self.file_text.as_str(), range.full_start, range.full_end);
        proof {
            encode_utf8_decode_utf8(s@);
        }
        Some(s)
    }

    /// Where to start in order to draw line `target`, and the state to start from:
    /// the nearest checkpoint that is not too far back, else a fresh state some
    /// lines ahead.
    fn nearest_checkpoint(&self, assets: &Assets, target: usize) -> (r: (
        usize,
        HighlightCheckpoint,
    ))
        requires
            self.wf(),
            target <= self.line_count(),
        ensures
            r.0 == self.resume_line(target as int),
            r.1.started_at() == self.start_line(target as int),
            r.1.started_at() <= r.0 <= target,
            r.1.is_after(
                text::opt_text(self.extension),
                self.full_lines(r.1.started_at() as int, r.0 as int),
            ),
            self.lines_are_short(r.1.started_at() as int, r.0 as int),
    {
        broadcast use vstd::std_specs::hash::group_hash_axioms;

        match self.find_checkpoint(target) {
            Some(line) => {
                return (line, self.checkpoints.get(&line).unwrap().copy());
            },
            None => {},
        }
        let fallback: usize = target.saturating_sub(CHECKPOINT_INTERVAL);
        let checkpoint = highlight::initial_checkpoint(
            assets,
            &self.extension,
            Ghost(fallback as nat),
        );
        assert(self.full_lines(fallback as int, fallback as int) =~= Seq::empty());
        (fallback, checkpoint)
    }

    /// The line of the nearest checkpoint in front of line `target` that is not too
    /// far back.
    fn find_checkpoint(&self, target: usize) -> (r: Option<usize>)
        ensures
            match r {
                Some(line) => self.checkpoint_before(target as int) == Some(line as int)
                    && self.checkpoints@.contains_key(line) && line <= target,
                None => self.checkpoint_before(target as int) is None,
            },
    {
        broadcast use vstd::std_specs::hash::group_hash_axioms;

        let low: usize = target.saturating_sub(MAX_RESUME_DISTANCE);
        let mut line: usize = target;
        loop
            invariant
                low <= line <= target,
                low == (if target >= MAX_RESUME_DISTANCE {
                    target - MAX_RESUME_DISTANCE
                } else {
                    0
                }),
                self.checkpoint_before(target as int) == nearest_from(
                    self.checkpoints@.dom(),
                    line as int,
                    low as int,
                ),
            ensures
                self.checkpoint_before(target as int) is None,
            decreases line,
        {
            if self.checkpoints.contains_key(&line) {
                return Some(line);
            }
            if line == low {
                proof {
                    reveal_with_fuel(nearest_from, 2);
                }
                break;
            }
            line = line - 1;
        }
        None
    }

    /// The end of the lines to show, for `count` lines from `start` on.
    pub open spec fn shown_end(&self, start: int, count: int) -> int {
        if start + count < self.line_count() {
            start + count
        } else {
            self.line_count() as int
        }
    }

    /// `self` is `before` after `count` lines from `start` on have been drawn: the
    /// lines between the first and the last that were missing, and with colours
    /// also those that the highlighter passes on its way.
    pub open spec fn drawn_from(&self, before: LoadedSource, start: int, count: int) -> bool {
        let end = before.shown_end(start, count);
        let first = first_missing(before.rendered_lines@.dom(), start, end);
        let last = last_missing(before.rendered_lines@.dom(), start, end);
        &&& self.wf()
        &&& self.same_file(before)
        &&& if start >= end || first >= end {
            self.rendered_lines@ == before.rendered_lines@ && self.checkpoints@
                == before.checkpoints@
        } else if !before.color {
            &&& filled(
                before.rendered_lines@,
                self.rendered_lines@,
                first,
                last,
                before,
                None,
            )
            &&& self.checkpoints@ == before.checkpoints@
        } else {
            &&& filled(
                before.rendered_lines@,
                self.rendered_lines@,
                before.resume_line(first),
                last,
                before,
                Some(before.start_line(first)),
            )
            &&& checkpointed(
                before.checkpoints@,
                self.checkpoints@,
                before.resume_line(first),
                last,
                last,
                before.start_line(first) as nat,
            )
        }
    }

    /// Keeps the state in front of line `line` unless one is kept there already.
    fn store_checkpoint(&mut self, line: usize, checkpoint: HighlightCheckpoint)
        requires
            old(self).wf(),
            checkpoint.started_at() <= line <= old(self).line_count(),
            checkpoint.is_after(
                text::opt_text(old(self).extension),
                old(self).full_lines(checkpoint.started_at() as int, line as int),
            ),
            old(self).lines_are_short(checkpoint.started_at() as int, line as int),
        ensures
            final(self).wf(),
            final(self).same_file(*old(self)),
            final(self).rendered_lines == old(self).rendered_lines,
            final(self).checkpoints@ == (if old(self).checkpoints@.contains_key(line) {
                old(self).checkpoints@
            } else {
                old(self).checkpoints@.insert(line, checkpoint)
            }),
    {
        broadcast use vstd::std_specs::hash::group_hash_axioms;

        if !self.checkpoints.contains_key(&line) {
            self.checkpoints.insert(line, checkpoint);
        }
    }

    /// Draws the next line with its colours, unless it is drawn already. `from` is
    /// the line at which the highlighter had started; the lines from `low` on have
    /// been drawn since the file was `before`.
    fn draw_line(
        &mut self,
        assets: &Assets,
        highlighter: &mut HighlightLines<'_>,
        idx: usize,
        Ghost(before): Ghost<LoadedSource>,
        Ghost(low): Ghost<int>,
        Ghost(from): Ghost<int>,
    )
        requires
            before.wf(),
            old(self).wf(),
            old(self).same_file(before),
            0 <= from <= low <= idx < before.line_count(),
            highlight::given(
                old(highlighter),
                text::opt_text(before.extension),
                before.full_lines(from, idx as int),
            ),
            before.lines_are_short(from, idx + 1),
            filled(
                before.rendered_lines@,
                old(self).rendered_lines@,
                low,
                idx - 1,
                before,
                Some(from),
            ),
        ensures
            final(self).wf(),
            final(self).same_file(before),
            final(self).checkpoints == old(self).checkpoints,
            highlight::given(
                final(highlighter),
                text::opt_text(before.extension),
                before.full_lines(from, idx + 1),
            ),
            filled(
                before.rendered_lines@,
                final(self).rendered_lines@,
                low,
                idx as int,
                before,
                Some(from),
            ),
    {
        broadcast use vstd::std_specs::hash::group_hash_axioms;

        proof {
            lemma_line_count(*self);
        }
        let full = self.source_line_with_ending(idx).unwrap();
        let content = self.source_line(idx).unwrap();
        assert(before.full_lines(from, idx as int).push(full@) =~= before.full_lines(
            from,
            idx + 1,
        ));
        proof {
            before.lemma_short_part(from, idx as int, idx + 1);
            assert(before.full_lines(from, idx + 1)[idx - from] == full@);
        }
        let regions = highlight::highlight_line(highlighter, full, assets);
        let line = style::build_highlighted_code_line(idx + 1, content, &regions);
        proof {
            assert(line@ == before.code_line(Some(from), idx as int));
            lemma_colored_line_shows(before, idx as int, style::region_views(regions@));
            lemma_filled_step(
                before.rendered_lines@,
                self.rendered_lines@,
                low,
                idx,
                line,
                before,
                Some(from),
            );
        }
        if !self.rendered_lines.contains_key(&idx) {
            self.rendered_lines.insert(idx, line);
        }
    }

    /// Keeps the state behind line `idx` where a checkpoint is due, and goes on.
    /// `from` is the line at which the highlighter had started; checkpoints have been
    /// kept from line `low` on since the file was `before`.
    fn pass_line<'a>(
        &mut self,
        assets: &'a Assets,
        highlighter: HighlightLines<'a>,
        idx: usize,
        last_needed: usize,
        Ghost(before): Ghost<LoadedSource>,
        Ghost(low): Ghost<int>,
        Ghost(from): Ghost<int>,
    ) -> (r: HighlightLines<'a>)
        requires
            old(self).wf(),
            old(self).same_file(before),
            0 <= from <= low <= idx <= last_needed < before.line_count(),
            highlight::given(
                &highlighter,
                text::opt_text(before.extension),
                before.full_lines(from, idx + 1),
            ),
            before.lines_are_short(from, idx + 1),
            checkpointed(
                before.checkpoints@,
                old(self).checkpoints@,
                low,
                idx - 1,
                last_needed as int,
                from as nat,
            ),
        ensures
            final(self).wf(),
            final(self).same_file(before),
            final(self).rendered_lines == old(self).rendered_lines,
            highlight::given(
                &r,
                text::opt_text(before.extension),
                before.full_lines(from, idx + 1),
            ),
            checkpointed(
                before.checkpoints@,
                final(self).checkpoints@,
                low,
                idx as int,
                last_needed as int,
                from as nat,
            ),
    {
        proof {
            lemma_line_count(*self);
        }
        if should_store_checkpoint(idx, last_needed) {
            let checkpoint = highlight::checkpoint_of(highlighter, Ghost(from as nat));
            proof {
                let ext = text::opt_text(before.extension);
                assert(checkpoint.is_after(ext, before.full_lines(from, idx + 1)));
                lemma_checkpointed_step(
                    before.checkpoints@,
                    self.checkpoints@,
                    low,
                    idx,
                    last_needed as int,
                    from as nat,
                    checkpoint,
                );
            }
            let next = highlight::resume_from(assets, checkpoint.copy());
            self.store_checkpoint(idx + 1, checkpoint);
            next
        } else {
            proof {
                lemma_checkpointed_skip(
                    before.checkpoints@,
                    self.checkpoints@,
                    low,
                    idx,
                    last_needed as int,
                    from as nat,
                );
            }
            highlighter
        }
    }

    /// Draws the lines from the resume point of `first_missing` up to `last_needed`
    /// with their colours, and keeps checkpoints on the way.
    fn highlight_code_range(&mut self, assets: &Assets, first_missing: usize, last_needed: usize)
        requires
            old(self).wf(),
            first_missing <= last_needed < old(self).line_count(),
            old(self).lines_are_short(
                old(self).resume_line(first_missing as int),
                last_needed + 1,
            ),
        ensures
            final(self).wf(),
            final(self).same_file(*old(self)),
            filled(
                old(self).rendered_lines@,
                final(self).rendered_lines@,
                old(self).resume_line(first_missing as int),
                last_needed as int,
                *old(self),
                Some(old(self).start_line(first_missing as int)),
            ),
            checkpointed(
                old(self).checkpoints@,
                final(self).checkpoints@,
                old(self).resume_line(first_missing as int),
                last_needed as int,
                last_needed as int,
                old(self).start_line(first_missing as int) as nat,
            ),
    {
        let (resume_line, checkpoint) = self.nearest_checkpoint(assets, first_missing);
        let ghost before = *self;
        let ghost from = checkpoint.started_at() as int;
        let ghost ext = text::opt_text(self.extension);
        let mut highlighter = highlight::resume_from(assets, checkpoint);
        let mut idx: usize = resume_line;
        proof {
            before.lemma_short_join(from, resume_line as int, last_needed + 1);
            lemma_filled_start(self.rendered_lines@, resume_line as int, before, Some(from));
            lemma_checkpointed_start(
                self.checkpoints@,
                resume_line as int,
                last_needed as int,
                from as nat,
            );
        }
        let n: usize = self.line_ranges.len();
        while idx <= last_needed
            invariant
                from <= resume_line <= idx <= last_needed + 1,
                0 <= from,
                last_needed < n,
                n == before.line_count(),
                before.wf(),
                self.wf(),
                self.same_file(before),
                ext == text::opt_text(before.extension),
                highlight::given(&highlighter, ext, before.full_lines(from, idx as int)),
                before.lines_are_short(from, last_needed + 1),
                filled(
                    before.rendered_lines@,
                    self.rendered_lines@,
                    resume_line as int,
                    idx - 1,
                    before,
                    Some(from),
                ),
                checkpointed(
                    before.checkpoints@,
                    self.checkpoints@,
                    resume_line as int,
                    idx - 1,
                    last_needed as int,
                    from as nat,
                ),
            decreases last_needed + 1 - idx,
        {
            proof {
                before.lemma_short_part(from, idx + 1, last_needed + 1);
            }
            self.draw_line(
                assets,
                &mut highlighter,
                idx,
                Ghost(before),
                Ghost(resume_line as int),
                Ghost(from),
            );
            highlighter =
            self.pass_line(
                assets,
                highlighter,
                idx,
                last_needed,
                Ghost(before),
                Ghost(resume_line as int),
                Ghost(from),
            );
            idx = idx + 1;
        }
    }

    /// The first and the last line from `start` up to `end` that are not drawn yet.
    fn missing_span(&self, start: usize, end: usize) -> (r: Option<(usize, usize)>)
        requires
            start < end,
        ensures
            match r {
                Some((a, b)) => a == first_missing(
                    self.rendered_lines@.dom(),
                    start as int,
                    end as int,
                ) && b == last_missing(self.rendered_lines@.dom(), start as int, end as int) && start
                    <= a <= b < end,
                None => first_missing(self.rendered_lines@.dom(), start as int, end as int) == end,
            },
    {
        broadcast use vstd::std_specs::hash::group_hash_axioms;

        let ghost lines = self.rendered_lines@.dom();
        proof {
            lemma_missing(lines, start as int, end as int);
        }
        let mut a: usize = start;
        while a < end && self.rendered_lines.contains_key(&a)
            invariant
                start <= a <= end,
                lines == self.rendered_lines@.dom(),
                first_missing(lines, start as int, end as int) == first_missing(
                    lines,
                    a as int,
                    end as int,
                ),
            decreases end - a,
        {
            a = a + 1;
        }
        if a == end {
            return None;
        }
        let mut b: usize = end - 1;
        while b > a && self.rendered_lines.contains_key(&b)
            invariant
                start <= a <= b < end,
                lines == self.rendered_lines@.dom(),
                !lines.contains(a),
                last_missing(lines, start as int, end as int) == last_missing(
                    lines,
                    start as int,
                    b + 1,
                ),
            decreases b,
        {
            b = b - 1;
        }
        Some((a, b))
    }

    /// Draws the lines from `first` to `last` that are not drawn yet, without colours.
    fn fill_plain(&mut self, first: usize, last: usize)
        requires
            old(self).wf(),
            first <= last < old(self).line_count(),
        ensures
            final(self).wf(),
            final(self).same_file(*old(self)),
            final(self).checkpoints == old(self).checkpoints,
            filled(
                old(self).rendered_lines@,
                final(self).rendered_lines@,
                first as int,
                last as int,
                *old(self),
                None,
            ),
    {
        broadcast use vstd::std_specs::hash::group_hash_axioms;

        let ghost before = *self;
        let mut idx: usize = first;
        proof {
            lemma_filled_start(self.rendered_lines@, first as int, before, None);
        }
        while idx <= last
            invariant
                first <= idx <= last + 1,
                last < before.line_count(),
                before.line_count() == self.line_ranges@.len(),
                before.wf(),
                self.wf(),
                self.same_file(before),
                self.checkpoints == before.checkpoints,
                filled(
                    before.rendered_lines@,
                    self.rendered_lines@,
                    first as int,
                    idx - 1,
                    before,
                    None,
                ),
            decreases last + 1 - idx,
        {
            proof {
                lemma_line_count(*self);
            }
            let content = self.source_line(idx).unwrap();
            let line = style::build_plain_code_line(idx + 1, content);
            proof {
                style::lemma_plain_line_shows((idx + 1) as nat, content@);
                lemma_filled_step(
                    before.rendered_lines@,
                    self.rendered_lines@,
                    first as int,
                    idx,
                    line,
                    before,
                    None,
                );
            }
            if !self.rendered_lines.contains_key(&idx) {
                self.rendered_lines.insert(idx, line);
            }
            idx = idx + 1;
        }
    }

    /// `count` lines from `start` on can be drawn: where they are drawn with colours,
    /// those that the highlighter is given on the way are short enough for it.
    pub open spec fn can_draw(&self, start: int, count: int) -> bool {
        let end = self.shown_end(start, count);
        let first = first_missing(self.rendered_lines@.dom(), start, end);
        let last = last_missing(self.rendered_lines@.dom(), start, end);
        self.color && start < end && first < end ==> self.lines_are_short(
            self.resume_line(first),
            last + 1,
        )
    }

    /// Whether `count` lines from `start` on can be drawn: with colours, none of the
    /// lines that the highlighter is given on the way may be longer than
    /// `LONGEST_LINE` bytes.
    pub fn drawable_lines(&self, start: usize, count: usize) -> (r: bool)
        requires
            self.wf(),
        ensures
            r == self.can_draw(start as int, count as int),
    {
        let n: usize = self.line_ranges.len();
        if !self.color || count == 0 || start >= n {
            return true;
        }
        let end: usize = if n - start <= count {
            n
        } else {
            start + count
        };
        match self.missing_span(start, end) {
            None => true,
            Some((first, last)) => {
                proof {
                    self.lemma_resume_line(first as int);
                }
                let from: usize = match self.find_checkpoint(first) {
                    Some(line) => line,
                    None => first.saturating_sub(CHECKPOINT_INTERVAL),
                };
                let mut i: usize = from;
                while i <= last
                    invariant
                        from <= i <= last + 1,
                        last < n,
                        n == self.line_ranges@.len(),
                        self.wf(),
                        self.lines_are_short(from as int, i as int),
                        from == self.resume_line(first as int),
                        n == self.line_count(),
                        start < end <= n,
                        end == self.shown_end(start as int, count as int),
                        self.color,
                        first == first_missing(
                            self.rendered_lines@.dom(),
                            start as int,
                            end as int,
                        ),
                        first < end,
                        last == last_missing(
                            self.rendered_lines@.dom(),
                            start as int,
                            end as int,
                        ),
                    decreases last + 1 - i,
                {
                    let range = self.line_ranges[i];
                    proof {
                        self.lemma_line_bytes(i as int);
                        let lines = self.full_lines(from as int, i + 1);
                        let whole = self.full_lines(from as int, last + 1);
                        assert(lines[i - from] == self.full_line(i as int));
                        assert(whole[i - from] == self.full_line(i as int));
                        assert(is_line(self.bytes(), range));
                        assert(lines.drop_last() =~= self.full_lines(from as int, i as int));
                        assert forall|k: int| 0 <= k < i - from implies highlight::is_short(
                            #[trigger] lines[k],
                        ) by {
                            assert(lines[k] == lines.drop_last()[k]);
                        }
                    }
                    if range.full_end - range.full_start > highlight::LONGEST_LINE {
                        return false;
                    }
                    i = i + 1;
                }
                true
            },
        }
    }

    /// A line with its line ending is made of its bytes.
    proof fn lemma_line_bytes(&self, i: int)
        requires
            self.wf(),
            0 <= i < self.line_count(),
        ensures
            encode_utf8(self.full_line(i)) == self.bytes().subrange(
                self.line_ranges@[i].full_start as int,
                self.line_ranges@[i].full_end as int,
            ),
    {
        let bytes = self.bytes();
        let r = self.line_ranges@[i];
        let a = r.full_start as int;
        let b = r.full_end as int;
        self.lemma_line_boundaries(i);
        assert(is_line(bytes, r));
        text::lemma_boundary_in_prefix(bytes, a, b);
        let front = bytes.subrange(0, b);
        valid_utf8_split(front, a);
        assert(front.subrange(a, b) =~= bytes.subrange(a, b));
        decode_utf8_encode_utf8(bytes.subrange(a, b));
    }

    /// The first lines of short lines are short.
    proof fn lemma_short_part(&self, from: int, mid: int, to: int)
        requires
            from <= mid <= to,
            self.lines_are_short(from, to),
        ensures
            self.lines_are_short(from, mid),
    {
        let part = self.full_lines(from, mid);
        assert forall|i: int| 0 <= i < part.len() implies highlight::is_short(
            #[trigger] part[i],
        ) by {
            assert(part[i] == self.full_lines(from, to)[i]);
        }
    }

    /// Short lines behind short lines are short.
    proof fn lemma_short_join(&self, from: int, mid: int, to: int)
        requires
            from <= mid <= to,
            self.lines_are_short(from, mid),
            self.lines_are_short(mid, to),
        ensures
            self.lines_are_short(from, to),
    {
        let whole = self.full_lines(from, to);
        assert forall|i: int| 0 <= i < whole.len() implies highlight::is_short(
            #[trigger] whole[i],
        ) by {
            if i < mid - from {
                assert(whole[i] == self.full_lines(from, mid)[i]);
            } else {
                assert(whole[i] == self.full_lines(mid, to)[i - (mid - from)]);
            }
        }
    }

    /// Draws `count` lines from `start` on, as far as they are not drawn yet.
    pub fn ensure_code_lines(&mut self, assets: &Assets, start: usize, count: usize)
        requires
            old(self).wf(),
            old(self).can_draw(start as int, count as int),
        ensures
            final(self).drawn_from(*old(self), start as int, count as int),
            forall|k: usize|
                start <= k < old(self).shown_end(start as int, count as int)
                    ==> #[trigger] final(self).rendered_lines@.contains_key(k),
    {
        let n: usize = self.line_ranges.len();
        if count == 0 || start >= n {
            return ;
        }
        let end: usize = if n - start <= count {
            n
        } else {
            start + count
        };
        let ghost before = *self;
        proof {
            lemma_missing(before.rendered_lines@.dom(), start as int, end as int);
        }
        match self.missing_span(start, end) {
            None => {},
            Some((first, last)) => {
                if !self.color {
                    self.fill_plain(first, last);
                } else {
                    self.highlight_code_range(assets, first, last);
                    proof {
                        before.lemma_resume_line(first as int);
                    }
                }
                proof {
                    reveal(filled);
                    assert forall|k: usize| start <= k < end implies #[trigger]
                        self.rendered_lines@.contains_key(k) by {
                        if !before.rendered_lines@.dom().contains(k) {
                            assert(first <= k <= last);
                        }
                    }
                }
            },
        }
    }

    proof fn lemma_resume_line(&self, target: int)
        requires
            0 <= target,
        ensures
            0 <= self.resume_line(target) <= target,
    {
        let low = if target >= MAX_RESUME_DISTANCE {
            target - MAX_RESUME_DISTANCE
        } else {
            0
        };
        lemma_nearest(self.checkpoints@.dom(), target, low);
    }

    /// The code lines from `start` on, at most `count`, drawn where they were not yet.
    pub fn cached_code_lines(&mut self, assets: &Assets, start: usize, count: usize) -> (r: Vec<
        Line,
    >)
        requires
            old(self).wf(),
            old(self).can_draw(start as int, count as int),
        ensures
            final(self).drawn_from(*old(self), start as int, count as int),
            r@.len() == (if start < old(self).line_count() {
                old(self).shown_end(start as int, count as int) - start
            } else {
                0
            }),
            forall|j: int|
                0 <= j < r@.len() ==> final(self).rendered_lines@.contains_key(
                    (start + j) as usize,
                ) && #[trigger] r@[j]@ == final(self).rendered_lines@[(start + j) as usize]@,
    {
        broadcast use vstd::std_specs::hash::group_hash_axioms;

        self.ensure_code_lines(assets, start, count);
        let mut shown: Vec<Line> = Vec::new();
        let n: usize = self.line_ranges.len();
        if start < n {
            let end: usize = if n - start <= count {
                n
            } else {
                start + count
            };
            for idx in start..end
                invariant
                    start <= idx <= end <= n,
                    shown@.len() == idx - start,
                    forall|k: usize|
                        start <= k < end ==> #[trigger] self.rendered_lines@.contains_key(k),
                    forall|j: int|
                        0 <= j < shown@.len() ==> #[trigger] shown@[j]@
                            == self.rendered_lines@[(start + j) as usize]@,
            {
                assert(self.rendered_lines@.contains_key(idx));
                match self.rendered_lines.get(&idx) {
                    Some(line) => {
                        shown.push(style::clone_line(line));
                    },
                    None => {
                        assert(false);
                        shown.push(style::raw_line(""));
                    },
                }
            }
        }
        shown
    }
}

proof fn lemma_nearest(lines: Set<usize>, k: int, low: int)
    ensures
        nearest_from(lines, k, low) matches Some(l) ==> low <= l <= k && lines.contains(l as usize),
    decreases k - low + 1,
{
    if k >= low && !lines.contains(k as usize) {
        lemma_nearest(lines, k - 1, low);
    }
}

/// Lines followed by the rest of a text cover it in one way only.
proof fn lemma_lines_agree(bytes: Seq<u8>, v: Seq<SourceLineRange>, w: Seq<SourceLineRange>, i: int)
    requires
        are_lines(bytes, v),
        are_lines(bytes, w),
        0 <= i < v.len(),
    ensures
        i < w.len(),
        v[i] == w[i],
    decreases i,
{
    assert(is_line(bytes, v[i]));
    if i > 0 {
        lemma_lines_agree(bytes, v, w, i - 1);
        assert(v[i].full_start == v[i - 1].full_end);
        assert(is_line(bytes, w[i - 1]));
        assert(w.len() > i);
    }
    assert(is_line(bytes, w[i]));
    assert(v[i].full_start == w[i].full_start);
    if v[i].full_end < w[i].full_end {
        assert(bytes[v[i].full_end - 1] == 10);
    }
    if w[i].full_end < v[i].full_end {
        assert(bytes[w[i].full_end - 1] == 10);
    }
}

/// The lines of a text are fixed by the text.
pub proof fn law_lines_are_unique(
    bytes: Seq<u8>,
    v: Seq<SourceLineRange>,
    w: Seq<SourceLineRange>,
)
    requires
        are_lines(bytes, v),
        are_lines(bytes, w),
    ensures
        v == w,
{
    if v.len() > 0 {
        lemma_lines_agree(bytes, v, w, v.len() - 1);
    }
    if w.len() > 0 {
        lemma_lines_agree(bytes, w, v, w.len() - 1);
    }
    assert forall|i: int| 0 <= i < v.len() implies v[i] == w[i] by {
        lemma_lines_agree(bytes, v, w, i);
    }
    assert(v =~= w);
}

proof fn lemma_lines_join(source: LoadedSource, i: int)
    requires
        source.wf(),
        0 < i <= source.line_count(),
    ensures
        text::join(source.full_lines(0, i), Seq::empty()) == piece(
            source.bytes(),
            0,
            source.line_ranges@[i - 1].full_end as int,
        ),
    decreases i,
{
    let bytes = source.bytes();
    let lines = source.full_lines(0, i);
    let r = source.line_ranges@[i - 1];
    assert(is_line(bytes, r));
    if i == 1 {
        assert(text::join(lines, Seq::empty()) == lines[0]);
    } else {
        lemma_lines_join(source, i - 1);
        assert(lines.drop_last() =~= source.full_lines(0, i - 1));
        source.lemma_line_boundaries(i - 1);
        text::lemma_boundary_in_prefix(bytes, r.full_start as int, r.full_end as int);
        let front = bytes.subrange(0, r.full_end as int);
        decode_utf8_split(front, r.full_start as int);
        assert(front.subrange(0, r.full_start as int) =~= bytes.subrange(
            0,
            r.full_start as int,
        ));
        assert(front.subrange(r.full_start as int, front.len() as int) =~= bytes.subrange(
            r.full_start as int,
            r.full_end as int,
        ));
        let before = text::join(lines.drop_last(), Seq::empty());
        assert(before + Seq::<char>::empty() =~= before);
    }
}

/// The lines of a file with their line endings, put together, are the file.
pub proof fn law_lines_make_up_the_file(source: LoadedSource)
    requires
        source.wf(),
    ensures
        text::join(source.full_lines(0, source.line_count() as int), Seq::empty())
            == source.file_text@,
{
    let bytes = source.bytes();
    encode_utf8_decode_utf8(source.file_text@);
    if source.line_count() == 0 {
        assert(bytes =~= Seq::empty());
        assert(source.full_lines(0, 0) =~= Seq::empty());
        assert(decode_utf8(bytes) =~= Seq::empty());
    } else {
        lemma_lines_join(source, source.line_count() as int);
        assert(bytes.subrange(0, bytes.len() as int) =~= bytes);
    }
}

proof fn lemma_line_feed_encoded(chars: Seq<char>, k: int)
    requires
        0 <= k < chars.len(),
        chars[k] == '\n',
    ensures
        encode_utf8(chars).contains(10u8),
    decreases chars.len(),
{
    let head = encode_scalar(chars[0] as u32);
    let tail = encode_utf8(chars.drop_first());
    assert(encode_utf8(chars) == head + tail);
    if k == 0 {
        assert(10u32 & 0x7F == 10) by (bit_vector);
        assert(head == seq![10u8]);
        assert((head + tail)[0] == 10);
    } else {
        lemma_line_feed_encoded(chars.drop_first(), k - 1);
        let j = choose|j: int| 0 <= j < tail.len() && tail[j] == 10;
        assert((head + tail)[head.len() + j] == 10);
    }
}

proof fn lemma_content_bytes(source: LoadedSource, i: int)
    requires
        source.wf(),
        0 <= i < source.line_count(),
    ensures
        encode_utf8(source.content(i)) == source.bytes().subrange(
            source.line_ranges@[i].full_start as int,
            source.line_ranges@[i].content_end as int,
        ),
{
    let bytes = source.bytes();
    let r = source.line_ranges@[i];
    assert(is_line(bytes, r));
    source.lemma_line_boundaries(i);
    text::lemma_boundary_in_prefix(bytes, r.full_start as int, r.content_end as int);
    let front = bytes.subrange(0, r.content_end as int);
    valid_utf8_split(front, r.full_start as int);
    let b = bytes.subrange(r.full_start as int, r.content_end as int);
    assert(front.subrange(r.full_start as int, front.len() as int) =~= b);
    decode_utf8_encode_utf8(b);
}

/// A line as it is shown holds no line feed.
pub proof fn law_content_has_no_line_feed(source: LoadedSource, i: int)
    requires
        source.wf(),
        0 <= i < source.line_count(),
    ensures
        !source.content(i).contains('\n'),
{
    let content = source.content(i);
    let r = source.line_ranges@[i];
    lemma_content_bytes(source, i);
    assert(is_line(source.bytes(), r));
    if content.contains('\n') {
        let k = choose|k: int| 0 <= k < content.len() && content[k] == '\n';
        lemma_line_feed_encoded(content, k);
        let b = encode_utf8(content);
        let j = choose|j: int| 0 <= j < b.len() && b[j] == 10;
        assert(source.bytes()[r.full_start + j] == 10);
    }
}

/// What follows the content of a line are line ends.
proof fn lemma_line_ending(source: LoadedSource, i: int) -> (ending: Seq<char>)
    requires
        source.wf(),
        0 <= i < source.line_count(),
    ensures
        source.full_line(i) == source.content(i) + ending,
        forall|k: int| 0 <= k < ending.len() ==> text::is_line_end(#[trigger] ending[k]),
        ({
            let r = source.line_ranges@[i];
            &&& r.content_end == r.full_end ==> ending.len() == 0
            &&& r.content_end == r.full_end - 1 ==> ending == seq!['\n']
            &&& r.content_end == r.full_end - 2 ==> ending == seq!['\r', '\n']
        }),
{
    let bytes = source.bytes();
    let r = source.line_ranges@[i];
    assert(is_line(bytes, r));
    source.lemma_line_boundaries(i);
    let start = r.full_start as int;
    let cut = r.content_end as int;
    let end = r.full_end as int;
    let front = bytes.subrange(0, end);
    text::lemma_boundary_in_prefix(bytes, start, end);
    valid_utf8_split(front, start);
    let full = bytes.subrange(start, end);
    assert(front.subrange(start, end) =~= full);
    assert(is_char_boundary(full, cut - start)) by {
        if cut == end {
            is_char_boundary_start_end_of_seq(full);
        } else {
            text::lemma_ascii_boundaries(full, cut - start);
        }
    }
    decode_utf8_split(full, cut - start);
    assert(full.subrange(0, cut - start) =~= bytes.subrange(start, cut));
    let rest = full.subrange(cut - start, full.len() as int);
    let ending = decode_utf8(rest);
    if cut == end {
        assert(rest =~= Seq::empty());
        assert(ending =~= Seq::empty());
    } else if cut == end - 1 {
        assert(rest =~= encode_utf8(seq!['\n'])) by {
            lemma_encoded_line_feed();
        }
        encode_utf8_decode_utf8(seq!['\n']);
    } else {
        assert(rest =~= encode_utf8(seq!['\r', '\n'])) by {
            lemma_encoded_line_feed();
        }
        encode_utf8_decode_utf8(seq!['\r', '\n']);
    }
    ending
}

proof fn lemma_encoded_line_feed()
    ensures
        encode_utf8(seq!['\n']) == seq![10u8],
        encode_utf8(seq!['\r', '\n']) == seq![13u8, 10u8],
{
    assert(10u32 & 0x7F == 10) by (bit_vector);
    assert(13u32 & 0x7F == 13) by (bit_vector);
    assert(encode_scalar(10u32) =~= seq![10u8]);
    assert(encode_scalar(13u32) =~= seq![13u8]);
    assert(seq!['\n'].drop_first() =~= Seq::<char>::empty());
    assert(seq!['\r', '\n'].drop_first() =~= seq!['\n']);
    assert(encode_utf8(Seq::<char>::empty()) =~= Seq::empty());
    assert(encode_utf8(seq!['\n']) =~= seq![10u8]);
    assert(encode_utf8(seq!['\r', '\n']) =~= seq![13u8, 10u8]);
}

/// A coloured line shows the line of the file.
proof fn lemma_colored_line_shows(source: LoadedSource, i: int, regions: Seq<style::RegionView>)
    requires
        source.wf(),
        0 <= i < source.line_count(),
        regions.len() == 0 || style::region_text(regions) == source.full_line(i),
    ensures
        source.shows_line(
            style::highlighted_code_line((i + 1) as nat, source.content(i), regions),
            i,
        ),
{
    let content = source.content(i);
    let ending = lemma_line_ending(source, i);
    law_content_has_no_line_feed(source, i);
    if !content.contains('\r') {
        assert forall|k: int| 0 <= k < content.len() implies !text::is_line_end(
            #[trigger] content[k],
        ) by {
            assert(content.contains(content[k]));
        }
        style::lemma_highlighted_line_shows((i + 1) as nat, content, ending, regions);
    }
}

/// A line that is drawn shows the line of the file, with its number in front:
/// colours change nothing of the text. A line that holds a carriage return other
/// than at its end is left out, since regions lose those at their ends.
pub proof fn law_drawn_lines_show_the_file(
    before: LoadedSource,
    after: LoadedSource,
    start: int,
    count: int,
    k: usize,
)
    requires
        after.drawn_from(before, start, count),
        after.rendered_lines@.contains_key(k),
        !before.rendered_lines@.contains_key(k),
        !before.content(k as int).contains('\r'),
    ensures
        style::shown_text(after.rendered_lines@[k]@) == style::gutter((k + 1) as nat).content
            + before.content(k as int),
{
    reveal(filled);
}

/// Lines that were drawn stay as they were, and lines once passed stay drawn.
pub proof fn law_drawn_lines_stay(
    before: LoadedSource,
    after: LoadedSource,
    start: int,
    count: int,
    k: usize,
)
    requires
        after.drawn_from(before, start, count),
        before.rendered_lines@.contains_key(k),
    ensures
        after.rendered_lines@.contains_key(k),
        after.rendered_lines@[k] == before.rendered_lines@[k],
{
    reveal(filled);
    assert(after.rendered_lines@.contains_key(k));
}

/// A file has no more lines than the machine can count.
proof fn lemma_line_count(source: LoadedSource)
    ensures
        source.line_count() <= usize::MAX,
{
    assert(source.line_count() == source.line_ranges.len());
}

/// Every line to show is drawn.
pub proof fn lemma_shown_lines_are_drawn(
    before: LoadedSource,
    after: LoadedSource,
    start: int,
    count: int,
    k: usize,
)
    requires
        after.drawn_from(before, start, count),
        0 <= start,
        start <= k < before.shown_end(start, count),
    ensures
        after.rendered_lines@.contains_key(k),
{
    lemma_line_count(before);
    reveal(filled);
    let end = before.shown_end(start, count);
    let lines = before.rendered_lines@.dom();
    lemma_missing(lines, start, end);
    let first = first_missing(lines, start, end);
    if first < end {
        before.lemma_resume_line(first);
        if !lines.contains(k) {
            assert(first <= k <= last_missing(lines, start, end));
        }
    } else {
        assert(lines.contains(k));
    }
    assert(after.rendered_lines@.contains_key(k));
}

/// Drawing the same lines a second time changes nothing.
pub proof fn law_drawing_again_changes_nothing(
    before: LoadedSource,
    once: LoadedSource,
    twice: LoadedSource,
    start: int,
    count: int,
)
    requires
        0 <= start,
        once.drawn_from(before, start, count),
        twice.drawn_from(once, start, count),
    ensures
        twice.rendered_lines@ == once.rendered_lines@,
        twice.checkpoints@ == once.checkpoints@,
{
    lemma_line_count(before);
    let end = before.shown_end(start, count);
    assert(once.shown_end(start, count) == end);
    if start < end {
        let lines = once.rendered_lines@.dom();
        lemma_missing(lines, start, end);
        let first = first_missing(lines, start, end);
        if first < end {
            lemma_shown_lines_are_drawn(before, once, start, count, first as usize);
        }
    }
}

/// Without colours only lines that are to be shown are drawn. With colours the
/// highlighter also passes lines ahead of them, at most as many as it may go back.
pub proof fn law_only_needed_lines_are_drawn(
    before: LoadedSource,
    after: LoadedSource,
    start: int,
    count: int,
    k: usize,
)
    requires
        0 <= start,
        after.drawn_from(before, start, count),
        after.rendered_lines@.contains_key(k),
        !before.rendered_lines@.contains_key(k),
    ensures
        k < before.shown_end(start, count),
        !before.color ==> start <= k,
        start - MAX_RESUME_DISTANCE <= k,
        before.checkpoints@.dom() == Set::<usize>::empty() ==> start - CHECKPOINT_INTERVAL <= k,
{
    lemma_line_count(before);
    reveal(filled);
    let end = before.shown_end(start, count);
    let lines = before.rendered_lines@.dom();
    if start < end {
        lemma_missing(lines, start, end);
        let first = first_missing(lines, start, end);
        let low = if first >= MAX_RESUME_DISTANCE {
            first - MAX_RESUME_DISTANCE
        } else {
            0
        };
        lemma_nearest(before.checkpoints@.dom(), first, low);
    }
}

/// Where the highlighter that draws a page had started at the top of the file,
/// through however many checkpoints, each new line has the colours that it has
/// when the whole file is highlighted from its top in one go.
pub proof fn law_checkpoints_keep_the_colours(
    before: LoadedSource,
    after: LoadedSource,
    start: int,
    count: int,
    k: usize,
)
    requires
        0 <= start < before.shown_end(start, count),
        before.color,
        before.start_line(
            first_missing(before.rendered_lines@.dom(), start, before.shown_end(start, count)),
        ) == 0,
        after.drawn_from(before, start, count),
        after.rendered_lines@.contains_key(k),
        !before.rendered_lines@.contains_key(k),
    ensures
        after.rendered_lines@[k]@ == before.colored_line(0, k as int),
{
    lemma_line_count(before);
    reveal(filled);
}

proof fn lemma_last_checkpoint(
    old_points: Map<usize, HighlightCheckpoint>,
    new_points: Map<usize, HighlightCheckpoint>,
    low: int,
    last: int,
    from: nat,
)
    requires
        checkpointed(old_points, new_points, low, last, last, from),
        0 <= low <= last < usize::MAX,
    ensures
        new_points.contains_key((last + 1) as usize),
{
    reveal(checkpointed);
}

/// The page that was drawn leaves a checkpoint behind its last line to draw, from
/// which the next page goes on.
pub proof fn law_next_page_goes_on_from_the_last(
    before: LoadedSource,
    after: LoadedSource,
    start: int,
    count: int,
)
    requires
        0 <= start < before.shown_end(start, count),
        before.color,
        first_missing(before.rendered_lines@.dom(), start, before.shown_end(start, count))
            < before.shown_end(start, count),
        after.drawn_from(before, start, count),
    ensures
        ({
            let next = last_missing(
                before.rendered_lines@.dom(),
                start,
                before.shown_end(start, count),
            ) + 1;
            after.checkpoints@.contains_key(next as usize) && after.checkpoint_before(next) == Some(
                next,
            )
        }),
{
    lemma_line_count(before);
    let end = before.shown_end(start, count);
    let lines = before.rendered_lines@.dom();
    lemma_missing(lines, start, end);
    let first = first_missing(lines, start, end);
    let last = last_missing(lines, start, end);
    before.lemma_resume_line(first);
    lemma_last_checkpoint(
        before.checkpoints@,
        after.checkpoints@,
        before.resume_line(first),
        last,
        before.start_line(first) as nat,
    );
}

proof fn lemma_last_return(chars: Seq<char>)
    requires
        chars.len() > 0,
        chars.last() == '\r',
    ensures
        encode_utf8(chars).len() > 0,
        encode_utf8(chars).last() == 13,
    decreases chars.len(),
{
    let head = encode_scalar(chars[0] as u32);
    let rest = chars.drop_first();
    let tail = encode_utf8(rest);
    assert(encode_utf8(chars) == head + tail);
    if chars.len() == 1 {
        assert(13u32 & 0x7F == 13) by (bit_vector);
        assert(head == seq![13u8]);
        assert(rest =~= Seq::empty());
        assert(tail =~= Seq::empty());
    } else {
        lemma_last_return(rest);
        assert((head + tail).last() == tail.last());
    }
}

/// A line as it is shown is the line of the file without its line feed, and without the
/// carriage return in front of the line feed where there is one. Nothing else is left
/// out. Only the last line of a file can end without a line feed.
pub proof fn law_only_the_line_ending_is_left_out(source: LoadedSource, i: int)
    requires
        source.wf(),
        0 <= i < source.line_count(),
    ensures
        ({
            let full = source.full_line(i);
            let content = source.content(i);
            let n = full.len() as int;
            &&& n > 0
            &&& n > 1 && full[n - 2] == '\r' && full[n - 1] == '\n' ==> content == full.take(n - 2)
            &&& (n == 1 || full[n - 2] != '\r') && full[n - 1] == '\n' ==> content == full.take(
                n - 1,
            )
            &&& full[n - 1] != '\n' ==> content == full && i == source.line_count() - 1
            &&& !full.take(n - 1).contains('\n')
        }),
{
    let bytes = source.bytes();
    let r = source.line_ranges@[i];
    let full = source.full_line(i);
    let content = source.content(i);
    let n = full.len() as int;
    let ending = lemma_line_ending(source, i);
    assert(is_line(bytes, r));
    law_content_has_no_line_feed(source, i);
    if r.content_end == r.full_end {
        assert(content =~= full);
        source.lemma_line_bytes(i);
        if n == 0 {
            assert(encode_utf8(full) =~= Seq::empty());
        }
        assert(content.contains(content[n - 1]));
        if i < source.line_count() - 1 {
            let next = source.line_ranges@[i + 1];
            assert(is_line(bytes, next));
            assert(next.full_start == r.full_end);
        }
        assert forall|k: int| 0 <= k < n - 1 implies #[trigger] full.take(n - 1)[k] != '\n' by {
            assert(content.contains(content[k]));
        }
    } else if r.content_end == r.full_end - 1 {
        assert(full.take(n - 1) =~= content);
        if n > 1 && full[n - 2] == '\r' {
            lemma_last_return(content);
            lemma_content_bytes(source, i);
            assert(bytes[r.content_end - 1] == 13);
        }
    } else {
        assert(full.take(n - 2) =~= content);
        assert forall|k: int| 0 <= k < n - 1 implies #[trigger] full.take(n - 1)[k] != '\n' by {
            if k < n - 2 {
                assert(content.contains(content[k]));
            }
        }
    }
}

proof fn lemma_nearest_is_greatest(lines: Set<usize>, k: int, low: int, j: usize)
    requires
        0 <= low,
        low <= j <= k,
        lines.contains(j),
    ensures
        nearest_from(lines, k, low) matches Some(l) && j <= l <= k,
    decreases k - low + 1,
{
    if !lines.contains(k as usize) {
        lemma_nearest_is_greatest(lines, k - 1, low, j);
    }
}

/// In order to draw a line the highlighter goes on from the nearest checkpoint at the
/// line or in front of it, 512 lines back at most. Where there is none so near, it
/// starts anew 64 lines back, or at the top of the file.
pub proof fn law_highlighting_goes_on_from_the_nearest_checkpoint(
    source: LoadedSource,
    target: int,
    j: usize,
)
    requires
        0 <= target,
    ensures
        ({
            let from = source.resume_line(target);
            let near = source.checkpoints@.contains_key(j) && target - 512 <= j <= target;
            &&& 0 <= from <= target
            &&& near ==> j <= from && source.checkpoint_before(target) == Some(from)
            &&& source.checkpoint_before(target) matches Some(l) ==> from == l && target - 512 <= l
                && source.checkpoints@.contains_key(l as usize) && source.start_line(target)
                == source.checkpoints@[l as usize].started_at()
            &&& source.checkpoint_before(target) is None ==> source.start_line(target) == from && (
            if target >= 64 {
                from + 64 == target
            } else {
                from == 0
            })
        }),
{
    let low = if target >= MAX_RESUME_DISTANCE {
        target - MAX_RESUME_DISTANCE
    } else {
        0
    };
    lemma_nearest(source.checkpoints@.dom(), target, low);
    source.lemma_resume_line(target);
    if source.checkpoints@.contains_key(j) && target - 512 <= j <= target {
        lemma_nearest_is_greatest(source.checkpoints@.dom(), target, low, j);
    }
}

/// A new line is drawn with its number, one more than its index, and its text. Without
/// colours that is all; with colours it has those that the highlighter reports for it
/// once it was given, in order, the lines of the file from where it started up to and
/// with this one.
pub proof fn law_lines_are_drawn_in_their_context(
    before: LoadedSource,
    after: LoadedSource,
    start: int,
    count: int,
    k: usize,
    lines: Seq<Seq<char>>,
)
    requires
        0 <= start,
        after.drawn_from(before, start, count),
        after.rendered_lines@.contains_key(k),
        !before.rendered_lines@.contains_key(k),
        ({
            let from = before.start_line(
                first_missing(before.rendered_lines@.dom(), start, before.shown_end(start, count)),
            );
            &&& lines.len() == k + 1 - from
            &&& forall|j: int| 0 <= j < lines.len() ==> #[trigger] lines[j] == before.full_line(
                from + j,
            )
        }),
    ensures
        !before.color ==> after.rendered_lines@[k]@ == style::plain_code_line(
            (k + 1) as nat,
            before.content(k as int),
        ),
        before.color ==> after.rendered_lines@[k]@ == style::highlighted_code_line(
            (k + 1) as nat,
            before.content(k as int),
            highlight::regions_of_last(text::opt_text(before.extension), lines),
        ),
{
    lemma_line_count(before);
    reveal(filled);
    let from = before.start_line(
        first_missing(before.rendered_lines@.dom(), start, before.shown_end(start, count)),
    );
    assert(lines =~= before.full_lines(from, k + 1));
}

/// While a page is drawn in colour, the state of the highlighter is kept behind every
/// 64th line and behind the last line of the page that was missing; nowhere else, and
/// a state that was kept stays.
pub proof fn law_where_checkpoints_are_kept(
    before: LoadedSource,
    after: LoadedSource,
    start: int,
    count: int,
    k: usize,
)
    requires
        0 <= start,
        after.drawn_from(before, start, count),
    ensures
        before.checkpoints@.contains_key(k) ==> after.checkpoints@.contains_key(k)
            && after.checkpoints@[k] == before.checkpoints@[k],
        ({
            let end = before.shown_end(start, count);
            let first = first_missing(before.rendered_lines@.dom(), start, end);
            let last = last_missing(before.rendered_lines@.dom(), start, end);
            !before.checkpoints@.contains_key(k) ==> (after.checkpoints@.contains_key(k)
                <==> before.color && start < end && first < end && before.resume_line(first) < k && (
            k == last + 1 || k <= last && k % 64 == 0))
        }),
{
    lemma_line_count(before);
    reveal(checkpointed);
    let end = before.shown_end(start, count);
    let first = first_missing(before.rendered_lines@.dom(), start, end);
    if start < end {
        lemma_missing(before.rendered_lines@.dom(), start, end);
        if first < end {
            before.lemma_resume_line(first);
        }
    }
    assert(after.checkpoints@.contains_key(k) == after.checkpoints@.contains_key(k));
}

/// Of the lines to show those are drawn anew that stand between the first and the last
/// that was missing; in front of the first, and behind the last, all were there.
pub proof fn law_missing_lines(lines: Set<usize>, low: int, high: int, k: usize)
    requires
        0 <= low <= high <= usize::MAX,
        low <= k < high,
    ensures
        !lines.contains(k) ==> first_missing(lines, low, high) <= k <= last_missing(
            lines,
            low,
            high,
        ),
        low <= first_missing(lines, low, high) <= high,
        first_missing(lines, low, high) < high ==> !lines.contains(
            first_missing(lines, low, high) as usize,
        ) && !lines.contains(last_missing(lines, low, high) as usize),
{
    lemma_missing(lines, low, high);
}

/// A file can be drawn where it is drawn without colours, and also where none of its
/// lines is longer than the highlighter takes.
pub proof fn law_short_lines_can_be_drawn(source: LoadedSource, start: int, count: int)
    requires
        0 <= start,
        !source.color || forall|i: int|
            0 <= i < source.line_count() ==> highlight::is_short(#[trigger] source.full_line(i)),
    ensures
        source.can_draw(start, count),
{
    lemma_line_count(source);
    let end = source.shown_end(start, count);
    let lines = source.rendered_lines@.dom();
    if source.color && start < end {
        lemma_missing(lines, start, end);
        let first = first_missing(lines, start, end);
        let last = last_missing(lines, start, end);
        if first < end {
            source.lemma_resume_line(first);
            let from = source.resume_line(first);
            let given = source.full_lines(from, last + 1);
            assert forall|j: int| 0 <= j < given.len() implies highlight::is_short(
                #[trigger] given[j],
            ) by {
                assert(given[j] == source.full_line(from + j));
            }
        }
    }
}

proof fn lemma_last_index(s: Seq<char>, rest: Seq<char>, c: char)
    requires
        !rest.contains(c),
    ensures
        last_index(s.push(c) + rest, c) == s.len(),
    decreases rest.len(),
{
    let whole = s.push(c) + rest;
    if rest.len() == 0 {
        assert(whole =~= s.push(c));
    } else {
        assert(rest.contains(rest.last()));
        let front = rest.drop_last();
        assert forall|i: int| 0 <= i < front.len() implies front[i] != c by {
            assert(rest.contains(rest[i]));
        }
        lemma_last_index(s, front, c);
        assert(whole.drop_last() =~= s.push(c) + front);
    }
}

/// The name `stem.ext`, in a directory or not, has the extension `ext`, whatever dots
/// there are in front; a name with nothing in front of its dot has none.
pub proof fn law_extension_follows_the_last_dot(stem: Seq<char>, ext: Seq<char>)
    requires
        has_plain_start(stem.push('.') + ext),
        stem.len() > 0,
        ext.len() > 0,
        !ext.contains('.'),
        forall|i: int| 0 <= i < ext.len() ==> !is_path_separator(#[trigger] ext[i]),
    ensures
        !is_path_separator(stem.last()) ==> plain_extension(stem.push('.') + ext) == Some(ext)
            && !has_no_extension(stem.push('.') + ext),
        stem.last() == '/' ==> has_no_extension(stem.push('.') + ext) && plain_extension(
            stem.push('.') + ext,
        ) is None,
{
    let path = stem.push('.') + ext;
    let d = stem.len() as int;
    lemma_last_index(stem, ext, '.');
    assert forall|i: int| d < i < path.len() implies !is_path_separator(#[trigger] path[i]) by {
        assert(path[i] == ext[i - d - 1]);
    }
    assert(path.skip(d + 1) =~= ext);
    assert(path[d - 1] == stem.last());
}

} // verus!
