//! The player: which stop is shown, how far its panes are scrolled, and which
//! stops and source files have been prepared.
//!
//! Files are read by the caller. `wanted_file` and `file_for` name the file that
//! is needed next, and `add_source` takes its text.

use crate::anchor;
use crate::layout::Pane;
use crate::source::LoadedSource;
use crate::stop::StopFrontmatter;
use crate::text;
use vstd::prelude::*;
use vstd::string::*;

verus! {

/// Lines of context to show *above* the anchor when auto-positioning the
/// code pane on navigation.
pub const CONTEXT_ABOVE: usize = 5;

/// User intents recognized by the state machine.
#[derive(Debug, Clone, Copy, PartialEq, Eq, Structural)]
pub enum Event {
    Next,
    Prev,
    Goto(usize),
    ScrollDown,
    ScrollUp,
    ScrollPaneDown(Pane),
    ScrollPaneUp(Pane),
    Focus(Pane),
    TogglePane,
    Quit,
}

/// Whether the event loop should keep running.
#[derive(Debug, Clone, Copy, PartialEq, Eq, Structural)]
pub enum Outcome {
    Continue,
    Exit,
}

/// One stop, fully loaded into memory and ready to display.
#[derive(Debug)]
pub struct LoadedStop {
    pub title: String,
    pub body: String,
    pub file: String,
    /// The index of the file among the player's sources, shared by stops that
    /// reference the same file.
    pub source: usize,
    /// 1-based line of the file where the anchor resolved, or `None` if it failed.
    /// A line anchor keeps its number, also where the file has fewer lines.
    pub anchor_line: Option<usize>,
    /// Optional N-line highlight from frontmatter.
    pub highlight_lines: Option<usize>,
    /// Per-stop diagnostics surfaced to the user (e.g. tree-sitter fallbacks).
    pub warnings: Vec<String>,
}

/// A stop file, parsed.
#[derive(Debug)]
pub struct ParsedStop {
    pub filename: String,
    pub frontmatter: StopFrontmatter,
    pub body: String,
}

/// What stops are prepared from, and those that are.
#[derive(Debug)]
pub struct PreloadState {
    pub parsed_stops: Vec<ParsedStop>,
    pub prepared_stops: Vec<Option<LoadedStop>>,
    pub color: bool,
}

/// In-memory state of an active play session.
pub struct Player {
    pub stops: Vec<Option<LoadedStop>>,
    /// The source files loaded so far, each of them once.
    pub sources: Vec<LoadedSource>,
    pub index: usize,
    /// Vertical offset of the code pane, in lines.
    pub scroll: usize,
    /// Vertical offset of the commentary pane, in lines.
    pub body_scroll: usize,
    pub active_pane: Pane,
    pub preload: Option<PreloadState>,
}

/// What a `LoadedStop` shows.
pub struct StopView {
    pub title: Seq<char>,
    pub body: Seq<char>,
    pub file: Seq<char>,
    pub source: int,
    pub anchor_line: Option<usize>,
    pub highlight_lines: Option<usize>,
    pub warnings: Seq<Seq<char>>,
}

impl View for LoadedStop {
    type V = StopView;

    open spec fn view(&self) -> StopView {
        StopView {
            title: self.title@,
            body: self.body@,
            file: self.file@,
            source: self.source as int,
            anchor_line: self.anchor_line,
            highlight_lines: self.highlight_lines,
            warnings: text::texts(self.warnings@),
        }
    }
}

/// `s` without the `.md` at its end, however often it stands there.
pub open spec fn without_md(s: Seq<char>) -> Seq<char>
    decreases s.len(),
{
    if s.len() >= 3 && s[s.len() - 3] == '.' && s[s.len() - 2] == 'm' && s[s.len() - 1] == 'd' {
        without_md(s.take(s.len() - 3))
    } else {
        s
    }
}

/// The title of a stop: from its frontmatter, else the name of its file.
pub open spec fn stop_title(parsed: ParsedStop) -> Seq<char> {
    match parsed.frontmatter.title {
        Some(t) => t@,
        None => without_md(parsed.filename@),
    }
}

/// A stop as it is prepared from its parsed file and the text of its source.
pub open spec fn prepared(parsed: ParsedStop, source: int, file_text: Seq<char>) -> StopView {
    let found = anchor::resolved(parsed.frontmatter.anchor, file_text);
    StopView {
        title: stop_title(parsed),
        body: parsed.body@,
        file: parsed.frontmatter.file@,
        source,
        anchor_line: found.line,
        highlight_lines: anchor::highlight_count(parsed.frontmatter.highlight),
        warnings: match found.warning {
            Some(w) => seq![w],
            None => Seq::empty(),
        },
    }
}

/// The index from `i` on of the source of that file.
pub open spec fn source_from(sources: Seq<LoadedSource>, file: Seq<char>, i: int) -> Option<int>
    decreases sources.len() - i,
{
    if i < 0 || i >= sources.len() {
        None
    } else if sources[i].file@ == file {
        Some(i)
    } else {
        source_from(sources, file, i + 1)
    }
}

proof fn lemma_source_from(sources: Seq<LoadedSource>, file: Seq<char>, i: int)
    requires
        0 <= i,
    ensures
        match source_from(sources, file, i) {
            Some(k) => i <= k < sources.len() && sources[k].file@ == file,
            None => forall|k: int| i <= k < sources.len() ==> #[trigger] sources[k].file@ != file,
        },
    decreases sources.len() - i,
{
    if i < sources.len() && sources[i].file@ != file {
        lemma_source_from(sources, file, i + 1);
    }
}

/// A file name without the `.md` at its end.
#[verifier::spinoff_prover]
fn trim_md(s: &str) -> (r: String)
    ensures
        r@ == without_md(s@),
{
    let v = text::chars_of(s);
    let mut n: usize = v.len();
    assert(v@.take(v@.len() as int) =~= v@);
    while n >= 3 && v[n - 3] == '.' && v[n - 2] == 'm' && v[n - 1] == 'd'
        invariant
            n <= v@.len(),
            without_md(v@) == without_md(v@.take(n as int)),
        decreases n,
    {
        proof {
            assert(v@.take(n as int).take(n - 3) =~= v@.take(n - 3));
        }
        n = n - 3;
    }
    assert(v@.take(n as int) =~= v@.subrange(0, n as int));
    text::string_of(&v, 0, n)
}

/// Prepares a stop: resolves its anchor in the text of its source, which has the
/// index `source` among the sources.
pub fn prepare_stop(parsed: &ParsedStop, source: usize, file_text: &str) -> (r: LoadedStop)
    ensures
        r@ == prepared(*parsed, source as int, file_text@),
{
    let fm = &parsed.frontmatter;
    let (anchor_line, warning) = anchor::resolve_anchor(&fm.anchor, file_text);
    let highlight_lines = anchor::extract_highlight_lines(&fm.highlight);
    let title = match &fm.title {
        Some(t) => t.clone(),
        None => trim_md(parsed.filename.as_str()),
    };
    let mut warnings: Vec<String> = Vec::new();
    if let Some(w) = warning {
        warnings.push(w);
    }
    let r = LoadedStop {
        title,
        body: parsed.body.clone(),
        file: fm.file.clone(),
        source,
        anchor_line,
        highlight_lines,
        warnings,
    };
    proof {
        let p = prepared(*parsed, source as int, file_text@);
        assert(r@.warnings =~= p.warnings);
    }
    r
}

impl LoadedStop {
    /// A copy of the stop.
    pub(crate) fn copy(&self) -> (r: LoadedStop)
        ensures
            r@ == self@,
    {
        let r = LoadedStop {
            title: self.title.clone(),
            body: self.body.clone(),
            file: self.file.clone(),
            source: self.source,
            anchor_line: self.anchor_line,
            highlight_lines: self.highlight_lines,
            warnings: text::clone_strings(&self.warnings),
        };
        r
    }
}

/// What an optional stop shows.
pub open spec fn opt_stop(s: Option<LoadedStop>) -> Option<StopView> {
    match s {
        Some(s) => Some(s@),
        None => None,
    }
}

/// The stop belongs to one of the sources.
pub open spec fn has_source(stop: Option<LoadedStop>, sources: Seq<LoadedSource>) -> bool {
    stop matches Some(s) ==> s.source < sources.len() && sources[s.source as int].file@ == s.file@
}

/// The sources are well formed, and no file stands there twice.
pub open spec fn sources_wf(sources: Seq<LoadedSource>) -> bool {
    &&& forall|i: int| 0 <= i < sources.len() ==> (#[trigger] sources[i]).wf()
    &&& forall|i: int, j: int|
        0 <= i < j < sources.len() ==> (#[trigger] sources[i]).file@ != (
        #[trigger] sources[j]).file@
}

/// Every stop belongs to one of the sources.
pub open spec fn stops_wf(stops: Seq<Option<LoadedStop>>, sources: Seq<LoadedSource>) -> bool {
    forall|i: int| 0 <= i < stops.len() ==> has_source(#[trigger] stops[i], sources)
}

/// What is kept for preparing stops agrees with the stops there are.
pub open spec fn preload_wf(
    preload: PreloadState,
    stops: Seq<Option<LoadedStop>>,
    sources: Seq<LoadedSource>,
) -> bool {
    &&& preload.parsed_stops@.len() == stops.len()
    &&& preload.prepared_stops@.len() == stops.len()
    &&& stops_wf(preload.prepared_stops@, sources)
    &&& forall|i: int|
        0 <= i < stops.len() && (#[trigger] stops[i]) is Some ==> opt_stop(
            preload.prepared_stops@[i],
        ) == opt_stop(stops[i])
}

/// The pane that the keyboard scrolls after an event.
pub open spec fn pane_after(active: Pane, ev: Event) -> Pane {
    match ev {
        Event::ScrollPaneDown(p) | Event::ScrollPaneUp(p) | Event::Focus(p) => p,
        Event::TogglePane => match active {
            Pane::Code => Pane::Commentary,
            Pane::Commentary => Pane::Code,
        },
        _ => active,
    }
}

/// The pane that an event scrolls down.
pub open spec fn scrolled_down(active: Pane, ev: Event) -> Option<Pane> {
    match ev {
        Event::ScrollDown => Some(active),
        Event::ScrollPaneDown(p) => Some(p),
        _ => None,
    }
}

/// The pane that an event scrolls up.
pub open spec fn scrolled_up(active: Pane, ev: Event) -> Option<Pane> {
    match ev {
        Event::ScrollUp => Some(active),
        Event::ScrollPaneUp(p) => Some(p),
        _ => None,
    }
}

/// The offset of a pane after an event that does not change the stop.
pub open spec fn offset_after(offset: usize, pane: Pane, active: Pane, ev: Event) -> int {
    if scrolled_down(active, ev) == Some(pane) {
        offset + 1
    } else if scrolled_up(active, ev) == Some(pane) && offset > 0 {
        offset - 1
    } else {
        offset as int
    }
}

impl Player {
    /// The current stop is one of the stops, the stops belong to the sources, and
    /// what is kept for preparing stops agrees with them.
    pub open spec fn wf(&self) -> bool {
        &&& self.index < self.stops@.len() || self.index == 0
        &&& sources_wf(self.sources@)
        &&& stops_wf(self.stops@, self.sources@)
        &&& self.preload matches Some(p) ==> preload_wf(p, self.stops@, self.sources@)
    }

    /// The stop with that index, where it is ready to display.
    pub open spec fn known(&self, idx: int) -> Option<LoadedStop> {
        if 0 <= idx < self.stops@.len() && self.stops@[idx] is Some {
            self.stops@[idx]
        } else {
            match self.preload {
                Some(p) => if 0 <= idx < p.prepared_stops@.len() {
                    p.prepared_stops@[idx]
                } else {
                    None
                },
                None => None,
            }
        }
    }

    /// The stop with that index can be prepared and is not yet.
    pub open spec fn is_pending(&self, idx: int) -> bool {
        &&& self.preload is Some
        &&& 0 <= idx < self.stops@.len()
        &&& self.known(idx) is None
    }

    /// The source file of a stop.
    pub open spec fn parsed_file(&self, idx: int) -> Seq<char> {
        self.preload.unwrap().parsed_stops@[idx].frontmatter.file@
    }

    /// The file whose text is missing in order to prepare a stop.
    pub open spec fn missing_file(&self, idx: int) -> Option<Seq<char>> {
        if self.is_pending(idx) && source_from(self.sources@, self.parsed_file(idx), 0) is None {
            Some(self.parsed_file(idx))
        } else {
            None
        }
    }

    /// A pending stop as it is prepared.
    pub open spec fn prepared_stop(&self, idx: int) -> StopView {
        let i = source_from(self.sources@, self.parsed_file(idx), 0).unwrap();
        prepared(
            self.preload.unwrap().parsed_stops@[idx],
            i,
            self.sources@[i].file_text@,
        )
    }

    /// The offset that puts the anchor of a stop `CONTEXT_ABOVE` lines from the
    /// top of the code pane.
    pub open spec fn opening_scroll(&self, idx: int) -> int {
        match self.known(idx) {
            Some(s) => match s.anchor_line {
                Some(line) => if line > CONTEXT_ABOVE {
                    line - CONTEXT_ABOVE - 1
                } else {
                    0
                },
                None => 0,
            },
            None => 0,
        }
    }

    /// The stop that an event moves to.
    pub open spec fn target(&self, ev: Event) -> Option<int> {
        match ev {
            Event::Next => if self.index + 1 < self.stops@.len() {
                Some(self.index + 1)
            } else {
                None
            },
            Event::Prev => if self.index > 0 {
                Some(self.index - 1)
            } else {
                None
            },
            Event::Goto(i) => if i < self.stops@.len() {
                Some(i as int)
            } else {
                None
            },
            _ => None,
        }
    }

    /// Stops, sources and what is kept for preparing are those of `before`.
    pub open spec fn same_stops(&self, before: Player) -> bool {
        &&& self.stops@ == before.stops@
        &&& self.sources@ == before.sources@
        &&& self.preload == before.preload
    }

    /// Where the user is, is where they were in `before`.
    pub open spec fn same_place(&self, before: Player) -> bool {
        &&& self.index == before.index
        &&& self.scroll == before.scroll
        &&& self.body_scroll == before.body_scroll
        &&& self.active_pane == before.active_pane
    }

    /// Only stop `idx` was kept among the prepared ones.
    pub open spec fn kept_prepared(&self, before: Player, idx: int) -> bool {
        &&& self.preload is Some
        &&& self.preload.unwrap().parsed_stops == before.preload.unwrap().parsed_stops
        &&& self.preload.unwrap().color == before.preload.unwrap().color
        &&& self.preload.unwrap().prepared_stops@ == before.preload.unwrap().prepared_stops@.update(
            idx,
            self.preload.unwrap().prepared_stops@[idx],
        )
        &&& opt_stop(self.preload.unwrap().prepared_stops@[idx]) == Some(before.prepared_stop(idx))
    }

    /// `self` is `before` once stop `idx` is at hand: taken from the prepared
    /// stops, or prepared now and kept among them.
    pub open spec fn at_hand(&self, before: Player, idx: int) -> bool {
        &&& self.sources@ == before.sources@
        &&& if 0 <= idx < before.stops@.len() && before.stops@[idx] is None && (before.known(idx)
            is Some || before.preload is Some) {
            &&& self.stops@ == before.stops@.update(idx, self.stops@[idx])
            &&& opt_stop(self.stops@[idx]) == Some(
                match before.known(idx) {
                    Some(s) => s@,
                    None => before.prepared_stop(idx),
                },
            )
            &&& if before.known(idx) is Some {
                self.preload == before.preload
            } else {
                self.kept_prepared(before, idx)
            }
        } else {
            self.stops@ == before.stops@ && self.preload == before.preload
        }
    }

    /// `self` is `before` once the user has moved to stop `idx`: the stop is at
    /// hand and opened at its anchor, and the commentary is back at its top.
    pub open spec fn moved_to(&self, before: Player, idx: int) -> bool {
        &&& self.at_hand(before, idx)
        &&& self.index == idx
        &&& self.scroll == self.opening_scroll(idx)
        &&& self.body_scroll == 0
        &&& self.active_pane == before.active_pane
    }

    /// `self` is `before` after an event that does not change the stop.
    pub open spec fn stayed(&self, before: Player, ev: Event) -> bool {
        &&& self.same_stops(before)
        &&& self.index == before.index
        &&& self.active_pane == pane_after(before.active_pane, ev)
        &&& self.scroll == offset_after(before.scroll, Pane::Code, before.active_pane, ev)
        &&& self.body_scroll == offset_after(
            before.body_scroll,
            Pane::Commentary,
            before.active_pane,
            ev,
        )
    }

    /// A stop that is ready to display belongs to one of the sources.
    pub proof fn lemma_known_has_source(&self, idx: int)
        requires
            self.wf(),
        ensures
            has_source(self.known(idx), self.sources@),
    {
        if 0 <= idx < self.stops@.len() && self.stops@[idx] is Some {
            assert(has_source(self.stops@[idx], self.sources@));
        } else if let Some(p) = self.preload {
            if 0 <= idx < p.prepared_stops@.len() {
                assert(has_source(p.prepared_stops@[idx], self.sources@));
            }
        }
    }

    /// The stop with that index, where it is ready to display.
    pub fn cached_stop(&self, idx: usize) -> (r: Option<&LoadedStop>)
        ensures
            match r {
                Some(s) => self.known(idx as int) == Some(*s),
                None => self.known(idx as int) is None,
            },
    {
        if idx < self.stops.len() {
            if let Some(s) = &self.stops[idx] {
                return Some(s);
            }
        }
        match &self.preload {
            Some(p) => if idx < p.prepared_stops.len() {
                match &p.prepared_stops[idx] {
                    Some(s) => Some(s),
                    None => None,
                }
            } else {
                None
            },
            None => None,
        }
    }

    /// Initial scroll offset that puts the stop's anchor `CONTEXT_ABOVE`
    /// lines from the top of the code pane. Returns 0 when there's no
    /// resolved anchor.
    pub fn auto_scroll(&self, idx: usize) -> (r: usize)
        ensures
            r == self.opening_scroll(idx as int),
    {
        match self.cached_stop(idx) {
            Some(s) => match s.anchor_line {
                Some(line) => line.saturating_sub(CONTEXT_ABOVE + 1),
                None => 0,
            },
            None => 0,
        }
    }

    /// The number of stops.
    pub fn stop_count(&self) -> (r: usize)
        ensures
            r == self.stops@.len(),
    {
        self.stops.len()
    }

    /// The index of the source of that file.
    fn find_source(&self, file: &str) -> (r: Option<usize>)
        ensures
            match r {
                Some(i) => source_from(self.sources@, file@, 0) == Some(i as int),
                None => source_from(self.sources@, file@, 0) is None,
            },
    {
        let mut i: usize = 0;
        while i < self.sources.len()
            invariant
                i <= self.sources@.len(),
                source_from(self.sources@, file@, 0) == source_from(self.sources@, file@, i as int),
            decreases self.sources@.len() - i,
        {
            if text::same_text(self.sources[i].file.as_str(), file) {
                return Some(i);
            }
            i = i + 1;
        }
        None
    }

    /// The file whose text is needed in order to prepare a stop, if any.
    pub fn wanted_file(&self, idx: usize) -> (r: Option<&str>)
        requires
            self.wf(),
        ensures
            match r {
                Some(f) => self.missing_file(idx as int) == Some(f@),
                None => self.missing_file(idx as int) is None,
            },
    {
        if idx >= self.stops.len() || self.cached_stop(idx).is_some() {
            return None;
        }
        match &self.preload {
            Some(p) => {
                let file = p.parsed_stops[idx].frontmatter.file.as_str();
                match self.find_source(file) {
                    Some(_) => None,
                    None => Some(file),
                }
            },
            None => None,
        }
    }

    /// The file whose text is needed in order to handle an event, if any.
    pub fn file_for(&self, ev: Event) -> (r: Option<&str>)
        requires
            self.wf(),
        ensures
            match r {
                Some(f) => self.target(ev) matches Some(i) && self.missing_file(i) == Some(f@),
                None => self.target(ev) matches Some(i) ==> self.missing_file(i) is None,
            },
    {
        match ev {
            Event::Next => if self.index < self.stops.len() && self.index + 1 < self.stops.len() {
                self.wanted_file(self.index + 1)
            } else {
                None
            },
            Event::Prev => if self.index > 0 {
                self.wanted_file(self.index - 1)
            } else {
                None
            },
            Event::Goto(i) => if i < self.stops.len() {
                self.wanted_file(i)
            } else {
                None
            },
            _ => None,
        }
    }

    /// Takes the text of a source file, unless the file is there already.
    pub fn add_source(&mut self, file: &str, file_text: String)
        requires
            old(self).wf(),
            old(self).preload is Some,
        ensures
            final(self).wf(),
            final(self).same_place(*old(self)),
            final(self).stops@ == old(self).stops@,
            final(self).preload == old(self).preload,
            match source_from(old(self).sources@, file@, 0) {
                Some(_) => final(self).sources@ == old(self).sources@,
                None => {
                    &&& final(self).sources@.len() == old(self).sources@.len() + 1
                    &&& final(self).sources@.drop_last() == old(self).sources@
                    &&& final(self).sources@.last().is_fresh(
                        file@,
                        file_text,
                        old(self).preload.unwrap().color,
                    )
                    &&& source_from(final(self).sources@, file@, 0) == Some(
                        old(self).sources@.len() as int,
                    )
                },
            },
    {
        let ghost before = *self;
        if self.find_source(file).is_some() {
            return ;
        }
        let color = self.preload.as_ref().unwrap().color;
        self.sources.push(LoadedSource::new(file, file_text, color));
        proof {
            lemma_source_from(before.sources@, file@, 0);
            lemma_source_from(self.sources@, file@, 0);
            assert(self.sources@.drop_last() =~= before.sources@);
            assert forall|i: int| 0 <= i < self.stops@.len() implies has_source(
                #[trigger] self.stops@[i],
                self.sources@,
            ) by {
                assert(has_source(before.stops@[i], before.sources@));
            }
            let kept = self.preload.unwrap().prepared_stops@;
            assert forall|i: int| 0 <= i < kept.len() implies has_source(
                #[trigger] kept[i],
                self.sources@,
            ) by {
                assert(has_source(before.preload.unwrap().prepared_stops@[i], before.sources@));
            }
            assert(self.sources@[before.sources@.len() as int].file@ == file@);
        }
    }

    /// Prepares a pending stop.
    fn prepare(&self, idx: usize) -> (r: LoadedStop)
        requires
            self.wf(),
            self.is_pending(idx as int),
            self.missing_file(idx as int) is None,
        ensures
            r@ == self.prepared_stop(idx as int),
            has_source(Some(r), self.sources@),
    {
        proof {
            lemma_source_from(self.sources@, self.parsed_file(idx as int), 0);
        }
        let parsed: &ParsedStop = &self.preload.as_ref().unwrap().parsed_stops[idx];
        let i: usize = self.find_source(parsed.frontmatter.file.as_str()).unwrap();
        prepare_stop(parsed, i, self.sources[i].file_text.as_str())
    }

    /// Keeps a stop among the prepared ones.
    fn keep_prepared(&mut self, idx: usize, stop: LoadedStop)
        requires
            old(self).wf(),
            old(self).is_pending(idx as int),
            has_source(Some(stop), old(self).sources@),
            stop@ == old(self).prepared_stop(idx as int),
        ensures
            final(self).wf(),
            final(self).same_place(*old(self)),
            final(self).stops@ == old(self).stops@,
            final(self).sources@ == old(self).sources@,
            final(self).kept_prepared(*old(self), idx as int),
    {
        match &mut self.preload {
            Some(p) => {
                p.prepared_stops.set(idx, Some(stop));
            },
            None => {},
        }
    }

    /// Prepares a stop unless it is at hand.
    pub fn ensure_prepared(&mut self, idx: usize)
        requires
            old(self).wf(),
            old(self).missing_file(idx as int) is None,
        ensures
            final(self).wf(),
            final(self).same_place(*old(self)),
            final(self).at_hand(*old(self), idx as int),
    {
        if idx >= self.stops.len() || self.stops[idx].is_some() {
            return ;
        }
        let cached: Option<LoadedStop> = match self.cached_stop(idx) {
            Some(s) => Some(s.copy()),
            None => None,
        };
        match cached {
            Some(stop) => {
                self.stops.set(idx, Some(stop));
            },
            None => {
                if self.preload.is_some() {
                    let stop = self.prepare(idx);
                    let kept = stop.copy();
                    self.keep_prepared(idx, kept);
                    self.stops.set(idx, Some(stop));
                }
            },
        }
    }

    /// The first stop from `start` on that is not among the prepared ones.
    pub open spec fn first_unprepared(&self, start: int) -> Option<int> {
        match self.preload {
            Some(p) => unprepared_from(p.prepared_stops@, start),
            None => None,
        }
    }

    /// The first stop from `start` on that is not among the prepared ones.
    pub fn next_unprepared(&self, start: usize) -> (r: Option<usize>)
        ensures
            match r {
                Some(i) => self.first_unprepared(start as int) == Some(i as int),
                None => self.first_unprepared(start as int) is None,
            },
    {
        match &self.preload {
            Some(p) => {
                let mut i: usize = start;
                while i < p.prepared_stops.len()
                    invariant
                        start <= i,
                        self.preload == Some(*p),
                        unprepared_from(p.prepared_stops@, start as int) == unprepared_from(
                            p.prepared_stops@,
                            i as int,
                        ),
                    decreases p.prepared_stops@.len() - i,
                {
                    if p.prepared_stops[i].is_none() {
                        return Some(i);
                    }
                    i = i + 1;
                }
                None
            },
            None => None,
        }
    }

    /// Prepares a stop ahead of time, unless it is prepared already.
    pub fn preload_stop(&mut self, idx: usize)
        requires
            old(self).wf(),
            old(self).missing_file(idx as int) is None,
        ensures
            final(self).wf(),
            final(self).same_place(*old(self)),
            final(self).stops@ == old(self).stops@,
            final(self).sources@ == old(self).sources@,
            if old(self).is_pending(idx as int) {
                final(self).kept_prepared(*old(self), idx as int)
            } else {
                final(self).preload == old(self).preload
            },
    {
        if idx >= self.stops.len() || self.preload.is_none() || self.cached_stop(idx).is_some() {
            return ;
        }
        let stop = self.prepare(idx);
        self.keep_prepared(idx, stop);
    }

    /// Opens the current stop at its anchor.
    fn reset_scroll_for_current_stop(&mut self)
        requires
            old(self).wf(),
        ensures
            final(self).wf(),
            final(self).same_stops(*old(self)),
            final(self).index == old(self).index,
            final(self).active_pane == old(self).active_pane,
            final(self).scroll == old(self).opening_scroll(old(self).index as int),
            final(self).body_scroll == 0,
    {
        self.scroll = self.auto_scroll(self.index);
        self.body_scroll = 0;
    }

    /// Scrolls a pane down by a line.
    fn scroll_pane_down(&mut self, pane: Pane)
        requires
            old(self).wf(),
            pane is Code ==> old(self).scroll < usize::MAX,
            pane is Commentary ==> old(self).body_scroll < usize::MAX,
        ensures
            final(self).wf(),
            final(self).same_stops(*old(self)),
            final(self).index == old(self).index,
            final(self).active_pane == old(self).active_pane,
            final(self).scroll == old(self).scroll + if pane is Code {
                1int
            } else {
                0int
            },
            final(self).body_scroll == old(self).body_scroll + if pane is Commentary {
                1int
            } else {
                0int
            },
    {
        match pane {
            Pane::Code => self.scroll = self.scroll + 1,
            Pane::Commentary => self.body_scroll = self.body_scroll + 1,
        }
    }

    /// Scrolls a pane up by a line, as far as its top.
    fn scroll_pane_up(&mut self, pane: Pane)
        requires
            old(self).wf(),
        ensures
            final(self).wf(),
            final(self).same_stops(*old(self)),
            final(self).index == old(self).index,
            final(self).active_pane == old(self).active_pane,
            final(self).scroll == old(self).scroll - if pane is Code && old(self).scroll > 0 {
                1int
            } else {
                0int
            },
            final(self).body_scroll == old(self).body_scroll - if pane is Commentary && old(
                self,
            ).body_scroll > 0 {
                1int
            } else {
                0int
            },
    {
        match pane {
            Pane::Code => self.scroll = self.scroll.saturating_sub(1),
            Pane::Commentary => self.body_scroll = self.body_scroll.saturating_sub(1),
        }
    }

    /// Moves to a stop.
    fn move_to(&mut self, idx: usize)
        requires
            old(self).wf(),
            idx < old(self).stops@.len(),
            old(self).missing_file(idx as int) is None,
        ensures
            final(self).wf(),
            final(self).moved_to(*old(self), idx as int),
    {
        let ghost before = *self;
        self.index = idx;
        assert(self.known(idx as int) == before.known(idx as int));
        self.ensure_prepared(idx);
        self.reset_scroll_for_current_stop();
    }

    /// Apply an event to the state, returning what the event loop should do next.
    pub fn handle(&mut self, ev: Event) -> (r: Outcome)
        requires
            old(self).wf(),
            old(self).target(ev) matches Some(i) ==> old(self).missing_file(i) is None,
            scrolled_down(old(self).active_pane, ev) == Some(Pane::Code) ==> old(self).scroll
                < usize::MAX,
            scrolled_down(old(self).active_pane, ev) == Some(Pane::Commentary) ==> old(
                self,
            ).body_scroll < usize::MAX,
        ensures
            final(self).wf(),
            r == (if ev is Quit {
                Outcome::Exit
            } else {
                Outcome::Continue
            }),
            match old(self).target(ev) {
                Some(i) => final(self).moved_to(*old(self), i),
                None => final(self).stayed(*old(self), ev),
            },
    {
        match ev {
            Event::Next => {
                if self.index < self.stop_count() && self.index + 1 < self.stop_count() {
                    self.move_to(self.index + 1);
                }
                Outcome::Continue
            },
            Event::Prev => {
                if self.index > 0 {
                    self.move_to(self.index - 1);
                }
                Outcome::Continue
            },
            Event::Goto(i) => {
                if i < self.stop_count() {
                    self.move_to(i);
                }
                Outcome::Continue
            },
            Event::ScrollDown => {
                self.scroll_pane_down(self.active_pane);
                Outcome::Continue
            },
            Event::ScrollUp => {
                self.scroll_pane_up(self.active_pane);
                Outcome::Continue
            },
            Event::ScrollPaneDown(pane) => {
                self.active_pane = pane;
                self.scroll_pane_down(pane);
                Outcome::Continue
            },
            Event::ScrollPaneUp(pane) => {
                self.active_pane = pane;
                self.scroll_pane_up(pane);
                Outcome::Continue
            },
            Event::Focus(pane) => {
                self.active_pane = pane;
                Outcome::Continue
            },
            Event::TogglePane => {
                self.active_pane =
                match self.active_pane {
                    Pane::Code => Pane::Commentary,
                    Pane::Commentary => Pane::Code,
                };
                Outcome::Continue
            },
            Event::Quit => Outcome::Exit,
        }
    }
}

/// The first index from `i` on at which nothing is kept.
pub open spec fn unprepared_from(kept: Seq<Option<LoadedStop>>, i: int) -> Option<int>
    decreases kept.len() - i,
{
    if i < 0 || i >= kept.len() {
        None
    } else if kept[i] is None {
        Some(i)
    } else {
        unprepared_from(kept, i + 1)
    }
}

/// `n` times nothing.
fn no_stops(n: usize) -> (r: Vec<Option<LoadedStop>>)
    ensures
        r@.len() == n,
        forall|i: int| 0 <= i < n ==> #[trigger] r@[i] is None,
{
    let mut v: Vec<Option<LoadedStop>> = Vec::new();
    for i in 0..n
        invariant
            v@.len() == i,
            forall|k: int| 0 <= k < i ==> #[trigger] v@[k] is None,
    {
        v.push(None);
    }
    v
}

/// The first stop from `i` on that points at that file.
pub open spec fn first_with_file(parsed: Seq<ParsedStop>, file: Seq<char>, i: int) -> int
    decreases parsed.len() - i,
{
    if i < 0 || i >= parsed.len() || parsed[i].frontmatter.file@ == file {
        i
    } else {
        first_with_file(parsed, file, i + 1)
    }
}

/// The first stop that points at the same file as stop `i`.
pub open spec fn first_use(parsed: Seq<ParsedStop>, i: int) -> int {
    first_with_file(parsed, parsed[i].frontmatter.file@, 0)
}

/// How many files the first `n` stops point at.
pub open spec fn file_count(parsed: Seq<ParsedStop>, n: nat) -> nat
    decreases n,
{
    if n == 0 {
        0
    } else {
        file_count(parsed, (n - 1) as nat) + if first_use(parsed, n - 1) == n - 1 {
            1nat
        } else {
            0nat
        }
    }
}

/// The index of a stop's file among the files, each of them at its first use.
pub open spec fn file_index(parsed: Seq<ParsedStop>, i: int) -> int {
    file_count(parsed, first_use(parsed, i) as nat) as int
}

/// Stop `i` as it is loaded: prepared from the text that came with the first stop
/// that points at its file.
pub open spec fn loaded(parsed: Seq<ParsedStop>, texts: Seq<String>, i: int) -> StopView {
    prepared(parsed[i], file_index(parsed, i), texts[first_use(parsed, i)]@)
}

proof fn lemma_first_with_file(parsed: Seq<ParsedStop>, i: int, k: int)
    requires
        0 <= i <= k < parsed.len(),
    ensures
        ({
            let f = first_with_file(parsed, parsed[k].frontmatter.file@, i);
            &&& i <= f <= k
            &&& parsed[f].frontmatter.file@ == parsed[k].frontmatter.file@
            &&& forall|j: int|
                i <= j < f ==> (#[trigger] parsed[j]).frontmatter.file@
                    != parsed[k].frontmatter.file@
        }),
    decreases k - i,
{
    if parsed[i].frontmatter.file@ != parsed[k].frontmatter.file@ {
        lemma_first_with_file(parsed, i + 1, k);
    }
}

/// The first `n` stops of a player are loaded, with their files; the others are not.
spec fn loaded_to(
    player: Player,
    parsed: Vec<ParsedStop>,
    texts: Seq<String>,
    color: bool,
    n: int,
) -> bool {
    let kept = player.preload.unwrap().prepared_stops@;
    &&& player.wf()
    &&& player.preload matches Some(p) && p.parsed_stops == parsed && p.color == color
    &&& player.stops@.len() == parsed@.len()
    &&& player.sources@.len() == file_count(parsed@, n as nat)
    &&& forall|j: int| 0 <= j < n ==> #[trigger] has_file(player.sources@, parsed@, texts, color, j)
    &&& forall|k: int|
        0 <= k < player.sources@.len() ==> is_used(parsed@, #[trigger] player.sources@[k].file@, n)
    &&& forall|j: int|
        0 <= j < n ==> opt_stop(#[trigger] player.stops@[j]) == Some(loaded(parsed@, texts, j))
    &&& forall|j: int| 0 <= j < n ==> opt_stop(#[trigger] kept[j]) == Some(loaded(parsed@, texts, j))
    &&& forall|j: int| n <= j < parsed@.len() ==> (#[trigger] player.stops@[j]) is None
    &&& forall|j: int| n <= j < parsed@.len() ==> (#[trigger] kept[j]) is None
}

/// One of the first `n` stops points at that file.
spec fn is_used(parsed: Seq<ParsedStop>, file: Seq<char>, n: int) -> bool {
    exists|j: int| 0 <= j < n && (#[trigger] parsed[j]).frontmatter.file@ == file
}

/// The file of stop `j` is among the sources, at its place.
pub open spec fn has_file(
    sources: Seq<LoadedSource>,
    parsed: Seq<ParsedStop>,
    texts: Seq<String>,
    color: bool,
    j: int,
) -> bool {
    let k = file_index(parsed, j);
    &&& 0 <= k < sources.len()
    &&& sources[k].is_fresh(
        parsed[j].frontmatter.file@,
        texts[first_use(parsed, j)],
        color,
    )
}

/// In sources without duplicates a file is found where it stands.
proof fn lemma_source_at(sources: Seq<LoadedSource>, file: Seq<char>, k: int)
    requires
        sources_wf(sources),
        0 <= k < sources.len(),
        sources[k].file@ == file,
    ensures
        source_from(sources, file, 0) == Some(k),
{
    lemma_source_from(sources, file, 0);
    let i = source_from(sources, file, 0).unwrap();
    if i < k {
        assert(sources[i].file@ != sources[k].file@);
    } else if k < i {
        assert(sources[k].file@ != sources[i].file@);
    }
}

/// The next stop's file is missing just where the stop is the first to point at it.
proof fn lemma_missing(
    player: Player,
    parsed: Vec<ParsedStop>,
    texts: Seq<String>,
    color: bool,
    n: int,
)
    requires
        0 <= n < parsed@.len(),
        loaded_to(player, parsed, texts, color, n),
    ensures
        player.missing_file(n) == (if first_use(parsed@, n) == n {
            Some(parsed@[n].frontmatter.file@)
        } else {
            None
        }),
        first_use(parsed@, n) < n ==> source_from(
            player.sources@,
            parsed@[n].frontmatter.file@,
            0,
        ) == Some(file_index(parsed@, n)) && has_file(player.sources@, parsed@, texts, color, n),
{
    let file = parsed@[n].frontmatter.file@;
    let f = first_use(parsed@, n);
    lemma_first_with_file(parsed@, 0, n);
    assert(player.is_pending(n));
    if f < n {
        assert(has_file(player.sources@, parsed@, texts, color, f));
        assert(first_use(parsed@, f) == f);
        lemma_source_at(player.sources@, file, file_index(parsed@, n));
    } else {
        lemma_source_from(player.sources@, file, 0);
        if let Some(k) = source_from(player.sources@, file, 0) {
            assert(is_used(parsed@, player.sources@[k].file@, n));
        }
    }
}

/// `after` is `before` with the file of stop `n` among its sources.
spec fn took_file(
    before: Player,
    after: Player,
    parsed: Vec<ParsedStop>,
    texts: Seq<String>,
    color: bool,
    n: int,
) -> bool {
    &&& after.wf()
    &&& after.stops@ == before.stops@
    &&& after.preload == before.preload
    &&& if first_use(parsed@, n) == n {
        &&& after.sources@.len() == before.sources@.len() + 1
        &&& after.sources@.drop_last() == before.sources@
        &&& after.sources@.last().is_fresh(parsed@[n].frontmatter.file@, texts[n], color)
    } else {
        after.sources@ == before.sources@
    }
}

#[verifier::spinoff_prover]
proof fn lemma_took_file(
    before: Player,
    after: Player,
    parsed: Vec<ParsedStop>,
    texts: Seq<String>,
    color: bool,
    n: int,
)
    requires
        0 <= n < parsed@.len(),
        loaded_to(before, parsed, texts, color, n),
        took_file(before, after, parsed, texts, color, n),
    ensures
        after.sources@.len() == file_count(parsed@, (n + 1) as nat),
        forall|j: int| 0 <= j <= n ==> #[trigger] has_file(after.sources@, parsed@, texts, color, j),
        forall|k: int|
            0 <= k < after.sources@.len() ==> is_used(
                parsed@,
                #[trigger] after.sources@[k].file@,
                n + 1,
            ),
        after.is_pending(n),
        after.missing_file(n) is None,
        after.prepared_stop(n) == loaded(parsed@, texts, n),
{
    let file = parsed@[n].frontmatter.file@;
    lemma_first_with_file(parsed@, 0, n);
    lemma_missing(before, parsed, texts, color, n);
    assert(before.is_pending(n));
    assert(before.known(n) == after.known(n));
    assert forall|k: int| 0 <= k < before.sources@.len() implies #[trigger] after.sources@[k]
        == before.sources@[k] by {
        if first_use(parsed@, n) == n {
            assert(after.sources@.drop_last()[k] == after.sources@[k]);
        }
    }
    assert forall|j: int| 0 <= j <= n implies #[trigger] has_file(
        after.sources@,
        parsed@,
        texts,
        color,
        j,
    ) by {
        if j < n {
            assert(has_file(before.sources@, parsed@, texts, color, j));
            assert(after.sources@[file_index(parsed@, j)] == before.sources@[file_index(
                parsed@,
                j,
            )]);
        } else if first_use(parsed@, n) < n {
            assert(has_file(before.sources@, parsed@, texts, color, n));
        }
    }
    assert forall|k: int| 0 <= k < after.sources@.len() implies is_used(
        parsed@,
        #[trigger] after.sources@[k].file@,
        n + 1,
    ) by {
        if k < before.sources@.len() {
            assert(after.sources@[k] == before.sources@[k]);
            assert(is_used(parsed@, before.sources@[k].file@, n));
        } else {
            assert(parsed@[n].frontmatter.file@ == after.sources@[k].file@);
        }
    }
    assert(has_file(after.sources@, parsed@, texts, color, n));
    lemma_source_at(after.sources@, file, file_index(parsed@, n));
}

proof fn lemma_next_loaded(
    before: Player,
    with_file: Player,
    after: Player,
    parsed: Vec<ParsedStop>,
    texts: Seq<String>,
    color: bool,
    n: int,
)
    requires
        0 <= n < parsed@.len(),
        loaded_to(before, parsed, texts, color, n),
        took_file(before, with_file, parsed, texts, color, n),
        after.wf(),
        after.at_hand(with_file, n),
    ensures
        loaded_to(after, parsed, texts, color, n + 1),
{
    lemma_took_file(before, with_file, parsed, texts, color, n);
    assert(with_file.stops@[n] is None);
    assert forall|j: int| 0 <= j < n + 1 implies #[trigger] has_file(
        after.sources@,
        parsed@,
        texts,
        color,
        j,
    ) by {
        assert(has_file(with_file.sources@, parsed@, texts, color, j));
    }
}

/// A fully loaded player at the first of the parsed stops. `texts` holds, for each
/// stop, the text of its source file; where several stops point at one file, the
/// text that came with the first of them is taken.
pub fn load(parsed_stops: Vec<ParsedStop>, texts: Vec<String>, color: bool) -> (r: Player)
    requires
        texts@.len() == parsed_stops@.len(),
    ensures
        r.wf(),
        r.stops@.len() == parsed_stops@.len(),
        r.preload matches Some(p) && p.parsed_stops == parsed_stops && p.color == color,
        r.index == 0,
        r.scroll == r.opening_scroll(0),
        r.body_scroll == 0,
        r.active_pane is Code,
        forall|i: int|
            0 <= i < r.stops@.len() ==> opt_stop(#[trigger] r.stops@[i]) == Some(
                loaded(parsed_stops@, texts@, i),
            ),
        forall|i: int|
            0 <= i < r.stops@.len() ==> opt_stop(
                #[trigger] r.preload.unwrap().prepared_stops@[i],
            ) == Some(loaded(parsed_stops@, texts@, i)),
        forall|i: int| #[trigger] r.missing_file(i) is None,
        r.sources@.len() == file_count(parsed_stops@, parsed_stops@.len()),
        forall|i: int|
            0 <= i < r.stops@.len() ==> #[trigger] has_file(
                r.sources@,
                parsed_stops@,
                texts@,
                color,
                i,
            ),
{
    let n: usize = parsed_stops.len();
    let ghost parsed = parsed_stops;
    let mut player = Player {
        stops: no_stops(n),
        sources: Vec::new(),
        index: 0,
        scroll: 0,
        body_scroll: 0,
        active_pane: Pane::Code,
        preload: Some(PreloadState { parsed_stops, prepared_stops: no_stops(n), color }),
    };
    let mut i: usize = 0;
    loop
        invariant
            i <= n,
            n == parsed@.len(),
            n == texts@.len(),
            loaded_to(player, parsed, texts@, color, i as int),
            player.index == 0,
            player.body_scroll == 0,
            player.active_pane is Code,
        ensures
            i == n,
        decreases n - i,
    {
        let at: usize = match player.next_unprepared(i) {
            Some(at) => at,
            None => {
                break ;
            },
        };
        let ghost before = player;
        proof {
            assert(at == i);
            lemma_missing(player, parsed, texts@, color, i as int);
            lemma_first_with_file(parsed@, 0, i as int);
        }
        let wanted: Option<String> = match player.wanted_file(at) {
            Some(file) => Some(text::owned(file)),
            None => None,
        };
        if let Some(file) = wanted {
            player.add_source(file.as_str(), texts[at].clone());
        }
        let ghost with_file = player;
        proof {
            lemma_took_file(before, with_file, parsed, texts@, color, i as int);
        }
        player.preload_stop(at);
        player.ensure_prepared(at);
        proof {
            lemma_next_loaded(before, with_file, player, parsed, texts@, color, i as int);
        }
        i = at + 1;
    }
    player.scroll = player.auto_scroll(0);
    player
}

/// Going on to the next stop and back leads to the stop one came from, opened at
/// its anchor.
pub proof fn law_next_then_prev(p0: Player, p1: Player, p2: Player)
    requires
        p0.wf(),
        p0.target(Event::Next) matches Some(i) && p1.moved_to(p0, i),
        p1.target(Event::Prev) matches Some(i) && p2.moved_to(p1, i),
    ensures
        p2.index == p0.index,
        p2.scroll == p2.opening_scroll(p0.index as int),
        p2.body_scroll == 0,
{
}

/// At either end of the tour there is nowhere to go: the event changes nothing.
pub proof fn law_ends_of_the_tour(before: Player, after: Player, ev: Event)
    requires
        before.wf(),
        ev is Next && before.index + 1 >= before.stops@.len() || ev is Prev && before.index == 0,
        match before.target(ev) {
            Some(i) => after.moved_to(before, i),
            None => after.stayed(before, ev),
        },
    ensures
        after.same_place(before),
        after.same_stops(before),
{
}

/// Toggling twice gives back the pane, and changes nothing else.
pub proof fn law_toggle_twice(p0: Player, p1: Player, p2: Player)
    requires
        p1.stayed(p0, Event::TogglePane),
        p2.stayed(p1, Event::TogglePane),
    ensures
        p2.same_place(p0),
        p2.same_stops(p0),
{
}

/// Scrolling down and up again changes nothing.
pub proof fn law_scroll_down_then_up(p0: Player, p1: Player, p2: Player)
    requires
        p1.stayed(p0, Event::ScrollDown),
        p2.stayed(p1, Event::ScrollUp),
    ensures
        p2.same_place(p0),
        p2.same_stops(p0),
{
}

/// An event scrolls one pane at most.
pub proof fn law_panes_scroll_independently(before: Player, after: Player, ev: Event)
    requires
        after.stayed(before, ev),
    ensures
        after.scroll == before.scroll || after.body_scroll == before.body_scroll,
        after.scroll != before.scroll ==> after.active_pane is Code,
        after.body_scroll != before.body_scroll ==> after.active_pane is Commentary,
{
}

/// A stop is opened with its anchor in view, with `CONTEXT_ABOVE` lines above it
/// where the file has them.
pub proof fn law_anchor_is_in_view(before: Player, after: Player, idx: int, line: usize)
    requires
        after.moved_to(before, idx),
        after.known(idx) matches Some(s) && s.anchor_line == Some(line),
        line >= 1,
    ensures
        after.scroll < line <= after.scroll + CONTEXT_ABOVE + 1,
        line > CONTEXT_ABOVE ==> line - 1 - after.scroll == CONTEXT_ABOVE,
{
}

/// A stop that is ready to display stays what it is, wherever one goes.
pub proof fn law_known_stops_stay(before: Player, after: Player, idx: int, k: int)
    requires
        before.wf(),
        before.missing_file(idx) is None,
        after.at_hand(before, idx),
        before.known(k) is Some,
    ensures
        opt_stop(after.known(k)) == opt_stop(before.known(k)),
{
}

/// Stops that point at the same file share one source.
pub proof fn law_same_file_same_source(player: Player, i: int, j: int)
    requires
        player.wf(),
        player.known(i) is Some,
        player.known(j) is Some,
        player.known(i).unwrap().file@ == player.known(j).unwrap().file@,
    ensures
        player.known(i).unwrap().source == player.known(j).unwrap().source,
{
    player.lemma_known_has_source(i);
    player.lemma_known_has_source(j);
}

/// The stop that one moves to is ready to display, where it can be prepared at all.
pub proof fn law_target_is_known(before: Player, after: Player, idx: int)
    requires
        before.wf(),
        0 <= idx < before.stops@.len(),
        before.preload is Some,
        after.moved_to(before, idx),
    ensures
        after.known(idx) is Some,
        after.stops@[idx] is Some,
{
}

/// Preparing a stop ahead of time changes neither what is shown of it nor where
/// it is opened.
pub proof fn law_preloading_is_not_seen(
    p0: Player,
    ahead: Player,
    q0: Player,
    q1: Player,
    idx: int,
)
    requires
        p0.wf(),
        p0.is_pending(idx),
        ahead.stops@ == p0.stops@,
        ahead.sources@ == p0.sources@,
        ahead.kept_prepared(p0, idx),
        q0.moved_to(p0, idx),
        q1.moved_to(ahead, idx),
    ensures
        opt_stop(q0.known(idx)) == opt_stop(q1.known(idx)),
        q0.scroll == q1.scroll,
        q0.index == q1.index,
{
}

/// The number of a stop leads to that stop, wherever one is: the stop one comes from
/// makes no difference. A number that no stop has changes nothing.
pub proof fn law_goto_leads_to_its_stop(before: Player, after: Player, i: usize)
    requires
        before.wf(),
        match before.target(Event::Goto(i)) {
            Some(k) => after.moved_to(before, k),
            None => after.stayed(before, Event::Goto(i)),
        },
    ensures
        i < before.stops@.len() ==> after.index == i && after.body_scroll == 0
            && after.active_pane == before.active_pane,
        i >= before.stops@.len() ==> after.same_place(before) && after.same_stops(before),
{
}

/// Two players with the same stops are at the same stop after the same number.
pub proof fn law_goto_does_not_depend_on_the_place(
    p: Player,
    q: Player,
    after_p: Player,
    after_q: Player,
    i: usize,
)
    requires
        p.wf(),
        q.wf(),
        p.same_stops(q),
        i < p.stops@.len(),
        p.target(Event::Goto(i)) matches Some(k) && after_p.moved_to(p, k),
        q.target(Event::Goto(i)) matches Some(k) && after_q.moved_to(q, k),
    ensures
        after_p.index == after_q.index,
        after_p.scroll == after_q.scroll,
        after_p.body_scroll == after_q.body_scroll,
        opt_stop(after_p.known(i as int)) == opt_stop(after_q.known(i as int)),
{
}

/// One leads on to the very next stop where there is one, the other back to the one
/// before.
pub proof fn law_next_and_prev_lead_one_stop_on(before: Player, after: Player, ev: Event)
    requires
        before.wf(),
        ev is Next || ev is Prev,
        match before.target(ev) {
            Some(k) => after.moved_to(before, k),
            None => after.stayed(before, ev),
        },
    ensures
        ev is Next && before.index + 1 < before.stops@.len() ==> after.index == before.index + 1,
        ev is Prev && before.index > 0 ==> after.index == before.index - 1,
        ev is Next && before.index + 1 >= before.stops@.len() ==> after.index == before.index,
        ev is Prev && before.index == 0 ==> after.index == 0,
        after.active_pane == before.active_pane,
        after.index != before.index ==> after.body_scroll == 0,
{
}

/// A stop whose anchor is not found, or stands among the first lines, is opened at the
/// top of its file; any other with five lines above the anchor. Its commentary is
/// opened at the top.
pub proof fn law_stop_is_opened_at_its_anchor(before: Player, after: Player, ev: Event, i: int)
    requires
        before.wf(),
        before.target(ev) == Some(i),
        after.moved_to(before, i),
    ensures
        after.index == i,
        after.body_scroll == 0,
        match after.known(i) {
            Some(s) => match s.anchor_line {
                Some(line) => if line <= 6 {
                    after.scroll == 0
                } else {
                    after.scroll + 6 == line
                },
                None => after.scroll == 0,
            },
            None => after.scroll == 0,
        },
{
}

/// Scrolling moves one pane by one line, down without end and up as far as its top:
/// the active pane, or the one that the event names, which becomes the active one.
/// Neither the stop nor the other pane moves.
pub proof fn law_scrolling_moves_one_line(before: Player, after: Player, ev: Event, pane: Pane)
    requires
        before.wf(),
        match ev {
            Event::ScrollDown | Event::ScrollUp => pane == before.active_pane,
            Event::ScrollPaneDown(p) | Event::ScrollPaneUp(p) => pane == p,
            _ => false,
        },
        match before.target(ev) {
            Some(k) => after.moved_to(before, k),
            None => after.stayed(before, ev),
        },
    ensures
        after.same_stops(before),
        after.index == before.index,
        after.active_pane == pane,
        ({
            let (old_offset, new_offset, old_other, new_other) = match pane {
                Pane::Code => (before.scroll, after.scroll, before.body_scroll, after.body_scroll),
                Pane::Commentary => (
                    before.body_scroll,
                    after.body_scroll,
                    before.scroll,
                    after.scroll,
                ),
            };
            &&& new_other == old_other
            &&& ev is ScrollDown || ev is ScrollPaneDown ==> new_offset == old_offset + 1
            &&& (ev is ScrollUp || ev is ScrollPaneUp) && old_offset > 0 ==> new_offset + 1
                == old_offset
            &&& (ev is ScrollUp || ev is ScrollPaneUp) && old_offset == 0 ==> new_offset == 0
        }),
{
}

/// Choosing a pane changes nothing but the active pane, and leaving changes nothing.
pub proof fn law_choosing_a_pane_moves_nothing(before: Player, after: Player, ev: Event)
    requires
        before.wf(),
        ev is Focus || ev is TogglePane || ev is Quit,
        match before.target(ev) {
            Some(k) => after.moved_to(before, k),
            None => after.stayed(before, ev),
        },
    ensures
        after.same_stops(before),
        after.index == before.index,
        after.scroll == before.scroll,
        after.body_scroll == before.body_scroll,
        ev matches Event::Focus(p) ==> after.active_pane == p,
        ev is TogglePane ==> after.active_pane != before.active_pane,
        ev is Quit ==> after.active_pane == before.active_pane,
{
}

/// The title that is made of a file name leaves out `.md` at its end, as often as it
/// stands there, and nothing else.
#[verifier::spinoff_prover]
pub proof fn law_title_from_the_file_name(s: Seq<char>)
    ensures
        ({
            let t = without_md(s);
            &&& t.len() <= s.len()
            &&& (s.len() - t.len()) % 3 == 0
            &&& t == s.take(t.len() as int)
            &&& forall|k: int|
                t.len() <= k < s.len() ==> #[trigger] s[k] == seq!['.', 'm', 'd'][(k - t.len()) % 3]
            &&& !(t.len() >= 3 && t[t.len() - 3] == '.' && t[t.len() - 2] == 'm' && t[t.len() - 1]
                == 'd')
        }),
    decreases s.len(),
{
    let t = without_md(s);
    if s.len() >= 3 && s[s.len() - 3] == '.' && s[s.len() - 2] == 'm' && s[s.len() - 1] == 'd' {
        let front = s.take(s.len() - 3);
        law_title_from_the_file_name(front);
        assert(front.take(t.len() as int) =~= s.take(t.len() as int));
        assert forall|k: int| t.len() <= k < s.len() implies #[trigger] s[k]
            == seq!['.', 'm', 'd'][(k - t.len()) % 3] by {
            if k < front.len() {
                assert(front[k] == s[k]);
            } else {
                let d = front.len() - t.len();
                assert(d % 3 == 0);
                assert((d + (k - front.len())) % 3 == (k - front.len()) % 3);
            }
        }
    } else {
        assert(s.take(s.len() as int) =~= s);
    }
}

/// A prepared stop shows what its file says: commentary, source file and highlight as
/// they are, the title or else the name of its file, and the line and the warning that
/// its anchor comes to in the text of the source.
pub proof fn law_prepared_stop_shows_its_file(
    parsed: ParsedStop,
    source: int,
    file_text: Seq<char>,
)
    ensures
        ({
            let v = prepared(parsed, source, file_text);
            let found = anchor::resolved(parsed.frontmatter.anchor, file_text);
            &&& v.body == parsed.body@
            &&& v.file == parsed.frontmatter.file@
            &&& v.source == source
            &&& parsed.frontmatter.title matches Some(t) ==> v.title == t@
            &&& parsed.frontmatter.title is None ==> v.title == without_md(parsed.filename@)
            &&& v.anchor_line == found.line
            &&& v.highlight_lines == anchor::highlight_count(parsed.frontmatter.highlight)
            &&& v.warnings.len() == (if found.warning is Some {
                1int
            } else {
                0
            })
            &&& found.warning matches Some(w) ==> v.warnings[0] == w
        }),
{
}

/// The first stop with a file is the first: it has the file, and no stop in front of
/// it has.
pub proof fn law_first_use_comes_first(parsed: Seq<ParsedStop>, i: int)
    requires
        0 <= i < parsed.len(),
    ensures
        0 <= first_use(parsed, i) <= i,
        parsed[first_use(parsed, i)].frontmatter.file@ == parsed[i].frontmatter.file@,
        forall|j: int|
            0 <= j < first_use(parsed, i) ==> (#[trigger] parsed[j]).frontmatter.file@
                != parsed[i].frontmatter.file@,
{
    lemma_first_with_file(parsed, 0, i);
}

/// Counting the files of more stops counts no fewer, and one more where a stop is the
/// first with its file.
proof fn lemma_file_count_grows(parsed: Seq<ParsedStop>, m: nat, n: nat)
    requires
        m <= n,
    ensures
        file_count(parsed, m) <= file_count(parsed, n),
        m < n && first_use(parsed, m as int) == m ==> file_count(parsed, m) < file_count(
            parsed,
            n,
        ),
    decreases n,
{
    if m < n {
        lemma_file_count_grows(parsed, m, (n - 1) as nat);
    }
}

/// Stops share a source just where they point at the same file, and the sources stand
/// in the order in which the stops first point at them.
pub proof fn law_files_are_numbered_by_first_use(parsed: Seq<ParsedStop>, i: int, j: int)
    requires
        0 <= i < parsed.len(),
        0 <= j < parsed.len(),
    ensures
        file_index(parsed, i) == file_index(parsed, j) <==> parsed[i].frontmatter.file@
            == parsed[j].frontmatter.file@,
        first_use(parsed, i) < first_use(parsed, j) <==> file_index(parsed, i) < file_index(
            parsed,
            j,
        ),
        0 <= file_index(parsed, i) < file_count(parsed, parsed.len()),
        first_use(parsed, i) == 0 ==> file_index(parsed, i) == 0,
{
    law_first_use_comes_first(parsed, i);
    law_first_use_comes_first(parsed, j);
    let a = first_use(parsed, i);
    let b = first_use(parsed, j);
    assert(first_use(parsed, a) == a);
    assert(first_use(parsed, b) == b);
    lemma_file_count_grows(parsed, a as nat, parsed.len());
    if a < b {
        lemma_file_count_grows(parsed, a as nat, b as nat);
    } else if b < a {
        lemma_file_count_grows(parsed, b as nat, a as nat);
    }
}

/// There is no source that no stop points at: every number below the count of files
/// is that of some stop's file.
pub proof fn law_every_source_belongs_to_a_stop(parsed: Seq<ParsedStop>, n: nat, k: nat)
    requires
        n <= parsed.len(),
        k < file_count(parsed, n),
    ensures
        exists|i: int| 0 <= i < n && #[trigger] file_index(parsed, i) == k,
    decreases n,
{
    let last = n - 1;
    if k < file_count(parsed, last as nat) {
        law_every_source_belongs_to_a_stop(parsed, last as nat, k);
        let i = choose|i: int| 0 <= i < last && #[trigger] file_index(parsed, i) == k;
        assert(file_index(parsed, i) == k);
    } else {
        assert(file_index(parsed, last) == k);
    }
}

/// A stop that is loaded is prepared from the text that came with the first stop that
/// points at its file.
pub proof fn law_loaded_stop_is_prepared_from_its_file(
    parsed: Seq<ParsedStop>,
    texts: Seq<String>,
    i: int,
    f: int,
)
    requires
        0 <= i < parsed.len(),
        0 <= f <= i,
        parsed[f].frontmatter.file@ == parsed[i].frontmatter.file@,
        forall|j: int|
            0 <= j < f ==> (#[trigger] parsed[j]).frontmatter.file@ != parsed[i].frontmatter.file@,
    ensures
        loaded(parsed, texts, i) == prepared(parsed[i], file_index(parsed, f), texts[f]@),
{
    law_first_use_comes_first(parsed, i);
    law_first_use_comes_first(parsed, f);
    assert(first_use(parsed, i) == f);
    assert(first_use(parsed, f) == f);
}

/// The source of a file is the first one of that name, and there is none only where no
/// source has it.
pub proof fn law_source_is_found_by_its_name(sources: Seq<LoadedSource>, file: Seq<char>)
    ensures
        match source_from(sources, file, 0) {
            Some(k) => 0 <= k < sources.len() && sources[k].file@ == file,
            None => forall|k: int| 0 <= k < sources.len() ==> #[trigger] sources[k].file@ != file,
        },
{
    lemma_source_from(sources, file, 0);
}

/// A file is asked for just where a stop that is not ready points at it and none of the
/// sources is that file.
pub proof fn law_only_missing_files_are_asked_for(player: Player, idx: int)
    requires
        player.wf(),
    ensures
        match player.missing_file(idx) {
            Some(f) => {
                &&& 0 <= idx < player.stops@.len()
                &&& player.stops@[idx] is None
                &&& player.preload matches Some(p) && p.prepared_stops@[idx] is None && f
                    == p.parsed_stops@[idx].frontmatter.file@
                &&& forall|k: int|
                    0 <= k < player.sources@.len() ==> #[trigger] player.sources@[k].file@ != f
            },
            None => (player.preload matches Some(p) && 0 <= idx < player.stops@.len()
                && player.stops@[idx] is None && p.prepared_stops@[idx] is None) ==> exists|k: int|
                0 <= k < player.sources@.len() && #[trigger] player.sources@[k].file@
                    == player.preload.unwrap().parsed_stops@[idx].frontmatter.file@,
        },
{
    if player.preload is Some && 0 <= idx < player.stops@.len() {
        lemma_source_from(player.sources@, player.parsed_file(idx), 0);
    }
}

/// The next stop to prepare is the first from there on that is not prepared.
pub proof fn law_next_unprepared_is_the_first(kept: Seq<Option<LoadedStop>>, i: int)
    requires
        0 <= i,
    ensures
        match unprepared_from(kept, i) {
            Some(k) => i <= k < kept.len() && kept[k] is None && forall|j: int|
                i <= j < k ==> (#[trigger] kept[j]) is Some,
            None => forall|j: int| i <= j < kept.len() ==> (#[trigger] kept[j]) is Some,
        },
    decreases kept.len() - i,
{
    if i < kept.len() && kept[i] is Some {
        law_next_unprepared_is_the_first(kept, i + 1);
    }
}

/// The stop that is opened is the one that was ready, or else the one that its parsed
/// file describes.
pub proof fn law_opened_stop_is_the_one_asked_for(before: Player, after: Player, i: int)
    requires
        before.wf(),
        0 <= i < before.stops@.len(),
        before.preload is Some,
        before.missing_file(i) is None,
        after.moved_to(before, i),
    ensures
        match before.known(i) {
            Some(s) => opt_stop(after.known(i)) == Some(s@),
            None => opt_stop(after.known(i)) matches Some(v) && 0 <= v.source
                < before.sources@.len() && before.sources@[v.source].file@
                == before.preload.unwrap().parsed_stops@[i].frontmatter.file@ && v == prepared(
                before.preload.unwrap().parsed_stops@[i],
                v.source,
                before.sources@[v.source].file_text@,
            ),
        },
        forall|k: int|
            0 <= k < before.stops@.len() && k != i ==> #[trigger] after.stops@[k]
                == before.stops@[k],
        after.sources@ == before.sources@,
{
    lemma_source_from(before.sources@, before.parsed_file(i), 0);
}

/// A stop that is shown is taken as it is; else one that is prepared.
pub proof fn law_known_stop_is_shown_or_prepared(player: Player, i: int)
    requires
        player.wf(),
        0 <= i < player.stops@.len(),
    ensures
        player.stops@[i] is Some ==> player.known(i) == player.stops@[i],
        player.stops@[i] is None ==> player.known(i) == (match player.preload {
            Some(p) => p.prepared_stops@[i],
            None => None,
        }),
{
}

} // verus!
