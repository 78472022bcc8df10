//! What each command does. A command is planned here, as the actions to perform in
//! order; performing them is left to the caller.

use crate::cli::{AnchorKind, StopArgs, TourArgs};
use crate::frontmatter;
use crate::input;
use crate::input::Input;
use crate::layout::{Pane, Rect};
use crate::play;
use crate::play::{Outcome, Player};
use crate::stop;
use crate::stop::{StopFile, StopFrontmatter};
use crate::text;
use crate::tour;
use crate::tour::{Tour, TourMeta};
use vstd::prelude::*;
use vstd::string::*;

verus! {

/// Something to do.
#[derive(Debug)]
pub enum Action {
    /// Create the tour's directory, with its parents.
    CreateDir,
    /// Write a stop file into the tour's directory.
    WriteStop(StopFile),
    /// Write the tour's file.
    WriteTour(Tour),
    /// Print a text.
    Print(String),
    /// Say what is wrong, and end with failure.
    Fail(String),
}

/// What an `Action` says.
pub enum ActionView {
    CreateDir,
    WriteStop { filename: Seq<char>, content: Seq<char> },
    WriteTour(tour::TourView),
    Print(Seq<char>),
    Fail(Seq<char>),
}

impl View for Action {
    type V = ActionView;

    open spec fn view(&self) -> ActionView {
        match *self {
            Action::CreateDir => ActionView::CreateDir,
            Action::WriteStop(f) => ActionView::WriteStop {
                filename: f.filename@,
                content: f.content@,
            },
            Action::WriteTour(t) => ActionView::WriteTour(t@),
            Action::Print(s) => ActionView::Print(s@),
            Action::Fail(s) => ActionView::Fail(s@),
        }
    }
}

/// The views of a plan.
pub open spec fn plan(actions: Seq<Action>) -> Seq<ActionView> {
    actions.map_values(|a: Action| a@)
}

/// What is known of the files around a stop that is to be written.
#[derive(Debug)]
pub struct StopPlace {
    /// Where the stop file goes.
    pub path: String,
    /// A file is there already.
    pub exists: bool,
    /// What reading the body file gave, where the stop has one.
    pub file_body: Result<String, String>,
}

/// The text of the body file.
pub open spec fn body_read(place: StopPlace) -> Seq<char> {
    match place.file_body {
        Ok(b) => b@,
        Err(_) => Seq::empty(),
    }
}

/// Why a complete stop cannot be written, if it cannot.
pub open spec fn write_failure(stop: StopArgs, place: StopPlace) -> Option<Seq<char>> {
    if place.exists {
        Some(place.path@ + " already exists"@)
    } else {
        match place.file_body {
            Err(e) => if stop::needs_body_file(stop) {
                Some("reading "@ + stop.body_file.unwrap()@ + ": "@ + e@)
            } else {
                None
            },
            Ok(_) => None,
        }
    }
}

/// The action that writes a stop.
pub open spec fn stop_write(stop: StopArgs, place: StopPlace) -> ActionView {
    ActionView::WriteStop {
        filename: stop::stop_file_name(stop),
        content: stop::stop_text(stop, body_read(place)),
    }
}

/// The tour that `new` writes.
pub open spec fn new_tour(args: TourArgs, stops: Seq<Seq<char>>) -> tour::TourView {
    tour::TourView {
        title: args.tour_title@,
        description: text::opt_text(args.tour_description),
        author: text::opt_text(args.tour_author),
        created: text::opt_text(args.tour_created),
        stops,
    }
}

/// What `new` does.
pub open spec fn new_plan(
    tour_path: Seq<char>,
    tour_exists: bool,
    args: TourArgs,
    stop: StopArgs,
    place: StopPlace,
) -> Seq<ActionView> {
    let created = ActionView::Print("created "@ + tour_path + "\n"@);
    if tour_exists {
        seq![ActionView::Fail(tour_path + " already exists"@)]
    } else if !stop.has_any() {
        seq![
            ActionView::CreateDir,
            ActionView::WriteTour(new_tour(args, Seq::empty())),
            created,
        ]
    } else if !stop.is_complete() {
        seq![ActionView::Fail(stop.missing_message())]
    } else {
        match write_failure(stop, place) {
            Some(m) => seq![ActionView::Fail(m)],
            None => seq![
                ActionView::CreateDir,
                stop_write(stop, place),
                ActionView::WriteTour(new_tour(args, seq![stop::stop_file_name(stop)])),
                created,
                ActionView::Print("  + "@ + stop::stop_file_name(stop) + "\n"@),
            ],
        }
    }
}

/// Scaffolds a tour, with its first stop where one is described. `tour_path` is
/// where the tour's file goes. What is wrong is said before anything is created.
pub fn new(
    tour_path: &str,
    tour_exists: bool,
    tour_args: TourArgs,
    stop: &StopArgs,
    place: &StopPlace,
) -> (r: Vec<Action>)
    ensures
        plan(r@) == new_plan(tour_path@, tour_exists, tour_args, *stop, *place),
{
    let ghost expected = new_plan(tour_path@, tour_exists, tour_args, *stop, *place);
    let mut actions: Vec<Action> = Vec::new();
    if tour_exists {
        actions.push(Action::Fail(text::concat2(tour_path, " already exists")));
        assert(plan(actions@) =~= expected);
        return actions;
    }
    let mut stops: Vec<String> = Vec::new();
    let mut added: Option<String> = None;
    if stop.any_set() {
        match stop.require_complete() {
            Err(m) => {
                actions.push(Action::Fail(m));
                assert(plan(actions@) =~= expected);
                return actions;
            },
            Ok(_) => {},
        }
        match stop::write_file(stop, place.path.as_str(), place.exists, &place.file_body) {
            Err(m) => {
                actions.push(Action::Fail(m));
                assert(plan(actions@) =~= expected);
                return actions;
            },
            Ok(file) => {
                stops.push(file.filename.clone());
                added = Some(text::concat3("  + ", file.filename.as_str(), "\n"));
                actions.push(Action::CreateDir);
                actions.push(Action::WriteStop(file));
            },
        }
    } else {
        actions.push(Action::CreateDir);
    }
    proof {
        if added is Some {
            assert(text::texts(stops@) =~= seq![stop::stop_file_name(*stop)]);
        } else {
            assert(text::texts(stops@) =~= Seq::empty());
        }
    }
    actions.push(
        Action::WriteTour(
            Tour {
                tour: TourMeta {
                    title: tour_args.tour_title,
                    description: tour_args.tour_description,
                    author: tour_args.tour_author,
                    created: tour_args.tour_created,
                },
                stops,
            },
        ),
    );
    actions.push(Action::Print(text::concat3("created ", tour_path, "\n")));
    if let Some(line) = added {
        actions.push(Action::Print(line));
    }
    assert(plan(actions@) =~= expected);
    actions
}

/// The ending of a plural.
pub open spec fn plural(n: nat) -> Seq<char> {
    if n == 1 {
        ""@
    } else {
        "s"@
    }
}

/// A position at which a stop can be inserted, counted from one.
pub open spec fn is_position(p: usize, len: nat) -> bool {
    1 <= p <= len + 1
}

/// What is said of a position that is none.
pub open spec fn position_message(len: nat) -> Seq<char> {
    "--position must be in 1..="@ + text::decimal_text(len + 1) + " (current index has "@
        + text::decimal_text(len) + " stop"@ + plural(len) + ")"@
}

/// The tour with a stop inserted: at the position, counted from one, else at the end.
pub open spec fn with_stop(
    before: tour::TourView,
    filename: Seq<char>,
    position: Option<usize>,
) -> tour::TourView {
    tour::TourView {
        stops: before.stops.insert(
            match position {
                Some(p) => p - 1,
                None => before.stops.len() as int,
            },
            filename,
        ),
        ..before
    }
}

/// What `add` says when it is done.
pub open spec fn add_report(filename: Seq<char>, position: Option<usize>) -> Seq<char> {
    match position {
        Some(p) => "inserted "@ + filename + " at position "@ + text::decimal_text(p as nat)
            + "\n"@,
        None => "appended "@ + filename + "\n"@,
    }
}

/// What `add` does, once the stop has been asked for.
pub open spec fn add_plan(
    before: tour::TourView,
    stop: StopArgs,
    position: Option<usize>,
    place: StopPlace,
) -> Seq<ActionView> {
    let filename = stop::stop_file_name(stop);
    if !stop.is_complete() {
        seq![ActionView::Fail(stop.missing_message())]
    } else if position is Some && !is_position(position.unwrap(), before.stops.len()) {
        seq![ActionView::Fail(position_message(before.stops.len()))]
    } else {
        match write_failure(stop, place) {
            Some(m) => seq![ActionView::Fail(m)],
            None => if before.stops.contains(filename) {
                seq![
                    stop_write(stop, place),
                    ActionView::Fail(filename + " is already listed in tour.json's stops array"@),
                ]
            } else {
                seq![
                    stop_write(stop, place),
                    ActionView::WriteTour(with_stop(before, filename, position)),
                    ActionView::Print(add_report(filename, position)),
                ]
            },
        }
    }
}

/// The ending of a plural.
fn plural_ending(n: usize) -> (r: &'static str)
    ensures
        r@ == plural(n as nat),
{
    if n == 1 {
        ""
    } else {
        "s"
    }
}

/// Says which positions there are.
fn bad_position(len: usize) -> (r: String)
    requires
        len < usize::MAX,
    ensures
        r@ == position_message(len as nat),
{
    let mut m = text::owned("--position must be in 1..=");
    let max = text::decimal(len + 1);
    m.append(max.as_str());
    m.append(" (current index has ");
    let count = text::decimal(len);
    m.append(count.as_str());
    m.append(" stop");
    m.append(plural_ending(len));
    m.append(")");
    m
}

/// Whether a name is among others.
fn is_listed(names: &Vec<String>, name: &str) -> (r: bool)
    ensures
        r == text::texts(names@).contains(name@),
{
    let ghost all = text::texts(names@);
    for i in 0..names.len()
        invariant
            all == text::texts(names@),
            all.len() == names@.len(),
            forall|k: int| 0 <= k < i ==> #[trigger] all[k] != name@,
    {
        if text::same_text(names[i].as_str(), name) {
            assert(all[i as int] == name@);
            return true;
        }
        assert(all[i as int] == names@[i as int]@);
    }
    false
}

/// Creates a stop and inserts it into the tour: at the position, counted from one,
/// else at the end. The position is checked before anything is written.
pub fn add(tour: Tour, stop: &StopArgs, position: Option<usize>, place: &StopPlace) -> (r: Vec<
    Action,
>)
    requires
        tour.stops@.len() < usize::MAX,
    ensures
        plan(r@) == add_plan(tour@, *stop, position, *place),
{
    let ghost expected = add_plan(tour@, *stop, position, *place);
    let ghost names = text::texts(tour.stops@);
    let mut actions: Vec<Action> = Vec::new();
    match stop.require_complete() {
        Err(m) => {
            actions.push(Action::Fail(m));
            assert(plan(actions@) =~= expected);
            return actions;
        },
        Ok(_) => {},
    }
    let len: usize = tour.stops.len();
    assert(names.len() == len);
    let insert_at: usize = match position {
        Some(p) => {
            if p < 1 || p > len + 1 {
                actions.push(Action::Fail(bad_position(len)));
                assert(plan(actions@) =~= expected);
                return actions;
            }
            p - 1
        },
        None => len,
    };
    match stop::write_file(stop, place.path.as_str(), place.exists, &place.file_body) {
        Err(m) => {
            actions.push(Action::Fail(m));
            assert(plan(actions@) =~= expected);
            return actions;
        },
        Ok(file) => {
            let filename = file.filename.clone();
            actions.push(Action::WriteStop(file));
            if is_listed(&tour.stops, filename.as_str()) {
                actions.push(
                    Action::Fail(
                        text::concat2(
                            filename.as_str(),
                            " is already listed in tour.json's stops array",
                        ),
                    ),
                );
                assert(plan(actions@) =~= expected);
                return actions;
            }
            let report = match position {
                Some(p) => {
                    let mut m = text::concat3("inserted ", filename.as_str(), " at position ");
                    let at = text::decimal(p);
                    m.append(at.as_str());
                    m.append("\n");
                    m
                },
                None => text::concat3("appended ", filename.as_str(), "\n"),
            };
            let ghost added = filename@;
            let mut changed = tour;
            changed.stops.insert(insert_at, filename);
            assert(text::texts(changed.stops@) =~= names.insert(insert_at as int, added));
            actions.push(Action::WriteTour(changed));
            actions.push(Action::Print(report));
        },
    }
    assert(plan(actions@) =~= expected);
    actions
}

/// The player is ready for what the terminal reports: the source file that it needs
/// is there, and the pane that it scrolls down has a line to go.
pub open spec fn is_ready(player: Player, report: Input, area: Rect) -> bool {
    match input::meaning(report, area) {
        Some(ev) => {
            &&& player.target(ev) matches Some(i) ==> player.missing_file(i) is None
            &&& play::scrolled_down(player.active_pane, ev) == Some(Pane::Code) ==> player.scroll
                < usize::MAX
            &&& play::scrolled_down(player.active_pane, ev) == Some(Pane::Commentary)
                ==> player.body_scroll < usize::MAX
        },
        None => true,
    }
}

/// The file whose text is needed before the player can take what the terminal
/// reports, if any.
pub fn wanted_file<'a>(player: &'a Player, report: Input, area: Rect) -> (r: Option<&'a str>)
    requires
        player.wf(),
    ensures
        match r {
            Some(f) => input::meaning(report, area) matches Some(ev) && player.target(
                ev,
            ) matches Some(i) && player.missing_file(i) == Some(f@),
            None => input::meaning(report, area) matches Some(ev) ==> (player.target(
                ev,
            ) matches Some(i) ==> player.missing_file(i) is None),
        },
{
    match input::input_to_event(report, area) {
        Some(ev) => player.file_for(ev),
        None => None,
    }
}

/// One step of the player: it takes what the terminal reports, and says whether to
/// go on. What means nothing to the player changes nothing.
pub fn play(player: &mut Player, report: Input, area: Rect) -> (r: Outcome)
    requires
        old(player).wf(),
        is_ready(*old(player), report, area),
    ensures
        final(player).wf(),
        match input::meaning(report, area) {
            Some(ev) => {
                &&& r == (if ev is Quit {
                    Outcome::Exit
                } else {
                    Outcome::Continue
                })
                &&& match old(player).target(ev) {
                    Some(i) => final(player).moved_to(*old(player), i),
                    None => final(player).stayed(*old(player), ev),
                }
            },
            None => r == Outcome::Continue && *final(player) == *old(player),
        },
{
    match input::input_to_event(report, area) {
        Some(ev) => player.handle(ev),
        None => Outcome::Continue,
    }
}

/// `s`, cut to `n` characters where it is longer; then the last one is an ellipsis.
pub open spec fn truncated(s: Seq<char>, n: nat) -> Seq<char> {
    if s.len() <= n {
        s
    } else {
        s.take(if n > 0 {
            n - 1
        } else {
            0
        }).push('…')
    }
}

/// Cuts a text to `n` characters, with an ellipsis at its end.
pub fn truncate(s: &str, n: usize) -> (r: String)
    ensures
        r@ == truncated(s@, n as nat),
{
    let v = text::chars_of(s);
    if v.len() <= n {
        return text::owned(s);
    }
    let mut t = text::string_of(&v, 0, n.saturating_sub(1));
    t.push('…');
    assert(t@ =~= truncated(s@, n as nat));
    t
}

/// One line of the table of stops.
pub open spec fn table_row(
    number: Seq<char>,
    title: Seq<char>,
    file: Seq<char>,
    anchor: Seq<char>,
) -> Seq<char> {
    text::padded_right(number, 3) + "  "@ + text::padded_right(title, 28) + "  "@
        + text::padded_right(file, 36) + "  "@ + anchor + "\n"@
}

/// The row of a stop in the table.
pub open spec fn stop_row(i: nat, filename: Seq<char>, fm: StopFrontmatter) -> Seq<char> {
    table_row(
        text::decimal_text(i + 1),
        truncated(
            match fm.title {
                Some(t) => t@,
                None => filename,
            },
            28,
        ),
        truncated(fm.file@, 36),
        stop::anchor_words(fm.anchor),
    )
}

/// What `list` prints in front of the stops.
pub open spec fn list_head(t: tour::TourView) -> Seq<char> {
    let n = t.stops.len();
    t.title + " ("@ + text::decimal_text(n) + " stop"@ + plural(n) + ")\n"@ + (match t.description {
        Some(d) => d + "\n"@,
        None => Seq::empty(),
    }) + (if n == 0 {
        Seq::empty()
    } else {
        "\n"@ + table_row("#"@, "title"@, "file"@, "anchor"@) + text::repeated('-', 90) + "\n"@
    })
}

/// The rows of the stops from the `i`th on, up to one whose file is not a stop.
pub open spec fn list_rows(
    names: Seq<Seq<char>>,
    stops: Seq<Result<StopFrontmatter, String>>,
    i: int,
) -> Seq<ActionView>
    decreases names.len() - i,
{
    if i < 0 || i >= names.len() {
        Seq::empty()
    } else {
        match stops[i] {
            Ok(fm) => seq![ActionView::Print(stop_row(i as nat, names[i], fm))] + list_rows(
                names,
                stops,
                i + 1,
            ),
            Err(m) => seq![ActionView::Fail(m@)],
        }
    }
}

/// Writes one line of the table of stops.
fn write_row(number: &str, title: &str, file: &str, anchor: &str) -> (r: String)
    ensures
        r@ == table_row(number@, title@, file@, anchor@),
{
    let mut row = text::pad_right(number, 3);
    row.append("  ");
    let title = text::pad_right(title, 28);
    row.append(title.as_str());
    row.append("  ");
    let file = text::pad_right(file, 36);
    row.append(file.as_str());
    row.append("  ");
    row.append(anchor);
    row.append("\n");
    row
}

/// Writes what `list` prints in front of the stops.
fn write_head(tour: &Tour) -> (r: String)
    ensures
        r@ == list_head(tour@),
{
    let n: usize = tour.stops.len();
    assert(tour@.stops.len() == n);
    let mut head = text::owned(tour.tour.title.as_str());
    head.append(" (");
    let count = text::decimal(n);
    head.append(count.as_str());
    head.append(" stop");
    head.append(plural_ending(n));
    head.append(")\n");
    if let Some(d) = &tour.tour.description {
        head.append(d.as_str());
        head.append("\n");
    }
    if n > 0 {
        head.append("\n");
        let names = write_row("#", "title", "file", "anchor");
        head.append(names.as_str());
        text::push_repeated(&mut head, '-', 90);
        head.append("\n");
    }
    assert(head@ =~= list_head(tour@));
    head
}

/// Writes the row of a stop.
fn write_stop_row(i: usize, filename: &str, fm: &StopFrontmatter) -> (r: String)
    requires
        i < usize::MAX,
    ensures
        r@ == stop_row(i as nat, filename@, *fm),
{
    let number = text::decimal(i + 1);
    let title = match &fm.title {
        Some(t) => truncate(t.as_str(), 28),
        None => truncate(filename, 28),
    };
    let file = truncate(fm.file.as_str(), 36);
    let anchor = fm.anchor_display();
    write_row(number.as_str(), title.as_str(), file.as_str(), anchor.as_str())
}

/// Prints the stops as a table. `stops` is what came of each stop file; the first
/// that is not a stop ends the table.
pub fn list(tour: &Tour, stops: &Vec<Result<StopFrontmatter, String>>) -> (r: Vec<Action>)
    requires
        stops@.len() == tour.stops@.len(),
    ensures
        plan(r@) == seq![ActionView::Print(list_head(tour@))] + list_rows(
            tour@.stops,
            stops@,
            0,
        ),
{
    let ghost names = tour@.stops;
    let ghost expected = seq![ActionView::Print(list_head(tour@))] + list_rows(names, stops@, 0);
    let mut actions: Vec<Action> = Vec::new();
    actions.push(Action::Print(write_head(tour)));
    let n: usize = tour.stops.len();
    let mut i: usize = 0;
    assert(expected =~= plan(actions@) + list_rows(names, stops@, 0));
    while i < n
        invariant
            i <= n,
            n == tour.stops@.len(),
            n == stops@.len(),
            names == tour@.stops,
            names.len() == n,
            expected == seq![ActionView::Print(list_head(tour@))] + list_rows(names, stops@, 0),
            expected == plan(actions@) + list_rows(names, stops@, i as int),
        decreases n - i,
    {
        let ghost before = actions@;
        assert(names[i as int] == tour.stops@[i as int]@);
        match &stops[i] {
            Ok(fm) => {
                actions.push(Action::Print(write_stop_row(i, tour.stops[i].as_str(), fm)));
                assert(plan(actions@) =~= plan(before).push(actions@.last()@));
                assert(expected =~= plan(actions@) + list_rows(names, stops@, i + 1));
            },
            Err(m) => {
                actions.push(Action::Fail(m.clone()));
                assert(plan(actions@) =~= plan(before).push(actions@.last()@));
                assert(expected =~= plan(actions@));
                return actions;
            },
        }
        i = i + 1;
    }
    assert(expected =~= plan(actions@));
    actions
}

/// Which field of a stop is asked for next.
#[derive(Debug, Clone, Copy, PartialEq, Eq, Structural)]
pub enum Stage {
    File,
    Kind,
    Anchor,
    /// Nothing is left to ask for.
    Done,
}

/// A stop whose missing fields are being asked for. Optional fields are not.
#[derive(Debug)]
pub struct Interview {
    pub stop: StopArgs,
    pub stage: Stage,
}

/// The field of a stage is given.
pub open spec fn is_given(stop: StopArgs, stage: Stage) -> bool {
    match stage {
        Stage::File => stop.file is Some,
        Stage::Kind => stop.anchor_kind is Some,
        Stage::Anchor => stop.anchor is Some,
        Stage::Done => false,
    }
}

/// The stage that follows.
pub open spec fn following(stage: Stage) -> Stage {
    match stage {
        Stage::File => Stage::Kind,
        Stage::Kind => Stage::Anchor,
        Stage::Anchor => Stage::Done,
        Stage::Done => Stage::Done,
    }
}

/// How many stages there still can be.
pub open spec fn stages_left(stage: Stage) -> nat {
    match stage {
        Stage::File => 3,
        Stage::Kind => 2,
        Stage::Anchor => 1,
        Stage::Done => 0,
    }
}

/// The first stage from `stage` on whose field is not given.
pub open spec fn open_stage(stop: StopArgs, stage: Stage) -> Stage
    decreases stages_left(stage),
{
    if is_given(stop, stage) {
        open_stage(stop, following(stage))
    } else {
        stage
    }
}

/// What is asked at a stage.
pub open spec fn label(stop: StopArgs, stage: Stage) -> Option<Seq<char>> {
    match stage {
        Stage::File => Some("file path: "@),
        Stage::Kind => Some("anchor kind [line/pattern/treesitter] (default: pattern): "@),
        Stage::Anchor => Some(
            match stop.anchor_kind {
                Some(AnchorKind::Line) => "anchor (line number): "@,
                Some(AnchorKind::Pattern) => "anchor (regex pattern): "@,
                Some(AnchorKind::Treesitter) => "anchor (tree-sitter query): "@,
                None => "anchor: "@,
            },
        ),
        Stage::Done => None,
    }
}

/// The anchor kind that an answer names. No answer means a pattern.
pub open spec fn kind_named(answer: Seq<char>) -> Option<AnchorKind> {
    if answer.len() == 0 || answer == "pattern"@ {
        Some(AnchorKind::Pattern)
    } else if answer == "line"@ {
        Some(AnchorKind::Line)
    } else if answer == "treesitter"@ {
        Some(AnchorKind::Treesitter)
    } else {
        None
    }
}

/// The answer, unless it is empty.
pub open spec fn non_empty(answer: Seq<char>) -> Option<Seq<char>> {
    if answer.len() == 0 {
        None
    } else {
        Some(answer)
    }
}

/// The fields that are not asked for are the same.
pub open spec fn same_rest(a: StopArgs, b: StopArgs) -> bool {
    &&& a.title == b.title
    &&& a.body == b.body
    &&& a.body_file == b.body_file
    &&& a.id == b.id
    &&& a.highlight_lines == b.highlight_lines
    &&& a.slug == b.slug
}

impl Interview {
    /// The field of the stage is missing. Past the stage that asks for it, the
    /// anchor kind is given.
    pub open spec fn wf(&self) -> bool {
        &&& !is_given(self.stop, self.stage)
        &&& stages_left(self.stage) < stages_left(Stage::Kind) ==> self.stop.anchor_kind is Some
    }

    /// What is asked for in front of the stage is given.
    pub open spec fn given_before(&self) -> bool {
        &&& stages_left(self.stage) < stages_left(Stage::File) ==> self.stop.file is Some
        &&& stages_left(self.stage) < stages_left(Stage::Kind) ==> self.stop.anchor_kind is Some
        &&& stages_left(self.stage) < stages_left(Stage::Anchor) ==> self.stop.anchor is Some
    }

    /// `self` is `before` once `answer` was given: the field of the stage is
    /// filled, unless the answer is empty, and the interview goes on to the next
    /// field that is not given. An answer that names no anchor kind changes nothing.
    pub open spec fn answered(&self, before: Interview, answer: Seq<char>) -> bool {
        &&& same_rest(self.stop, before.stop)
        &&& if before.stage is File {
            text::opt_text(self.stop.file) == non_empty(answer)
        } else {
            self.stop.file == before.stop.file
        }
        &&& if before.stage is Kind {
            self.stop.anchor_kind == kind_named(answer)
        } else {
            self.stop.anchor_kind == before.stop.anchor_kind
        }
        &&& if before.stage is Anchor {
            text::opt_text(self.stop.anchor) == non_empty(answer)
        } else {
            self.stop.anchor == before.stop.anchor
        }
        &&& self.stage == (if before.stage is Kind && kind_named(answer) is None {
            Stage::Kind
        } else {
            open_stage(self.stop, following(before.stage))
        })
    }

    /// The question to ask next, if any is left.
    pub fn question(&self) -> (r: Option<&'static str>)
        ensures
            match r {
                Some(q) => label(self.stop, self.stage) == Some(q@),
                None => label(self.stop, self.stage) is None,
            },
    {
        match self.stage {
            Stage::File => Some("file path: "),
            Stage::Kind => Some("anchor kind [line/pattern/treesitter] (default: pattern): "),
            Stage::Anchor => Some(
                match self.stop.anchor_kind {
                    Some(AnchorKind::Line) => "anchor (line number): ",
                    Some(AnchorKind::Pattern) => "anchor (regex pattern): ",
                    Some(AnchorKind::Treesitter) => "anchor (tree-sitter query): ",
                    None => "anchor: ",
                },
            ),
            Stage::Done => None,
        }
    }

    /// Takes the answer to the question. What it returns is to be said to the user.
    pub fn answer(&mut self, v: String) -> (r: Option<&'static str>)
        requires
            old(self).wf(),
        ensures
            final(self).wf(),
            final(self).answered(*old(self), v@),
            match r {
                Some(m) => old(self).stage is Kind && kind_named(v@) is None && m@
                    == "  unknown kind; pick line, pattern, or treesitter"@,
                None => !(old(self).stage is Kind && kind_named(v@) is None),
            },
    {
        match self.stage {
            Stage::File => {
                if !v.as_str().is_empty() {
                    self.stop.file = Some(v);
                }
                self.stage = next_stage(&self.stop, Stage::Kind);
            },
            Stage::Kind => {
                match kind_of(v.as_str()) {
                    Some(kind) => {
                        self.stop.anchor_kind = Some(kind);
                    },
                    None => {
                        return Some("  unknown kind; pick line, pattern, or treesitter");
                    },
                }
                self.stage = next_stage(&self.stop, Stage::Anchor);
            },
            Stage::Anchor => {
                if !v.as_str().is_empty() {
                    self.stop.anchor = Some(v);
                }
                self.stage = Stage::Done;
            },
            Stage::Done => {},
        }
        None
    }
}

/// The first stage from `stage` on whose field is not given.
fn next_stage(stop: &StopArgs, stage: Stage) -> (r: Stage)
    ensures
        r == open_stage(*stop, stage),
        !is_given(*stop, r),
        stages_left(r) <= stages_left(stage),
        stages_left(r) < stages_left(Stage::Kind) <= stages_left(stage) ==> stop.anchor_kind is Some,
{
    proof {
        reveal_with_fuel(open_stage, 4);
    }
    let mut at = stage;
    if at == Stage::File && stop.file.is_some() {
        at = Stage::Kind;
    }
    if at == Stage::Kind && stop.anchor_kind.is_some() {
        at = Stage::Anchor;
    }
    if at == Stage::Anchor && stop.anchor.is_some() {
        at = Stage::Done;
    }
    at
}

/// The anchor kind that an answer names. No answer means a pattern.
fn kind_of(answer: &str) -> (r: Option<AnchorKind>)
    ensures
        r == kind_named(answer@),
{
    if answer.is_empty() || text::same_text(answer, "pattern") {
        Some(AnchorKind::Pattern)
    } else if text::same_text(answer, "line") {
        Some(AnchorKind::Line)
    } else if text::same_text(answer, "treesitter") {
        Some(AnchorKind::Treesitter)
    } else {
        None
    }
}

/// Asks for the required fields of a stop that are missing: file, anchor kind and
/// anchor. Nothing is asked where none is.
pub fn interactive_complete(stop: StopArgs) -> (r: Interview)
    ensures
        r.wf(),
        r.stop == stop,
        r.stage == open_stage(stop, Stage::File),
        stop.is_complete() <==> r.stage is Done,
        r.given_before(),
{
    proof {
        reveal_with_fuel(open_stage, 4);
    }
    let stage = next_stage(&stop, Stage::File);
    Interview { stop, stage }
}

/// The plan writes a stop file or the tour's file.
pub open spec fn writes_something(actions: Seq<ActionView>) -> bool {
    exists|i: int|
        0 <= i < actions.len() && (#[trigger] actions[i] is WriteStop || actions[i] is WriteTour)
}

/// `new` leaves no partial state: where there is a tour, and where the stop that it
/// is given is incomplete or cannot be written, it says so and does nothing else.
pub proof fn law_new_leaves_no_partial_state(
    tour_path: Seq<char>,
    tour_exists: bool,
    args: TourArgs,
    stop: StopArgs,
    place: StopPlace,
)
    requires
        tour_exists || stop.has_any() && (!stop.is_complete() || write_failure(stop, place) is Some),
    ensures
        new_plan(tour_path, tour_exists, args, stop, place).len() == 1,
        new_plan(tour_path, tour_exists, args, stop, place)[0] is Fail,
{
}

/// `add` writes nothing where the stop is incomplete, the position is none, or the
/// stop cannot be written.
pub proof fn law_add_checks_before_it_writes(
    before: tour::TourView,
    stop: StopArgs,
    position: Option<usize>,
    place: StopPlace,
)
    requires
        !stop.is_complete() || write_failure(stop, place) is Some || position is Some
            && !is_position(position.unwrap(), before.stops.len()),
    ensures
        !writes_something(add_plan(before, stop, position, place)),
        add_plan(before, stop, position, place).len() == 1,
        add_plan(before, stop, position, place)[0] is Fail,
{
}

/// A stop that is added stands at its position, and the others stay in order.
pub proof fn law_added_stop_stands_at_its_position(
    before: tour::TourView,
    filename: Seq<char>,
    position: usize,
)
    requires
        is_position(position, before.stops.len()),
    ensures
        with_stop(before, filename, Some(position)).stops.len() == before.stops.len() + 1,
        with_stop(before, filename, Some(position)).stops[position - 1] == filename,
        with_stop(before, filename, Some(position)).stops.remove(position - 1) == before.stops,
        with_stop(before, filename, Some(position)).title == before.title,
        with_stop(before, filename, Some(position)).description == before.description,
        with_stop(before, filename, Some(position)).author == before.author,
        with_stop(before, filename, Some(position)).created == before.created,
{
    assert(before.stops.insert(position - 1, filename).remove(position - 1) =~= before.stops);
}

/// Without a position a stop is appended, as it is at the position behind the last.
pub proof fn law_no_position_means_the_end(before: tour::TourView, filename: Seq<char>)
    requires
        before.stops.len() < usize::MAX,
    ensures
        with_stop(before, filename, None).stops == before.stops.push(filename),
        with_stop(before, filename, None) == with_stop(
            before,
            filename,
            Some((before.stops.len() + 1) as usize),
        ),
{
    assert(before.stops.insert(before.stops.len() as int, filename) =~= before.stops.push(
        filename,
    ));
}

/// A tour that lists no stop twice lists none twice after `add`.
pub proof fn law_add_lists_no_stop_twice(
    before: tour::TourView,
    stop: StopArgs,
    position: Option<usize>,
    place: StopPlace,
    i: int,
)
    requires
        before.stops.no_duplicates(),
        0 <= i < add_plan(before, stop, position, place).len(),
    ensures
        add_plan(before, stop, position, place)[i] matches ActionView::WriteTour(t)
            ==> t.stops.no_duplicates(),
{
    let filename = stop::stop_file_name(stop);
    if let ActionView::WriteTour(t) = add_plan(before, stop, position, place)[i] {
        let at = match position {
            Some(p) => p - 1,
            None => before.stops.len() as int,
        };
        assert(t.stops == before.stops.insert(at, filename));
        assert(!before.stops.contains(filename));
        assert forall|a: int, b: int| 0 <= a < b < t.stops.len() implies t.stops[a] != t.stops[b] by {
            let a0 = if a < at {
                a
            } else {
                a - 1
            };
            let b0 = if b < at {
                b
            } else {
                b - 1
            };
            if a == at {
                assert(before.stops.contains(before.stops[b0]));
            } else if b == at {
                assert(before.stops.contains(before.stops[a0]));
            }
        }
    }
}

/// The stop file is written before the tour that lists it.
pub proof fn law_add_writes_the_stop_first(
    before: tour::TourView,
    stop: StopArgs,
    position: Option<usize>,
    place: StopPlace,
    i: int,
)
    requires
        0 <= i < add_plan(before, stop, position, place).len(),
        add_plan(before, stop, position, place)[i] is WriteTour,
    ensures
        i > 0,
        add_plan(before, stop, position, place)[0] == stop_write(stop, place),
        add_plan(before, stop, position, place)[i] matches ActionView::WriteTour(t)
            && t.stops.contains(stop::stop_file_name(stop)),
{
    let filename = stop::stop_file_name(stop);
    let at = match position {
        Some(p) => p - 1,
        None => before.stops.len() as int,
    };
    assert(with_stop(before, filename, position).stops[at] == filename);
}

/// Where every stop file is a stop, `list` prints a row for each, in order.
pub proof fn law_list_has_a_row_for_each_stop(
    names: Seq<Seq<char>>,
    stops: Seq<Result<StopFrontmatter, String>>,
    i: int,
    k: int,
)
    requires
        0 <= i <= k < names.len(),
        names.len() == stops.len(),
        forall|j: int| 0 <= j < stops.len() ==> (#[trigger] stops[j]) is Ok,
    ensures
        list_rows(names, stops, i).len() == names.len() - i,
        list_rows(names, stops, i)[k - i] == ActionView::Print(
            stop_row(k as nat, names[k], stops[k].unwrap()),
        ),
    decreases names.len() - i,
{
    assert(stops[i] is Ok);
    let first = seq![ActionView::Print(stop_row(i as nat, names[i], stops[i].unwrap()))];
    assert(list_rows(names, stops, i) == first + list_rows(names, stops, i + 1));
    if i + 1 < names.len() {
        law_list_has_a_row_for_each_stop(
            names,
            stops,
            i + 1,
            if k > i {
                k
            } else {
                i + 1
            },
        );
    }
}

/// A text that was cut has the length that it was cut to.
pub proof fn law_truncated_fits(s: Seq<char>, n: nat)
    requires
        n > 0,
    ensures
        truncated(s, n).len() <= n,
        s.len() > n ==> truncated(s, n).len() == n && truncated(s, n).last() == '…',
{
}

/// What was given is never asked for, and no answer changes it.
pub proof fn law_given_fields_stay(before: Interview, after: Interview, answer: Seq<char>)
    requires
        before.wf(),
        after.answered(before, answer),
    ensures
        before.stop.file is Some ==> after.stop.file == before.stop.file,
        before.stop.anchor_kind is Some ==> after.stop.anchor_kind == before.stop.anchor_kind,
        before.stop.anchor is Some ==> after.stop.anchor == before.stop.anchor,
        same_rest(after.stop, before.stop),
{
}

proof fn lemma_open_stage(stop: StopArgs, stage: Stage)
    ensures
        stages_left(open_stage(stop, stage)) <= stages_left(stage),
    decreases stages_left(stage),
{
    if is_given(stop, stage) {
        lemma_open_stage(stop, following(stage));
    }
}

/// Each answer brings the interview nearer to its end, but for one that names no
/// anchor kind; and at its end the anchor kind is given.
pub proof fn law_interview_ends(before: Interview, after: Interview, answer: Seq<char>)
    requires
        before.wf(),
        after.wf(),
        !(before.stage is Done),
        after.answered(before, answer),
    ensures
        stages_left(after.stage) < stages_left(before.stage) || before.stage is Kind && kind_named(
            answer,
        ) is None && after.stage is Kind,
        after.stage is Done ==> after.stop.anchor_kind is Some,
{
    lemma_open_stage(after.stop, following(before.stage));
}

/// Where no answer is empty, the stop is complete when nothing is left to ask for.
pub proof fn law_full_answers_complete_the_stop(
    before: Interview,
    after: Interview,
    answer: Seq<char>,
)
    requires
        before.wf(),
        before.given_before(),
        after.answered(before, answer),
        answer.len() > 0,
    ensures
        after.given_before(),
        after.stage is Done ==> after.stop.is_complete(),
{
    reveal_with_fuel(open_stage, 4);
}

/// The name of every anchor kind, as a stop file writes it, is an answer that names
/// that kind. No answer names the pattern, and no other answer names anything.
pub proof fn law_kinds_are_answered_by_their_names(kind: AnchorKind, answer: Seq<char>)
    ensures
        kind_named(frontmatter::kind_name(kind)) == Some(kind),
        kind_named(Seq::empty()) == Some(AnchorKind::Pattern),
        kind_named(answer) == Some(kind) ==> answer == frontmatter::kind_name(kind) || answer.len()
            == 0 && kind is Pattern,
        answer != "line"@ && answer != "pattern"@ && answer != "treesitter"@ && answer.len() > 0
            ==> kind_named(answer) is None,
{
    reveal_strlit("line");
    reveal_strlit("pattern");
    reveal_strlit("treesitter");
    assert("line"@.len() != "pattern"@.len());
    assert("line"@.len() != "treesitter"@.len());
    assert("pattern"@.len() != "treesitter"@.len());
}

/// The first required field that is not given is asked for first: the file, then the
/// anchor kind, then the anchor.
pub proof fn law_first_missing_field_is_asked_for(stop: StopArgs)
    ensures
        open_stage(stop, Stage::File) is File <==> stop.file is None,
        open_stage(stop, Stage::File) is Kind <==> stop.file is Some && stop.anchor_kind is None,
        open_stage(stop, Stage::File) is Anchor <==> stop.file is Some && stop.anchor_kind is Some
            && stop.anchor is None,
        open_stage(stop, Stage::File) is Done <==> stop.file is Some && stop.anchor_kind is Some
            && stop.anchor is Some,
        forall|stage: Stage| #[trigger] label(stop, stage) is None <==> stage is Done,
{
    reveal_with_fuel(open_stage, 4);
}

/// An answer fills the field that was asked for and no other, and the next question is
/// for the next field that is missing. An empty answer leaves the file or the anchor as
/// it was; an answer that names no anchor kind has the question asked again.
pub proof fn law_answer_fills_its_field(before: Interview, after: Interview, answer: Seq<char>)
    requires
        before.wf(),
        after.answered(before, answer),
    ensures
        before.stage is File && answer.len() > 0 ==> (after.stop.file matches Some(f) && f@
            == answer),
        before.stage is File && answer.len() == 0 ==> after.stop.file is None,
        before.stage is Anchor && answer.len() > 0 ==> (after.stop.anchor matches Some(a) && a@
            == answer),
        before.stage is Anchor && answer.len() == 0 ==> after.stop.anchor is None,
        before.stage is Kind ==> after.stop.anchor_kind == kind_named(answer),
        !(before.stage is File) ==> after.stop.file == before.stop.file,
        !(before.stage is Kind) ==> after.stop.anchor_kind == before.stop.anchor_kind,
        !(before.stage is Anchor) ==> after.stop.anchor == before.stop.anchor,
        after.stop.title == before.stop.title,
        after.stop.body == before.stop.body,
        after.stop.body_file == before.stop.body_file,
        after.stop.id == before.stop.id,
        after.stop.highlight_lines == before.stop.highlight_lines,
        after.stop.slug == before.stop.slug,
        before.stage is File ==> (after.stage is Kind <==> before.stop.anchor_kind is None),
        before.stage is File && before.stop.anchor_kind is Some ==> (after.stage is Anchor
            <==> before.stop.anchor is None),
        before.stage is Kind && kind_named(answer) is None ==> after.stage is Kind,
        before.stage is Kind && kind_named(answer) is Some ==> (if before.stop.anchor is None {
            after.stage is Anchor
        } else {
            after.stage is Done
        }),
        before.stage is Anchor ==> after.stage is Done,
{
    reveal_with_fuel(open_stage, 4);
}

/// A column of `n` characters shows a text: the text and then spaces where it fits,
/// else as much of it as leaves room for an ellipsis.
pub open spec fn shows_in_column(column: Seq<char>, t: Seq<char>, n: int) -> bool {
    &&& column.len() == n
    &&& t.len() <= n ==> column.take(t.len() as int) == t && forall|i: int|
        t.len() <= i < n ==> #[trigger] column[i] == ' '
    &&& t.len() > n ==> column.take(n - 1) == t.take(n - 1) && column[n - 1] == '…'
}

proof fn lemma_column(t: Seq<char>, n: nat)
    requires
        n > 0,
    ensures
        shows_in_column(text::padded_right(truncated(t, n), n), t, n as int),
{
    let column = text::padded_right(truncated(t, n), n);
    text::law_padding_adds_spaces_only(truncated(t, n), n);
    if t.len() <= n {
        assert(column.take(t.len() as int) =~= t);
    } else {
        assert(column =~= truncated(t, n));
        assert(column.take(n - 1) =~= t.take(n - 1));
    }
}

/// The row of a stop shows its number, counted from one, its title or else the name of
/// its stop file, the source file that it points at, and its anchor, each in a column
/// of its own.
pub proof fn law_row_shows_the_stop(i: nat, filename: Seq<char>, fm: StopFrontmatter)
    ensures
        ({
            let row = stop_row(i, filename, fm);
            let number = text::decimal_text(i + 1);
            let w = if number.len() < 3 {
                3
            } else {
                number.len() as int
            };
            &&& row.len() >= w + 71
            &&& shows_in_column(row.subrange(0, w), number, w)
            &&& shows_in_column(
                row.subrange(w + 2, w + 30),
                match fm.title {
                    Some(t) => t@,
                    None => filename,
                },
                28,
            )
            &&& shows_in_column(row.subrange(w + 32, w + 68), fm.file@, 36)
            &&& row.subrange(w + 70, row.len() - 1) == stop::anchor_words(fm.anchor)
            &&& row.subrange(w, w + 2) == seq![' ', ' ']
            &&& row.subrange(w + 30, w + 32) == seq![' ', ' ']
            &&& row.subrange(w + 68, w + 70) == seq![' ', ' ']
            &&& row.last() == '\n'
        }),
{
    reveal_strlit("  ");
    reveal_strlit("\n");
    let row = stop_row(i, filename, fm);
    let number = text::decimal_text(i + 1);
    let title = match fm.title {
        Some(t) => t@,
        None => filename,
    };
    let a = text::padded_right(number, 3);
    let b = text::padded_right(truncated(title, 28), 28);
    let c = text::padded_right(truncated(fm.file@, 36), 36);
    let words = stop::anchor_words(fm.anchor);
    text::law_padding_adds_spaces_only(number, 3);
    lemma_column(title, 28);
    lemma_column(fm.file@, 36);
    let w = a.len() as int;
    assert(row.subrange(0, w) =~= a);
    assert(row.subrange(w + 2, w + 30) =~= b);
    assert(row.subrange(w + 32, w + 68) =~= c);
    assert(row.subrange(w + 70, row.len() - 1) =~= words);
    assert(row.subrange(w, w + 2) =~= seq![' ', ' ']);
    assert(row.subrange(w + 30, w + 32) =~= seq![' ', ' ']);
    assert(row.subrange(w + 68, w + 70) =~= seq![' ', ' ']);
    assert(a.take(number.len() as int) =~= number);
}

/// The title decides nothing but its own column: rows of stops that differ in their
/// titles or in the names of their stop files agree everywhere else. With a title the
/// name of the stop file is not shown.
pub proof fn law_title_is_shown_in_its_column_only(
    i: nat,
    filename: Seq<char>,
    other: Seq<char>,
    a: StopFrontmatter,
    b: StopFrontmatter,
)
    requires
        a.file@ == b.file@,
        a.anchor == b.anchor,
    ensures
        ({
            let x = stop_row(i, filename, a);
            let y = stop_row(i, other, b);
            let number = text::decimal_text(i + 1);
            let w = if number.len() < 3 {
                3
            } else {
                number.len() as int
            };
            &&& x.len() == y.len()
            &&& x.take(w + 2) == y.take(w + 2)
            &&& x.skip(w + 30) == y.skip(w + 30)
            &&& a.title is Some && a.title == b.title ==> x == y
        }),
{
    reveal_strlit("  ");
    reveal_strlit("\n");
    let x = stop_row(i, filename, a);
    let y = stop_row(i, other, b);
    let number = text::decimal_text(i + 1);
    let n = text::padded_right(number, 3);
    let w = n.len() as int;
    text::law_padding_adds_spaces_only(number, 3);
    let title = |fm: StopFrontmatter, name: Seq<char>|
        match fm.title {
            Some(t) => t@,
            None => name,
        };
    lemma_column(title(a, filename), 28);
    lemma_column(title(b, other), 28);
    let tail = "  "@ + text::padded_right(truncated(a.file@, 36), 36) + "  "@ + stop::anchor_words(
        a.anchor,
    ) + "\n"@;
    assert(x.take(w + 2) =~= n + "  "@);
    assert(y.take(w + 2) =~= n + "  "@);
    assert(x.skip(w + 30) =~= tail);
    assert(y.skip(w + 30) =~= tail);
}

/// In front of the rows stand the title and the number of stops, then the description
/// where there is one. A tour without stops has no more; any other has an empty line
/// behind it, the headings of the columns, each where its column begins, and a rule.
pub proof fn law_list_begins_with_the_tour(t: tour::TourView)
    ensures
        ({
            let head = list_head(t);
            let n = t.stops.len();
            let count = text::decimal_text(n);
            let first = t.title + " ("@ + count + (if n == 1 {
                " stop)\n"@
            } else {
                " stops)\n"@
            });
            let intro = first + (match t.description {
                Some(d) => d + "\n"@,
                None => Seq::empty(),
            });
            let table = head.skip(intro.len() as int);
            &&& text::begins_with(head, intro)
            &&& n == 0 ==> head == intro
            &&& n > 0 ==> {
                &&& table.len() == 172
                &&& table[0] == '\n' && table[80] == '\n' && table[171] == '\n'
                &&& shows_in_column(table.subrange(1, 4), "#"@, 3)
                &&& shows_in_column(table.subrange(6, 34), "title"@, 28)
                &&& shows_in_column(table.subrange(36, 72), "file"@, 36)
                &&& table.subrange(74, 80) == "anchor"@
                &&& forall|i: int| 81 <= i < 171 ==> #[trigger] table[i] == '-'
            }
        }),
{
    reveal_strlit(" stop");
    reveal_strlit("s");
    reveal_strlit("");
    reveal_strlit(")\n");
    reveal_strlit(" stop)\n");
    reveal_strlit(" stops)\n");
    reveal_strlit("\n");
    let n = t.stops.len();
    let head = list_head(t);
    let first = t.title + " ("@ + text::decimal_text(n) + (if n == 1 {
        " stop)\n"@
    } else {
        " stops)\n"@
    });
    let intro = first + (match t.description {
        Some(d) => d + "\n"@,
        None => Seq::empty(),
    });
    assert(first =~= t.title + " ("@ + text::decimal_text(n) + " stop"@ + plural(n) + ")\n"@);
    assert(head.subrange(0, intro.len() as int) =~= intro);
    if n == 0 {
        assert(head =~= intro);
    } else {
        lemma_heading();
        let row = table_row("#"@, "title"@, "file"@, "anchor"@);
        let table = head.skip(intro.len() as int);
        assert(table =~= seq!['\n'] + row + text::repeated('-', 90) + seq!['\n']);
        assert(table.subrange(1, 4) =~= row.subrange(0, 3));
        assert(table.subrange(6, 34) =~= row.subrange(5, 33));
        assert(table.subrange(36, 72) =~= row.subrange(35, 71));
        assert(table.subrange(74, 80) =~= row.subrange(73, 79));
    }
}

/// The headings of the columns.
proof fn lemma_heading()
    ensures
        ({
            let row = table_row("#"@, "title"@, "file"@, "anchor"@);
            &&& row.len() == 80
            &&& row[79] == '\n'
            &&& shows_in_column(row.subrange(0, 3), "#"@, 3)
            &&& shows_in_column(row.subrange(5, 33), "title"@, 28)
            &&& shows_in_column(row.subrange(35, 71), "file"@, 36)
            &&& row.subrange(73, 79) == "anchor"@
        }),
{
    reveal_strlit("#");
    reveal_strlit("title");
    reveal_strlit("file");
    reveal_strlit("anchor");
    reveal_strlit("  ");
    reveal_strlit("\n");
    let row = table_row("#"@, "title"@, "file"@, "anchor"@);
    lemma_column("#"@, 3);
    lemma_column("title"@, 28);
    lemma_column("file"@, 36);
    assert(row.subrange(0, 3) =~= text::padded_right("#"@, 3));
    assert(row.subrange(5, 33) =~= text::padded_right("title"@, 28));
    assert(row.subrange(35, 71) =~= text::padded_right("file"@, 36));
    assert(row.subrange(73, 79) =~= "anchor"@);
}

/// The table ends at the first stop file that is not a stop: the rows in front of it
/// are printed, then what is wrong is said.
pub proof fn law_list_ends_at_the_first_failure(
    names: Seq<Seq<char>>,
    stops: Seq<Result<StopFrontmatter, String>>,
    i: int,
    k: int,
)
    requires
        0 <= i <= k < names.len(),
        names.len() == stops.len(),
        forall|j: int| i <= j < k ==> (#[trigger] stops[j]) is Ok,
        stops[k] is Err,
    ensures
        list_rows(names, stops, i).len() == k - i + 1,
        stops[k] matches Err(m) && list_rows(names, stops, i).last() == ActionView::Fail(m@),
        forall|j: int|
            i <= j < k ==> list_rows(names, stops, i)[j - i] == ActionView::Print(
                stop_row(j as nat, names[j], (#[trigger] stops[j]).unwrap()),
            ),
    decreases k - i,
{
    if i < k {
        assert(stops[i] is Ok);
        law_list_ends_at_the_first_failure(names, stops, i + 1, k);
        let rest = list_rows(names, stops, i + 1);
        let all = list_rows(names, stops, i);
        assert(all == seq![ActionView::Print(stop_row(i as nat, names[i], stops[i].unwrap()))]
            + rest);
        assert forall|j: int| i <= j < k implies all[j - i] == ActionView::Print(
            stop_row(j as nat, names[j], (#[trigger] stops[j]).unwrap()),
        ) by {
            if j > i {
                assert(all[j - i] == rest[j - (i + 1)]);
            }
        }
    }
}

/// A text that fits is not cut, and of one that is cut the beginning stays.
pub proof fn law_truncated_keeps_the_beginning(s: Seq<char>, n: nat)
    ensures
        s.len() <= n ==> truncated(s, n) == s,
        s.len() > n > 0 ==> truncated(s, n).take(n - 1) == s.take(n - 1),
{
    if s.len() > n > 0 {
        assert(truncated(s, n).take(n - 1) =~= s.take(n - 1));
    }
}

/// Why a stop cannot be written: there is a file of its name, or else its body file is
/// needed and cannot be read. A body that is given inline needs no file.
pub proof fn law_why_a_stop_cannot_be_written(stop: StopArgs, place: StopPlace)
    ensures
        place.exists ==> (write_failure(stop, place) matches Some(m) && text::begins_with(
            m,
            place.path@,
        )),
        !place.exists && stop.body is None && stop.body_file is Some ==> (match place.file_body {
            Err(e) => write_failure(stop, place) matches Some(m) && text::occurs(m, e@)
                && text::occurs(m, stop.body_file.unwrap()@),
            Ok(_) => write_failure(stop, place) is None,
        }),
        !place.exists && (stop.body is Some || stop.body_file is None) ==> write_failure(
            stop,
            place,
        ) is None,
{
    let m = place.path@ + " already exists"@;
    assert(m.subrange(0, place.path@.len() as int) =~= place.path@);
    if let Err(e) = place.file_body {
        if stop.body_file is Some {
            let p = stop.body_file.unwrap()@;
            let start = "reading "@;
            let m = start + p + ": "@ + e@;
            assert(m.subrange(start.len() as int, (start.len() + p.len()) as int) =~= p);
            assert(text::occurs_at(m, p, start.len() as int));
            assert(m.subrange(m.len() - e@.len(), m.len() as int) =~= e@);
            assert(text::occurs_at(m, e@, m.len() - e@.len()));
        }
    }
}

/// A tour that can be made is made as it is described: its directory first, then its
/// stop where one is described, then the tour with its metadata and that stop alone,
/// then the report.
pub proof fn law_new_writes_what_is_described(
    tour_path: Seq<char>,
    args: TourArgs,
    stop: StopArgs,
    place: StopPlace,
)
    requires
        stop.has_any() ==> stop.is_complete() && write_failure(stop, place) is None,
    ensures
        ({
            let plan = new_plan(tour_path, false, args, stop, place);
            let at: int = if stop.has_any() {
                2
            } else {
                1
            };
            &&& plan.len() == (if stop.has_any() {
                5int
            } else {
                3
            })
            &&& plan[0] is CreateDir
            &&& stop.has_any() ==> plan[1] == (ActionView::WriteStop {
                filename: stop::stop_file_name(stop),
                content: stop::stop_text(
                    stop,
                    match place.file_body {
                        Ok(b) => b@,
                        Err(_) => Seq::empty(),
                    },
                ),
            })
            &&& plan[at] matches ActionView::WriteTour(t) && t.title == args.tour_title@
                && t.description == text::opt_text(args.tour_description) && t.author
                == text::opt_text(args.tour_author) && t.created == text::opt_text(
                args.tour_created,
            ) && t.stops == (if stop.has_any() {
                seq![stop::stop_file_name(stop)]
            } else {
                Seq::empty()
            })
            &&& plan[at + 1] matches ActionView::Print(m) && text::occurs(m, tour_path)
            &&& stop.has_any() ==> (plan[at + 2] matches ActionView::Print(m) && text::occurs(
                m,
                stop::stop_file_name(stop),
            ))
        }),
{
    let m = "created "@ + tour_path + "\n"@;
    let n = "created "@.len() as int;
    assert(m.subrange(n, n + tour_path.len()) =~= tour_path);
    assert(text::occurs_at(m, tour_path, n));
    let name = stop::stop_file_name(stop);
    let r = "  + "@ + name + "\n"@;
    let k = "  + "@.len() as int;
    assert(r.subrange(k, k + name.len()) =~= name);
    assert(text::occurs_at(r, name, k));
}

/// What is wrong with a new tour is said: that there is one, that flags are missing, or
/// why the stop cannot be written.
pub proof fn law_new_says_what_is_wrong(
    tour_path: Seq<char>,
    args: TourArgs,
    stop: StopArgs,
    place: StopPlace,
)
    ensures
        new_plan(tour_path, true, args, stop, place)[0] matches ActionView::Fail(m)
            && text::begins_with(m, tour_path),
        stop.has_any() && !stop.is_complete() ==> new_plan(tour_path, false, args, stop, place)
            == seq![ActionView::Fail(stop.missing_message())],
        stop.is_complete() && write_failure(stop, place) is Some ==> new_plan(
            tour_path,
            false,
            args,
            stop,
            place,
        ) == seq![ActionView::Fail(write_failure(stop, place).unwrap())],
{
    let m = tour_path + " already exists"@;
    assert(m.subrange(0, tour_path.len() as int) =~= tour_path);
}

/// A stop that can be added is added: its file is written, then the tour, in which the
/// stop stands at its position or else at the end and all else is as before, then the
/// report, which names the stop.
pub proof fn law_add_inserts_the_stop(
    before: tour::TourView,
    stop: StopArgs,
    position: Option<usize>,
    place: StopPlace,
)
    requires
        stop.is_complete(),
        position matches Some(p) ==> 1 <= p <= before.stops.len() + 1,
        write_failure(stop, place) is None,
        !before.stops.contains(stop::stop_file_name(stop)),
    ensures
        ({
            let plan = add_plan(before, stop, position, place);
            let name = stop::stop_file_name(stop);
            let at = match position {
                Some(p) => p - 1,
                None => before.stops.len() as int,
            };
            &&& plan.len() == 3
            &&& plan[0] == (ActionView::WriteStop {
                filename: name,
                content: stop::stop_text(
                    stop,
                    match place.file_body {
                        Ok(b) => b@,
                        Err(_) => Seq::empty(),
                    },
                ),
            })
            &&& plan[1] matches ActionView::WriteTour(t) && t.stops.len() == before.stops.len() + 1
                && t.stops[at] == name && t.stops.take(at) == before.stops.take(at) && t.stops.skip(
                at + 1,
            ) == before.stops.skip(at) && t.title == before.title && t.description
                == before.description && t.author == before.author && t.created == before.created
            &&& plan[2] matches ActionView::Print(m) && text::occurs(m, name) && (
            position matches Some(p) ==> text::occurs(m, text::decimal_text(p as nat)))
        }),
{
    let name = stop::stop_file_name(stop);
    let at = match position {
        Some(p) => p - 1,
        None => before.stops.len() as int,
    };
    let after = before.stops.insert(at, name);
    assert(after.take(at) =~= before.stops.take(at));
    assert(after.skip(at + 1) =~= before.stops.skip(at));
    match position {
        Some(p) => {
            let d = text::decimal_text(p as nat);
            let m = "inserted "@ + name + " at position "@ + d + "\n"@;
            let n = "inserted "@.len() as int;
            let k = n + name.len() + " at position "@.len();
            assert(m.subrange(n, n + name.len()) =~= name);
            assert(text::occurs_at(m, name, n));
            assert(m.subrange(k, k + d.len()) =~= d);
            assert(text::occurs_at(m, d, k));
        },
        None => {
            let m = "appended "@ + name + "\n"@;
            let n = "appended "@.len() as int;
            assert(m.subrange(n, n + name.len()) =~= name);
            assert(text::occurs_at(m, name, n));
        },
    }
}

/// What is wrong with a stop that is to be added is said, in this order: flags that are
/// missing, a position that is none, why it cannot be written, and that it is listed
/// already; the tour is not written in any of these cases.
pub proof fn law_add_says_what_is_wrong(
    before: tour::TourView,
    stop: StopArgs,
    position: Option<usize>,
    place: StopPlace,
)
    ensures
        ({
            let plan = add_plan(before, stop, position, place);
            let n = before.stops.len();
            let off = position matches Some(p) && (p == 0 || p > n + 1);
            let name = stop::stop_file_name(stop);
            &&& !stop.is_complete() ==> plan == seq![ActionView::Fail(stop.missing_message())]
            &&& stop.is_complete() && off ==> plan.len() == 1 && (plan[0] matches ActionView::Fail(
                m,
            ) && text::occurs(m, text::decimal_text(n + 1)) && text::occurs(
                m,
                text::decimal_text(n),
            ))
            &&& stop.is_complete() && !off && write_failure(stop, place) is Some ==> plan
                == seq![ActionView::Fail(write_failure(stop, place).unwrap())]
            &&& stop.is_complete() && !off && write_failure(stop, place) is None
                && before.stops.contains(name) ==> plan.len() == 2 && (
            plan[1] matches ActionView::Fail(m) && text::begins_with(m, name))
        }),
{
    let n = before.stops.len();
    let name = stop::stop_file_name(stop);
    let listed = name + " is already listed in tour.json's stops array"@;
    assert(listed.subrange(0, name.len() as int) =~= name);
    let a = text::decimal_text(n + 1);
    let b = text::decimal_text(n);
    let m = position_message(n);
    let i = "--position must be in 1..="@.len() as int;
    let j = i + a.len() + " (current index has "@.len();
    assert(m.subrange(i, i + a.len()) =~= a);
    assert(text::occurs_at(m, a, i));
    assert(m.subrange(j, j + b.len()) =~= b);
    assert(text::occurs_at(m, b, j));
}

/// The question for the anchor says what the chosen kind calls for, and the one for the
/// kind names every kind.
pub proof fn law_questions_name_what_they_ask_for(stop: StopArgs, kind: AnchorKind)
    ensures
        label(stop, Stage::File) matches Some(q) && text::occurs(q, "file"@),
        label(stop, Stage::Kind) matches Some(q) && text::occurs(q, frontmatter::kind_name(kind)),
        stop.anchor_kind == Some(kind) ==> (label(stop, Stage::Anchor) matches Some(q)
            && text::occurs(
            q,
            match kind {
                AnchorKind::Line => "line"@,
                AnchorKind::Pattern => "pattern"@,
                AnchorKind::Treesitter => "tree-sitter"@,
            },
        )),
{
    reveal_strlit("file path: ");
    reveal_strlit("file");
    reveal_strlit("anchor kind [line/pattern/treesitter] (default: pattern): ");
    reveal_strlit("line");
    reveal_strlit("pattern");
    reveal_strlit("treesitter");
    reveal_strlit("tree-sitter");
    reveal_strlit("anchor (line number): ");
    reveal_strlit("anchor (regex pattern): ");
    reveal_strlit("anchor (tree-sitter query): ");
    let f = "file path: "@;
    assert(f.subrange(0, 4) =~= "file"@);
    assert(text::occurs_at(f, "file"@, 0));
    let k = "anchor kind [line/pattern/treesitter] (default: pattern): "@;
    assert(k.subrange(13, 17) =~= "line"@);
    assert(text::occurs_at(k, "line"@, 13));
    assert(k.subrange(18, 25) =~= "pattern"@);
    assert(text::occurs_at(k, "pattern"@, 18));
    assert(k.subrange(26, 36) =~= "treesitter"@);
    assert(text::occurs_at(k, "treesitter"@, 26));
    let a = "anchor (line number): "@;
    assert(a.subrange(8, 12) =~= "line"@);
    assert(text::occurs_at(a, "line"@, 8));
    let b = "anchor (regex pattern): "@;
    assert(b.subrange(14, 21) =~= "pattern"@);
    assert(text::occurs_at(b, "pattern"@, 14));
    let c = "anchor (tree-sitter query): "@;
    assert(c.subrange(8, 19) =~= "tree-sitter"@);
    assert(text::occurs_at(c, "tree-sitter"@, 8));
}

} // verus!
