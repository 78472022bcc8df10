use turin::cli::{AnchorKind, StopArgs, TourArgs};
use turin::cmd::{
    add, interactive_complete, list, new, play, truncate, wanted_file, Action, Interview, Stage,
    StopPlace,
};
use turin::input::{Input, KeyCode, KeyEvent, MouseEvent, MouseEventKind, NONE};
use turin::layout::{Pane, Rect};
use turin::play::{load, Outcome, ParsedStop};
use turin::stop::{Anchor, StopFile, StopFrontmatter, Value};
use turin::tour::{read, Tour, TourFile, TourMeta};

fn tour_args(title: &str) -> TourArgs {
    TourArgs {
        tour_title: title.into(),
        tour_description: None,
        tour_author: None,
        tour_created: None,
    }
}

fn free(path: &str) -> StopPlace {
    StopPlace { path: path.into(), exists: false, file_body: Ok(String::new()) }
}

fn taken(path: &str) -> StopPlace {
    StopPlace { path: path.into(), exists: true, file_body: Ok(String::new()) }
}

fn simple_stop(title: &str) -> StopArgs {
    StopArgs {
        title: Some(title.into()),
        file: Some("src/x.rs".into()),
        anchor_kind: Some(AnchorKind::Pattern),
        anchor: Some(title.into()),
        ..Default::default()
    }
}

fn tour_of(stops: &[&str]) -> Tour {
    Tour {
        tour: TourMeta { title: "Test tour".into(), ..Default::default() },
        stops: stops.iter().map(|s| s.to_string()).collect(),
    }
}

/// The tour that a plan writes.
fn written(actions: Vec<Action>) -> Option<Tour> {
    actions.into_iter().find_map(|a| match a {
        Action::WriteTour(t) => Some(t),
        _ => None,
    })
}

fn stop_files(actions: &[Action]) -> Vec<&StopFile> {
    actions
        .iter()
        .filter_map(|a| match a {
            Action::WriteStop(f) => Some(f),
            _ => None,
        })
        .collect()
}

fn failure(actions: &[Action]) -> Option<&str> {
    actions.iter().find_map(|a| match a {
        Action::Fail(m) => Some(m.as_str()),
        _ => None,
    })
}

fn printed(actions: &[Action]) -> String {
    actions
        .iter()
        .filter_map(|a| match a {
            Action::Print(s) => Some(s.as_str()),
            _ => None,
        })
        .collect()
}

fn run_new(args: TourArgs, stop: &StopArgs) -> Vec<Action> {
    new(".turin/tour.json", false, args, stop, &free(".turin/stop.md"))
}

#[test]
fn new_creates_turin_dir_and_skeleton_tour_json() {
    let plan = run_new(tour_args("Test tour"), &StopArgs::default());
    assert!(matches!(plan[0], Action::CreateDir));
    assert_eq!(printed(&plan), "created .turin/tour.json\n");
    assert_eq!(plan.len(), 3);
    let tour = written(plan).unwrap();
    assert_eq!(tour.tour.title, "Test tour");
    assert!(tour.stops.is_empty());
}

#[test]
fn new_writes_all_optional_tour_metadata_fields() {
    let args = TourArgs {
        tour_title: "My tour".into(),
        tour_description: Some("Walks through the parser".into()),
        tour_author: Some("alex".into()),
        tour_created: Some("2026-04-29".into()),
    };
    let tour = written(run_new(args, &StopArgs::default())).unwrap();
    assert_eq!(tour.tour.title, "My tour");
    assert_eq!(tour.tour.description.as_deref(), Some("Walks through the parser"));
    assert_eq!(tour.tour.author.as_deref(), Some("alex"));
    assert_eq!(tour.tour.created.as_deref(), Some("2026-04-29"));
}

#[test]
fn new_omits_optional_metadata_when_unset() {
    let tour = written(run_new(tour_args("T"), &StopArgs::default())).unwrap();
    assert!(tour.tour.description.is_none());
    assert!(tour.tour.author.is_none());
    assert!(tour.tour.created.is_none());
}

#[test]
fn new_with_full_stop_flags_seeds_initial_stop() {
    let stop = StopArgs {
        title: Some("Entry point".into()),
        file: Some("src/lib.rs".into()),
        anchor_kind: Some(AnchorKind::Pattern),
        anchor: Some("fn main".into()),
        body: Some("starting here".into()),
        ..Default::default()
    };
    let plan = run_new(tour_args("Test tour"), &stop);
    let files = stop_files(&plan);
    assert_eq!(files.len(), 1);
    assert_eq!(files[0].filename, "entry-point.md");
    assert!(files[0].content.contains("file = \"src/lib.rs\""));
    assert!(files[0].content.contains("anchor = { kind = \"pattern\", value = \"fn main\" }"));
    assert!(files[0].content.contains("starting here"));
    assert_eq!(printed(&plan), "created .turin/tour.json\n  + entry-point.md\n");
    assert_eq!(written(plan).unwrap().stops, vec!["entry-point.md".to_string()]);
}

#[test]
fn new_refuses_to_clobber_existing_tour() {
    let plan = new(
        ".turin/tour.json",
        true,
        tour_args("Test tour"),
        &StopArgs::default(),
        &free("p"),
    );
    assert_eq!(plan.len(), 1);
    assert_eq!(failure(&plan), Some(".turin/tour.json already exists"));
}

#[test]
fn new_with_partial_stop_flags_errors_with_field_list() {
    let stop = StopArgs { title: Some("Only a title".into()), ..Default::default() };
    let plan = run_new(tour_args("Test tour"), &stop);
    let stderr = failure(&plan).unwrap();
    assert!(stderr.contains("--file"));
    assert!(stderr.contains("--anchor-kind"));
    assert!(stderr.contains("--anchor"));

    // No partial state should be left behind.
    assert_eq!(plan.len(), 1);
    assert!(!plan.iter().any(|a| matches!(a, Action::CreateDir)));
    assert!(stop_files(&plan).is_empty());
    assert!(written(plan).is_none());
}

#[test]
fn new_does_not_overwrite_a_stop() {
    let plan = new("t", false, tour_args("T"), &simple_stop("x"), &taken(".turin/x.md"));
    assert_eq!(failure(&plan), Some(".turin/x.md already exists"));
    assert_eq!(plan.len(), 1);

    let stop = StopArgs { body_file: Some("notes.md".into()), ..simple_stop("x") };
    let place = StopPlace { file_body: Err("gone".into()), ..free(".turin/x.md") };
    let plan = new("t", false, tour_args("T"), &stop, &place);
    assert_eq!(failure(&plan), Some("reading notes.md: gone"));
    assert_eq!(plan.len(), 1);
}

#[test]
fn add_appends_stop_and_updates_index() {
    let stop = |title: &str, file: &str, anchor: &str| StopArgs {
        file: Some(file.into()),
        anchor: Some(anchor.into()),
        ..simple_stop(title)
    };
    let first = stop("First", "src/a.rs", "fn a");
    let plan = add(tour_of(&[]), &first, None, &free(".turin/first.md"));
    assert_eq!(printed(&plan), "appended first.md\n");
    let tour = written(plan).unwrap();
    let second = stop("Second", "src/b.rs", "fn b");
    let tour = written(add(tour, &second, None, &free(".turin/second.md"))).unwrap();
    assert_eq!(tour.stops, vec!["first.md".to_string(), "second.md".to_string()]);
    assert_eq!(tour.tour.title, "Test tour");
}

#[test]
fn add_with_position_inserts_at_index() {
    let mut tour = tour_of(&[]);
    for name in ["a", "b", "c"] {
        tour = written(add(tour, &simple_stop(name), None, &free("p"))).unwrap();
    }
    let plan = add(tour, &simple_stop("d"), Some(3), &free("p"));
    assert_eq!(printed(&plan), "inserted d.md at position 3\n");
    assert_eq!(written(plan).unwrap().stops, vec!["a.md", "b.md", "d.md", "c.md"]);
}

#[test]
fn add_with_position_one_inserts_at_start() {
    let plan = add(tour_of(&["first.md"]), &simple_stop("zero"), Some(1), &free("p"));
    assert_eq!(written(plan).unwrap().stops, vec!["zero.md", "first.md"]);
}

#[test]
fn add_with_position_at_end_plus_one_appends() {
    let plan = add(tour_of(&["a.md"]), &simple_stop("b"), Some(2), &free("p"));
    assert_eq!(written(plan).unwrap().stops, vec!["a.md", "b.md"]);
}

#[test]
fn add_with_position_zero_errors() {
    let plan = add(tour_of(&[]), &simple_stop("x"), Some(0), &free("p"));
    assert!(failure(&plan).unwrap().contains("--position"));
    // No stop file should have been written.
    assert!(stop_files(&plan).is_empty());
    assert!(written(plan).is_none());
}

#[test]
fn add_with_position_beyond_end_plus_one_errors() {
    // Empty tour: max valid is 1.
    let plan = add(tour_of(&[]), &simple_stop("x"), Some(5), &free("p"));
    assert_eq!(
        failure(&plan),
        Some("--position must be in 1..=1 (current index has 0 stops)")
    );
    assert!(stop_files(&plan).is_empty());
    let plan = add(tour_of(&["a.md"]), &simple_stop("x"), Some(3), &free("p"));
    assert_eq!(
        failure(&plan),
        Some("--position must be in 1..=2 (current index has 1 stop)")
    );
}

#[test]
fn add_without_existing_tour_errors() {
    let stop = StopArgs {
        file: Some("x".into()),
        anchor_kind: Some(AnchorKind::Pattern),
        anchor: Some("y".into()),
        ..Default::default()
    };
    let message = read(".turin/tour.json", TourFile::Missing)
        .map(|tour| add(tour, &stop, None, &free(".turin/stop.md")))
        .unwrap_err();
    assert!(message.contains("no tour"));
}

#[test]
fn duplicate_slug_is_rejected() {
    let stop = StopArgs { anchor: Some("x".into()), ..simple_stop("Foo") };
    let tour = written(add(tour_of(&[]), &stop, None, &free(".turin/foo.md"))).unwrap();
    assert_eq!(tour.stops, vec!["foo.md"]);
    let plan = add(tour, &stop, None, &taken(".turin/foo.md"));
    assert!(failure(&plan).unwrap().contains("already exists"));
    assert!(stop_files(&plan).is_empty());
}

#[test]
fn a_stop_that_is_listed_without_its_file_is_rejected() {
    let plan = add(tour_of(&["foo.md"]), &simple_stop("Foo"), None, &free(".turin/foo.md"));
    assert_eq!(
        failure(&plan),
        Some("foo.md is already listed in tour.json's stops array")
    );
    assert_eq!(stop_files(&plan).len(), 1);
    assert!(written(plan).is_none());
}

#[test]
fn add_reports_missing_fields_before_anything_else() {
    let plan = add(tour_of(&[]), &StopArgs::default(), Some(9), &taken("p"));
    assert_eq!(plan.len(), 1);
    assert_eq!(
        failure(&plan),
        Some("stop is missing required field(s): --file, --anchor-kind, --anchor")
    );
}

#[test]
fn line_anchor_writes_unquoted_integer_in_frontmatter() {
    let stop = StopArgs {
        file: Some("Cargo.toml".into()),
        anchor_kind: Some(AnchorKind::Line),
        anchor: Some("1".into()),
        slug: Some("top".into()),
        ..Default::default()
    };
    let plan = add(tour_of(&[]), &stop, None, &free("p"));
    assert_eq!(stop_files(&plan)[0].filename, "top.md");
    assert!(stop_files(&plan)[0].content.contains("anchor = { kind = \"line\", value = 1 }"));
}

#[test]
fn body_file_flag_reads_body_from_disk() {
    let stop = StopArgs { body_file: Some("notes.md".into()), ..simple_stop("External") };
    let place = StopPlace {
        path: ".turin/external.md".into(),
        exists: false,
        file_body: Ok("external body content\nover multiple lines\n".into()),
    };
    let plan = add(tour_of(&[]), &stop, None, &place);
    assert_eq!(stop_files(&plan)[0].filename, "external.md");
    assert!(stop_files(&plan)[0].content.contains("external body content"));
    assert!(stop_files(&plan)[0].content.contains("over multiple lines"));

    let place = StopPlace { file_body: Err("gone".into()), ..place };
    let plan = add(tour_of(&[]), &stop, None, &place);
    assert_eq!(failure(&plan), Some("reading notes.md: gone"));
}

fn frontmatter(title: Option<&str>, file: &str, kind: &str, value: Value) -> StopFrontmatter {
    StopFrontmatter {
        file: file.into(),
        anchor: Anchor { kind: kind.into(), value: Some(value), query: None },
        title: title.map(|t| t.to_string()),
        highlight: None,
    }
}

#[test]
fn list_renders_table_with_anchor_kinds() {
    let tour = tour_of(&["pattern-stop.md", "line-stop.md"]);
    let stops = vec![
        Ok(frontmatter(Some("Pattern stop"), "src/a.rs", "pattern", Value::Text("fn a".into()))),
        Ok(frontmatter(Some("Line stop"), "src/b.rs", "line", Value::Integer(5))),
    ];
    let plan = list(&tour, &stops);
    assert!(failure(&plan).is_none());
    let stdout = printed(&plan);
    assert!(stdout.contains("Pattern stop"));
    assert!(stdout.contains("Line stop"));
    assert!(stdout.contains("pattern /fn a/"));
    assert!(stdout.contains("line 5"));
}

#[test]
fn list_in_full() {
    let mut tour = tour_of(&["a.md"]);
    tour.tour.description = Some("About".into());
    let long = "a/very/long/path/that/does/not/fit/into/it.rs";
    let stops = vec![Ok(frontmatter(None, long, "line", Value::Integer(5)))];
    let expected = format!(
        "Test tour (1 stop)\nAbout\n\n#    {:<28}  {:<36}  anchor\n{}\n1    {:<28}  {:<36}  line 5\n",
        "title",
        "file",
        "-".repeat(90),
        "a.md",
        "a/very/long/path/that/does/not/fit/…"
    );
    assert_eq!(printed(&list(&tour, &stops)), expected);
}

#[test]
fn list_against_empty_tour_succeeds() {
    let plan = list(&tour_of(&[]), &vec![]);
    assert_eq!(printed(&plan), "Test tour (0 stops)\n");
    assert!(printed(&plan).contains("0 stops"));
    assert_eq!(plan.len(), 1);
}

#[test]
fn list_ends_at_a_file_that_is_no_stop() {
    let tour = tour_of(&["a.md", "b.md", "c.md"]);
    let stops = vec![
        Ok(frontmatter(Some("A"), "a.rs", "line", Value::Integer(1))),
        Err("b.md is broken".to_string()),
        Ok(frontmatter(Some("C"), "c.rs", "line", Value::Integer(1))),
    ];
    let plan = list(&tour, &stops);
    assert_eq!(plan.len(), 3);
    assert!(matches!(&plan[2], Action::Fail(m) if m == "b.md is broken"));
}

#[test]
fn truncate_cuts_with_an_ellipsis() {
    assert_eq!(truncate("short", 5), "short");
    assert_eq!(truncate("longer", 5), "long…");
    assert_eq!(truncate("ßßß", 2), "ß…");
    assert_eq!(truncate("x", 1), "x");
    assert_eq!(truncate("xy", 1), "…");
    assert_eq!(truncate("x", 0), "…");
    assert_eq!(truncate("", 0), "");
}

/// Answers the questions of an interview in order; what is left counts as empty.
fn interview(stop: StopArgs, answers: &[&str]) -> (Interview, Vec<String>) {
    let mut i = interactive_complete(stop);
    let mut said = Vec::new();
    let mut n = 0;
    while let Some(q) = i.question() {
        said.push(q.to_string());
        let v = answers.get(n).copied().unwrap_or("").to_string();
        n += 1;
        if let Some(m) = i.answer(v) {
            said.push(m.to_string());
        }
    }
    (i, said)
}

#[test]
fn interview_asks_for_what_is_missing() {
    let (i, said) = interview(StopArgs::default(), &["src/a.rs", "line", "42", "never used"]);
    assert_eq!(i.stop.file.as_deref(), Some("src/a.rs"));
    assert_eq!(i.stop.anchor_kind, Some(AnchorKind::Line));
    assert_eq!(i.stop.anchor.as_deref(), Some("42"));
    assert!(i.stop.title.is_none());
    assert_eq!(i.stage, Stage::Done);
    assert_eq!(
        said,
        vec![
            "file path: ",
            "anchor kind [line/pattern/treesitter] (default: pattern): ",
            "anchor (line number): ",
        ]
    );
}

#[test]
fn interview_leaves_what_is_given() {
    let stop = StopArgs { anchor_kind: Some(AnchorKind::Treesitter), ..simple_stop("x") };
    let (i, said) = interview(stop, &["never used"]);
    assert!(said.is_empty());
    assert_eq!(i.stop.title.as_deref(), Some("x"));

    // A missing title is no reason to ask.
    let i = interactive_complete(StopArgs { title: None, ..simple_stop("x") });
    assert_eq!((i.stage, i.question()), (Stage::Done, None));

    let stop = StopArgs { anchor: None, anchor_kind: Some(AnchorKind::Treesitter), ..simple_stop("x") };
    let (i, said) = interview(stop, &["(query)"]);
    assert_eq!(said, vec!["anchor (tree-sitter query): "]);
    assert_eq!(i.stop.anchor.as_deref(), Some("(query)"));
}

#[test]
fn interview_insists_on_an_anchor_kind() {
    let stop = StopArgs { anchor_kind: None, ..simple_stop("x") };
    let (i, said) = interview(stop, &["nonsense", "treesitter"]);
    assert_eq!(i.stop.anchor_kind, Some(AnchorKind::Treesitter));
    assert_eq!(said.len(), 3);
    assert_eq!(said[1], "  unknown kind; pick line, pattern, or treesitter");
}

#[test]
fn empty_answers_mean_a_pattern_and_nothing_else() {
    let (i, said) = interview(StopArgs::default(), &[]);
    assert!(i.stop.file.is_none() && i.stop.anchor.is_none());
    assert_eq!(said.len(), 3);
    assert_eq!(i.stop.anchor_kind, Some(AnchorKind::Pattern));
    assert_eq!(said[2], "anchor (regex pattern): ");
    assert!(i.stop.require_complete().is_err());
}

fn pressed(code: KeyCode) -> Input {
    Input::Key(KeyEvent { code, modifiers: NONE }, true)
}

#[test]
fn a_session_from_the_first_key_to_the_last() {
    let area = Rect { x: 0, y: 0, width: 100, height: 40 };
    let stops = ["a.rs", "b.rs"]
        .iter()
        .map(|file| ParsedStop {
            filename: "s.md".into(),
            frontmatter: frontmatter(None, file, "line", Value::Integer(9)),
            body: String::new(),
        })
        .collect();
    let texts = vec!["text of a\n".into(), "text of b\n".into()];
    let mut p = load(stops, texts, true);

    let next = pressed(KeyCode::Char('n'));
    assert_eq!(wanted_file(&p, next, area), None);
    // A stop that was not prepared asks for its file again.
    p.stops[1] = None;
    p.preload.as_mut().unwrap().prepared_stops[1] = None;
    p.sources.pop();
    assert_eq!(wanted_file(&p, next, area), Some("b.rs"));
    assert_eq!(wanted_file(&p, pressed(KeyCode::Char('p')), area), None);
    assert_eq!(wanted_file(&p, Input::Other, area), None);
    p.add_source("b.rs", "text of b\n".into());
    assert_eq!(wanted_file(&p, next, area), None);
    assert_eq!(play(&mut p, next, area), Outcome::Continue);
    assert_eq!((p.index, p.scroll), (1, 3));

    let released = Input::Key(KeyEvent { code: KeyCode::Char('p'), modifiers: NONE }, false);
    assert_eq!(play(&mut p, released, area), Outcome::Continue);
    assert_eq!(play(&mut p, pressed(KeyCode::Char('x')), area), Outcome::Continue);
    assert_eq!(play(&mut p, Input::Other, area), Outcome::Continue);
    assert_eq!((p.index, p.scroll), (1, 3));

    let wheel = MouseEvent { kind: MouseEventKind::ScrollDown, column: 90, row: 3 };
    assert_eq!(play(&mut p, Input::Mouse(wheel), area), Outcome::Continue);
    assert_eq!((p.scroll, p.body_scroll, p.active_pane), (3, 1, Pane::Commentary));
    assert_eq!(play(&mut p, pressed(KeyCode::Char('q')), area), Outcome::Exit);
}
