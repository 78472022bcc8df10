use turin::cli::{AnchorKind, StopArgs};

fn empty() -> StopArgs {
    StopArgs::default()
}

#[test]
fn any_set_false_by_default() {
    assert!(!empty().any_set());
}

#[test]
fn any_set_true_when_any_field_set() {
    let mut s = empty();
    s.title = Some("hi".into());
    assert!(s.any_set());
}

#[test]
fn any_set_looks_at_every_field() {
    let with: Vec<StopArgs> = vec![
        StopArgs { file: Some("x".into()), ..empty() },
        StopArgs { anchor_kind: Some(AnchorKind::Line), ..empty() },
        StopArgs { anchor: Some("x".into()), ..empty() },
        StopArgs { title: Some("x".into()), ..empty() },
        StopArgs { body: Some("x".into()), ..empty() },
        StopArgs { body_file: Some("x".into()), ..empty() },
        StopArgs { id: Some("x".into()), ..empty() },
        StopArgs { highlight_lines: Some(0), ..empty() },
        StopArgs { slug: Some("x".into()), ..empty() },
    ];
    for s in with.iter() {
        assert!(s.any_set());
    }
}

#[test]
fn missing_fields_lists_all_required() {
    let m = empty().missing_fields();
    assert_eq!(m, vec!["--file", "--anchor-kind", "--anchor"]);
}

#[test]
fn missing_fields_empty_when_complete() {
    let s = StopArgs {
        file: Some("x".into()),
        anchor_kind: Some(AnchorKind::Pattern),
        anchor: Some("y".into()),
        ..Default::default()
    };
    assert!(s.missing_fields().is_empty());
    assert_eq!(s.require_complete(), Ok(()));
}

#[test]
fn require_complete_names_the_missing_fields() {
    let s = StopArgs { anchor_kind: Some(AnchorKind::Line), ..empty() };
    assert_eq!(
        s.require_complete(),
        Err("stop is missing required field(s): --file, --anchor".to_string())
    );
    assert_eq!(
        empty().require_complete(),
        Err("stop is missing required field(s): --file, --anchor-kind, --anchor".to_string())
    );
}

#[test]
fn slug_falls_back_to_title() {
    let s = StopArgs { title: Some("Entry Point".into()), ..Default::default() };
    assert_eq!(s.slug(), "entry-point");
}

#[test]
fn slug_prefers_explicit_slug_over_title() {
    let s = StopArgs {
        slug: Some("explicit".into()),
        title: Some("Different".into()),
        ..Default::default()
    };
    assert_eq!(s.slug(), "explicit");
}

#[test]
fn slug_falls_back_to_id_when_no_slug_or_title() {
    let s = StopArgs { id: Some("entry".into()), ..Default::default() };
    assert_eq!(s.slug(), "entry");
}

#[test]
fn slug_default_is_stop() {
    assert_eq!(empty().slug(), "stop");
}

#[test]
fn slug_skips_source_that_slugifies_to_empty() {
    // "!!" slugifies to "" — should fall through to next source.
    let s = StopArgs {
        slug: Some("!!".into()),
        title: Some("real title".into()),
        ..Default::default()
    };
    assert_eq!(s.slug(), "real-title");
}

#[test]
fn slug_of_a_stop_is_its_own_slug() {
    let s = StopArgs { title: Some("  Über: the 2nd -- part ".into()), ..empty() };
    let once = s.slug();
    assert_eq!(once, "ber-the-2nd-part");
    assert_eq!(StopArgs { slug: Some(once.clone()), ..empty() }.slug(), once);
}
