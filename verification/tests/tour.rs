use turin::tour::{failed, read, Tour, TourFile, TourMeta};

#[test]
fn a_tour_that_parses_is_handed_on() {
    let tour = Tour {
        tour: TourMeta { title: "T".into(), ..Default::default() },
        stops: vec!["a.md".into()],
    };
    let back = read("p", TourFile::Parsed(tour)).unwrap();
    assert_eq!(back.tour.title, "T");
    assert_eq!(back.stops, vec!["a.md".to_string()]);
}

#[test]
fn a_tour_that_cannot_be_read_is_reported() {
    assert_eq!(
        read(".turin/tour.json", TourFile::Missing).unwrap_err(),
        "no tour at .turin/tour.json — run `turin new` first"
    );
    assert_eq!(read("p", TourFile::Unreadable("why".into())).unwrap_err(), "reading p: why");
    assert_eq!(read("p", TourFile::Malformed("why".into())).unwrap_err(), "parsing p: why");
}

#[test]
fn write_appends_trailing_newline() {
    assert_eq!(turin::tour::write(&Ok("{}".into())).unwrap(), "{}\n");
    assert!(turin::tour::write(&Ok("".into())).unwrap().ends_with('\n'));
    assert_eq!(turin::tour::write(&Err("why".into())).unwrap_err(), "serializing tour: why");
}

#[test]
fn an_empty_tour_by_default() {
    let t = Tour::default();
    assert_eq!(t.tour.title, "");
    assert!(t.tour.description.is_none() && t.tour.author.is_none() && t.tour.created.is_none());
    assert!(t.stops.is_empty());
}

#[test]
fn failures_name_what_and_why() {
    assert_eq!(failed("writing", "a.md", "disk full"), "writing a.md: disk full");
}
