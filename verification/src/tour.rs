//! The tour: its metadata and the order of its stops.

use crate::text;
use vstd::prelude::*;
use vstd::string::*;

verus! {

/// Top-level shape of `.turin/tour.json`.
#[derive(Debug)]
pub struct Tour {
    pub tour: TourMeta,
    pub stops: Vec<String>,
}

/// Tour-level metadata.
#[derive(Debug)]
pub struct TourMeta {
    pub title: String,
    pub description: Option<String>,
    pub author: Option<String>,
    pub created: Option<String>,
}

/// What a `Tour` holds.
pub struct TourView {
    pub title: Seq<char>,
    pub description: Option<Seq<char>>,
    pub author: Option<Seq<char>>,
    pub created: Option<Seq<char>>,
    pub stops: Seq<Seq<char>>,
}

impl View for Tour {
    type V = TourView;

    open spec fn view(&self) -> TourView {
        TourView {
            title: self.tour.title@,
            description: text::opt_text(self.tour.description),
            author: text::opt_text(self.tour.author),
            created: text::opt_text(self.tour.created),
            stops: text::texts(self.stops@),
        }
    }
}

/// What was found where the tour should be.
#[derive(Debug)]
pub enum TourFile {
    Missing,
    /// The file could not be read, for that reason.
    Unreadable(String),
    /// The file is not a tour, for that reason.
    Malformed(String),
    Parsed(Tour),
}

impl Default for TourMeta {
    /// No title, and nothing else.
    fn default() -> (r: TourMeta)
        ensures
            r.title@.len() == 0,
            r.description is None,
            r.author is None,
            r.created is None,
    {
        TourMeta { title: String::new(), description: None, author: None, created: None }
    }
}

impl Default for Tour {
    /// A tour without title and stops.
    fn default() -> (r: Tour)
        ensures
            r.tour.title@.len() == 0,
            r.tour.description is None,
            r.tour.author is None,
            r.tour.created is None,
            r.stops@.len() == 0,
    {
        Tour { tour: TourMeta::default(), stops: Vec::new() }
    }
}

/// What could not be done with which file, and why.
pub open spec fn failure(verb: Seq<char>, path: Seq<char>, why: Seq<char>) -> Seq<char> {
    verb + " "@ + path + ": "@ + why
}

/// Says what could not be done with which file, and why.
pub fn failed(verb: &str, path: &str, why: &str) -> (r: String)
    ensures
        r@ == failure(verb@, path@, why@),
{
    let mut m = text::concat3(verb, " ", path);
    m.append(": ");
    m.append(why);
    m
}

/// The tour, or why there is none. `found` is what was found at `path`.
pub fn read(path: &str, found: TourFile) -> (r: Result<Tour, String>)
    ensures
        match found {
            TourFile::Parsed(t) => r matches Ok(tour) && tour == t,
            TourFile::Missing => r matches Err(m) && m@ == "no tour at "@ + path@
                + " — run `turin new` first"@,
            TourFile::Unreadable(e) => r matches Err(m) && m@ == failure("reading"@, path@, e@),
            TourFile::Malformed(e) => r matches Err(m) && m@ == failure("parsing"@, path@, e@),
        },
{
    match found {
        TourFile::Parsed(t) => Ok(t),
        TourFile::Missing => Err(
            text::concat3("no tour at ", path, " — run `turin new` first"),
        ),
        TourFile::Unreadable(e) => Err(failed("reading", path, e.as_str())),
        TourFile::Malformed(e) => Err(failed("parsing", path, e.as_str())),
    }
}

/// The text of the tour's file: the serialized tour and a line feed. `serialized`
/// is what serializing the tour gave.
pub fn write(serialized: &Result<String, String>) -> (r: Result<String, String>)
    ensures
        match *serialized {
            Ok(t) => r matches Ok(file) && file@ == t@.push('\n'),
            Err(e) => r matches Err(m) && m@ == "serializing tour: "@ + e@,
        },
{
    match serialized {
        Ok(t) => {
            let mut file = text::owned(t.as_str());
            file.push('\n');
            Ok(file)
        },
        Err(e) => Err(text::concat2("serializing tour: ", e.as_str())),
    }
}

/// What is said of a failure begins with what was tried, names the file, and ends with
/// the reason.
pub proof fn law_failure_names_the_file(verb: Seq<char>, path: Seq<char>, why: Seq<char>)
    ensures
        text::begins_with(failure(verb, path, why), verb),
        text::occurs_at(failure(verb, path, why), path, (verb.len() + 1) as int),
        text::occurs_at(failure(verb, path, why), why, (verb.len() + path.len() + 3) as int),
        failure(verb, path, why).len() == verb.len() + path.len() + why.len() + 3,
{
    reveal_strlit(" ");
    reveal_strlit(": ");
    let m = failure(verb, path, why);
    let a = verb.len() as int;
    let b = a + 1 + path.len();
    assert(m.subrange(0, a) =~= verb);
    assert(m.subrange(a + 1, b) =~= path);
    assert(m.subrange(b + 2, m.len() as int) =~= why);
}

} // verus!
