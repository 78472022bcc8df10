//! What can be asked for on the command line.

use crate::text;
use crate::util;
use vstd::prelude::*;
use vstd::string::*;

verus! {

/// The whole command line.
#[derive(Debug)]
pub struct Cli {
    /// Where the project is, if not in the current directory.
    pub project_root: Option<String>,
    pub verbose: u8,
    pub quiet: bool,
    /// Play without syntax colours.
    pub no_color: bool,
    pub command: Command,
}

/// Tour-level metadata. Used only by `new`.
#[derive(Debug)]
pub struct TourArgs {
    pub tour_title: String,
    pub tour_description: Option<String>,
    pub tour_author: Option<String>,
    pub tour_created: Option<String>,
}

/// How a stop finds its line in the file.
#[derive(Copy, Clone, Debug, PartialEq, Eq, Structural)]
pub enum AnchorKind {
    Line,
    Pattern,
    Treesitter,
}

/// Flags describing a single stop. Shared by `new` and `add`.
#[derive(Debug)]
pub struct StopArgs {
    /// Path to the file the stop points at.
    pub file: Option<String>,
    /// Anchor kind: line, pattern, or treesitter.
    pub anchor_kind: Option<AnchorKind>,
    /// Anchor value (line number, regex pattern, or tree-sitter query).
    pub anchor: Option<String>,
    /// Short title for the stop.
    pub title: Option<String>,
    /// Commentary body (inline).
    pub body: Option<String>,
    /// The file to read the commentary body from.
    pub body_file: Option<String>,
    /// Stable stop id, used by branches and prerequisites.
    pub id: Option<String>,
    /// Highlight N lines starting at the anchor.
    pub highlight_lines: Option<usize>,
    /// Filename slug for the stop file.
    pub slug: Option<String>,
}

/// The subcommands.
#[derive(Debug)]
pub enum Command {
    /// Scaffold a tour, with its first stop where one is described.
    New { tour: TourArgs, stop: StopArgs },
    /// Create a stop and insert it into the tour.
    Add { position: Option<usize>, stop: StopArgs },
    /// Print the stops as a table.
    List,
    /// Open the interactive player.
    Play,
    /// Print the format reference.
    Quickstart,
}

/// The names of the required flags that are not given, in order.
pub open spec fn missing_flags(file: bool, anchor_kind: bool, anchor: bool) -> Seq<Seq<char>> {
    (if file {
        Seq::<Seq<char>>::empty()
    } else {
        seq!["--file"@]
    }) + (if anchor_kind {
        Seq::<Seq<char>>::empty()
    } else {
        seq!["--anchor-kind"@]
    }) + (if anchor {
        Seq::<Seq<char>>::empty()
    } else {
        seq!["--anchor"@]
    })
}

/// The slug of the first source that has one, else `stop`.
pub open spec fn first_slug(sources: Seq<Option<Seq<char>>>) -> Seq<char>
    decreases sources.len(),
{
    if sources.len() == 0 {
        "stop"@
    } else {
        match sources[0] {
            Some(s) => if util::slug_of(s).len() > 0 {
                util::slug_of(s)
            } else {
                first_slug(sources.drop_first())
            },
            None => first_slug(sources.drop_first()),
        }
    }
}

impl Default for StopArgs {
    /// No flag is given.
    fn default() -> (r: StopArgs)
        ensures
            r.file is None,
            r.anchor_kind is None,
            r.anchor is None,
            r.title is None,
            r.body is None,
            r.body_file is None,
            r.id is None,
            r.highlight_lines is None,
            r.slug is None,
    {
        StopArgs {
            file: None,
            anchor_kind: None,
            anchor: None,
            title: None,
            body: None,
            body_file: None,
            id: None,
            highlight_lines: None,
            slug: None,
        }
    }
}

impl StopArgs {
    /// Some flag is given.
    pub open spec fn has_any(&self) -> bool {
        ||| self.file is Some
        ||| self.anchor_kind is Some
        ||| self.anchor is Some
        ||| self.title is Some
        ||| self.body is Some
        ||| self.body_file is Some
        ||| self.id is Some
        ||| self.highlight_lines is Some
        ||| self.slug is Some
    }

    /// All required flags are given.
    pub open spec fn is_complete(&self) -> bool {
        self.file is Some && self.anchor_kind is Some && self.anchor is Some
    }

    /// The names of the required flags that are not given, in order.
    pub open spec fn missing(&self) -> Seq<Seq<char>> {
        missing_flags(self.file is Some, self.anchor_kind is Some, self.anchor is Some)
    }

    /// What is said when required flags are not given.
    pub open spec fn missing_message(&self) -> Seq<char> {
        "stop is missing required field(s): "@ + text::join(self.missing(), ", "@)
    }

    /// The slug of the stop: that of `--slug`, else `--title`, else `--id`, else
    /// `stop`. A source without letters or digits counts as not given.
    pub open spec fn stop_slug(&self) -> Seq<char> {
        first_slug(
            seq![
                text::opt_text(self.slug),
                text::opt_text(self.title),
                text::opt_text(self.id),
            ],
        )
    }

    /// True if any stop field was supplied.
    pub fn any_set(&self) -> (r: bool)
        ensures
            r == self.has_any(),
    {
        self.file.is_some() || self.anchor_kind.is_some() || self.anchor.is_some()
            || self.title.is_some() || self.body.is_some() || self.body_file.is_some()
            || self.id.is_some() || self.highlight_lines.is_some() || self.slug.is_some()
    }

    /// Names of any required fields that are not set. Empty if complete.
    pub fn missing_fields(&self) -> (r: Vec<&'static str>)
        ensures
            text::str_texts(r@) == self.missing(),
            r@.len() == 0 <==> self.is_complete(),
    {
        let mut missing: Vec<&'static str> = Vec::new();
        if self.file.is_none() {
            missing.push("--file");
        }
        if self.anchor_kind.is_none() {
            missing.push("--anchor-kind");
        }
        if self.anchor.is_none() {
            missing.push("--anchor");
        }
        assert(text::str_texts(missing@) =~= self.missing());
        missing
    }

    /// An error that names the required fields that are missing, if any is.
    pub fn require_complete(&self) -> (r: Result<(), String>)
        ensures
            r is Ok <==> self.is_complete(),
            r matches Err(m) ==> m@ == self.missing_message(),
    {
        let missing = self.missing_fields();
        if missing.len() == 0 {
            return Ok(());
        }
        let names = text::join_strs(&missing, ", ");
        Err(text::concat2("stop is missing required field(s): ", names.as_str()))
    }

    /// Determine the slug for the stop file: --slug, else --title, else --id, else "stop".
    pub fn slug(&self) -> (r: String)
        ensures
            r@ == self.stop_slug(),
    {
        proof {
            reveal_with_fuel(first_slug, 4);
            let sources = seq![
                text::opt_text(self.slug),
                text::opt_text(self.title),
                text::opt_text(self.id),
            ];
            assert(sources.drop_first()[0] == text::opt_text(self.title));
            assert(sources.drop_first().drop_first()[0] == text::opt_text(self.id));
            assert(sources.drop_first().drop_first().drop_first().len() == 0);
        }
        if let Some(source) = &self.slug {
            let s = util::slugify(source.as_str());
            if !s.as_str().is_empty() {
                return s;
            }
        }
        if let Some(source) = &self.title {
            let s = util::slugify(source.as_str());
            if !s.as_str().is_empty() {
                return s;
            }
        }
        if let Some(source) = &self.id {
            let s = util::slugify(source.as_str());
            if !s.as_str().is_empty() {
                return s;
            }
        }
        text::owned("stop")
    }
}

/// The slug of a stop is never empty, holds only lower-case letters, digits and
/// dashes, and is its own slug.
pub proof fn law_stop_slug_shape(stop: StopArgs)
    ensures
        stop.stop_slug().len() > 0,
        forall|i: int|
            0 <= i < stop.stop_slug().len() ==> util::is_slug_char(
                #[trigger] stop.stop_slug()[i],
            ) || stop.stop_slug()[i] == '-',
        util::slug_of(stop.stop_slug()) == stop.stop_slug(),
{
    lemma_first_slug(
        seq![text::opt_text(stop.slug), text::opt_text(stop.title), text::opt_text(stop.id)],
    );
}

proof fn lemma_first_slug(sources: Seq<Option<Seq<char>>>)
    ensures
        first_slug(sources).len() > 0,
        forall|i: int|
            0 <= i < first_slug(sources).len() ==> util::is_slug_char(
                #[trigger] first_slug(sources)[i],
            ) || first_slug(sources)[i] == '-',
        util::slug_of(first_slug(sources)) == first_slug(sources),
    decreases sources.len(),
{
    if sources.len() == 0 {
        reveal_strlit("stop");
        let s = "stop"@;
        util::law_slug_shape(s);
        assert(util::slug_of(s) == s) by {
            reveal_with_fuel(util::words, 6);
        }
    } else {
        match sources[0] {
            Some(s) => {
                if util::slug_of(s).len() > 0 {
                    util::law_slug_shape(s);
                    util::law_slug_is_its_own_slug(s);
                } else {
                    lemma_first_slug(sources.drop_first());
                }
            },
            None => {
                lemma_first_slug(sources.drop_first());
            },
        }
    }
}

/// A stop is described as soon as one of its fields is given.
pub proof fn law_every_field_describes_a_stop(stop: StopArgs)
    ensures
        !stop.has_any() <==> (stop.file is None && stop.anchor_kind is None && stop.anchor is None
            && stop.title is None && stop.body is None && stop.body_file is None && stop.id is None
            && stop.highlight_lines is None && stop.slug is None),
        stop.is_complete() ==> stop.has_any(),
{
}

/// Each required flag is named as missing just where it is not given, and no other
/// flag is; a stop is complete where none is.
pub proof fn law_missing_flags_are_named(stop: StopArgs)
    ensures
        stop.missing().contains("--file"@) <==> stop.file is None,
        stop.missing().contains("--anchor-kind"@) <==> stop.anchor_kind is None,
        stop.missing().contains("--anchor"@) <==> stop.anchor is None,
        stop.missing().len() == 0 <==> stop.is_complete(),
        stop.missing().no_duplicates(),
        forall|i: int|
            0 <= i < stop.missing().len() ==> (#[trigger] stop.missing()[i] == "--file"@
                || stop.missing()[i] == "--anchor-kind"@ || stop.missing()[i] == "--anchor"@),
{
    reveal_strlit("--file");
    reveal_strlit("--anchor-kind");
    reveal_strlit("--anchor");
    assert("--file"@.len() != "--anchor-kind"@.len());
    assert("--file"@.len() != "--anchor"@.len());
    assert("--anchor"@.len() != "--anchor-kind"@.len());
    let m = stop.missing();
    if stop.file is None {
        assert(m[0] == "--file"@);
    }
    if stop.anchor_kind is None {
        assert(m[if stop.file is None {
            1
        } else {
            0
        }] == "--anchor-kind"@);
    }
    if stop.anchor is None {
        assert(m[m.len() - 1] == "--anchor"@);
    }
}

/// The name of a stop comes from `--slug`, whatever else is given; without it from
/// `--title`, then from `--id`. A field without letters or digits counts as not given.
pub proof fn law_slug_comes_from_the_first_field_that_has_one(stop: StopArgs)
    ensures
        ({
            let named = |o: Option<String>| o matches Some(s) && util::slug_of(s@).len() > 0;
            &&& named(stop.slug) ==> stop.stop_slug() == util::slug_of(stop.slug.unwrap()@)
            &&& !named(stop.slug) && named(stop.title) ==> stop.stop_slug() == util::slug_of(
                stop.title.unwrap()@,
            )
            &&& !named(stop.slug) && !named(stop.title) && named(stop.id) ==> stop.stop_slug()
                == util::slug_of(stop.id.unwrap()@)
            &&& !named(stop.slug) && !named(stop.title) && !named(stop.id) ==> stop.stop_slug()
                == seq!['s', 't', 'o', 'p']
        }),
{
    reveal_with_fuel(first_slug, 4);
    reveal_strlit("stop");
    assert("stop"@ =~= seq!['s', 't', 'o', 'p']);
    let sources = seq![
        text::opt_text(stop.slug),
        text::opt_text(stop.title),
        text::opt_text(stop.id),
    ];
    assert(sources.drop_first()[0] == text::opt_text(stop.title));
    assert(sources.drop_first().drop_first()[0] == text::opt_text(stop.id));
    assert(sources.drop_first().drop_first().drop_first().len() == 0);
}

/// The flags that are missing are listed in the order of the questions for them, with
/// a comma between two.
pub proof fn law_missing_message_lists_the_flags(stop: StopArgs)
    ensures
        ({
            let said = "stop is missing required field(s): "@;
            let m = stop.missing_message();
            let (f, k, a) = ("--file"@, "--anchor-kind"@, "--anchor"@);
            let comma = seq![',', ' '];
            match (stop.file is None, stop.anchor_kind is None, stop.anchor is None) {
                (true, true, true) => m == said + f + comma + k + comma + a,
                (true, true, false) => m == said + f + comma + k,
                (true, false, true) => m == said + f + comma + a,
                (false, true, true) => m == said + k + comma + a,
                (true, false, false) => m == said + f,
                (false, true, false) => m == said + k,
                (false, false, true) => m == said + a,
                (false, false, false) => true,
            }
        }),
{
    reveal_strlit(", ");
    assert(", "@ =~= seq![',', ' ']);
    let (f, k, a) = ("--file"@, "--anchor-kind"@, "--anchor"@);
    let comma = seq![',', ' '];
    let said = "stop is missing required field(s): "@;
    let none = Seq::<Seq<char>>::empty();
    text::law_join_adds_part_by_part(none, comma, f);
    text::law_join_adds_part_by_part(none, comma, k);
    text::law_join_adds_part_by_part(none, comma, a);
    text::law_join_adds_part_by_part(seq![f], comma, k);
    text::law_join_adds_part_by_part(seq![f], comma, a);
    text::law_join_adds_part_by_part(seq![k], comma, a);
    text::law_join_adds_part_by_part(seq![f, k], comma, a);
    assert(seq![f].push(k) =~= seq![f, k]);
    assert(seq![f].push(a) =~= seq![f, a]);
    assert(seq![k].push(a) =~= seq![k, a]);
    assert(seq![f, k].push(a) =~= seq![f, k, a]);
    let missing = stop.missing();
    match (stop.file is None, stop.anchor_kind is None, stop.anchor is None) {
        (true, true, true) => {
            assert(missing =~= seq![f, k, a]);
            assert(stop.missing_message() =~= said + f + comma + k + comma + a);
        },
        (true, true, false) => {
            assert(missing =~= seq![f, k]);
            assert(stop.missing_message() =~= said + f + comma + k);
        },
        (true, false, true) => {
            assert(missing =~= seq![f, a]);
            assert(stop.missing_message() =~= said + f + comma + a);
        },
        (false, true, true) => {
            assert(missing =~= seq![k, a]);
            assert(stop.missing_message() =~= said + k + comma + a);
        },
        (true, false, false) => {
            assert(missing =~= seq![f]);
        },
        (false, true, false) => {
            assert(missing =~= seq![k]);
        },
        (false, false, true) => {
            assert(missing =~= seq![a]);
        },
        (false, false, false) => {},
    }
}

} // verus!
