//! Syntax highlighting. The colours come from syntect; what it is given, and in
//! which order, is decided here and in `source`.

use crate::style::{Color, Region};
use crate::style;
use crate::text;
use syntect::easy::HighlightLines;
use syntect::highlighting::{HighlightState, Theme, ThemeSet};
use syntect::parsing::{ParseState, SyntaxReference, SyntaxSet};
use vstd::prelude::*;
use vstd::utf8::*;

verus! {

/// `syntect::parsing::SyntaxSet`: a set of grammars. Opaque.
#[verifier::external_type_specification]
#[verifier::external_body]
pub struct ExSyntaxSet(syntect::parsing::SyntaxSet);

/// `syntect::parsing::SyntaxReference`: one grammar of a set. Opaque.
#[verifier::external_type_specification]
#[verifier::external_body]
pub struct ExSyntaxReference(syntect::parsing::SyntaxReference);

/// `syntect::highlighting::ThemeSet`: a set of colour themes. Opaque.
#[verifier::external_type_specification]
#[verifier::external_body]
pub struct ExThemeSet(syntect::highlighting::ThemeSet);

/// `syntect::highlighting::Theme`: one colour theme. Opaque.
#[verifier::external_type_specification]
#[verifier::external_body]
pub struct ExTheme(syntect::highlighting::Theme);

/// `syntect::highlighting::HighlightState`: the scopes open between two lines. Opaque.
#[verifier::external_type_specification]
#[verifier::external_body]
pub struct ExHighlightState(syntect::highlighting::HighlightState);

/// `syntect::parsing::ParseState`: the grammar contexts open between two lines. Opaque.
#[verifier::external_type_specification]
#[verifier::external_body]
pub struct ExParseState(syntect::parsing::ParseState);

/// `syntect::easy::HighlightLines`: a highlighter in the middle of a file. Opaque.
#[verifier::external_type_specification]
#[verifier::external_body]
pub struct ExHighlightLines<'a>(syntect::easy::HighlightLines<'a>);

/// The length in bytes up to which a line is given to a highlighter.
pub const LONGEST_LINE: usize = 262144;

/// A line that can be given to a highlighter.
pub open spec fn is_short(line: Seq<char>) -> bool {
    encode_utf8(line).len() <= LONGEST_LINE
}

/// Lines that can be given to a highlighter.
pub open spec fn are_short(lines: Seq<Seq<char>>) -> bool {
    forall|i: int| 0 <= i < lines.len() ==> is_short(#[trigger] lines[i])
}

/// The set of grammars is the one that `SyntaxSet::load_defaults_newlines` returns.
pub uninterp spec fn bundled_syntaxes(set: &SyntaxSet) -> bool;

/// The names of the themes in a set, in the set's own order.
pub uninterp spec fn theme_names(set: &ThemeSet) -> Seq<Seq<char>>;

/// The set of themes is the one that `ThemeSet::load_defaults` returns.
pub uninterp spec fn bundled_themes(set: &ThemeSet) -> bool;

/// The theme is the one of that name in the bundled set.
pub uninterp spec fn is_theme(theme: &Theme, name: Seq<char>) -> bool;

/// Some bundled grammar claims files with that extension.
pub uninterp spec fn extension_known(extension: Seq<char>) -> bool;

/// The grammar is the bundled one for that extension, or for plain text where
/// there is no extension.
pub uninterp spec fn is_syntax(syntax: &SyntaxReference, extension: Option<Seq<char>>) -> bool;

/// The state is the one between two lines after a highlighter for that theme and
/// grammar was given `lines`, from the start of its text on.
pub uninterp spec fn is_state_after(
    highlight: &HighlightState,
    parse: &ParseState,
    theme: Seq<char>,
    extension: Option<Seq<char>>,
    lines: Seq<Seq<char>>,
) -> bool;

/// The highlighter is one for that theme and grammar that was given `lines`.
pub uninterp spec fn was_given(
    highlighter: &HighlightLines,
    theme: Seq<char>,
    extension: Option<Seq<char>>,
    lines: Seq<Seq<char>>,
) -> bool;

/// What a highlighter for that theme and grammar reports for the last of
/// `lines`, once it was given all of them in order; `None` where the grammar fails.
pub uninterp spec fn last_line_regions(
    theme: Seq<char>,
    extension: Option<Seq<char>>,
    lines: Seq<Seq<char>>,
) -> Option<Seq<style::RegionView>>;

/// `HighlightState::clone`: an equal state.
pub assume_specification [<syntect::highlighting::HighlightState as Clone>::clone] (
    s: &syntect::highlighting::HighlightState,
) -> (r: syntect::highlighting::HighlightState)
    ensures
        r == *s,
;

/// `ParseState::clone`: an equal state.
pub assume_specification [<syntect::parsing::ParseState as Clone>::clone] (
    s: &syntect::parsing::ParseState,
) -> (r: syntect::parsing::ParseState)
    ensures
        r == *s,
;

/// `SyntaxSet::load_defaults_newlines`: the bundled grammars for lines that keep
/// their line feed.
#[verifier::external_body]
fn default_syntaxes() -> (r: SyntaxSet)
    ensures
        bundled_syntaxes(&r),
{
    SyntaxSet::load_defaults_newlines()
}

/// `ThemeSet::load_defaults`: the bundled themes. Its documentation lists their
/// names, `base16-ocean.dark` among them.
#[verifier::external_body]
fn default_themes() -> (r: ThemeSet)
    ensures
        bundled_themes(&r),
        theme_names(&r).contains("base16-ocean.dark"@),
{
    ThemeSet::load_defaults()
}

/// The keys of `ThemeSet::themes`.
#[verifier::external_body]
fn list_themes(set: &ThemeSet) -> (r: Vec<String>)
    ensures
        text::texts(r@) == theme_names(set),
{
    set.themes.keys().cloned().collect()
}

/// A copy of the value of `ThemeSet::themes` under a key; `None` where the key is missing.
#[verifier::external_body]
fn theme_by_name(set: &ThemeSet, name: &str) -> (r: Option<Theme>)
    ensures
        r is Some <==> theme_names(set).contains(name@),
        bundled_themes(set) ==> (r matches Some(t) ==> is_theme(&t, name@)),
{
    set.themes.get(name).cloned()
}

/// `SyntaxSet::find_syntax_by_extension`: the grammar for files with that
/// extension, if there is one.
#[verifier::external_body]
fn syntax_by_extension<'a>(set: &'a SyntaxSet, extension: &str) -> (r: Option<&'a SyntaxReference>)
    ensures
        bundled_syntaxes(set) ==> (r is Some <==> extension_known(extension@)),
        bundled_syntaxes(set) ==> (r matches Some(s) ==> is_syntax(s, Some(extension@))),
{
    set.find_syntax_by_extension(extension)
}

/// `SyntaxSet::find_syntax_plain_text`: the grammar without any rules. It panics
/// where the set has none; the bundled set has it.
#[verifier::external_body]
fn plain_text_syntax(set: &SyntaxSet) -> (r: &SyntaxReference)
    requires
        bundled_syntaxes(set),
    ensures
        is_syntax(r, None),
{
    set.find_syntax_plain_text()
}

/// `HighlightLines::new`: a highlighter at the start of its text.
#[verifier::external_body]
fn start<'a>(syntax: &SyntaxReference, theme: &'a Theme) -> (r: HighlightLines<'a>)
    ensures
        forall|t: Seq<char>, e: Option<Seq<char>>|
            is_theme(theme, t) && is_syntax(syntax, e) ==> #[trigger] was_given(
                &r,
                t,
                e,
                Seq::empty(),
            ),
{
    HighlightLines::new(syntax, theme)
}

/// `HighlightLines::from_state`: a highlighter that goes on from a saved state.
#[verifier::external_body]
fn resume<'a>(theme: &'a Theme, highlight: HighlightState, parse: ParseState) -> (r: HighlightLines<
    'a,
>)
    ensures
        forall|t: Seq<char>, e: Option<Seq<char>>, lines: Seq<Seq<char>>|
            is_theme(theme, t) && is_state_after(&highlight, &parse, t, e, lines)
                ==> #[trigger] was_given(&r, t, e, lines),
{
    HighlightLines::from_state(theme, highlight, parse)
}

/// `HighlightLines::state`: the state of a highlighter, to go on from later.
#[verifier::external_body]
fn save(highlighter: HighlightLines<'_>) -> (r: (HighlightState, ParseState))
    ensures
        forall|t: Seq<char>, e: Option<Seq<char>>, lines: Seq<Seq<char>>|
            was_given(&highlighter, t, e, lines) ==> #[trigger] is_state_after(
                &r.0,
                &r.1,
                t,
                e,
                lines,
            ),
{
    highlighter.state()
}

/// `HighlightLines::highlight_line`: the coloured regions of the next line. They
/// depend on the theme, the grammar and all lines since the start of the text; put
/// together, they are the line. The highlighter is one of a bundled grammar, and so
/// is the set: with a set that its state does not belong to, the call can panic.
///
/// It also panics where a pattern does not compile. Some bundled grammars put text
/// that they matched before in a line, such as the end mark of a here-document, into
/// a pattern, and none puts it into a pattern twice. Compiled, that text takes a state
/// of 32 bytes at most for each of its bytes, and the states of a pattern may take ten
/// mebibytes. So the lines are no longer than `LONGEST_LINE` bytes, whose states take
/// eight.
#[verifier::external_body]
fn next_line(highlighter: &mut HighlightLines<'_>, line: &str, syntaxes: &SyntaxSet) -> (r: Option<
    Vec<Region>,
>)
    requires
        bundled_syntaxes(syntaxes),
        is_short(line@),
        exists|t: Seq<char>, e: Option<Seq<char>>, lines: Seq<Seq<char>>|
            #[trigger] was_given(old(highlighter), t, e, lines) && are_short(lines),
    ensures
        forall|t: Seq<char>, e: Option<Seq<char>>, lines: Seq<Seq<char>>|
            #[trigger] was_given(old(highlighter), t, e, lines) ==> {
                &&& was_given(final(highlighter), t, e, lines.push(line@))
                &&& r is Some <==> last_line_regions(t, e, lines.push(line@)) is Some
                &&& r matches Some(v) ==> last_line_regions(t, e, lines.push(line@)) == Some(
                    style::region_views(v@),
                ) && style::region_text(style::region_views(v@)) == line@
            },
{
    let regions = highlighter.highlight_line(line, syntaxes).ok()?;
    Some(
        regions.into_iter().map(
            |(s, t)|
                Region {
                    color: Color::Rgb(s.foreground.r, s.foreground.g, s.foreground.b),
                    content: t.to_string(),
                },
        ).collect(),
    )
}

/// The theme that the player prefers.
pub open spec fn preferred_theme() -> Seq<char> {
    "base16-ocean.dark"@
}

/// The name of the theme in use: the preferred one, else the first there is.
pub open spec fn chosen_theme(names: Seq<Seq<char>>) -> Option<Seq<char>> {
    if names.contains(preferred_theme()) {
        Some(preferred_theme())
    } else if names.len() > 0 {
        Some(names[0])
    } else {
        None
    }
}

/// What the grammar is chosen by: the extension where some grammar claims it,
/// else nothing, which stands for plain text.
pub open spec fn syntax_key(extension: Option<Seq<char>>) -> Option<Seq<char>> {
    match extension {
        Some(e) => if extension_known(e) {
            Some(e)
        } else {
            None
        },
        None => None,
    }
}

/// The theme to draw code with: the preferred one, else the first of the set.
pub fn theme(set: &ThemeSet) -> (r: Option<Theme>)
    ensures
        r is Some <==> chosen_theme(theme_names(set)) is Some,
        bundled_themes(set) ==> (r matches Some(t) ==> is_theme(
            &t,
            chosen_theme(theme_names(set)).unwrap(),
        )),
{
    let preferred = theme_by_name(set, "base16-ocean.dark");
    match preferred {
        Some(t) => Some(t),
        None => {
            let names = list_themes(set);
            assert(text::texts(names@).len() == names@.len());
            if names.len() == 0 {
                None
            } else {
                assert(text::texts(names@)[0] == names@[0]@);
                assert(theme_names(set).contains(theme_names(set)[0]));
                theme_by_name(set, names[0].as_str())
            }
        },
    }
}

/// The grammars and the theme in use. They are loaded once and shared by all files.
pub struct Assets {
    syntaxes: SyntaxSet,
    theme: Theme,
}

impl Assets {
    #[verifier::type_invariant]
    spec fn loaded(self) -> bool {
        self.draw_with(preferred_theme())
    }

    /// The bundled grammars, and the bundled theme of that name.
    pub closed spec fn draw_with(&self, theme: Seq<char>) -> bool {
        bundled_syntaxes(&self.syntaxes) && is_theme(&self.theme, theme)
    }

    /// Loads the bundled grammars and the preferred theme.
    pub fn load() -> (r: Assets)
        ensures
            r.draw_with(preferred_theme()),
    {
        let themes = default_themes();
        let syntaxes = default_syntaxes();
        let theme = theme(&themes).unwrap();
        Assets { syntaxes, theme }
    }
}

/// The highlighter was given `lines`, in the theme in use and the grammar for
/// files with that extension.
pub open spec fn given(
    highlighter: &HighlightLines,
    extension: Option<Seq<char>>,
    lines: Seq<Seq<char>>,
) -> bool {
    was_given(highlighter, preferred_theme(), syntax_key(extension), lines)
}

/// The coloured regions of the last of `lines`, in a file with that extension,
/// where highlighting starts at the first of them; none where the grammar fails.
pub open spec fn regions_of_last(
    extension: Option<Seq<char>>,
    lines: Seq<Seq<char>>,
) -> Seq<style::RegionView> {
    match last_line_regions(preferred_theme(), syntax_key(extension), lines) {
        Some(v) => v,
        None => Seq::empty(),
    }
}

/// The state of the highlighter between two lines.
pub struct HighlightCheckpoint {
    highlight_state: HighlightState,
    parse_state: ParseState,
    from: Ghost<nat>,
}

impl HighlightCheckpoint {
    /// The line at which the highlighter that left this state had started.
    pub closed spec fn started_at(&self) -> nat {
        self.from@
    }

    /// The state is the one after `lines`.
    pub closed spec fn is_after(
        &self,
        extension: Option<Seq<char>>,
        lines: Seq<Seq<char>>,
    ) -> bool {
        is_state_after(
            &self.highlight_state,
            &self.parse_state,
            preferred_theme(),
            syntax_key(extension),
            lines,
        )
    }

    /// A copy of the checkpoint.
    pub(crate) fn copy(&self) -> (r: HighlightCheckpoint)
        ensures
            r == *self,
    {
        HighlightCheckpoint {
            highlight_state: self.highlight_state.clone(),
            parse_state: self.parse_state.clone(),
            from: Ghost(self.from@),
        }
    }
}

/// The grammar for files with that extension, plain text where none claims it.
fn syntax_for_file<'a>(assets: &'a Assets, extension: &Option<String>) -> (r: &'a SyntaxReference)
    ensures
        is_syntax(r, syntax_key(text::opt_text(*extension))),
{
    proof {
        use_type_invariant(assets);
    }
    match extension {
        Some(e) => match syntax_by_extension(&assets.syntaxes, e.as_str()) {
            Some(s) => s,
            None => plain_text_syntax(&assets.syntaxes),
        },
        None => plain_text_syntax(&assets.syntaxes),
    }
}

/// The state at the start of a text, here the line `at` of a file.
pub(crate) fn initial_checkpoint(
    assets: &Assets,
    extension: &Option<String>,
    Ghost(at): Ghost<nat>,
) -> (r: HighlightCheckpoint)
    ensures
        r.started_at() == at,
        r.is_after(text::opt_text(*extension), Seq::empty()),
{
    proof {
        use_type_invariant(assets);
    }
    let syntax = syntax_for_file(assets, extension);
    let h = start(syntax, &assets.theme);
    assert(given(&h, text::opt_text(*extension), Seq::empty()));
    let (highlight_state, parse_state) = save(h);
    HighlightCheckpoint { highlight_state, parse_state, from: Ghost(at) }
}

/// A highlighter that goes on from a checkpoint.
pub(crate) fn resume_from<'a>(assets: &'a Assets, checkpoint: HighlightCheckpoint) -> (r:
    HighlightLines<'a>)
    ensures
        forall|e: Option<Seq<char>>, lines: Seq<Seq<char>>|
            checkpoint.is_after(e, lines) ==> #[trigger] given(&r, e, lines),
{
    proof {
        use_type_invariant(assets);
    }
    resume(&assets.theme, checkpoint.highlight_state, checkpoint.parse_state)
}

/// The coloured regions of the next line.
pub(crate) fn highlight_line(highlighter: &mut HighlightLines<'_>, line: &str, assets: &Assets)
    -> (r: Vec<Region>)
    requires
        is_short(line@),
        exists|e: Option<Seq<char>>, lines: Seq<Seq<char>>|
            #[trigger] given(old(highlighter), e, lines) && are_short(lines),
    ensures
        forall|e: Option<Seq<char>>, lines: Seq<Seq<char>>|
            #[trigger] given(old(highlighter), e, lines) ==> given(
                final(highlighter),
                e,
                lines.push(line@),
            ) && style::region_views(r@) == regions_of_last(e, lines.push(line@)) && (r@.len() == 0
                || style::region_text(style::region_views(r@)) == line@),
{
    proof {
        use_type_invariant(assets);
    }
    match next_line(highlighter, line, &assets.syntaxes) {
        Some(v) => v,
        None => {
            let r: Vec<Region> = Vec::new();
            assert(style::region_views(r@) =~= Seq::empty());
            r
        },
    }
}

/// The state of a highlighter that had started at line `from`.
pub(crate) fn checkpoint_of(highlighter: HighlightLines<'_>, Ghost(from): Ghost<nat>) -> (r:
    HighlightCheckpoint)
    ensures
        r.started_at() == from,
        forall|e: Option<Seq<char>>, lines: Seq<Seq<char>>|
            given(&highlighter, e, lines) ==> #[trigger] r.is_after(e, lines),
{
    let (highlight_state, parse_state) = save(highlighter);
    HighlightCheckpoint { highlight_state, parse_state, from: Ghost(from) }
}

/// The preferred theme is used whenever there is one of its name, wherever it stands
/// among the others; without it some theme is used as long as there is any.
pub proof fn law_preferred_theme_is_used(names: Seq<Seq<char>>, i: int)
    requires
        0 <= i < names.len(),
    ensures
        names[i] == "base16-ocean.dark"@ ==> chosen_theme(names) == Some("base16-ocean.dark"@),
        chosen_theme(names) matches Some(n) && names.contains(n),
        !names.contains("base16-ocean.dark"@) ==> chosen_theme(names) == Some(names.first()),
{
}

/// A file is coloured by the grammar of its extension where some grammar claims that
/// extension, and as plain text otherwise. Where the grammar fails, nothing is reported.
pub proof fn law_grammar_is_that_of_the_extension(e: Seq<char>, lines: Seq<Seq<char>>)
    ensures
        extension_known(e) ==> syntax_key(Some(e)) == Some(e),
        !extension_known(e) ==> syntax_key(Some(e)) == syntax_key(None),
        syntax_key(None) is None,
        match last_line_regions("base16-ocean.dark"@, syntax_key(Some(e)), lines) {
            Some(v) => regions_of_last(Some(e), lines) == v,
            None => regions_of_last(Some(e), lines).len() == 0,
        },
        !extension_known(e) ==> regions_of_last(Some(e), lines) == regions_of_last(None, lines),
{
}

} // verus!
