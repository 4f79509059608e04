//! Line markers: from one line of preprocessor output to one event.
//!
//! A line marker has the shape `# <line-number> "<path>"`, followed by any
//! number of flags, each a space and one digit. The shape is matched by the
//! `regex` crate; what is made of the matched fields is decided here.

use crate::flags::{flag_of_token, Flag, FlagSet};
use crate::pattern::{
    all_matches, capture_groups, groups_view, regex_captures, regex_compiles, regex_matches,
};
use crate::text::{chars_of, parse_unsigned, starts_with, strings_view, unsigned_of_text};
use vstd::prelude::*;

verus! {

/// The pattern of a line marker. Its three groups are the line number, the
/// path between the quotes, and the run of flags.
pub const LINE_PATTERN: &'static str = r#"# (\d+) "([^"]*)"((?: \d)*)"#;

/// The pattern of one flag token inside the run of flags.
pub const FLAG_PATTERN: &'static str = r"\d";

/// Why a run over line markers stops.
#[derive(Clone, Copy, Debug, PartialEq, Eq, Structural)]
pub enum MarkerError {
    /// The matcher does not accept one of the library's patterns.
    InvalidPattern,
    /// The line-number field does not spell a number that fits the machine.
    MalformedLineNumber,
    /// A flag token is not one of `1`, `2`, `3`, `4`.
    UnrecognizedFlag,
    /// A marker returns to an enclosing file while only the root is open.
    UnbalancedReturn,
}

/// What one line marker says.
#[derive(Debug)]
pub struct DirectiveEvent {
    /// The line number that the marker gives.
    pub line_number: usize,
    /// The marker's path, without the first of the caller's prefixes that it began with.
    pub path: String,
    /// The marker's flags.
    pub flags: FlagSet,
}

/// A [`DirectiveEvent`] as plain values.
pub struct DirectiveView {
    pub line_number: nat,
    pub path: Seq<char>,
    pub flags: Set<Flag>,
}

impl View for DirectiveEvent {
    type V = DirectiveView;

    open spec fn view(&self) -> DirectiveView {
        DirectiveView { line_number: self.line_number as nat, path: self.path@, flags: self.flags@ }
    }
}

/// The three fields of a matched line marker, as the text that was matched.
#[derive(Debug)]
pub struct MarkerFields {
    /// The digits of the line number.
    pub line_number: String,
    /// The path between the quotes.
    pub path: String,
    /// The run of flags, where the match has one.
    pub flags: Option<String>,
}

/// [`MarkerFields`] as plain values.
pub struct MarkerFieldsView {
    pub line_number: Seq<char>,
    pub path: Seq<char>,
    pub flags: Option<Seq<char>>,
}

impl View for MarkerFields {
    type V = MarkerFieldsView;

    open spec fn view(&self) -> MarkerFieldsView {
        MarkerFieldsView {
            line_number: self.line_number@,
            path: self.path@,
            flags: match self.flags {
                Some(f) => Some(f@),
                None => None,
            },
        }
    }
}

/// `path` without the first of `prefixes` that it begins with; `path` itself
/// where it begins with none of them. The first one wins, not the longest.
pub open spec fn strip_first_prefix(prefixes: Seq<Seq<char>>, path: Seq<char>) -> Seq<char>
    decreases prefixes.len(),
{
    if prefixes.len() == 0 {
        path
    } else if prefixes[0].is_prefix_of(path) {
        path.skip(prefixes[0].len() as int)
    } else {
        strip_first_prefix(prefixes.drop_first(), path)
    }
}

/// The first prefix that fits is the one that is stripped, whatever comes
/// after it in the list.
pub proof fn lemma_first_prefix_wins(prefixes: Seq<Seq<char>>, path: Seq<char>, first: int)
    requires
        0 <= first < prefixes.len(),
        prefixes[first].is_prefix_of(path),
        forall|j: int| 0 <= j < first ==> !(#[trigger] prefixes[j]).is_prefix_of(path),
    ensures
        strip_first_prefix(prefixes, path) == path.skip(prefixes[first].len() as int),
    decreases first,
{
    if first > 0 {
        assert(!prefixes[0].is_prefix_of(path));
        let rest = prefixes.drop_first();
        assert forall|j: int| 0 <= j < first - 1 implies !(#[trigger] rest[j]).is_prefix_of(
            path,
        ) by {
            assert(rest[j] == prefixes[j + 1]);
        }
        lemma_first_prefix_wins(rest, path, first - 1);
    }
}

/// A path that begins with none of the prefixes stays as it is.
pub proof fn lemma_no_prefix_fits(prefixes: Seq<Seq<char>>, path: Seq<char>)
    requires
        forall|j: int| 0 <= j < prefixes.len() ==> !(#[trigger] prefixes[j]).is_prefix_of(path),
    ensures
        strip_first_prefix(prefixes, path) == path,
    decreases prefixes.len(),
{
    if prefixes.len() > 0 {
        assert(!prefixes[0].is_prefix_of(path));
        let rest = prefixes.drop_first();
        assert forall|j: int| 0 <= j < rest.len() implies !(#[trigger] rest[j]).is_prefix_of(
            path,
        ) by {
            assert(rest[j] == prefixes[j + 1]);
        }
        lemma_no_prefix_fits(rest, path);
    }
}

/// Shortens `path` for display: strips the first of `prefixes` that it begins with.
pub fn normalize_path(prefixes: &[String], path: &str) -> (r: String)
    ensures
        r@ == strip_first_prefix(strings_view(prefixes@), path@),
{
    let chars = chars_of(path);
    let ghost all = strings_view(prefixes@);
    let mut i: usize = 0;
    assert(all.skip(0) =~= all);
    while i < prefixes.len()
        invariant
            i <= prefixes.len(),
            chars@ == path@,
            all == strings_view(prefixes@),
            strip_first_prefix(all, path@) == strip_first_prefix(all.skip(i as int), path@),
        decreases prefixes.len() - i,
    {
        let prefix = chars_of(prefixes[i].as_str());
        proof {
            assert(all.skip(i as int)[0] == prefix@);
            assert(all.skip(i as int).drop_first() =~= all.skip(i + 1));
        }
        if starts_with(&chars, &prefix) {
            let rest = path.substring_char(prefix.len(), chars.len());
            assert(rest@ =~= path@.skip(prefix@.len() as int));
            return rest.to_owned();
        }
        i += 1;
    }
    assert(all.skip(i as int).len() == 0);
    path.to_owned()
}

/// Reads the first two fields of a line marker: the line number from its
/// digits `n`, and the path `p` shortened by `prefixes`.
///
/// The digits must spell a line number: [`parse_unsigned`] tells whether they do.
pub fn line_number_and_path(prefixes: &[String], n: &str, p: &str) -> (r: (usize, String))
    requires
        unsigned_of_text(n@) is Some,
    ensures
        Some(r.0) == unsigned_of_text(n@),
        r.1@ == strip_first_prefix(strings_view(prefixes@), p@),
{
    let line_number = parse_unsigned(n).unwrap();
    let path = normalize_path(prefixes, p);
    (line_number, path)
}

/// Whether every token names a flag.
pub open spec fn all_flags(tokens: Seq<Seq<char>>) -> bool {
    forall|i: int| 0 <= i < tokens.len() ==> flag_of_token(#[trigger] tokens[i]) is Some
}

/// The flags that the tokens name.
pub open spec fn flag_set_of(tokens: Seq<Seq<char>>) -> Set<Flag> {
    Set::new(
        |flag: Flag|
            exists|i: int| 0 <= i < tokens.len() && flag_of_token(#[trigger] tokens[i]) == Some(flag),
    )
}

/// Reads the flags of a marker from their tokens. One token that names no flag
/// fails the whole marker.
pub fn flags_from_tokens(tokens: &Vec<String>) -> (r: Result<FlagSet, MarkerError>)
    ensures
        r is Ok <==> all_flags(strings_view(tokens@)),
        r matches Ok(set) ==> set@ == flag_set_of(strings_view(tokens@)),
        r matches Err(e) ==> e == MarkerError::UnrecognizedFlag,
{
    let ghost all = strings_view(tokens@);
    let mut set = FlagSet::new();
    let mut i: usize = 0;
    assert(set@ =~= flag_set_of(all.take(0)));
    while i < tokens.len()
        invariant
            i <= tokens.len(),
            all == strings_view(tokens@),
            all_flags(all.take(i as int)),
            set@ == flag_set_of(all.take(i as int)),
        decreases tokens.len() - i,
    {
        match Flag::from_str(tokens[i].as_str()) {
            Err(_) => {
                assert(flag_of_token(all[i as int]) is None);
                return Err(MarkerError::UnrecognizedFlag);
            },
            Ok(flag) => {
                let ghost before = all.take(i as int);
                let ghost after = all.take(i + 1);
                set.insert(flag);
                proof {
                    assert(after[i as int] == all[i as int]);
                    assert forall|f: Flag| #[trigger]
                        flag_set_of(after).contains(f) == flag_set_of(before).insert(
                            flag,
                        ).contains(f) by {
                        if flag_set_of(after).contains(f) {
                            let j = choose|j: int|
                                0 <= j < after.len() && flag_of_token(#[trigger] after[j]) == Some(
                                    f,
                                );
                            if j < i {
                                assert(before[j] == after[j]);
                            }
                        }
                        if flag_set_of(before).contains(f) {
                            let j = choose|j: int|
                                0 <= j < before.len() && flag_of_token(#[trigger] before[j])
                                    == Some(f);
                            assert(after[j] == before[j]);
                        }
                    }
                    assert(set@ =~= flag_set_of(after));
                    assert forall|j: int| 0 <= j < after.len() implies flag_of_token(
                        #[trigger] after[j],
                    ) is Some by {
                        if j < i {
                            assert(before[j] == after[j]);
                        }
                    }
                }
            },
        }
        i += 1;
    }
    assert(all.take(i as int) =~= all);
    Ok(set)
}

/// The texts of the groups that took part in a match, in their order.
pub open spec fn present(groups: Seq<Option<Seq<char>>>) -> Seq<Seq<char>>
    decreases groups.len(),
{
    if groups.len() == 0 {
        Seq::empty()
    } else {
        match groups.last() {
            Some(text) => present(groups.drop_last()).push(text),
            None => present(groups.drop_last()),
        }
    }
}

/// The fields of a marker, from the capture groups of a match: group 0, the
/// whole match, is passed over; of the groups that took part, the first is the
/// line number, the second the path and the third, if there is one, the run of
/// flags. A match with fewer than two such groups is no marker.
pub open spec fn fields_of_groups(groups: Seq<Option<Seq<char>>>) -> Option<MarkerFieldsView> {
    let found = if groups.len() == 0 {
        Seq::empty()
    } else {
        present(groups.skip(1))
    };
    if found.len() < 2 {
        None
    } else {
        Some(
            MarkerFieldsView {
                line_number: found[0],
                path: found[1],
                flags: if found.len() >= 3 {
                    Some(found[2])
                } else {
                    None
                },
            },
        )
    }
}

/// Picks the fields of a marker out of the capture groups of a match.
pub fn marker_fields(groups: &Vec<Option<String>>) -> (r: Option<MarkerFields>)
    ensures
        match r {
            Some(fields) => fields_of_groups(groups_view(groups@)) == Some(fields@),
            None => fields_of_groups(groups_view(groups@)) is None,
        },
{
    if groups.len() == 0 {
        return None;
    }
    let ghost all = groups_view(groups@);
    let ghost rest = all.skip(1);
    let mut found: Vec<String> = Vec::new();
    let mut i: usize = 1;
    assert(rest.take(0) =~= Seq::<Option<Seq<char>>>::empty());
    while i < groups.len()
        invariant
            1 <= i <= groups.len(),
            all == groups_view(groups@),
            rest == all.skip(1),
            strings_view(found@) == present(rest.take(i - 1)),
        decreases groups.len() - i,
    {
        proof {
            assert(rest.take(i as int).drop_last() =~= rest.take(i - 1));
            assert(rest.take(i as int).last() == all[i as int]);
        }
        match &groups[i] {
            Some(text) => {
                found.push(text.clone());
                assert(strings_view(found@) =~= present(rest.take(i - 1)).push(text@));
            },
            None => {},
        }
        i += 1;
    }
    assert(rest.take(i - 1) =~= rest);
    if found.len() < 2 {
        None
    } else {
        let flags = if found.len() >= 3 {
            Some(found[2].clone())
        } else {
            None
        };
        Some(MarkerFields { line_number: found[0].clone(), path: found[1].clone(), flags })
    }
}

/// The event that a marker's fields make, or why they make none: the line
/// number is read first, then the flags.
pub open spec fn event_of_fields(
    prefixes: Seq<Seq<char>>,
    n: Seq<char>,
    p: Seq<char>,
    tokens: Seq<Seq<char>>,
) -> Result<DirectiveView, MarkerError> {
    match unsigned_of_text(n) {
        None => Err(MarkerError::MalformedLineNumber),
        Some(line_number) => if all_flags(tokens) {
            Ok(
                DirectiveView {
                    line_number: line_number as nat,
                    path: strip_first_prefix(prefixes, p),
                    flags: flag_set_of(tokens),
                },
            )
        } else {
            Err(MarkerError::UnrecognizedFlag)
        },
    }
}

/// Makes the event of one marker from its matched fields: the digits `n` of the
/// line number, the path `p` and the flag tokens.
pub fn event_from_fields(prefixes: &[String], n: &str, p: &str, tokens: &Vec<String>) -> (r:
    Result<DirectiveEvent, MarkerError>)
    ensures
        match r {
            Ok(event) => event_of_fields(
                strings_view(prefixes@),
                n@,
                p@,
                strings_view(tokens@),
            ) == Ok::<DirectiveView, MarkerError>(event@),
            Err(e) => event_of_fields(strings_view(prefixes@), n@, p@, strings_view(tokens@))
                == Err::<DirectiveView, MarkerError>(e),
        },
{
    if parse_unsigned(n).is_none() {
        return Err(MarkerError::MalformedLineNumber);
    }
    let (line_number, path) = line_number_and_path(prefixes, n, p);
    match flags_from_tokens(tokens) {
        Ok(flags) => Ok(DirectiveEvent { line_number, path, flags }),
        Err(e) => Err(e),
    }
}

/// Whether a line can be a marker at all: markers begin with `#`.
pub open spec fn is_candidate(line: Seq<char>) -> bool {
    line.len() > 0 && line[0] == '#'
}

/// The fields that a search for `pattern` finds in `line`: an error for a
/// pattern that the matcher does not accept, nothing where the pattern is not
/// found, and else what [`fields_of_groups`] makes of the leftmost match. The
/// matcher's part is named, not described: see [`regex_captures`].
pub open spec fn found_fields(pattern: Seq<char>, line: Seq<char>) -> Result<
    Option<MarkerFieldsView>,
    MarkerError,
> {
    if !regex_compiles(pattern) {
        Err(MarkerError::InvalidPattern)
    } else {
        match regex_captures(pattern, line) {
            None => Ok(None),
            Some(groups) => Ok(fields_of_groups(groups)),
        }
    }
}

/// The outcome of [`find_fields`] as plain values.
pub open spec fn fields_outcome_view(r: Result<Option<MarkerFields>, MarkerError>) -> Result<
    Option<MarkerFieldsView>,
    MarkerError,
> {
    match r {
        Ok(Some(fields)) => Ok(Some(fields@)),
        Ok(None) => Ok(None),
        Err(e) => Err(e),
    }
}

/// Searches `line` for `pattern` and picks the fields of a marker out of the
/// leftmost match.
pub fn find_fields(pattern: &str, line: &str) -> (r: Result<Option<MarkerFields>, MarkerError>)
    ensures
        fields_outcome_view(r) == found_fields(pattern@, line@),
{
    match capture_groups(pattern, line) {
        Err(_) => Err(MarkerError::InvalidPattern),
        Ok(None) => Ok(None),
        Ok(Some(groups)) => Ok(marker_fields(&groups)),
    }
}

/// The tokens that a search for `pattern` finds in a run of flags: an error
/// for a pattern that the matcher does not accept, and else every match, from
/// left to right. The matcher's part is named, not described: see
/// [`regex_matches`].
pub open spec fn found_tokens(pattern: Seq<char>, run: Seq<char>) -> Result<
    Seq<Seq<char>>,
    MarkerError,
> {
    if regex_compiles(pattern) {
        Ok(regex_matches(pattern, run))
    } else {
        Err(MarkerError::InvalidPattern)
    }
}

/// Cuts a run of flags into its tokens: the matches of `pattern` in it.
pub fn find_tokens(pattern: &str, run: &str) -> (r: Result<Vec<String>, MarkerError>)
    ensures
        match r {
            Ok(tokens) => found_tokens(pattern@, run@) == Ok::<Seq<Seq<char>>, MarkerError>(
                strings_view(tokens@),
            ),
            Err(e) => found_tokens(pattern@, run@) == Err::<Seq<Seq<char>>, MarkerError>(e),
        },
{
    match all_matches(pattern, run) {
        Ok(tokens) => Ok(tokens),
        Err(_) => Err(MarkerError::InvalidPattern),
    }
}

/// What a line of preprocessor output says.
///
/// A line that does not begin with `#` says nothing, and neither does one in
/// which the marker pattern is not found. Where it is found, the matched fields
/// make the event; the flag tokens are the matches of the flag pattern in the
/// run of flags, and a marker without a run of flags has none.
pub open spec fn parsed_line(prefixes: Seq<Seq<char>>, line: Seq<char>) -> Result<
    Option<DirectiveView>,
    MarkerError,
> {
    if !is_candidate(line) {
        Ok(None)
    } else {
        match found_fields(LINE_PATTERN@, line) {
            Err(e) => Err(e),
            Ok(None) => Ok(None),
            Ok(Some(fields)) => {
                let tokens = match fields.flags {
                    Some(run) => found_tokens(FLAG_PATTERN@, run),
                    None => Ok(Seq::empty()),
                };
                match tokens {
                    Err(e) => Err(e),
                    Ok(tokens) => match event_of_fields(
                        prefixes,
                        fields.line_number,
                        fields.path,
                        tokens,
                    ) {
                        Ok(event) => Ok(Some(event)),
                        Err(e) => Err(e),
                    },
                }
            },
        }
    }
}

/// The outcome of [`parse_line`] as plain values.
pub open spec fn outcome_view(r: Result<Option<DirectiveEvent>, MarkerError>) -> Result<
    Option<DirectiveView>,
    MarkerError,
> {
    match r {
        Ok(Some(event)) => Ok(Some(event@)),
        Ok(None) => Ok(None),
        Err(e) => Err(e),
    }
}

/// Reads one line of preprocessor output: `Ok(None)` for a line that is no
/// marker, the event for one that is, and an error for a marker whose fields
/// cannot be read.
pub fn parse_line(prefixes: &[String], line: &str) -> (r: Result<
    Option<DirectiveEvent>,
    MarkerError,
>)
    ensures
        outcome_view(r) == parsed_line(strings_view(prefixes@), line@),
        !is_candidate(line@) ==> r == Ok::<Option<DirectiveEvent>, MarkerError>(None),
{
    if line.unicode_len() == 0 || line.get_char(0) != '#' {
        return Ok(None);
    }
    let fields = match find_fields(LINE_PATTERN, line) {
        Err(e) => {
            return Err(e);
        },
        Ok(None) => {
            return Ok(None);
        },
        Ok(Some(fields)) => fields,
    };
    let tokens = match &fields.flags {
        None => {
            let none: Vec<String> = Vec::new();
            assert(strings_view(none@) =~= Seq::<Seq<char>>::empty());
            none
        },
        Some(run) => match find_tokens(FLAG_PATTERN, run.as_str()) {
            Err(e) => {
                return Err(e);
            },
            Ok(tokens) => tokens,
        },
    };
    match event_from_fields(prefixes, fields.line_number.as_str(), fields.path.as_str(), &tokens) {
        Ok(event) => Ok(Some(event)),
        Err(e) => Err(e),
    }
}

} // verus!
