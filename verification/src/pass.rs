//! A pass: rules whose patterns are compiled into one regex, so that a text is
//! scanned once for all of them.

use std::sync::Arc;
use vstd::prelude::*;
use regex_automata::meta::{BuildError, Regex};
use regex_automata::util::captures::Captures;
use regex_automata::util::syntax;
use vstd::utf8::encode_utf8;
use crate::matching::{
    groups, matched_pattern, slice, slice_of, span_fits, well_matched, Match, MatchView,
};
use crate::merge::{
    first_with_key, keys_of, lemma_merge_step, lemma_position, merged, merged_upto, position,
};
use crate::tag::Tag;

verus! {

/// A regex compiled from several patterns.
#[verifier::external_type_specification]
#[verifier::external_body]
pub struct ExRegex(Regex);

/// Why the regex engine could not compile a set of patterns.
#[verifier::external_type_specification]
#[verifier::external_body]
pub struct ExBuildError(BuildError);

/// What the regex engine makes of `patterns`, compiled together under the two
/// settings of its syntax: the regex, or the reason why there is none. With
/// `multi_line`, `^` and `$` match at every line; with `case_insensitive`, letters
/// match in either case.
pub uninterp spec fn built(
    patterns: Seq<Seq<char>>,
    multi_line: bool,
    case_insensitive: bool,
) -> Result<Regex, BuildError>;

/// What the patterns of a pass are compiled to. A pass lets `^` and `$` match at
/// every line, and letters in either case.
pub open spec fn compiled(patterns: Seq<Seq<char>>) -> Result<Regex, BuildError> {
    built(patterns, true, true)
}

/// The matches that `regex` finds in `input`, from left to right, none
/// overlapping another.
pub uninterp spec fn scan(regex: Regex, input: Seq<char>) -> Seq<Captures>;

/// The message of `error`.
pub uninterp spec fn build_error_text(error: BuildError) -> Seq<char>;

/// The message of the syntax error behind `error`, if a syntax error is behind it.
pub uninterp spec fn syntax_error_text(error: BuildError) -> Option<Seq<char>>;

/// The most patterns that the regex engine takes at once.
pub const PATTERN_LIMIT: usize = 2147483647;

/// The texts of `patterns`.
pub open spec fn texts(patterns: Seq<String>) -> Seq<Seq<char>> {
    Seq::new(patterns.len(), |i: int| patterns[i]@)
}

/// The rules that `patterns` and `tags` make, pair by pair.
pub open spec fn paired(patterns: Seq<Seq<char>>, tags: Seq<SharedTag>) -> Seq<
    (Seq<char>, SharedTag),
> {
    Seq::new(patterns.len(), |i: int| (patterns[i], tags[i]))
}

/// The patterns of `rules`.
pub open spec fn keys(rules: Seq<(Seq<char>, SharedTag)>) -> Seq<Seq<char>> {
    Seq::new(rules.len(), |i: int| rules[i].0)
}

/// `Builder::build_many`, with the two settings handed on to the syntax of the
/// builder: the outcome named [`built`]. The builder numbers the patterns and
/// panics on more than it can number.
#[verifier::external_body]
fn build_regex(patterns: &Vec<String>, multi_line: bool, case_insensitive: bool) -> (r: Result<
    Regex,
    BuildError,
>)
    requires
        patterns.len() <= PATTERN_LIMIT,
    ensures
        r == built(texts(patterns@), multi_line, case_insensitive),
{
    Regex::builder().syntax(
        syntax::Config::new().multi_line(multi_line).case_insensitive(case_insensitive),
    ).build_many(patterns)
}

/// `Regex::captures_iter`, gathered into a vector in the order in which the
/// matches are yielded: the matches named [`scan`].
#[verifier::external_body]
fn find_all(regex: &Regex, input: &str) -> (r: Vec<Captures>)
    ensures
        r@ == scan(*regex, input@),
{
    regex.captures_iter(input).collect()
}

/// The `Display` text of a `BuildError`.
#[verifier::external_body]
fn error_text(error: &BuildError) -> (r: String)
    ensures
        r@ == build_error_text(*error),
{
    error.to_string()
}

/// `BuildError::syntax_error`, as the `Display` text of the syntax error.
#[verifier::external_body]
fn syntax_text(error: &BuildError) -> (r: Option<String>)
    ensures
        match r {
            Some(text) => syntax_error_text(*error) == Some(text@),
            None => syntax_error_text(*error) is None,
        },
{
    match error.syntax_error() {
        Some(syntax) => Some(syntax.to_string()),
        None => None,
    }
}

/// Why a pass could not be made.
#[derive(Debug)]
pub enum CreationError {
    /// The regex engine refused the patterns.
    BadRegex(BuildError),
    /// There are more patterns than the regex engine can number.
    TooManyPatterns,
}

/// Whether `patterns` can be made into a pass.
pub open spec fn compiles(patterns: Seq<Seq<char>>) -> bool {
    patterns.len() <= PATTERN_LIMIT && compiled(patterns) is Ok
}

/// Why `patterns` cannot be made into a pass, where they cannot.
pub open spec fn refusal(patterns: Seq<Seq<char>>) -> CreationError {
    if patterns.len() > PATTERN_LIMIT {
        CreationError::TooManyPatterns
    } else {
        CreationError::BadRegex(compiled(patterns)->Err_0)
    }
}

/// What [`CreationError::message`] says of a refusal by the regex engine.
pub open spec fn bad_regex_message(error: BuildError) -> Seq<char> {
    "regex combination failed: "@ + match syntax_error_text(error) {
        Some(text) => "msg: "@ + text,
        None => build_error_text(error),
    }
}

/// What [`CreationError::message`] says of `error`.
pub open spec fn creation_message(error: CreationError) -> Seq<char> {
    match error {
        CreationError::BadRegex(error) => bad_regex_message(error),
        CreationError::TooManyPatterns => "regex combination failed: too many patterns"@,
    }
}

impl CreationError {
    /// Says what went wrong; for a syntax error, with the words of the parser.
    pub fn message(&self) -> (r: String)
        ensures
            r@ == creation_message(*self),
    {
        match self {
            CreationError::BadRegex(err) => {
                let mut text = "regex combination failed: ".to_owned();
                match syntax_text(err) {
                    Some(syntax_msg) => {
                        text.append("msg: ");
                        text.append(syntax_msg.as_str());
                    },
                    None => {
                        let msg = error_text(err);
                        text.append(msg.as_str());
                    },
                }
                text
            },
            CreationError::TooManyPatterns => {
                "regex combination failed: too many patterns".to_owned()
            },
        }
    }
}

/// A tag that several passes may hold at once. Tags do not change once they are
/// made, so a pass that takes over rules of another shares their tags with it.
// The box stays inside the shared pointer: `Arc::new` takes it as it is, where a
// conversion into `Arc<dyn Tag>` would unsize it anew and hide from the verifier
// which tag it is.
pub type SharedTag = Arc<Box<dyn Tag>>;

/// `Arc::clone` hands out another pointer to the same tag.
#[verifier::external_body]
fn share(tag: &SharedTag) -> (r: SharedTag)
    ensures
        r == *tag,
{
    Arc::clone(tag)
}

/// `Regex::clone` hands out a regex that matches as the one it was made from.
#[verifier::external_body]
fn clone_regex(regex: &Regex) -> (r: Regex)
    ensures
        r == *regex,
{
    regex.clone()
}

/// Where the rewriting of a text stands: what has been written, and the byte of
/// the text up to which it has been read.
pub struct Splice {
    pub out: Seq<char>,
    pub cursor: int,
}

/// The match that `c` is in `text`: the groups, the text, the pattern and the
/// span of the whole match.
pub open spec fn match_view(c: Captures, text: Seq<char>) -> MatchView {
    let whole = groups(c)[0].unwrap();
    MatchView {
        captures: c,
        input: text,
        pattern: matched_pattern(c).unwrap(),
        start: whole.0,
        end: whole.1,
    }
}

/// Whether a pass with `rules` rules that has read `text` up to `cursor` acts on
/// `c`: it is a match with spans that fit the text, of a pattern that has a rule,
/// and it starts where the reading stands or later.
pub open spec fn acts_on(c: Captures, text: Seq<char>, rules: int, cursor: int) -> bool {
    &&& well_matched(c, text)
    &&& 0 <= match_view(c, text).pattern < rules
    &&& match_view(c, text).start >= cursor
}

/// One step of the rewriting: the text between the cursor and the match is
/// copied, the replacement is written in place of the match, and the cursor moves
/// behind the match. Anything that the pass does not act on changes nothing.
pub open spec fn splice_step(
    before: Splice,
    text: Seq<char>,
    c: Captures,
    rules: int,
    replacement: Seq<char>,
) -> Splice {
    if acts_on(c, text, rules, before.cursor) {
        let m = match_view(c, text);
        Splice {
            out: before.out + slice_of(text, before.cursor, m.start) + replacement,
            cursor: m.end,
        }
    } else {
        before
    }
}

/// The rewriting after the first `k` of the matches `found`, with the
/// replacements `replacements`.
pub open spec fn spliced(
    text: Seq<char>,
    found: Seq<Captures>,
    rules: int,
    replacements: Seq<Seq<char>>,
    k: int,
) -> Splice
    decreases k,
{
    if k <= 0 {
        Splice { out: Seq::empty(), cursor: 0 }
    } else {
        splice_step(
            spliced(text, found, rules, replacements, k - 1),
            text,
            found[k - 1],
            rules,
            replacements[k - 1],
        )
    }
}

/// The whole of a text is the slice from its first byte to its last.
pub proof fn lemma_whole_slice(text: Seq<char>)
    ensures
        slice_of(text, 0, encode_utf8(text).len() as int) == text,
{
    let bytes = encode_utf8(text);
    assert(bytes.subrange(0, bytes.len() as int) =~= bytes);
    vstd::utf8::encode_utf8_decode_utf8(text);
}

/// A group of rules with their patterns compiled into one regex.
pub struct Pass {
    regexes: Vec<String>,
    tags: Vec<SharedTag>,
    multi_regex: Regex,
}

impl Pass {
    #[verifier::type_invariant]
    pub(crate) open spec fn compiled(&self) -> bool {
        self.wf()
    }

    /// Each pattern has its tag, and the regex is the one compiled from the
    /// patterns.
    pub closed spec fn wf(&self) -> bool {
        &&& self.regexes.len() == self.tags.len()
        &&& compiled(texts(self.regexes@)) == Ok::<Regex, BuildError>(self.multi_regex)
    }

    /// The patterns, in the order of their rules.
    pub closed spec fn patterns(&self) -> Seq<Seq<char>> {
        texts(self.regexes@)
    }

    /// The tags, in the order of their rules.
    pub closed spec fn tags(&self) -> Seq<SharedTag> {
        self.tags@
    }

    /// The regex compiled from the patterns.
    pub closed spec fn regex(&self) -> Regex {
        self.multi_regex
    }

    /// A pass has as many tags as patterns, and its regex is compiled from the
    /// patterns.
    pub proof fn lemma_wf(&self)
        requires
            self.wf(),
        ensures
            self.patterns().len() == self.tags().len(),
            compiled(self.patterns()) == Ok::<Regex, BuildError>(self.regex()),
    {
    }

    /// Compiles the patterns of `rules` into one regex and keeps each tag for its
    /// pattern.
    pub fn new(rules: Vec<(String, Box<dyn Tag>)>) -> (r: Result<Self, CreationError>)
        ensures
            match r {
                Ok(pass) => {
                    &&& compiles(keys_of(rules@))
                    &&& pass.wf()
                    &&& pass.patterns() == keys_of(rules@)
                    &&& pass.tags().len() == rules.len()
                    &&& forall|i: int|
                        0 <= i < rules.len() ==> #[trigger] pass.tags()[i] == rules[i].1
                },
                Err(e) => !compiles(keys_of(rules@)) && e == refusal(keys_of(rules@)),
            },
    {
        let mut patterns: Vec<String> = Vec::new();
        let mut tags: Vec<SharedTag> = Vec::new();
        let ghost given = rules@;
        for rule in iter: rules
            invariant
                iter.seq() == given,
                patterns.len() == iter.index(),
                tags.len() == iter.index(),
                forall|i: int| 0 <= i < iter.index() ==> #[trigger] patterns@[i]@ == given[i].0@,
                forall|i: int| 0 <= i < iter.index() ==> #[trigger] tags@[i] == given[i].1,
        {
            let (pattern, tag) = rule;
            let shared = Arc::new(tag);
            patterns.push(pattern);
            tags.push(shared);
        }
        proof {
            assert(texts(patterns@) =~= keys_of(given));
        }
        Self::from_parts(patterns, tags)
    }

    /// Compiles `patterns` into one regex and keeps `tags` beside them.
    pub(crate) fn from_parts(patterns: Vec<String>, tags: Vec<SharedTag>) -> (r: Result<
        Self,
        CreationError,
    >)
        requires
            patterns.len() == tags.len(),
        ensures
            match r {
                Ok(pass) => {
                    &&& compiles(texts(patterns@))
                    &&& pass.wf()
                    &&& pass.patterns() == texts(patterns@)
                    &&& pass.tags() == tags@
                },
                Err(e) => !compiles(texts(patterns@)) && e == refusal(texts(patterns@)),
            },
    {
        if patterns.len() > PATTERN_LIMIT {
            return Err(CreationError::TooManyPatterns);
        }
        match build_regex(&patterns, true, true) {
            Ok(multi_regex) => Ok(Self { regexes: patterns, multi_regex, tags }),
            Err(error) => Err(CreationError::BadRegex(error)),
        }
    }

    /// Whether `out` is what the pass may make of `text` when its tags give
    /// `replacements` for the matches found, one for each.
    pub open spec fn rewrites_with(
        &self,
        text: Seq<char>,
        replacements: Seq<Seq<char>>,
        out: Seq<char>,
    ) -> bool {
        let found = scan(self.regex(), text);
        let rules = self.tags().len() as int;
        let end = spliced(text, found, rules, replacements, found.len() as int);
        &&& replacements.len() == found.len()
        &&& forall|k: int|
            0 <= k < found.len() && acts_on(
                found[k],
                text,
                rules,
                spliced(text, found, rules, replacements, k).cursor,
            ) ==> (#[trigger] self.tags()[match_view(found[k], text).pattern]).produces(
                match_view(found[k], text),
                replacements[k],
            )
        &&& out == end.out + slice_of(text, end.cursor, encode_utf8(text).len() as int)
    }

    /// Whether `out` is a text that the pass may make of `text`: every match
    /// replaced by what the tag of its pattern may give for it, the rest
    /// untouched.
    pub open spec fn rewrites(&self, text: Seq<char>, out: Seq<char>) -> bool {
        exists|replacements: Seq<Seq<char>>| self.rewrites_with(text, replacements, out)
    }

    /// The rules: each pattern with its tag.
    pub open spec fn rules(&self) -> Seq<(Seq<char>, SharedTag)> {
        paired(self.patterns(), self.tags())
    }

    /// The patterns, in the order of their rules.
    pub fn regexes(&self) -> (r: &Vec<String>)
        ensures
            texts(r@) == self.patterns(),
    {
        &self.regexes
    }

    /// The number of rules.
    pub fn len(&self) -> (r: usize)
        ensures
            r == self.patterns().len(),
    {
        self.regexes.len()
    }

    /// Lays the rules of `other` over the rules of this pass and compiles the
    /// outcome: a rule of `other` whose pattern this pass has gives its tag to the
    /// rule with that pattern, which keeps its place; a rule with a new pattern
    /// goes to the end. This pass stays as it is.
    pub fn extend(&self, other: Pass) -> (r: Result<Self, CreationError>)
        ensures
            match r {
                Ok(pass) => {
                    &&& compiles(keys(merged(self.rules(), other.rules())))
                    &&& pass.wf()
                    &&& pass.rules() == merged(self.rules(), other.rules())
                },
                Err(e) => {
                    &&& !compiles(keys(merged(self.rules(), other.rules())))
                    &&& e == refusal(keys(merged(self.rules(), other.rules())))
                },
            },
    {
        proof {
            use_type_invariant(self);
            use_type_invariant(&other);
        }
        let ghost base = self.rules();
        let ghost extra = other.rules();
        let base_len = self.regexes.len();

        let mut patterns: Vec<String> = Vec::new();
        let mut tags: Vec<SharedTag> = Vec::new();
        let mut i: usize = 0;
        while i < base_len
            invariant
                i <= base_len == self.regexes.len() == self.tags.len(),
                patterns.len() == i,
                tags.len() == i,
                forall|j: int| 0 <= j < i ==> #[trigger] patterns@[j]@ == self.regexes@[j]@,
                forall|j: int| 0 <= j < i ==> #[trigger] tags@[j] == self.tags@[j],
            decreases base_len - i,
        {
            patterns.push(self.regexes[i].clone());
            tags.push(share(&self.tags[i]));
            i = i + 1;
        }
        proof {
            assert(paired(texts(patterns@), tags@) =~= merged_upto(base, extra, 0));
        }
        let mut k: usize = 0;
        while k < other.regexes.len()
            invariant
                k <= other.regexes.len() == other.tags.len() == extra.len(),
                base == self.rules(),
                extra == other.rules(),
                base_len == base.len(),
                patterns.len() == tags.len(),
                patterns.len() >= base_len,
                paired(texts(patterns@), tags@) == merged_upto(base, extra, k as int),
            decreases other.regexes.len() - k,
        {
            let ghost before = paired(texts(patterns@), tags@);
            let ghost key = extra[k as int].0;
            proof {
                assert(key == other.regexes@[k as int]@);
                assert forall|x: int| 0 <= x < base_len implies (#[trigger] patterns@[x])@
                    == base[x].0 by {
                    assert(before[x].0 == patterns@[x]@);
                }
                lemma_merge_step(base, extra, k as int);
                lemma_position(base, base.len() as int, key);
            }
            let tag = share(&other.tags[k]);
            let found = first_with_key(&patterns, base_len, &other.regexes[k]);
            proof {
                if let Some(x) = position(base, base.len() as int, key) {
                    assert(patterns@[x]@ == base[x].0);
                }
                if let Some(place) = found {
                    assert(patterns@[place as int]@ == base[place as int].0);
                }
                assert(match found {
                    Some(place) => position(base, base.len() as int, key) == Some(place as int),
                    None => position(base, base.len() as int, key) is None,
                });
            }
            match found {
                Some(place) => {
                    tags.set(place, tag);
                    proof {
                        assert(paired(texts(patterns@), tags@) =~= before.update(
                            place as int,
                            (base[place as int].0, extra[k as int].1),
                        ));
                    }
                },
                None => {
                    patterns.push(other.regexes[k].clone());
                    tags.push(tag);
                    proof {
                        assert(paired(texts(patterns@), tags@) =~= before.push(extra[k as int]));
                    }
                },
            }
            k = k + 1;
        }
        proof {
            assert(texts(patterns@) =~= keys(merged(base, extra)));
        }
        match Self::from_parts(patterns, tags) {
            Ok(pass) => {
                proof {
                    assert(pass.rules() =~= merged(base, extra));
                }
                Ok(pass)
            },
            Err(e) => Err(e),
        }
    }

    /// Scans `text` once and replaces every match by what the tag of its pattern
    /// gives for it. A text without a match comes back as it is.
    pub fn apply(&self, text: &str) -> (r: String)
        ensures
            self.rewrites(text@, r@),
            scan(self.regex(), text@).len() == 0 ==> r@ == text@,
    {
        proof {
            use_type_invariant(self);
            vstd::utf8::encode_utf8_valid_utf8(text@);
            vstd::utf8::is_char_boundary_start_end_of_seq(encode_utf8(text@));
            lemma_whole_slice(text@);
        }
        let found = find_all(&self.multi_regex, text);
        let ghost all = found@;
        let ghost rules = self.tags@.len() as int;
        let byte_len = text.as_bytes().len();

        if found.len() == 0 {
            proof {
                assert(self.rewrites_with(text@, Seq::empty(), text@));
            }
            return text.to_owned();
        }
        let mut last_replacement: usize = 0;
        let mut output = String::new();
        let ghost mut given: Seq<Seq<char>> = Seq::empty();

        for captures in iter: found
            invariant
                iter.seq() == all,
                all == scan(self.multi_regex, text@),
                rules == self.tags@.len(),
                byte_len == encode_utf8(text@).len(),
                given.len() == iter.index(),
                span_fits(text@, last_replacement as int, byte_len as int),
                spliced(text@, all, rules, given, iter.index() as int) == (Splice {
                    out: output@,
                    cursor: last_replacement as int,
                }),
                forall|k: int|
                    0 <= k < iter.index() && acts_on(
                        all[k],
                        text@,
                        rules,
                        spliced(text@, all, rules, given, k).cursor,
                    ) ==> (#[trigger] self.tags@[match_view(all[k], text@).pattern]).produces(
                        match_view(all[k], text@),
                        given[k],
                    ),
        {
            let ghost before = given;
            let ghost done = iter.index() as int;
            let mut replacement = String::new();
            match Match::new(captures, text) {
                None => {},
                Some(m) => {
                    let range = m.get_range();
                    let pattern = m.get_pattern();
                    if pattern < self.tags.len() && range.start >= last_replacement {
                        replacement = self.tags[pattern].generate(&m);
                        output.append(slice(text, last_replacement, range.start));
                        output.append(replacement.as_str());
                        last_replacement = range.end;
                    }
                },
            }
            proof {
                given = given.push(replacement@);
                lemma_spliced_prefix(text@, all, rules, before, given, done);
                assert forall|k: int|
                    0 <= k < done + 1 && acts_on(
                        all[k],
                        text@,
                        rules,
                        spliced(text@, all, rules, given, k).cursor,
                    ) implies (#[trigger] self.tags@[match_view(all[k], text@).pattern]).produces(
                    match_view(all[k], text@),
                    given[k],
                ) by {
                    lemma_spliced_prefix(text@, all, rules, before, given, k);
                }
            }
        }
        output.append(slice(text, last_replacement, byte_len));
        proof {
            assert(self.rewrites_with(text@, given, output@));
        }
        output
    }
}

/// The rewriting after the first `k` matches depends on the first `k`
/// replacements only.
pub proof fn lemma_spliced_prefix(
    text: Seq<char>,
    found: Seq<Captures>,
    rules: int,
    first: Seq<Seq<char>>,
    second: Seq<Seq<char>>,
    k: int,
)
    requires
        k <= first.len() <= second.len(),
        forall|i: int| 0 <= i < k ==> first[i] == second[i],
    ensures
        spliced(text, found, rules, first, k) == spliced(text, found, rules, second, k),
    decreases k,
{
    if k > 0 {
        lemma_spliced_prefix(text, found, rules, first, second, k - 1);
    }
}

impl Clone for Pass {
    /// A pass with the same rules, which shares the tags of this one.
    fn clone(&self) -> (r: Self)
        ensures
            r.wf(),
            r.rules() == self.rules(),
            r.regex() == self.regex(),
    {
        proof {
            use_type_invariant(self);
        }
        let mut regexes: Vec<String> = Vec::new();
        let mut tags: Vec<SharedTag> = Vec::new();
        let mut i: usize = 0;
        while i < self.regexes.len()
            invariant
                i <= self.regexes.len() == self.tags.len(),
                regexes.len() == i,
                tags.len() == i,
                forall|j: int| 0 <= j < i ==> #[trigger] regexes@[j]@ == self.regexes@[j]@,
                forall|j: int| 0 <= j < i ==> #[trigger] tags@[j] == self.tags@[j],
            decreases self.regexes.len() - i,
        {
            regexes.push(self.regexes[i].clone());
            tags.push(share(&self.tags[i]));
            i = i + 1;
        }
        proof {
            assert(texts(regexes@) =~= texts(self.regexes@));
            assert(tags@ =~= self.tags@);
        }
        Self { regexes, tags, multi_regex: clone_regex(&self.multi_regex) }
    }
}

/// A pass that finds nothing in a text leaves the text as it is.
pub proof fn lemma_no_match(pass: Pass, text: Seq<char>, out: Seq<char>)
    requires
        scan(pass.regex(), text).len() == 0,
        pass.rewrites(text, out),
    ensures
        out == text,
{
    lemma_whole_slice(text);
    let replacements = choose|replacements: Seq<Seq<char>>|
        pass.rewrites_with(text, replacements, out);
    assert(out =~= text);
}

} // verus!
