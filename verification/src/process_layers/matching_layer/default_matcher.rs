use vstd::prelude::*;
use std::rc::Rc;
use crate::input_event::{joined_signatures, InputEvent};
use crate::pattern::PatternEvent;
use crate::process_layers::matching_layer::PartialMatchEvent;
use crate::process_layers::matching_layer::matcher::Matcher;

verus! {

#[verifier::external_type_specification]
#[verifier::external_body]
pub struct ExRegex(regex::Regex);

#[verifier::external_type_specification]
#[verifier::external_body]
pub struct ExRegexError(regex::Error);

/// Whether `text` as a whole matches the regular expression `pattern`; with `escape`, the
/// pattern is taken literally.
pub uninterp spec fn signature_match(pattern: Seq<char>, escape: bool, text: Seq<char>) -> bool;

/// The characters that have significance in a regular expression.
pub open spec fn is_regex_meta(c: char) -> bool {
    c == '\\' || c == '.' || c == '+' || c == '*' || c == '?' || c == '(' || c == ')' || c == '|' || c == '['
        || c == ']' || c == '{' || c == '}' || c == '^' || c == '$' || c == '#' || c == '&' || c == '-' || c == '~'
}

/// The text of `pattern` with a backslash before every meta character of regular expressions.
pub open spec fn regex_escaped(pattern: Seq<char>) -> Seq<char>
    decreases pattern.len(),
{
    if pattern.len() == 0 {
        Seq::empty()
    } else {
        let r = regex_escaped(pattern.drop_last());
        let c = pattern.last();
        if is_regex_meta(c) {
            r.push('\\').push(c)
        } else {
            r.push(c)
        }
    }
}

/// Escapes the meta characters of `pattern`.
///
/// Calls `regex::escape`, which puts a backslash before each character that
/// `regex_syntax::is_meta_character` names, and keeps every other character.
#[verifier::external_body]
fn escape_meta(pattern: &str) -> (res: String)
    ensures
        res@ == regex_escaped(pattern@),
{
    regex::escape(pattern)
}

/// Whether `syntax` compiles into a regular expression, within the default size limits.
pub uninterp spec fn regex_compiles(syntax: Seq<char>) -> bool;

/// Compiles a regular expression.
///
/// Calls `regex::Regex::new`. The contract names whether it succeeds; nothing more is
/// claimed of the compiled expression here.
#[verifier::external_body]
fn compile_regex(syntax: &str) -> (res: Result<regex::Regex, regex::Error>)
    ensures
        res is Ok <==> regex_compiles(syntax@),
{
    regex::Regex::new(syntax)
}

/// The syntax of an expression that matches a whole input: `pattern` between `^` and `$`,
/// escaped when `escape_regex` is set.
pub open spec fn anchored_syntax(pattern: Seq<char>, escape_regex: bool) -> Seq<char> {
    seq!['^'] + (if escape_regex { regex_escaped(pattern) } else { pattern }) + seq!['$']
}

/// Builds a regular expression that must match a whole input: `pattern` between `^` and `$`,
/// with its meta characters escaped when `escape_regex` is set.
pub fn construct_regex(pattern: &str, escape_regex: bool) -> (res: Result<regex::Regex, regex::Error>)
    ensures
        res is Ok <==> regex_compiles(anchored_syntax(pattern@, escape_regex)),
{
    proof {
        reveal_strlit("^");
        reveal_strlit("$");
    }
    let body = if escape_regex {
        escape_meta(pattern)
    } else {
        String::from_str(pattern)
    };
    let mut match_syntax = String::from_str("^");
    match_syntax.append(body.as_str());
    match_syntax.append("$");
    assert(match_syntax@ =~= anchored_syntax(pattern@, escape_regex));
    compile_regex(match_syntax.as_str())
}

/// The text that a pattern event's matcher matches against: the signatures of the event, of
/// its subject and of its object, joined by `'\0'`.
pub open spec fn pattern_text(e: PatternEvent) -> Seq<char> {
    joined_signatures(e.signature@, e.subject.signature@, e.object.signature@)
}

/// Matches input events against a pattern event: the signatures of an input event and of its
/// endpoints must match those of the pattern event, as regular expressions or literally.
pub struct DefaultMatcher<'p> {
    regex_matcher: regex::Regex,
    matched: &'p PatternEvent,
    use_regex: bool,
}

impl<'p> DefaultMatcher<'p> {
    /// The pattern event matched.
    pub closed spec fn pattern_event(&self) -> PatternEvent {
        *self.matched
    }

    /// Whether the signatures are regular expressions.
    pub closed spec fn regex_mode(&self) -> bool {
        self.use_regex
    }

    /// The matcher of `pattern`; the error of the regex crate when its joined signatures do
    /// not compile.
    pub fn new(pattern: &'p PatternEvent, use_regex: bool) -> (res: Result<Self, regex::Error>)
        requires
            pattern.signature@.len() + pattern.subject.signature@.len() + pattern.object.signature@.len() + 2
                <= usize::MAX,
        ensures
            res is Ok <==> regex_compiles(anchored_syntax(pattern_text(*pattern), !use_regex)),
            res matches Ok(m) ==> m.pattern_event() == *pattern && m.regex_mode() == use_regex,
    {
        let sep = "\0";
        proof {
            reveal_strlit("\0");
        }
        let mut regex_pattern = String::from_str(pattern.signature.as_str());
        regex_pattern.append(sep);
        regex_pattern.append(pattern.subject.signature.as_str());
        regex_pattern.append(sep);
        regex_pattern.append(pattern.object.signature.as_str());
        assert(regex_pattern@ =~= pattern_text(*pattern));
        match construct_regex(regex_pattern.as_str(), !use_regex) {
            Ok(regex_matcher) => Ok(DefaultMatcher { regex_matcher, matched: pattern, use_regex }),
            Err(e) => Err(e),
        }
    }

    /// Whether the joined signatures `text` match.
    ///
    /// Calls `regex::Regex::is_match` on the expression that `new` built from the joined
    /// signatures of the pattern event. The contract claims that the answer is the named
    /// full match of that text and, when the signatures are taken literally, that it is
    /// plain equality, as `regex::escape` documents.
    #[verifier::external_body]
    fn matches_text(&self, text: &str) -> (res: bool)
        ensures
            res == signature_match(pattern_text(self.pattern_event()), !self.regex_mode(), text@),
            !self.regex_mode() ==> (res <==> text@ == pattern_text(self.pattern_event())),
    {
        self.regex_matcher.is_match(text)
    }

    /// Return true if and only if the signatures of the input event and of its endpoints
    /// match those of the pattern event.
    pub fn is_match(&self, input: &InputEvent) -> (res: bool)
        ensures
            res == signature_match(pattern_text(self.pattern_event()), !self.regex_mode(), input.signatures_view()),
            !self.regex_mode() ==> (res <==> input.signatures_view() == pattern_text(self.pattern_event())),
    {
        self.matches_text(input.get_signatures())
    }
}

impl<'p> Matcher<'p> for DefaultMatcher<'p> {
    /// The match of `input`, with match order 0, when it matches; the second value is always
    /// false, as one input event gives at most one match.
    fn get_match(&mut self, input: &Rc<InputEvent>) -> (res: Option<(PartialMatchEvent<'p>, bool)>)
        ensures
            *final(self) == *old(self),
            match res {
                Some((m, more)) => {
                    &&& signature_match(pattern_text(old(self).pattern_event()), !old(self).regex_mode(), input.signatures_view())
                    &&& *m.matched == old(self).pattern_event()
                    &&& m.input_event == *input
                    &&& m.match_ord == 0
                    &&& !more
                },
                None => !signature_match(pattern_text(old(self).pattern_event()), !old(self).regex_mode(), input.signatures_view()),
            },
    {
        if self.is_match(input) {
            Some((PartialMatchEvent { matched: self.matched, input_event: Rc::clone(input), match_ord: 0 }, false))
        } else {
            None
        }
    }
}

} // verus!
