//! Text normalisation: an ordered list of substitution rules, each applied to
//! the whole message before the next one runs.
//!
//! A rule is written on one line as a pattern, the separator ` :: `, and a
//! replacement. Lines that begin with `#`, blank lines, and lines that do
//! not hold the separator exactly once are no rules and are passed over.

use vstd::prelude::*;
use regex::Regex;
use crate::text::blank;
use crate::text::chars_of;
use crate::text::is_blank;

verus! {

#[verifier::external_type_specification]
#[verifier::external_body]
pub struct ExRegex(Regex);

#[verifier::external_type_specification]
#[verifier::external_body]
pub struct ExRegexError(regex::Error);

/// The pattern text that a compiled expression was built from: what
/// `Regex::as_str` returns.
pub uninterp spec fn regex_source(re: Regex) -> Seq<char>;

/// Whether `Regex::new` accepts a pattern text.
pub uninterp spec fn pattern_compiles(pattern: Seq<char>) -> bool;

/// What `Regex::replace_all` makes of `text`, for an expression compiled
/// from `pattern` by `Regex::new`: every non-overlapping match replaced by
/// the expansion of `replacement`.
pub uninterp spec fn replaced_all(pattern: Seq<char>, text: Seq<char>, replacement: Seq<char>) -> Seq<
    char,
>;

/// `Regex::new`: compiles a pattern with the default options. Whether it
/// succeeds depends on the pattern text alone, and the expression that comes
/// back remembers that text.
#[verifier::external_body]
fn compile(pattern: &str) -> (result: Result<Regex, regex::Error>)
    ensures
        result is Ok <==> pattern_compiles(pattern@),
        result matches Ok(re) ==> regex_source(re) == pattern@,
{
    Regex::new(pattern)
}

/// `Regex::replace_all`: replaces every non-overlapping match in `text`,
/// expanding `$name` references in the replacement. Stated of expressions
/// that [`compile`] built, the only ones this library holds: for them the
/// outcome depends on the pattern text, the text and the replacement alone.
#[verifier::external_body]
fn replace_all(re: &Regex, text: &str, replacement: &str) -> (result: String)
    ensures
        result@ == replaced_all(regex_source(*re), text@, replacement@),
{
    re.replace_all(text, replacement).into_owned()
}

/// Whether the separator ` :: ` stands at position `i` of a text.
pub open spec fn separator_at(text: Seq<char>, i: int) -> bool {
    &&& 0 <= i
    &&& i + 4 <= text.len()
    &&& text[i] == ' '
    &&& text[i + 1] == ':'
    &&& text[i + 2] == ':'
    &&& text[i + 3] == ' '
}

/// Whether a text holds the separator exactly once, at position `i`: it
/// stands there, nowhere before, and nowhere in what follows it.
pub open spec fn splits_at(text: Seq<char>, i: int) -> bool {
    &&& separator_at(text, i)
    &&& forall|j: int| 0 <= j < i ==> !separator_at(text, j)
    &&& forall|j: int| i + 4 <= j ==> !separator_at(text, j)
}

/// Whether a line begins with `#`.
pub open spec fn is_comment(line: Seq<char>) -> bool {
    line.len() > 0 && line[0] == '#'
}

/// The rule that a line states, as pattern and replacement, if it states
/// one.
pub open spec fn parse_rule(line: Seq<char>) -> Option<(Seq<char>, Seq<char>)> {
    if is_comment(line) || is_blank(line) {
        None
    } else if exists|i: int| splits_at(line, i) {
        let i = choose|i: int| splits_at(line, i);
        Some((line.take(i), line.skip(i + 4)))
    } else {
        None
    }
}

/// The rules that the lines of a rule file state, in the order of the
/// lines.
pub open spec fn rules_of(lines: Seq<Seq<char>>) -> Seq<(Seq<char>, Seq<char>)>
    decreases lines.len(),
{
    if lines.len() == 0 {
        Seq::empty()
    } else {
        let before = rules_of(lines.drop_last());
        match parse_rule(lines.last()) {
            Some(rule) => before.push(rule),
            None => before,
        }
    }
}

/// Whether line `i` states a rule whose pattern does not compile.
pub open spec fn bad_pattern_at(lines: Seq<Seq<char>>, i: int) -> bool {
    0 <= i < lines.len() && (parse_rule(lines[i]) matches Some(rule) && !pattern_compiles(rule.0))
}

/// The message after each rule, in order, has replaced every match of its
/// pattern in the outcome of the rules before it.
pub open spec fn apply_rules(rules: Seq<(Seq<char>, Seq<char>)>, message: Seq<char>) -> Seq<char>
    decreases rules.len(),
{
    if rules.len() == 0 {
        message
    } else {
        replaced_all(rules.last().0, apply_rules(rules.drop_last(), message), rules.last().1)
    }
}

/// The texts of a list of strings.
pub open spec fn texts(lines: Seq<String>) -> Seq<Seq<char>> {
    Seq::new(lines.len(), |i: int| lines[i]@)
}

/// The first position at or after `from` where the separator stands.
fn find_separator(chars: &Vec<char>, from: usize) -> (found: Option<usize>)
    ensures
        found matches Some(i) ==> from <= i && separator_at(chars@, i as int) && forall|j: int|
            from <= j < i ==> !separator_at(chars@, j),
        found is None ==> forall|j: int| from <= j ==> !separator_at(chars@, j),
{
    let n = chars.len();
    if n < 4 {
        return None;
    }
    let mut i: usize = from;
    while i <= n - 4
        invariant
            n == chars@.len(),
            n >= 4,
            from <= i,
            forall|j: int| from <= j < i ==> !separator_at(chars@, j),
        decreases n - i,
    {
        if chars[i] == ' ' && chars[i + 1] == ':' && chars[i + 2] == ':' && chars[i + 3] == ' ' {
            return Some(i);
        }
        i = i + 1;
    }
    None
}

/// Reads one line of a rule file. A line that begins with `#`, a blank
/// line, and a line that does not hold the separator ` :: ` exactly once
/// state no rule. Any other line states one: its pattern is what stands
/// before the separator, its replacement what stands after it.
pub fn parse_rule_line(line: &str) -> (rule: Option<(String, String)>)
    ensures
        rule is Some <==> parse_rule(line@) is Some,
        rule matches Some(r) ==> parse_rule(line@) == Some((r.0@, r.1@)),
{
    let chars = chars_of(line);
    let n = chars.len();
    if n > 0 && chars[0] == '#' {
        return None;
    }
    if blank(&chars) {
        return None;
    }
    match find_separator(&chars, 0) {
        None => {
            assert(forall|i: int| !splits_at(line@, i));
            None
        },
        Some(first) => {
            match find_separator(&chars, first + 4) {
                Some(second) => {
                    assert forall|i: int| !splits_at(line@, i) by {
                        if splits_at(line@, i) {
                            if i < first {
                                assert(separator_at(line@, first as int));
                            } else if i > first {
                                assert(separator_at(line@, first as int));
                            } else {
                                assert(separator_at(line@, second as int));
                            }
                        }
                    }
                    None
                },
                None => {
                    proof {
                        assert(splits_at(line@, first as int));
                        let i = choose|i: int| splits_at(line@, i);
                        assert(i == first) by {
                            if i < first {
                                assert(separator_at(line@, i));
                            } else if i > first {
                                assert(separator_at(line@, first as int));
                            }
                        }
                    }
                    let pattern = String::from_str(line.substring_char(0, first));
                    let replacement = String::from_str(line.substring_char(first + 4, n));
                    Some((pattern, replacement))
                },
            }
        },
    }
}

/// Why a rule file was refused.
#[derive(Debug)]
pub struct RuleError {
    /// The position of the line whose pattern does not compile, counted
    /// from 0.
    pub line: usize,
    /// What the pattern compiler said.
    pub cause: regex::Error,
}

/// One substitution rule, its pattern compiled.
struct Rule {
    regex: Regex,
    replacement: String,
}

/// An ordered list of substitution rules.
pub struct LogPreprocessor {
    rules: Vec<Rule>,
}

impl View for LogPreprocessor {
    type V = Seq<(Seq<char>, Seq<char>)>;

    /// The rules, in order, each as pattern and replacement.
    closed spec fn view(&self) -> Seq<(Seq<char>, Seq<char>)> {
        Seq::new(
            self.rules@.len(),
            |i: int| (regex_source(self.rules@[i].regex), self.rules@[i].replacement@),
        )
    }
}

impl LogPreprocessor {
    /// Builds the preprocessor that the lines of a rule file state: the
    /// rules of [`parse_rule_line`], in the order of the lines. Lines that
    /// state no rule are passed over. The first rule whose pattern does not
    /// compile stops the reading, and its line is named.
    pub fn new(lines: &Vec<String>) -> (result: Result<Self, RuleError>)
        ensures
            result is Ok <==> forall|i: int| !bad_pattern_at(texts(lines@), i),
            result matches Ok(preprocessor) ==> preprocessor@ == rules_of(texts(lines@)),
            result matches Err(e) ==> bad_pattern_at(texts(lines@), e.line as int) && forall|j: int|
                0 <= j < e.line ==> !bad_pattern_at(texts(lines@), j),
    {
        let mut rules: Vec<Rule> = Vec::new();
        let mut i: usize = 0;
        while i < lines.len()
            invariant
                i <= lines@.len(),
                forall|j: int| 0 <= j < i ==> !bad_pattern_at(texts(lines@), j),
                (LogPreprocessor { rules })@ == rules_of(texts(lines@).take(i as int)),
            decreases lines@.len() - i,
        {
            let ghost all = texts(lines@);
            let ghost held = (LogPreprocessor { rules })@;
            proof {
                assert(all.take(i + 1).drop_last() =~= all.take(i as int));
                assert(all.take(i + 1).last() == lines@[i as int]@);
            }
            match parse_rule_line(lines[i].as_str()) {
                None => {},
                Some(stated) => {
                    let (pattern, replacement) = stated;
                    match compile(pattern.as_str()) {
                        Err(cause) => {
                            assert(bad_pattern_at(all, i as int));
                            return Err(RuleError { line: i, cause });
                        },
                        Ok(regex) => {
                            rules.push(Rule { regex, replacement });
                            proof {
                                assert((LogPreprocessor { rules })@ =~= held.push(
                                    (pattern@, replacement@),
                                ));
                            }
                        },
                    }
                },
            }
            i = i + 1;
        }
        proof {
            assert(texts(lines@).take(lines@.len() as int) =~= texts(lines@));
        }
        Ok(LogPreprocessor { rules })
    }

    /// The number of rules.
    pub fn len(&self) -> (n: usize)
        ensures
            n == self@.len(),
    {
        self.rules.len()
    }

    /// Normalises a message: applies each rule in order, every match of its
    /// pattern replaced before the next rule runs.
    pub fn preprocess(&self, message: &str) -> (canonical: String)
        ensures
            canonical@ == apply_rules(self@, message@),
    {
        let mut canonical = String::from_str(message);
        let mut i: usize = 0;
        while i < self.rules.len()
            invariant
                i <= self.rules@.len(),
                canonical@ == apply_rules(self@.take(i as int), message@),
            decreases self.rules@.len() - i,
        {
            let rule = &self.rules[i];
            proof {
                assert(self@.take(i + 1).drop_last() =~= self@.take(i as int));
                assert(self@.take(i + 1).last() == (regex_source(rule.regex), rule.replacement@));
            }
            canonical = replace_all(&rule.regex, canonical.as_str(), rule.replacement.as_str());
            i = i + 1;
        }
        proof {
            assert(self@.take(self@.len() as int) =~= self@);
        }
        canonical
    }
}

/// Shows what the rules make of each line: the line as it is, and
/// normalised, in the order of the lines.
pub fn test_patterns(lines: &Vec<String>, preprocessor: &LogPreprocessor) -> (shown: Vec<
    (String, String),
>)
    ensures
        shown@.len() == lines@.len(),
        forall|i: int|
            0 <= i < lines@.len() ==> (#[trigger] shown@[i]).0@ == lines@[i]@ && shown@[i].1@
                == apply_rules(preprocessor@, lines@[i]@),
{
    let mut shown: Vec<(String, String)> = Vec::new();
    let mut i: usize = 0;
    while i < lines.len()
        invariant
            i <= lines@.len(),
            shown@.len() == i,
            forall|j: int|
                0 <= j < i ==> (#[trigger] shown@[j]).0@ == lines@[j]@ && shown@[j].1@ == apply_rules(
                    preprocessor@,
                    lines@[j]@,
                ),
        decreases lines@.len() - i,
    {
        let processed = preprocessor.preprocess(lines[i].as_str());
        shown.push((lines[i].clone(), processed));
        i = i + 1;
    }
    shown
}

} // verus!
