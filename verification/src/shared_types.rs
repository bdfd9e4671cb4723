//! Types and helpers that every report shares.

use crate::filter::{includes, patterns_compile, rules_of, texts, FileFilter};
use vstd::pervasive::unreached;
use vstd::prelude::*;
use vstd::std_specs::cmp::PartialEqSpecImpl;
use vstd::string::{StrSliceExecFns, StringExecFns};
use vstd::utf8::encode_utf8;

verus! {

/// The patterns that make a changed path count as a source file: the
/// recognised extensions, without dot-files and without what lies under
/// `node_modules/` or `target/`.
pub const FILE_GLOBS: [&'static str; 4] = [
    "*.{cs,c,cpp,fs,go,js,java,py,rs,ts,tsx}",
    "!.*",
    "!node_modules/",
    "!target/",
];

/// How much a command says about its own progress.
#[derive(Debug, Clone, Copy, PartialEq, Eq, Structural)]
pub enum Verbosity {
    Silent,
    Error,
    Info,
    Debug,
    Trace,
}

impl Verbosity {
    /// The two lowest levels.
    pub open spec fn quiet(self) -> bool {
        self is Silent || self is Error
    }

    /// The two highest levels.
    pub open spec fn verbose(self) -> bool {
        self is Debug || self is Trace
    }

    /// The three highest levels.
    pub open spec fn informative(self) -> bool {
        self is Info || self is Debug || self is Trace
    }

    /// The level that `occurrences` repetitions of the verbosity flag ask
    /// for. The silent flag is looked at only from the fourth repetition on.
    pub open spec fn of_flags(occurrences: u64, silent: bool) -> Verbosity {
        if occurrences == 0 {
            Verbosity::Error
        } else if occurrences == 1 {
            Verbosity::Info
        } else if occurrences == 2 {
            Verbosity::Debug
        } else if occurrences == 3 {
            Verbosity::Trace
        } else if silent {
            Verbosity::Silent
        } else {
            Verbosity::Trace
        }
    }

    pub fn is_quiet(&self) -> (r: bool)
        ensures
            r == self.quiet(),
    {
        match self {
            Verbosity::Silent => true,
            Verbosity::Error => true,
            _ => false,
        }
    }

    pub fn is_not_quiet(&self) -> (r: bool)
        ensures
            r == !self.quiet(),
    {
        !self.is_quiet()
    }

    pub fn is_verbose(&self) -> (r: bool)
        ensures
            r == self.verbose(),
    {
        match self {
            Verbosity::Debug => true,
            Verbosity::Trace => true,
            _ => false,
        }
    }

    pub fn is_informative(&self) -> (r: bool)
        ensures
            r == self.informative(),
    {
        match self {
            Verbosity::Info => true,
            Verbosity::Debug => true,
            Verbosity::Trace => true,
            _ => false,
        }
    }

    /// The level for a command line with `occurrences` verbosity flags.
    pub fn from_flags(occurrences: u64, silent: bool) -> (level: Verbosity)
        ensures
            level == Verbosity::of_flags(occurrences, silent),
    {
        match occurrences {
            0 => Verbosity::Error,
            1 => Verbosity::Info,
            2 => Verbosity::Debug,
            3 => Verbosity::Trace,
            _ => {
                if silent {
                    Verbosity::Silent
                } else {
                    Verbosity::Trace
                }
            },
        }
    }
}

pub struct MetricsConfig {
    pub repository_path: String,
    pub verbosity: Verbosity,
    pub output: String,
    pub includes: String,
    pub excludes: String,
}

pub struct ContributorsConfig {
    pub repository_path: String,
    pub verbosity: Verbosity,
    pub output: String,
    pub includes: String,
    pub excludes: String,
}

pub struct BusFactorConfig {
    pub repository_path: String,
    pub verbosity: Verbosity,
    pub output: String,
    pub includes: String,
    pub excludes: String,
}

/// What the analysis of one file gave; every measure is absent where the
/// file's language has no analyser or its contents do not parse.
pub struct SpecificMetrics {
    pub path: String,
    pub cyclomatic: Option<i64>,
    pub cognitive: Option<i64>,
    pub loc: Option<i64>,
}

pub struct HottestConfig {
    pub repository_path: String,
    pub verbosity: Verbosity,
    pub output: String,
    pub includes: String,
    pub excludes: String,
    pub top: u32,
}

/// A contributor as a mathematical value.
pub struct Identity {
    pub email: Seq<char>,
    pub name: Seq<char>,
}

/// Who authored a commit. Two keys are the same contributor when their
/// emails are equal, whatever the names say.
#[derive(Debug)]
pub struct ContributorKey {
    email: String,
    name: String,
}

impl View for ContributorKey {
    type V = Identity;

    closed spec fn view(&self) -> Identity {
        Identity { email: self.email@, name: self.name@ }
    }
}

/// How a contributor is shown: the name, then the email in angle brackets.
pub open spec fn label_of(who: Identity) -> Seq<char> {
    who.name + seq!['<'] + who.email + seq!['>']
}

impl ContributorKey {
    pub fn new(email: String, name: String) -> (key: Self)
        ensures
            key@ == (Identity { email: email@, name: name@ }),
    {
        Self { email, name }
    }

    pub fn email(&self) -> (r: &str)
        ensures
            r@ == self@.email,
    {
        self.email.as_str()
    }

    pub fn name(&self) -> (r: &str)
        ensures
            r@ == self@.name,
    {
        self.name.as_str()
    }

    /// The contributor as text: `name<email>`.
    pub fn label(&self) -> (r: String)
        ensures
            r@ == label_of(self@),
    {
        proof {
            reveal_strlit("<");
            reveal_strlit(">");
        }
        let mut text = String::from_str(self.name.as_str());
        text.append("<");
        text.append(self.email.as_str());
        text.append(">");
        assert(text@ == label_of(self@));
        text
    }
}

impl Clone for ContributorKey {
    fn clone(&self) -> (key: Self)
        ensures
            key == *self,
    {
        Self { email: self.email.clone(), name: self.name.clone() }
    }
}

impl PartialEq for ContributorKey {
    fn eq(&self, other: &Self) -> (r: bool) {
        self.email == other.email
    }
}

impl Eq for ContributorKey {

}

impl PartialEqSpecImpl for ContributorKey {
    open spec fn obeys_eq_spec() -> bool {
        true
    }

    open spec fn eq_spec(&self, other: &Self) -> bool {
        self@.email == other@.email
    }
}

/// The three dots that stand for what was cut off.
pub open spec fn ellipsis() -> Seq<char> {
    seq!['.', '.', '.']
}

/// Whether `value` takes at most `length` bytes.
pub open spec fn fits(value: Seq<char>, length: usize) -> bool {
    encode_utf8(value).len() <= length
}

/// The first `count` characters of `value`, or all of it if it has fewer.
pub open spec fn leading(value: Seq<char>, count: int) -> Seq<char> {
    if count >= value.len() {
        value
    } else {
        value.take(count)
    }
}

/// The last `count` characters of `value`, or all of it if it has fewer.
pub open spec fn trailing(value: Seq<char>, count: int) -> Seq<char> {
    if count >= value.len() {
        value
    } else {
        value.skip(value.len() - count)
    }
}

/// `value` cut at its right end: unchanged where it fits, else its first
/// `length - 3` characters and an ellipsis.
pub open spec fn truncated_right(value: Seq<char>, length: usize) -> Seq<char> {
    if fits(value, length) {
        value
    } else {
        leading(value, length - 3) + ellipsis()
    }
}

/// `value` cut at its left end: unchanged where it fits, else an ellipsis
/// and its last `length - 3` characters.
pub open spec fn truncated_left(value: Seq<char>, length: usize) -> Seq<char> {
    if fits(value, length) {
        value
    } else {
        ellipsis() + trailing(value, length - 3)
    }
}

/// Shortens `value` at its right end to make room in a column of `length`.
///
/// Whether the value fits is judged by its length in bytes; what is kept is
/// counted in characters.
pub fn truncate_right(value: String, length: usize) -> (r: String)
    requires
        fits(value@, length) || length >= 3,
    ensures
        r@ == truncated_right(value@, length),
{
    if value.as_str().as_bytes().len() <= length {
        value
    } else {
        proof {
            reveal_strlit("...");
        }
        let count = value.as_str().unicode_len();
        let keep = if length - 3 < count {
            length - 3
        } else {
            count
        };
        let mut text = String::from_str(value.as_str().substring_char(0, keep));
        text.append("...");
        assert(text@ == truncated_right(value@, length));
        text
    }
}

/// Shortens `value` at its left end to make room in a column of `length`.
///
/// Whether the value fits is judged by its length in bytes; what is kept is
/// counted in characters.
pub fn truncate_left(value: String, length: usize) -> (r: String)
    requires
        fits(value@, length) || length >= 3,
    ensures
        r@ == truncated_left(value@, length),
{
    if value.as_str().as_bytes().len() <= length {
        value
    } else {
        proof {
            reveal_strlit("...");
        }
        let count = value.as_str().unicode_len();
        let keep = if length - 3 < count {
            length - 3
        } else {
            count
        };
        let mut text = String::from_str("...");
        text.append(value.as_str().substring_char(count - keep, count));
        assert(text@ == truncated_left(value@, length));
        text
    }
}

/// Whether `path` passes the filter that `patterns` describe.
pub fn is_supported_file(patterns: Vec<&str>, path: &str) -> (r: bool)
    requires
        patterns_compile(texts(patterns@)),
    ensures
        r == includes(rules_of(texts(patterns@)), path@),
{
    match FileFilter::new(&patterns) {
        Some(filter) => filter.is_included(path),
        None => unreached(),
    }
}

/// Whether `path` passes the filter that `patterns` describe, or `None`
/// where no filter can be built from them.
pub fn check_supported_file(patterns: Vec<&str>, path: &str) -> (r: Option<bool>)
    ensures
        r is Some <==> patterns_compile(texts(patterns@)),
        r matches Some(supported) ==> supported == includes(rules_of(texts(patterns@)), path@),
{
    if FileFilter::new(&patterns).is_some() {
        Some(is_supported_file(patterns, path))
    } else {
        None
    }
}

} // verus!
