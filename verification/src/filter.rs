//! Which changed paths count as source files.
//!
//! A filter is an ordered list of patterns. A pattern that starts with `!`
//! excludes what it matches, any other includes it, and for a given path the
//! last pattern that matches decides. A path that no pattern matches is
//! excluded.
//!
//! A pattern without a separator before its last character applies at every
//! depth of the tree, and one that ends in a separator names a directory and
//! covers everything beneath it. Both are turned into globs for the matcher
//! of `crate::glob`, which decides whether a single glob matches a path.

use crate::glob::{
    add_glob, build_set, builder_globs, glob_is_valid, glob_matches, matching_globs, new_builder,
    parse_glob, set_compiles, set_globs,
};
use globset::{Error, GlobSet};
use vstd::prelude::*;
use vstd::string::{StrSliceExecFns, StringExecFns};

verus! {

/// One pattern as the matcher sees it: the glob, and what a match means.
pub struct Rule {
    pub excluded: bool,
    pub glob: Seq<char>,
}

/// The texts of a list of string slices.
pub open spec fn texts(patterns: Seq<&str>) -> Seq<Seq<char>> {
    patterns.map_values(|p: &str| p@)
}

/// A pattern that starts with `!` excludes what it matches.
pub open spec fn is_exclusion(pattern: Seq<char>) -> bool {
    pattern.len() > 0 && pattern[0] == '!'
}

/// The pattern without its leading `!`, if it has one.
pub open spec fn pattern_body(pattern: Seq<char>) -> Seq<char> {
    if is_exclusion(pattern) {
        pattern.subrange(1, pattern.len() as int)
    } else {
        pattern
    }
}

/// A body that ends in a separator names a directory.
pub open spec fn names_directory(body: Seq<char>) -> bool {
    body.len() > 0 && body.last() == '/'
}

/// A body with a separator before its last character is tied to the root of
/// the tree; any other applies at every depth.
pub open spec fn is_anchored(body: Seq<char>) -> bool {
    exists|i: int| 0 <= i < body.len() - 1 && body[i] == '/'
}

/// The glob that stands for a pattern body.
pub open spec fn glob_of(body: Seq<char>) -> Seq<char> {
    let head = if is_anchored(body) {
        body
    } else {
        seq!['*', '*', '/'] + body
    };
    if names_directory(body) {
        head + seq!['*', '*']
    } else {
        head
    }
}

/// The rule that a pattern stands for.
pub open spec fn rule_of(pattern: Seq<char>) -> Rule {
    Rule { excluded: is_exclusion(pattern), glob: glob_of(pattern_body(pattern)) }
}

/// The rules that a list of patterns stands for, in the same order.
pub open spec fn rules_of(patterns: Seq<Seq<char>>) -> Seq<Rule> {
    patterns.map_values(|p: Seq<char>| rule_of(p))
}

/// The globs of a list of rules.
pub open spec fn globs_of(rules: Seq<Rule>) -> Seq<Seq<char>> {
    rules.map_values(|r: Rule| r.glob)
}

/// Whether the matcher accepts every glob of the list and the list as a whole.
pub open spec fn globs_compile(globs: Seq<Seq<char>>) -> bool {
    &&& forall|i: int| 0 <= i < globs.len() ==> glob_is_valid(#[trigger] globs[i])
    &&& set_compiles(globs)
}

/// Whether a filter can be built from these patterns.
pub open spec fn patterns_compile(patterns: Seq<Seq<char>>) -> bool {
    globs_compile(globs_of(rules_of(patterns)))
}

/// Whether rule `i` is the last one that matches `path`.
pub open spec fn decides(rules: Seq<Rule>, i: int, path: Seq<char>) -> bool {
    &&& 0 <= i < rules.len()
    &&& glob_matches(rules[i].glob, path)
    &&& forall|j: int| i < j < rules.len() ==> !glob_matches(#[trigger] rules[j].glob, path)
}

/// A path is included when some rule matches it and the last one that does
/// is not an exclusion.
pub open spec fn includes(rules: Seq<Rule>, path: Seq<char>) -> bool {
    exists|i: int| #[trigger] decides(rules, i, path) && !rules[i].excluded
}

/// Compiles a list of globs into one matcher.
///
/// Fails exactly when the matcher refuses one of the globs or the list as a
/// whole; otherwise the set numbers the globs in the order given.
pub fn build_globset(patterns: Vec<&str>) -> (r: Result<GlobSet, Error>)
    ensures
        r is Ok <==> globs_compile(texts(patterns@)),
        r matches Ok(set) ==> set_globs(set) == texts(patterns@),
{
    let mut builder = new_builder();
    let mut i: usize = 0;
    while i < patterns.len()
        invariant
            0 <= i <= patterns.len(),
            builder_globs(builder) == texts(patterns@).take(i as int),
            forall|k: int| 0 <= k < i ==> glob_is_valid(#[trigger] texts(patterns@)[k]),
        decreases patterns.len() - i,
    {
        match parse_glob(patterns[i]) {
            Ok(glob) => {
                add_glob(&mut builder, glob);
                assert(texts(patterns@).take(i as int).push(texts(patterns@)[i as int])
                    == texts(patterns@).take(i + 1));
            },
            Err(e) => {
                assert(!glob_is_valid(texts(patterns@)[i as int]));
                return Err(e);
            },
        }
        i += 1;
    }
    assert(texts(patterns@).take(i as int) == texts(patterns@));
    build_set(&builder)
}

/// Whether `body`, of `len` characters, has a separator before its last character.
fn has_inner_separator(body: &str, len: usize) -> (r: bool)
    requires
        len == body@.len(),
    ensures
        r == is_anchored(body@),
{
    if len == 0 {
        return false;
    }
    let mut i: usize = 0;
    while i < len - 1
        invariant
            len == body@.len(),
            len > 0,
            0 <= i <= len - 1,
            forall|k: int| 0 <= k < i ==> body@[k] != '/',
        decreases len - i,
    {
        if body.get_char(i) == '/' {
            return true;
        }
        i += 1;
    }
    false
}

/// Reads one pattern: whether it excludes, and the glob that stands for it.
pub fn parse_pattern(pattern: &str) -> (r: (bool, String))
    ensures
        r.0 == rule_of(pattern@).excluded,
        r.1@ == rule_of(pattern@).glob,
{
    let len = pattern.unicode_len();
    let excluded = len > 0 && pattern.get_char(0) == '!';
    let start: usize = if excluded {
        1
    } else {
        0
    };
    let body = pattern.substring_char(start, len);
    let body_len: usize = len - start;
    assert(body@ == pattern_body(pattern@));
    let directory = body_len > 0 && body.get_char(body_len - 1) == '/';
    let anchored = has_inner_separator(body, body_len);
    proof {
        reveal_strlit("**/");
        reveal_strlit("**");
    }
    let mut glob = if anchored {
        String::new()
    } else {
        String::from_str("**/")
    };
    glob.append(body);
    if directory {
        glob.append("**");
    }
    assert(glob@ == glob_of(body@));
    (excluded, glob)
}

/// An ordered list of include and exclude patterns, compiled for matching.
pub struct FileFilter {
    excluded: Vec<bool>,
    set: GlobSet,
}

impl View for FileFilter {
    type V = Seq<Rule>;

    closed spec fn view(&self) -> Seq<Rule> {
        Seq::new(
            self.excluded@.len(),
            |i: int| Rule { excluded: self.excluded@[i], glob: set_globs(self.set)[i] },
        )
    }
}

impl FileFilter {
    #[verifier::type_invariant]
    spec fn well_formed(&self) -> bool {
        self.excluded@.len() == set_globs(self.set).len()
    }

    /// The filter as a predicate on paths.
    pub open spec fn predicate(&self) -> spec_fn(Seq<char>) -> bool {
        |path: Seq<char>| includes(self@, path)
    }

    /// Compiles `patterns`, in their order.
    ///
    /// Succeeds exactly when the matcher accepts the globs that the patterns
    /// stand for; the filter then holds one rule for each pattern.
    pub fn new(patterns: &Vec<&str>) -> (r: Option<FileFilter>)
        ensures
            r is Some <==> patterns_compile(texts(patterns@)),
            r matches Some(filter) ==> filter@ == rules_of(texts(patterns@)),
    {
        let ghost rules = rules_of(texts(patterns@));
        let mut excluded: Vec<bool> = Vec::new();
        let mut globs: Vec<String> = Vec::new();
        let mut i: usize = 0;
        while i < patterns.len()
            invariant
                0 <= i <= patterns.len(),
                rules == rules_of(texts(patterns@)),
                excluded@.len() == i,
                globs@.len() == i,
                forall|k: int| 0 <= k < i ==> excluded@[k] == rules[k].excluded,
                forall|k: int| 0 <= k < i ==> (#[trigger] globs@[k])@ == rules[k].glob,
            decreases patterns.len() - i,
        {
            let (flag, glob) = parse_pattern(patterns[i]);
            excluded.push(flag);
            globs.push(glob);
            i += 1;
        }
        let mut borrowed: Vec<&str> = Vec::new();
        let mut j: usize = 0;
        while j < globs.len()
            invariant
                0 <= j <= globs.len(),
                borrowed@.len() == j,
                forall|k: int| 0 <= k < j ==> (#[trigger] borrowed@[k])@ == globs@[k]@,
            decreases globs.len() - j,
        {
            borrowed.push(globs[j].as_str());
            j += 1;
        }
        assert(texts(borrowed@) =~= globs_of(rules));
        match build_globset(borrowed) {
            Ok(set) => {
                let filter = FileFilter { excluded, set };
                assert(filter@ =~= rules);
                Some(filter)
            },
            Err(_) => None,
        }
    }

    /// How many patterns the filter holds.
    pub fn len(&self) -> (n: usize)
        ensures
            n == self@.len(),
    {
        self.excluded.len()
    }

    /// Whether `path` is included: some pattern matches it, and the last one
    /// that does is not an exclusion.
    pub fn is_included(&self, path: &str) -> (r: bool)
        ensures
            r == includes(self@, path@),
            r == (self.predicate())(path@),
    {
        proof {
            use_type_invariant(self);
        }
        let hits = matching_globs(&self.set, path);
        let count = self.excluded.len();
        let ghost rules = self@;
        assert(rules.len() == count);
        if hits.len() == 0 {
            assert forall|i: int| !decides(rules, i, path@) by {
                if 0 <= i < rules.len() {
                    assert(!hits@.contains(i as usize));
                    assert(set_globs(self.set)[i] == rules[i].glob);
                }
            }
            false
        } else {
            let last = hits[hits.len() - 1];
            assert(hits@.contains(last));
            assert(set_globs(self.set)[last as int] == rules[last as int].glob);
            assert forall|j: int| last < j < rules.len() implies !glob_matches(
                #[trigger] rules[j].glob,
                path@,
            ) by {
                assert(set_globs(self.set)[j] == rules[j].glob);
                if hits@.contains(j as usize) {
                    let k = choose|k: int| 0 <= k < hits@.len() && hits@[k] == j as usize;
                    if k < hits@.len() - 1 {
                        assert(hits@[k] < hits@[hits@.len() - 1]);
                    }
                }
            }
            assert(decides(rules, last as int, path@));
            assert forall|i: int| #[trigger] decides(rules, i, path@) implies i == last by {
                if i < last {
                    assert(glob_matches(rules[last as int].glob, path@));
                }
            }
            !self.excluded[last]
        }
    }
}

} // verus!
