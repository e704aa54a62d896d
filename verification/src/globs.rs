//! Sets of glob patterns. Paths are written with `/`, and what is said of
//! `globset` is what it does on systems that write them so.
use crate::text::{concat, texts};
use vstd::prelude::*;

verus! {

/// A pattern of `globset`.
#[verifier::external_type_specification]
#[verifier::external_body]
pub struct ExGlob(globset::Glob);

/// A set of patterns of `globset` in the making.
#[verifier::external_type_specification]
#[verifier::external_body]
pub struct ExGlobSetBuilder(globset::GlobSetBuilder);

/// A set of patterns of `globset`.
#[verifier::external_type_specification]
#[verifier::external_body]
pub struct ExGlobSet(globset::GlobSet);

/// What `globset::Glob::new` finds wrong with a pattern, if anything.
pub uninterp spec fn glob_fault(pattern: Seq<char>) -> Option<Seq<char>>;

/// The text of a pattern, written so that `globset::Glob::new` reads it.
pub uninterp spec fn glob_text(glob: globset::Glob) -> Seq<char>;

/// The patterns of a set in the making, in the order in which they were added.
pub uninterp spec fn builder_globs(builder: globset::GlobSetBuilder) -> Seq<Seq<char>>;

/// The patterns of a set, each written so that `globset::Glob::new` reads it.
pub uninterp spec fn set_globs(set: globset::GlobSet) -> Seq<Seq<char>>;

/// What `globset::GlobSetBuilder::build` finds wrong with patterns, if anything.
pub uninterp spec fn set_fault(patterns: Seq<Seq<char>>) -> Option<Seq<char>>;

/// Whether a path matches a pattern, as `globset::GlobSet::is_match` tells.
pub uninterp spec fn glob_matches(pattern: Seq<char>, path: Seq<char>) -> bool;

/// `globset::Glob::new` reads a pattern. Whether it can, and what it says where
/// it cannot, is a function of the pattern.
#[verifier::external_body]
fn compile_glob(pattern: &str) -> (glob: Result<globset::Glob, String>)
    ensures
        match glob {
            Ok(glob) => glob_fault(pattern@) is None && glob_text(glob) == pattern@,
            Err(message) => glob_fault(pattern@) == Some(message@),
        },
{
    globset::Glob::new(pattern).map_err(|err| err.to_string())
}

/// `globset::GlobSetBuilder::new` starts a set without patterns.
#[verifier::external_body]
fn new_builder() -> (builder: globset::GlobSetBuilder)
    ensures
        builder_globs(builder) == Seq::<Seq<char>>::empty(),
{
    globset::GlobSetBuilder::new()
}

/// `globset::GlobSetBuilder::add` adds a pattern behind the others.
#[verifier::external_body]
fn add_glob(builder: &mut globset::GlobSetBuilder, glob: globset::Glob)
    ensures
        builder_globs(*final(builder)) == builder_globs(*old(builder)).push(glob_text(glob)),
{
    builder.add(glob);
}

/// `globset::GlobSetBuilder::build` makes a set of the patterns so far. Whether
/// it can, and what it says where it cannot, is a function of the patterns.
#[verifier::external_body]
fn build_set(builder: &globset::GlobSetBuilder) -> (set: Result<globset::GlobSet, String>)
    ensures
        match set {
            Ok(set) => set_fault(builder_globs(*builder)) is None && set_globs(set)
                == builder_globs(*builder),
            Err(message) => set_fault(builder_globs(*builder)) == Some(message@),
        },
{
    builder.build().map_err(|err| err.to_string())
}

/// Whether a path matches one of some patterns.
pub open spec fn matches_any(patterns: Seq<Seq<char>>, path: Seq<char>) -> bool {
    exists|i: int| 0 <= i < patterns.len() && glob_matches(#[trigger] patterns[i], path)
}

/// Whether a path passes some patterns: it matches none that deny, and one of each
/// list that allows. A list without patterns lets everything pass.
pub open spec fn admits(allow: Seq<Seq<Seq<char>>>, deny: Seq<Seq<char>>, path: Seq<char>) -> bool {
    &&& !matches_any(deny, path)
    &&& forall|i: int|
        0 <= i < allow.len() && (#[trigger] allow[i]).len() > 0 ==> matches_any(allow[i], path)
}

/// `globset::GlobSet::is_match` tells whether a path matches any pattern of a
/// set. Whether it matches one is a function of the pattern and the path.
#[verifier::external_body]
fn set_matches(set: &globset::GlobSet, path: &str) -> (matched: bool)
    ensures
        matched == (exists|i: int|
            0 <= i < set_globs(*set).len() && glob_matches(#[trigger] set_globs(*set)[i], path@)),
{
    set.is_match(path)
}

/// Whether a path matches a pattern of a set.
pub fn is_match(set: &globset::GlobSet, path: &str) -> (matched: bool)
    ensures
        matched == matches_any(set_globs(*set), path@),
{
    set_matches(set, path)
}

/// The patterns of a set, if there is one.
pub open spec fn set_view(set: Option<globset::GlobSet>) -> Option<Seq<Seq<char>>> {
    match set {
        Some(set) => Some(set_globs(set)),
        None => None,
    }
}

/// The patterns of a list as a set; there is none without patterns.
pub open spec fn pattern_set(patterns: Seq<Seq<char>>) -> Option<Seq<Seq<char>>> {
    if patterns.len() == 0 {
        None
    } else {
        Some(patterns)
    }
}

/// What is wrong with the first pattern that cannot be read, if there is one.
pub open spec fn globs_fault(patterns: Seq<Seq<char>>) -> Option<Seq<char>>
    decreases patterns.len(),
{
    if patterns.len() == 0 {
        None
    } else {
        match glob_fault(patterns[0]) {
            Some(message) => Some("invalid glob "@ + patterns[0] + ": "@ + message),
            None => globs_fault(patterns.drop_first()),
        }
    }
}

/// The set of some patterns. There is none without patterns.
pub open spec fn glob_set(patterns: Seq<Seq<char>>) -> Result<
    Option<Seq<Seq<char>>>,
    Seq<char>,
> {
    if patterns.len() == 0 {
        Ok(None)
    } else {
        match (globs_fault(patterns), set_fault(patterns)) {
            (Some(message), _) => Err(message),
            (None, Some(message)) => Err("invalid glob set: "@ + message),
            (None, None) => Ok(Some(patterns)),
        }
    }
}

/// Makes a set of patterns. There is none without patterns.
pub fn build_glob_set(patterns: &Vec<String>) -> (set: Result<Option<globset::GlobSet>, String>)
    ensures
        match set {
            Ok(set) => glob_set(texts(patterns@)) == Ok::<Option<Seq<Seq<char>>>, Seq<char>>(
                set_view(set),
            ),
            Err(message) => glob_set(texts(patterns@)) == Err::<Option<Seq<Seq<char>>>, Seq<char>>(
                message@,
            ),
        },
{
    let ghost all = texts(patterns@);
    if patterns.len() == 0 {
        return Ok(None);
    }
    let mut builder = new_builder();
    let mut i: usize = 0;
    proof {
        assert(all.skip(0) =~= all);
        assert(all.take(0) =~= Seq::<Seq<char>>::empty());
    }
    while i < patterns.len()
        invariant
            i <= patterns@.len(),
            all == texts(patterns@),
            all.len() > 0,
            builder_globs(builder) == all.take(i as int),
            globs_fault(all) == globs_fault(all.skip(i as int)),
        decreases patterns@.len() - i,
    {
        proof {
            assert(all.skip(i as int)[0] == patterns@[i as int]@);
            assert(all.skip(i as int).drop_first() =~= all.skip(i + 1));
            assert(all.take(i + 1) =~= all.take(i as int).push(all[i as int]));
        }
        match compile_glob(patterns[i].as_str()) {
            Ok(glob) => {
                add_glob(&mut builder, glob);
            },
            Err(problem) => {
                let mut message = concat("invalid glob ", patterns[i].as_str());
                message.push_str(": ");
                message.push_str(problem.as_str());
                return Err(message);
            },
        }
        i = i + 1;
    }
    assert(all.take(i as int) =~= all);
    match build_set(&builder) {
        Ok(set) => Ok(Some(set)),
        Err(problem) => Err(concat("invalid glob set: ", problem.as_str())),
    }
}

} // verus!
