//! Sets of glob patterns. What is said here of `globset` is said of platforms
//! whose paths have `/` as their only separator.
use crate::text;
use vstd::prelude::*;
use vstd::string::*;

verus! {

#[verifier::external_type_specification]
#[verifier::external_body]
pub struct ExGlob(globset::Glob);

#[verifier::external_type_specification]
#[verifier::external_body]
pub struct ExGlobSet(globset::GlobSet);

#[verifier::external_type_specification]
#[verifier::external_body]
pub struct ExGlobSetBuilder(globset::GlobSetBuilder);

/// Whether `globset::Glob::new` accepts a pattern.
pub uninterp spec fn glob_valid(pattern: Seq<char>) -> bool;

/// The pattern of a `globset::Glob`.
pub uninterp spec fn glob_pattern(glob: globset::Glob) -> Seq<char>;

/// The patterns that a `globset::GlobSetBuilder` has been given, in order.
pub uninterp spec fn builder_patterns(builder: globset::GlobSetBuilder) -> Seq<Seq<char>>;

/// The patterns of a `globset::GlobSet`, in order.
pub uninterp spec fn set_patterns(set: globset::GlobSet) -> Seq<Seq<char>>;

/// Whether `globset::GlobSetBuilder::build` accepts the patterns together.
pub uninterp spec fn set_valid(patterns: Seq<Seq<char>>) -> bool;

/// Whether a glob pattern matches a path.
pub uninterp spec fn glob_matches(pattern: Seq<char>, path: Seq<char>) -> bool;

/// `globset::Glob::new` compiles one pattern, and says what is wrong with one
/// that it refuses. Nothing is claimed of the message.
#[verifier::external_body]
fn new_glob(pattern: &str) -> (r: Result<globset::Glob, String>)
    ensures
        match r {
            Ok(g) => glob_valid(pattern@) && glob_pattern(g) == pattern@,
            Err(_) => !glob_valid(pattern@),
        },
{
    globset::Glob::new(pattern).map_err(|e| e.to_string())
}

/// `globset::GlobSetBuilder::new` makes a builder without patterns.
#[verifier::external_body]
fn new_builder() -> (r: globset::GlobSetBuilder)
    ensures
        builder_patterns(r) == Seq::<Seq<char>>::empty(),
{
    globset::GlobSetBuilder::new()
}

/// `globset::GlobSetBuilder::add` adds one pattern behind the others.
#[verifier::external_body]
fn add_glob(builder: &mut globset::GlobSetBuilder, glob: globset::Glob)
    ensures
        builder_patterns(*final(builder)) == builder_patterns(*old(builder)).push(
            glob_pattern(glob),
        ),
{
    builder.add(glob);
}

/// `globset::GlobSetBuilder::build` makes the set of all patterns added. Nothing
/// is claimed of the message where it fails.
#[verifier::external_body]
fn build_set(builder: &globset::GlobSetBuilder) -> (r: Result<globset::GlobSet, String>)
    ensures
        match r {
            Ok(s) => set_valid(builder_patterns(*builder)) && set_patterns(s) == builder_patterns(
                *builder,
            ),
            Err(_) => !set_valid(builder_patterns(*builder)),
        },
{
    builder.build().map_err(|e| e.to_string())
}

/// One of the patterns matches a path.
pub open spec fn any_matches(patterns: Seq<Seq<char>>, path: Seq<char>) -> bool {
    exists|i: int| 0 <= i < patterns.len() && glob_matches(#[trigger] patterns[i], path)
}

/// `globset::GlobSet::is_match` tells whether some pattern of the set matches a
/// path.
#[verifier::external_body]
fn set_matches(set: &globset::GlobSet, path: &str) -> (r: bool)
    ensures
        r == (exists|i: int|
            0 <= i < set_patterns(*set).len() && glob_matches(
                #[trigger] set_patterns(*set)[i],
                path@,
            )),
{
    set.is_match(path)
}

/// Why patterns do not make a set.
#[derive(Debug)]
pub enum GlobError {
    /// A pattern is not valid, with the reason.
    Pattern { pattern: String, reason: String },
    /// The patterns cannot be put together, with the reason.
    Together { reason: String },
}

impl GlobError {
    /// The message that reports the error.
    pub fn message(&self) -> (r: String)
        ensures
            match self {
                GlobError::Pattern { pattern, .. } => r@ == "Invalid exclude glob pattern: "@
                    + pattern@,
                GlobError::Together { reason } => r@ == reason@,
            },
    {
        match self {
            GlobError::Pattern { pattern, .. } => text::concat2(
                "Invalid exclude glob pattern: ",
                pattern,
            ),
            GlobError::Together { reason } => text::owned(reason),
        }
    }
}

/// Builds a set from a list of glob patterns; an empty list makes none. The
/// first pattern that is not valid is reported.
pub fn build_glob_set(patterns: &[String]) -> (r: Result<Option<globset::GlobSet>, GlobError>)
    ensures
        match r {
            Ok(None) => patterns@.len() == 0,
            Ok(Some(set)) => {
                &&& patterns@.len() > 0
                &&& set_patterns(set) == text::texts(patterns@)
                &&& set_valid(text::texts(patterns@))
                &&& forall|i: int|
                    0 <= i < patterns@.len() ==> glob_valid(
                        #[trigger] text::texts(patterns@)[i],
                    )
            },
            Err(GlobError::Pattern { pattern, .. }) => exists|i: int|
                0 <= i < patterns@.len() && pattern@ == #[trigger] text::texts(patterns@)[i]
                    && !glob_valid(pattern@) && forall|k: int|
                    0 <= k < i ==> glob_valid(#[trigger] text::texts(patterns@)[k]),
            Err(GlobError::Together { .. }) => {
                &&& patterns@.len() > 0
                &&& !set_valid(text::texts(patterns@))
                &&& forall|i: int|
                    0 <= i < patterns@.len() ==> glob_valid(
                        #[trigger] text::texts(patterns@)[i],
                    )
            },
        },
{
    if patterns.len() == 0 {
        return Ok(None);
    }
    let ghost p = text::texts(patterns@);
    let mut builder = new_builder();
    let mut i: usize = 0;
    assert(builder_patterns(builder) =~= p.take(0));
    while i < patterns.len()
        invariant
            i <= patterns@.len(),
            p == text::texts(patterns@),
            builder_patterns(builder) == p.take(i as int),
            forall|k: int| 0 <= k < i ==> glob_valid(#[trigger] p[k]),
        decreases patterns@.len() - i,
    {
        assert(p[i as int] == patterns@[i as int]@);
        match new_glob(&patterns[i]) {
            Ok(glob) => {
                add_glob(&mut builder, glob);
                assert(p.take(i as int).push(p[i as int]) =~= p.take(i + 1));
            },
            Err(reason) => {
                return Err(GlobError::Pattern { pattern: text::owned(&patterns[i]), reason });
            },
        }
        i = i + 1;
    }
    assert(p.take(i as int) =~= p);
    match build_set(&builder) {
        Ok(set) => Ok(Some(set)),
        Err(reason) => Err(GlobError::Together { reason }),
    }
}

/// A path is left out by patterns, where there are any.
pub open spec fn excluded(exclude: Option<globset::GlobSet>, path: Seq<char>) -> bool {
    match exclude {
        Some(set) => any_matches(set_patterns(set), path),
        None => false,
    }
}

/// Whether a path is left out.
pub fn is_excluded(exclude: &Option<globset::GlobSet>, path: &str) -> (r: bool)
    ensures
        r == excluded(*exclude, path@),
{
    match exclude {
        Some(set) => set_matches(set, path),
        None => false,
    }
}

} // verus!
