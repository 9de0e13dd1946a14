//! What a run of the program works with.
use crate::metadata::Metadata;
use crate::text;
use vstd::prelude::*;
use vstd::string::*;

verus! {

/// The settings of a run.
#[derive(Debug)]
pub struct Context {
    pub home_dir: String,
    pub orders_dir: String,
    pub metadata: Metadata,
    pub dry_run: bool,
    pub verbose: bool,
}

/// A path with a leading `~` replaced by the home directory.
pub open spec fn expanded(path: Seq<char>, home: Seq<char>) -> Seq<char> {
    if path == "~"@ {
        home
    } else if text::begins(path, "~/"@) {
        home + path.skip(1)
    } else {
        path
    }
}

/// A path below a directory. A path that starts at the root stands for itself.
pub open spec fn below(dir: Seq<char>, path: Seq<char>) -> Seq<char> {
    if dir.len() == 0 || (path.len() > 0 && path[0] == '/') {
        path
    } else if dir.last() == '/' {
        dir + path
    } else {
        dir + "/"@ + path
    }
}

/// A path below a directory.
pub fn join_dir(dir: &str, path: &str) -> (r: String)
    ensures
        r@ == below(dir@, path@),
{
    let d = text::chars_of(dir);
    let p = text::chars_of(path);
    if d.len() == 0 || (p.len() > 0 && p[0] == '/') {
        text::owned(path)
    } else if d[d.len() - 1] == '/' {
        text::concat2(dir, path)
    } else {
        text::concat3(dir, "/", path)
    }
}

/// A directory without the separators at its end.
pub open spec fn bare_dir(dir: Seq<char>) -> Seq<char>
    decreases dir.len(),
{
    if dir.len() > 0 && dir.last() == '/' {
        bare_dir(dir.drop_last())
    } else {
        dir
    }
}

/// A path lies below a directory.
pub open spec fn lies_below(path: Seq<char>, dir: Seq<char>) -> bool {
    text::begins(path, bare_dir(dir) + "/"@)
}

/// A path is a directory or lies below it.
pub open spec fn lies_in(path: Seq<char>, dir: Seq<char>) -> bool {
    path == bare_dir(dir) || lies_below(path, dir)
}

/// Leaves out the separators at the end of a directory.
pub fn strip_separators(dir: &str) -> (r: String)
    ensures
        r@ == bare_dir(dir@),
{
    let x = text::chars_of(dir);
    let mut n: usize = x.len();
    assert(x@.take(n as int) =~= dir@);
    while n > 0 && x[n - 1] == '/'
        invariant
            n <= x@.len(),
            bare_dir(dir@) == bare_dir(x@.take(n as int)),
        decreases n,
    {
        assert(x@.take(n as int).last() == x@[n - 1]);
        assert(x@.take(n as int).drop_last() =~= x@.take(n - 1));
        n = n - 1;
    }
    proof {
        if n > 0 {
            assert(x@.take(n as int).last() == x@[n - 1]);
        }
        assert(x@.subrange(0, n as int) =~= x@.take(n as int));
    }
    text::string_of(&x, 0, n)
}

/// Whether a path lies below a directory.
pub fn is_below(path: &str, dir: &str) -> (r: bool)
    ensures
        r == lies_below(path@, dir@),
{
    text::starts_with(path, &text::concat2(&strip_separators(dir), "/"))
}

/// Whether a path is a directory or lies below it.
pub fn is_in(path: &str, dir: &str) -> (r: bool)
    ensures
        r == lies_in(path@, dir@),
{
    text::str_eq(path, &strip_separators(dir)) || is_below(path, dir)
}

impl Context {
    /// Replaces a leading `~` by the home directory.
    pub fn expand_path(&self, path: &str) -> (r: String)
        ensures
            r@ == expanded(path@, self.home_dir@),
    {
        if text::str_eq(path, "~") {
            text::owned(&self.home_dir)
        } else if text::starts_with(path, "~/") {
            let x = text::chars_of(path);
            proof {
                reveal_strlit("~/");
            }
            let rest = text::string_of(&x, 1, x.len());
            assert(rest@ =~= path@.skip(1));
            text::concat2(&self.home_dir, &rest)
        } else {
            text::owned(path)
        }
    }

    /// The directory of a package.
    pub fn package_dir(&self, package: &str) -> (r: String)
        ensures
            r@ == below(self.orders_dir@, package@),
    {
        join_dir(&self.orders_dir, package)
    }
}

/// A relative path below a directory lies below it and ends with the path, and a
/// path that starts at the root stays where it is.
pub proof fn law_below(dir: Seq<char>, path: Seq<char>)
    ensures
        path.len() > 0 && path[0] == '/' ==> below(dir, path) == path,
        dir.len() > 0 && !(path.len() > 0 && path[0] == '/') ==> {
            &&& text::begins(below(dir, path), dir)
            &&& below(dir, path).len() >= path.len()
            &&& below(dir, path).skip(below(dir, path).len() - path.len()) == path
            &&& below(dir, path)[below(dir, path).len() - path.len() - 1] == '/'
            &&& below(dir, path).len() <= dir.len() + 1 + path.len()
        },
{
    reveal_strlit("/");
    if dir.len() > 0 && !(path.len() > 0 && path[0] == '/') {
        let p = below(dir, path);
        assert(p.take(dir.len() as int) =~= dir);
        assert(p.skip(p.len() - path.len()) =~= path);
    }
}

/// A path in the home directory is the one that its form with `~` stands for, and
/// a path that does not start with `~` stands for itself.
pub proof fn law_expanded(home: Seq<char>, rest: Seq<char>)
    ensures
        expanded("~"@, home) == home,
        expanded("~/"@ + rest, home) == home + "/"@ + rest,
        rest.len() == 0 || rest[0] != '~' ==> expanded(rest, home) == rest,
        rest.len() > 0 && rest[0] != '/' ==> expanded("~"@ + rest, home) == "~"@ + rest,
{
    reveal_strlit("~");
    reveal_strlit("~/");
    reveal_strlit("/");
    let p = "~/"@ + rest;
    assert(p.len() >= 2);
    assert(p.take(2) =~= "~/"@);
    assert(home + p.skip(1) =~= home + "/"@ + rest);
    let q = "~"@ + rest;
    if rest.len() > 0 {
        assert(q[1] == rest[0]);
        if text::begins(q, "~/"@) {
            assert(q.take(2)[1] == '/');
        }
        if text::begins(rest, "~/"@) {
            assert(rest.take(2)[0] == '~');
        }
    }
}

/// A path lies below a directory exactly where it is the directory, a separator and
/// something more or nothing: a path that only begins with the same characters does
/// not, and separators at the end of the directory do not count.
pub proof fn law_lies(dir: Seq<char>, rest: Seq<char>, c: char)
    requires
        dir.len() == 0 || dir.last() != '/',
    ensures
        lies_below(dir + "/"@ + rest, dir),
        lies_in(dir, dir) && !lies_below(dir, dir),
        c != '/' ==> !lies_in(dir + seq![c] + rest, dir),
        lies_below(dir + "/"@ + rest, dir + "/"@),
        lies_in(dir, dir + "/"@),
{
    reveal_strlit("/");
    assert(bare_dir(dir) == dir);
    let slashed = dir + "/"@;
    assert(slashed.drop_last() =~= dir);
    assert(slashed.last() == '/');
    let p = slashed + rest;
    assert(p.take(slashed.len() as int) =~= slashed);
    let q = dir + seq![c] + rest;
    if text::begins(q, slashed) {
        assert(q.take(slashed.len() as int)[dir.len() as int] == '/');
        assert(q[dir.len() as int] == c);
    }
}

} // verus!
