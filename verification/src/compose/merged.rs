//! The files of a directory entry: the shared ones with those of this machine
//! laid over them.
use crate::globs;
use crate::pairs;
use crate::text;
use vstd::prelude::*;
use vstd::string::*;

verus! {

/// A file of a directory entry.
#[derive(Debug)]
pub struct MergedFile {
    /// The file to read from.
    pub source: String,
    /// Its path within the directory.
    pub rel_path: String,
    /// Whether it is a file of this machine.
    pub is_local: bool,
}

// ---------------------------------------------------------------------------
// The order of paths
// ---------------------------------------------------------------------------

/// Where a character stands in the order of paths: a separator comes first, so
/// that paths are ordered by their components.
pub open spec fn rank(c: char) -> int {
    if c == '/' {
        0
    } else {
        1 + c as int
    }
}

proof fn lemma_rank(a: char, b: char)
    ensures
        a != b ==> rank(a) != rank(b),
{
}

/// A path comes before another.
pub open spec fn path_before(a: Seq<char>, b: Seq<char>) -> bool
    decreases a.len(),
{
    if b.len() == 0 {
        false
    } else if a.len() == 0 {
        true
    } else if a[0] == b[0] {
        path_before(a.skip(1), b.skip(1))
    } else {
        rank(a[0]) < rank(b[0])
    }
}

/// Of two different paths one comes before the other, and no path comes before
/// itself.
pub proof fn law_path_total(a: Seq<char>, b: Seq<char>)
    ensures
        a == b ==> !path_before(a, b),
        a != b ==> (path_before(a, b) <==> !path_before(b, a)),
    decreases a.len(),
{
    if a.len() > 0 && b.len() > 0 && a[0] == b[0] {
        law_path_total(a.skip(1), b.skip(1));
        assert(a.skip(1) == b.skip(1) ==> a =~= b) by {
            assert(a =~= seq![a[0]] + a.skip(1));
            assert(b =~= seq![b[0]] + b.skip(1));
        }
    } else if a.len() == 0 && b.len() == 0 {
        assert(a =~= b);
    } else if a.len() > 0 && b.len() > 0 {
        lemma_rank(a[0], b[0]);
    }
}

/// The order of paths is transitive.
pub proof fn law_path_transitive(a: Seq<char>, b: Seq<char>, c: Seq<char>)
    requires
        path_before(a, b),
        path_before(b, c),
    ensures
        path_before(a, c),
    decreases a.len(),
{
    if a.len() > 0 && b.len() > 0 && c.len() > 0 && a[0] == b[0] && b[0] == c[0] {
        law_path_transitive(a.skip(1), b.skip(1), c.skip(1));
    }
}

/// The order of two paths.
#[derive(Debug, Clone, Copy, PartialEq, Eq, Structural)]
enum Place {
    Before,
    Same,
    After,
}

fn char_rank(c: char) -> (r: u32)
    ensures
        r == rank(c),
{
    if c == '/' {
        0
    } else {
        1 + c as u32
    }
}

fn place(a: &str, b: &str) -> (r: Place)
    ensures
        r == Place::Before <==> path_before(a@, b@),
        r == Place::Same <==> a@ == b@,
{
    let x = text::chars_of(a);
    let y = text::chars_of(b);
    let mut i: usize = 0;
    assert(x@.skip(0) =~= x@);
    assert(y@.skip(0) =~= y@);
    while i < x.len() && i < y.len() && x[i] == y[i]
        invariant
            x@ == a@,
            y@ == b@,
            i <= x@.len(),
            i <= y@.len(),
            forall|k: int| 0 <= k < i ==> x@[k] == y@[k],
            path_before(a@, b@) == path_before(x@.skip(i as int), y@.skip(i as int)),
        decreases x@.len() - i,
    {
        assert(x@.skip(i as int).skip(1) =~= x@.skip(i + 1));
        assert(y@.skip(i as int).skip(1) =~= y@.skip(i + 1));
        i = i + 1;
    }
    if i == x.len() && i == y.len() {
        assert(a@ =~= b@);
        Place::Same
    } else if i == y.len() {
        Place::After
    } else if i == x.len() {
        Place::Before
    } else {
        assert(a@[i as int] != b@[i as int]);
        if char_rank(x[i]) < char_rank(y[i]) {
            Place::Before
        } else {
            Place::After
        }
    }
}

/// Each path comes before those that follow it.
pub open spec fn ascending(paths: Seq<Seq<char>>) -> bool {
    forall|i: int, j: int|
        0 <= i < j < paths.len() ==> path_before(#[trigger] paths[i], #[trigger] paths[j])
}

fn insert_path(list: &mut Vec<String>, path: &str)
    requires
        ascending(text::texts(old(list)@)),
    ensures
        ascending(text::texts(final(list)@)),
        forall|p: Seq<char>| #[trigger]
            text::texts(final(list)@).contains(p) <==> text::texts(old(list)@).contains(p) || p
                == path@,
{
    let ghost m = text::texts(list@);
    let mut at: usize = 0;
    let mut found = Place::Before;
    while at < list.len() && found == Place::Before
        invariant
            at <= list@.len(),
            m == text::texts(list@),
            forall|k: int| 0 <= k < at ==> path_before(#[trigger] m[k], path@),
            found == Place::Same ==> at < m.len() && m[at as int] == path@,
            found == Place::After ==> at < m.len() && path_before(path@, m[at as int]),
        decreases
                (if found == Place::Before {
                    1int
                } else {
                    0
                }),
                list@.len() - at,
    {
        assert(m[at as int] == list@[at as int]@);
        proof {
            law_path_total(m[at as int], path@);
        }
        found = place(&list[at], path);
        if found == Place::Before {
            at = at + 1;
        }
    }
    if found == Place::Same {
        assert(m.contains(path@));
        return ;
    }
    proof {
        assert forall|k: int| at <= k < m.len() implies path_before(path@, #[trigger] m[k]) by {
            if k > at {
                assert(path_before(m[at as int], m[k]));
                law_path_transitive(path@, m[at as int], m[k]);
            }
        }
    }
    list.insert(at, text::owned(path));
    let ghost now = text::texts(list@);
    proof {
        assert(now =~= m.insert(at as int, path@));
        assert forall|i: int, j: int| 0 <= i < j < now.len() implies path_before(
            #[trigger] now[i],
            #[trigger] now[j],
        ) by {
            if i < at && j > at {
                assert(now[i] == m[i] && now[j] == m[j - 1]);
            } else if i < at && j < at {
                assert(now[i] == m[i] && now[j] == m[j]);
            } else if i > at {
                assert(now[i] == m[i - 1] && now[j] == m[j - 1]);
            } else if i == at {
                assert(now[j] == m[j - 1]);
            } else {
                assert(now[i] == m[i]);
            }
        }
        assert forall|p: Seq<char>| #[trigger] now.contains(p) <==> m.contains(p) || p == path@ by {
            if m.contains(p) {
                let k = choose|k: int| 0 <= k < m.len() && m[k] == p;
                if k < at {
                    assert(now[k] == p);
                } else {
                    assert(now[k + 1] == p);
                }
            }
            if p == path@ {
                assert(now[at as int] == p);
            }
            if now.contains(p) {
                let k = choose|k: int| 0 <= k < now.len() && now[k] == p;
                if k < at {
                    assert(m[k] == p);
                } else if k > at {
                    assert(m[k - 1] == p);
                }
            }
        }
    }
}

// ---------------------------------------------------------------------------
// Merging
// ---------------------------------------------------------------------------

/// Files by their path within the directory: where each is read from.
pub open spec fn files_model(files: Seq<(String, String)>) -> Seq<(Seq<char>, Seq<char>)> {
    files.map_values(|f: (String, String)| (f.0@, f.1@))
}

/// Where a file is read from, and whether it is one of this machine: a file of
/// this machine stands in place of a shared one.
pub open spec fn merged_source(
    shared: Seq<(Seq<char>, Seq<char>)>,
    local: Seq<(Seq<char>, Seq<char>)>,
    path: Seq<char>,
) -> Option<(Seq<char>, bool)> {
    match (pairs::lookup(local, path), pairs::lookup(shared, path)) {
        (Some(source), _) => Some((source, true)),
        (None, Some(source)) => Some((source, false)),
        (None, None) => None,
    }
}

/// The paths of merged files.
pub open spec fn merged_paths(files: Seq<MergedFile>) -> Seq<Seq<char>> {
    files.map_values(|f: MergedFile| f.rel_path@)
}

/// Merged files are right: each path once and in order, each file from where it
/// is to be read, and every path that is not left out.
pub open spec fn merged_right(
    files: Seq<MergedFile>,
    shared: Seq<(Seq<char>, Seq<char>)>,
    local: Seq<(Seq<char>, Seq<char>)>,
    exclude: Option<globset::GlobSet>,
) -> bool {
    &&& ascending(merged_paths(files))
    &&& forall|i: int|
        0 <= i < files.len() ==> {
            &&& !globs::excluded(exclude, (#[trigger] files[i]).rel_path@)
            &&& merged_source(shared, local, files[i].rel_path@) == Some(
                (files[i].source@, files[i].is_local),
            )
        }
    &&& forall|path: Seq<char>|
        (#[trigger] merged_source(shared, local, path)) is Some && !globs::excluded(exclude, path)
            ==> merged_paths(files).contains(path)
}

fn find_file(files: &[(String, String)], path: &str) -> (r: Option<usize>)
    ensures
        match r {
            Some(i) => i < files@.len() && pairs::lookup(files_model(files@), path@) == Some(
                files@[i as int].1@,
            ),
            None => pairs::lookup(files_model(files@), path@) is None,
        },
{
    let ghost m = files_model(files@);
    let mut i: usize = 0;
    while i < files.len()
        invariant
            i <= files@.len(),
            m == files_model(files@),
            forall|k: int| 0 <= k < i ==> (#[trigger] m[k]).0 != path@,
        decreases files@.len() - i,
    {
        assert(m[i as int] == (files@[i as int].0@, files@[i as int].1@));
        if text::str_eq(&files[i].0, path) {
            proof {
                pairs::lemma_lookup_first(m, path@, i as int);
            }
            return Some(i);
        }
        i = i + 1;
    }
    proof {
        let at = pairs::lemma_lookup(m, path@);
        if pairs::lookup(m, path@) is Some {
            assert(m[at].0 != path@);
        }
    }
    None
}

proof fn lemma_found_iff(files: Seq<(Seq<char>, Seq<char>)>, path: Seq<char>)
    ensures
        pairs::lookup(files, path) is Some <==> exists|k: int|
            0 <= k < files.len() && (#[trigger] files[k]).0 == path,
{
    let at = pairs::lemma_lookup(files, path);
    if pairs::lookup(files, path) is Some {
        assert(files[at].0 == path);
    }
}

/// Adds the paths of files to a sorted list of paths.
fn insert_paths(list: &mut Vec<String>, files: &[(String, String)])
    requires
        ascending(text::texts(old(list)@)),
    ensures
        ascending(text::texts(final(list)@)),
        forall|p: Seq<char>| #[trigger]
            text::texts(final(list)@).contains(p) <==> text::texts(old(list)@).contains(p)
                || pairs::lookup(files_model(files@), p) is Some,
{
    let ghost m = files_model(files@);
    let ghost start = text::texts(list@);
    let mut i: usize = 0;
    while i < files.len()
        invariant
            i <= files@.len(),
            m == files_model(files@),
            ascending(text::texts(list@)),
            forall|p: Seq<char>| #[trigger]
                text::texts(list@).contains(p) <==> start.contains(p) || exists|k: int|
                    0 <= k < i && (#[trigger] m[k]).0 == p,
        decreases files@.len() - i,
    {
        let ghost before = text::texts(list@);
        assert(m[i as int] == (files@[i as int].0@, files@[i as int].1@));
        insert_path(list, &files[i].0);
        i = i + 1;
        assert forall|p: Seq<char>| #[trigger]
            text::texts(list@).contains(p) <==> start.contains(p) || exists|k: int|
                0 <= k < i && (#[trigger] m[k]).0 == p by {
            assert(before.contains(p) <==> start.contains(p) || exists|k: int|
                0 <= k < i - 1 && (#[trigger] m[k]).0 == p);
            if p == m[i - 1].0 {
                assert(text::texts(list@).contains(p));
            }
        }
    }
    assert forall|p: Seq<char>| #[trigger]
        text::texts(list@).contains(p) <==> start.contains(p) || pairs::lookup(m, p) is Some by {
        lemma_found_iff(m, p);
    }
}

/// Merges the files of a source directory with those of this machine; what is
/// to be left out is left out of the merged files.
pub fn collect_merged_files(
    shared: &[(String, String)],
    local: &[(String, String)],
    exclude: &Option<globset::GlobSet>,
) -> (r: Vec<MergedFile>)
    ensures
        merged_right(r@, files_model(shared@), files_model(local@), *exclude),
{
    let ghost t = files_model(shared@);
    let ghost l = files_model(local@);
    let mut paths: Vec<String> = Vec::new();
    insert_paths(&mut paths, shared);
    insert_paths(&mut paths, local);
    let ghost p = text::texts(paths@);
    let mut out: Vec<MergedFile> = Vec::new();
    let mut i: usize = 0;
    while i < paths.len()
        invariant
            i <= paths@.len(),
            t == files_model(shared@),
            l == files_model(local@),
            p == text::texts(paths@),
            ascending(p),
            forall|q: Seq<char>| #[trigger]
                p.contains(q) <==> pairs::lookup(t, q) is Some || pairs::lookup(l, q) is Some,
            ascending(merged_paths(out@)),
            forall|k: int|
                0 <= k < out@.len() ==> {
                    &&& !globs::excluded(*exclude, (#[trigger] out@[k]).rel_path@)
                    &&& merged_source(t, l, out@[k].rel_path@) == Some(
                        (out@[k].source@, out@[k].is_local),
                    )
                },
            forall|k: int, j: int|
                0 <= k < out@.len() && i <= j < p.len() ==> path_before(
                    (#[trigger] out@[k]).rel_path@,
                    #[trigger] p[j],
                ),
            forall|j: int|
                0 <= j < i && !globs::excluded(*exclude, #[trigger] p[j]) ==> merged_paths(
                    out@,
                ).contains(p[j]),
        decreases paths@.len() - i,
    {
        let ghost before = out@;
        let path = &paths[i];
        assert(p[i as int] == path@);
        assert(p.contains(path@));
        if !globs::is_excluded(exclude, path) {
            let file = match (find_file(local, path), find_file(shared, path)) {
                (Some(k), _) => Some((text::owned(&local[k].1), true)),
                (None, Some(k)) => Some((text::owned(&shared[k].1), false)),
                (None, None) => None,
            };
            match file {
                Some((source, is_local)) => {
                    let merged = MergedFile { source, rel_path: text::owned(path), is_local };
                    out.push(merged);
                    proof {
                        let old_paths = merged_paths(before);
                        let new_paths = merged_paths(out@);
                        assert(new_paths =~= old_paths.push(path@));
                        assert forall|a: int, b: int| 0 <= a < b < new_paths.len() implies path_before(
                            #[trigger] new_paths[a],
                            #[trigger] new_paths[b],
                        ) by {
                            if b == old_paths.len() {
                                assert(new_paths[a] == before[a].rel_path@);
                                assert(path_before(before[a].rel_path@, p[i as int]));
                            } else {
                                assert(old_paths[a] == new_paths[a]);
                                assert(old_paths[b] == new_paths[b]);
                            }
                        }
                        assert forall|j: int|
                            0 <= j < i + 1 && !globs::excluded(
                                *exclude,
                                #[trigger] p[j],
                            ) implies new_paths.contains(p[j]) by {
                            if j < i {
                                let k = choose|k: int|
                                    0 <= k < old_paths.len() && old_paths[k] == p[j];
                                assert(new_paths[k] == p[j]);
                            } else {
                                assert(new_paths[old_paths.len() as int] == p[j]);
                            }
                        }
                    }
                },
                None => {},
            }
        }
        i = i + 1;
    }
    proof {
        assert forall|path: Seq<char>|
            (#[trigger] merged_source(t, l, path)) is Some && !globs::excluded(
                *exclude,
                path,
            ) implies merged_paths(out@).contains(path) by {
            assert(p.contains(path));
            let j = choose|j: int| 0 <= j < p.len() && p[j] == path;
            assert(!globs::excluded(*exclude, p[j]));
        }
    }
    out
}

/// Paths are ordered by the first character in which they differ, where a
/// separator comes before every other one, and a path comes before every longer
/// one that begins with it.
pub proof fn law_path_first(same: Seq<char>, x: char, y: char, a: Seq<char>, b: Seq<char>)
    requires
        x != y,
    ensures
        path_before(same + seq![x] + a, same + seq![y] + b) <==> x == '/' || (y != '/' && x < y),
        path_before(same, same + seq![x] + a),
    decreases same.len(),
{
    let p = same + seq![x] + a;
    let q = same + seq![y] + b;
    if same.len() > 0 {
        let rest = same.skip(1);
        law_path_first(rest, x, y, a, b);
        assert(p.skip(1) =~= rest + seq![x] + a);
        assert(q.skip(1) =~= rest + seq![y] + b);
    } else {
        assert(p[0] == x && q[0] == y);
    }
}

/// A path stands among files, as that of one of them.
pub open spec fn has_file(files: Seq<(Seq<char>, Seq<char>)>, path: Seq<char>, source: Seq<char>) -> bool {
    files.contains((path, source))
}

/// A merged file stands at a place.
pub open spec fn stands_at(
    files: Seq<MergedFile>,
    i: int,
    path: Seq<char>,
    source: Seq<char>,
    is_local: bool,
) -> bool {
    &&& 0 <= i < files.len()
    &&& files[i].rel_path@ == path
    &&& files[i].source@ == source
    &&& files[i].is_local == is_local
}

/// Of the merged files, each path has exactly one: the file of this machine where
/// there is one, else the shared one. What is left out has none, and nothing
/// stands there that is neither a shared file nor one of this machine.
pub proof fn law_merged(
    files: Seq<MergedFile>,
    shared: Seq<(Seq<char>, Seq<char>)>,
    local: Seq<(Seq<char>, Seq<char>)>,
    exclude: Option<globset::GlobSet>,
)
    requires
        merged_right(files, shared, local, exclude),
        pairs::distinct_keys(shared),
        pairs::distinct_keys(local),
    ensures
        forall|path: Seq<char>, source: Seq<char>| #[trigger]
            has_file(local, path, source) && !globs::excluded(exclude, path) ==> exists|i: int|
                #[trigger] stands_at(files, i, path, source, true),
        forall|path: Seq<char>, source: Seq<char>| #[trigger]
            has_file(shared, path, source) && !globs::excluded(exclude, path) && (forall|
                other: Seq<char>,
            |
                !(#[trigger] has_file(local, path, other))) ==> exists|i: int| #[trigger]
                stands_at(files, i, path, source, false),
        forall|i: int|
            0 <= i < files.len() ==> {
                &&& !globs::excluded(exclude, (#[trigger] files[i]).rel_path@)
                &&& has_file(
                    if files[i].is_local {
                        local
                    } else {
                        shared
                    },
                    files[i].rel_path@,
                    files[i].source@,
                )
            },
        forall|i: int, j: int|
            0 <= i < j < files.len() ==> (#[trigger] files[i]).rel_path@ != (
            #[trigger] files[j]).rel_path@,
{
    let paths = merged_paths(files);
    assert forall|i: int, j: int| 0 <= i < j < files.len() implies (#[trigger] files[i]).rel_path@
        != (#[trigger] files[j]).rel_path@ by {
        assert(path_before(paths[i], paths[j]));
        law_path_total(paths[i], paths[j]);
    }
    assert forall|i: int| 0 <= i < files.len() implies has_file(
        if files[i].is_local {
            local
        } else {
            shared
        },
        (#[trigger] files[i]).rel_path@,
        files[i].source@,
    ) by {
        let path = files[i].rel_path@;
        assert(merged_source(shared, local, path) == Some((files[i].source@, files[i].is_local)));
        let in_local = pairs::lemma_lookup(local, path);
        let in_shared = pairs::lemma_lookup(shared, path);
        if files[i].is_local {
            assert(local[in_local] == (path, files[i].source@));
        } else {
            assert(shared[in_shared] == (path, files[i].source@));
        }
    }
    assert forall|path: Seq<char>, source: Seq<char>| #[trigger]
        has_file(local, path, source) && !globs::excluded(exclude, path) implies exists|i: int|
        #[trigger] stands_at(files, i, path, source, true) by {
        let k = local.index_of((path, source));
        pairs::lemma_lookup_distinct(local, k);
        assert(merged_source(shared, local, path) == Some((source, true)));
        let i = paths.index_of(path);
        assert(files[i].rel_path@ == paths[i]);
        assert(stands_at(files, i, path, source, true));
    }
    assert forall|path: Seq<char>, source: Seq<char>| #[trigger]
        has_file(shared, path, source) && !globs::excluded(exclude, path) && (forall|
            other: Seq<char>,
        |
            !(#[trigger] has_file(local, path, other))) implies exists|i: int| #[trigger]
        stands_at(files, i, path, source, false) by {
        let k = shared.index_of((path, source));
        pairs::lemma_lookup_distinct(shared, k);
        let at = pairs::lemma_lookup(local, path);
        if pairs::lookup(local, path) is Some {
            assert(local[at] == (path, local[at].1));
            assert(has_file(local, path, local[at].1));
        }
        assert(merged_source(shared, local, path) == Some((source, false)));
        let i = paths.index_of(path);
        assert(files[i].rel_path@ == paths[i]);
        assert(stands_at(files, i, path, source, false));
    }
}

} // verus!
