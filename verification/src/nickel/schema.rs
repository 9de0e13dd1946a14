//! What an evaluated order holds.
use crate::formats;
use crate::formats::Format;
use crate::json::Json;
use crate::text;
use vstd::prelude::*;
use vstd::string::*;

verus! {

/// A condition on the machine; a list that is given has to hold the value.
#[derive(Debug)]
pub struct Condition {
    pub os: Option<Vec<String>>,
    pub arch: Option<Vec<String>>,
    pub hostname: Option<Vec<String>>,
}

/// A file or directory that a package deploys.
#[derive(Debug)]
pub struct FileEntry {
    /// Destination file name; empty where it is to be taken from `from_file`.
    pub name: String,
    /// Structured configuration.
    pub from_config: Option<Json>,
    /// A file or directory of the package that is copied as it is.
    pub from_file: Option<String>,
    /// Target prefixes of this entry, in place of those of the package.
    pub prefix: Option<Vec<String>>,
    /// The format, in place of the one that the name stands for.
    pub format: Option<Format>,
    /// Keys or patterns that are left out of a difference.
    pub ignore: Vec<String>,
    pub when: Option<Condition>,
    pub symlink: bool,
    /// Glob patterns of files to leave out of a directory.
    pub exclude: Vec<String>,
    /// A directory of the package with files of this machine.
    pub local: Option<String>,
    pub immutable: bool,
}

/// The `blend` record of an order.
#[derive(Debug)]
pub struct BlendConfig {
    pub files: Vec<FileEntry>,
    pub prefix: Vec<String>,
    pub when: Option<Condition>,
    pub ignore: Vec<String>,
}

/// An evaluated order.
#[derive(Debug)]
pub struct OrderPackage {
    pub blend: BlendConfig,
}

/// Why a file entry is not valid.
#[derive(Debug, Clone, Copy, PartialEq, Eq, Structural)]
pub enum EntryError {
    /// Neither `from_file` nor `from_config` is given.
    NoSource,
    /// There is no name, and no `from_file` to take it from.
    NoName,
}

// ---------------------------------------------------------------------------
// Conditions
// ---------------------------------------------------------------------------

/// A list that is given holds a value.
pub open spec fn allows(list: Option<Vec<String>>, value: Seq<char>) -> bool {
    match list {
        Some(l) => text::texts(l@).contains(value),
        None => true,
    }
}

/// A condition holds on an operating system and architecture.
pub open spec fn holds_on_platform(c: Option<Condition>, os: Seq<char>, arch: Seq<char>) -> bool {
    match c {
        Some(w) => allows(w.os, os) && allows(w.arch, arch),
        None => true,
    }
}

/// A condition holds on a machine.
pub open spec fn holds_on(
    c: Option<Condition>,
    os: Seq<char>,
    arch: Seq<char>,
    hostname: Seq<char>,
) -> bool {
    holds_on_platform(c, os, arch) && match c {
        Some(w) => allows(w.hostname, hostname),
        None => true,
    }
}

fn is_allowed(list: &Option<Vec<String>>, value: &str) -> (r: bool)
    ensures
        r == allows(*list, value@),
{
    match list {
        Some(l) => text::has_text(l, value),
        None => true,
    }
}

fn holds_for_platform(c: &Option<Condition>, os: &str, arch: &str) -> (r: bool)
    ensures
        r == holds_on_platform(*c, os@, arch@),
{
    match c {
        Some(w) => is_allowed(&w.os, os) && is_allowed(&w.arch, arch),
        None => true,
    }
}

fn holds_for(c: &Option<Condition>, os: &str, arch: &str, hostname: &str) -> (r: bool)
    ensures
        r == holds_on(*c, os@, arch@, hostname@),
{
    holds_for_platform(c, os, arch) && match c {
        Some(w) => is_allowed(&w.hostname, hostname),
        None => true,
    }
}

// ---------------------------------------------------------------------------
// Entries
// ---------------------------------------------------------------------------

/// A name below a prefix.
pub open spec fn prefixed(prefix: Seq<char>, name: Seq<char>) -> Seq<char> {
    if prefix.len() > 0 && prefix.last() != '/' {
        prefix + "/"@ + name
    } else {
        prefix + name
    }
}

fn with_prefix(prefix: &str, name: &str) -> (r: String)
    ensures
        r@ == prefixed(prefix@, name@),
{
    let x = text::chars_of(prefix);
    if x.len() > 0 && x[x.len() - 1] != '/' {
        text::concat3(prefix, "/", name)
    } else {
        text::concat2(prefix, name)
    }
}

impl FileEntry {
    /// The prefixes that an entry is deployed below.
    pub open spec fn prefixes(&self, global: Seq<Seq<char>>) -> Seq<Seq<char>> {
        match self.prefix {
            Some(own) => text::texts(own@),
            None => global,
        }
    }

    /// The target paths of an entry.
    pub open spec fn targets(&self, global: Seq<Seq<char>>) -> Seq<Seq<char>> {
        self.prefixes(global).map_values(|p: Seq<char>| prefixed(p, self.name@))
    }

    /// The format of an entry.
    pub open spec fn format_used(&self) -> Format {
        match self.format {
            Some(f) => f,
            None => formats::format_of(formats::extension(self.name@)),
        }
    }

    /// Whether the entry applies on a machine.
    pub fn should_apply(&self, os: &str, arch: &str, hostname: &str) -> (r: bool)
        ensures
            r == holds_on(self.when, os@, arch@, hostname@),
    {
        holds_for(&self.when, os, arch, hostname)
    }

    /// The paths that the entry is deployed to, one for each prefix.
    pub fn target_paths(&self, global_prefix: &[String]) -> (r: Vec<String>)
        ensures
            text::texts(r@) == self.targets(text::texts(global_prefix@)),
    {
        let list: &[String] = match &self.prefix {
            Some(own) => own,
            None => global_prefix,
        };
        let ghost p = text::texts(list@);
        let ghost all = self.targets(text::texts(global_prefix@));
        let mut r: Vec<String> = Vec::new();
        let mut i: usize = 0;
        assert(text::texts(r@) =~= all.take(0));
        while i < list.len()
            invariant
                i <= list@.len(),
                p == text::texts(list@),
                all.len() == p.len(),
                forall|k: int| 0 <= k < p.len() ==> #[trigger] all[k] == prefixed(p[k], self.name@),
                text::texts(r@) == all.take(i as int),
            decreases list@.len() - i,
        {
            assert(p[i as int] == list@[i as int]@);
            let path = with_prefix(&list[i], &self.name);
            assert(all[i as int] == path@);
            proof {
                text::lemma_texts_push(r@, path);
            }
            r.push(path);
            i = i + 1;
            assert(text::texts(r@) =~= all.take(i as int));
        }
        assert(all.take(i as int) =~= all);
        r
    }

    /// The format of the entry: the one that it gives, or the one that its name
    /// stands for.
    pub fn effective_format(&self) -> (r: Format)
        ensures
            r == self.format_used(),
    {
        match self.format {
            Some(f) => f,
            None => Format::from_path(&self.name),
        }
    }

    /// Fills in the name, and refuses an entry without a source or a name.
    pub fn resolve_defaults(&mut self) -> (r: Result<(), EntryError>)
        ensures
            r == (if old(self).from_file is None && old(self).from_config is None {
                Err::<(), EntryError>(EntryError::NoSource)
            } else if old(self).name@.len() == 0 && old(self).from_file is None {
                Err::<(), EntryError>(EntryError::NoName)
            } else {
                Ok::<(), EntryError>(())
            }),
            r is Ok && old(self).name@.len() == 0 ==> final(self).name@ == old(
                self,
            ).from_file->0@,
            r is Err || old(self).name@.len() > 0 ==> final(self).name@ == old(self).name@,
            final(self).from_config == old(self).from_config,
            final(self).from_file == old(self).from_file,
            final(self).prefix == old(self).prefix,
            final(self).format == old(self).format,
            final(self).ignore == old(self).ignore,
            final(self).when == old(self).when,
            final(self).symlink == old(self).symlink,
            final(self).exclude == old(self).exclude,
            final(self).local == old(self).local,
            final(self).immutable == old(self).immutable,
    {
        if self.from_file.is_none() && self.from_config.is_none() {
            return Err(EntryError::NoSource);
        }
        proof {
            reveal_strlit("");
            assert(self.name@.len() == 0 <==> self.name@ =~= ""@);
        }
        if text::str_eq(&self.name, "") {
            match &self.from_file {
                Some(f) => {
                    self.name = text::owned(f);
                },
                None => {
                    return Err(EntryError::NoName);
                },
            }
        }
        Ok(())
    }
}

impl OrderPackage {
    /// Whether the package applies on a machine.
    pub fn should_apply(&self, os: &str, arch: &str, hostname: &str) -> (r: bool)
        ensures
            r == holds_on(self.blend.when, os@, arch@, hostname@),
    {
        holds_for(&self.blend.when, os, arch, hostname)
    }

    /// Whether the package applies on some machine of a platform.
    pub fn applies_on_platform(&self, os: &str, arch: &str) -> (r: bool)
        ensures
            r == holds_on_platform(self.blend.when, os@, arch@),
    {
        holds_for_platform(&self.blend.when, os, arch)
    }

    /// The prefixes of all entries that give none.
    pub fn global_prefix(&self) -> (r: &Vec<String>)
        ensures
            *r == self.blend.prefix,
    {
        &self.blend.prefix
    }

    /// The keys that are left out of every difference.
    pub fn global_ignore(&self) -> (r: &Vec<String>)
        ensures
            *r == self.blend.ignore,
    {
        &self.blend.ignore
    }
}

/// A package that applies on a machine applies on its platform.
pub proof fn law_machine_on_platform(
    c: Option<Condition>,
    os: Seq<char>,
    arch: Seq<char>,
    hostname: Seq<char>,
)
    requires
        holds_on(c, os, arch, hostname),
    ensures
        holds_on_platform(c, os, arch),
{
}

/// A list that is given has an item with a value.
pub open spec fn listed(list: Option<Vec<String>>, value: Seq<char>) -> bool {
    match list {
        Some(l) => exists|i: int| 0 <= i < l@.len() && (#[trigger] l@[i])@ == value,
        None => true,
    }
}

/// A condition asks for a machine: each list that is given names the machine's
/// operating system, its architecture or its hostname.
pub open spec fn meant_for(
    c: Option<Condition>,
    os: Seq<char>,
    arch: Seq<char>,
    hostname: Seq<char>,
) -> bool {
    match c {
        Some(w) => listed(w.os, os) && listed(w.arch, arch) && listed(w.hostname, hostname),
        None => true,
    }
}

proof fn lemma_listed(list: Option<Vec<String>>, value: Seq<char>)
    ensures
        allows(list, value) == listed(list, value),
{
    if let Some(l) = list {
        let m = text::texts(l@);
        if m.contains(value) {
            let i = m.index_of(value);
            assert(l@[i]@ == value);
        }
        if listed(list, value) {
            let i = choose|i: int| 0 <= i < l@.len() && (#[trigger] l@[i])@ == value;
            assert(m[i] == value);
        }
    }
}

/// A condition holds exactly on the machines that it asks for, and on a platform
/// where its lists name the operating system and the architecture.
pub proof fn law_condition(
    c: Option<Condition>,
    os: Seq<char>,
    arch: Seq<char>,
    hostname: Seq<char>,
)
    ensures
        holds_on(c, os, arch, hostname) == meant_for(c, os, arch, hostname),
        holds_on_platform(c, os, arch) == (c matches Some(w) ==> listed(w.os, os) && listed(
            w.arch,
            arch,
        )),
{
    if let Some(w) = c {
        lemma_listed(w.os, os);
        lemma_listed(w.arch, arch);
        lemma_listed(w.hostname, hostname);
    }
}

/// A name below a prefix starts with the prefix and ends with the name, with a
/// separator between them.
pub proof fn law_prefixed(prefix: Seq<char>, name: Seq<char>)
    ensures
        text::begins(prefixed(prefix, name), prefix),
        prefixed(prefix, name).len() >= name.len(),
        prefixed(prefix, name).skip(prefixed(prefix, name).len() - name.len()) == name,
        prefix.len() > 0 ==> prefixed(prefix, name)[prefixed(prefix, name).len() - name.len() - 1]
            == '/',
        prefixed(prefix, name).len() <= prefix.len() + 1 + name.len(),
{
    reveal_strlit("/");
    let p = prefixed(prefix, name);
    assert(p.take(prefix.len() as int) =~= prefix);
    assert(p.skip(p.len() - name.len()) =~= name);
}

/// An entry has one target for each of its prefixes, in their order: its own
/// prefixes where it gives some, else those of the package.
pub proof fn law_targets(entry: FileEntry, global: Seq<Seq<char>>, i: int)
    ensures
        entry.targets(global).len() == match entry.prefix {
            Some(own) => own@.len(),
            None => global.len(),
        },
        0 <= i < entry.targets(global).len() ==> entry.targets(global)[i] == prefixed(
            match entry.prefix {
                Some(own) => own@[i]@,
                None => global[i],
            },
            entry.name@,
        ),
{
}

/// The format that an entry gives counts, whatever its name; without one, the
/// format is that of the extension behind the last dot of its name.
pub proof fn law_entry_format(entry: FileEntry, dir: Seq<char>, stem: Seq<char>, ext: Seq<char>)
    requires
        dir.len() == 0 || dir.last() == '/',
        stem.len() > 0,
        formats::lacks(stem, '/'),
        formats::lacks(ext, '/'),
        formats::lacks(ext, '.'),
        entry.name@ == dir + stem + seq!['.'] + ext,
    ensures
        entry.format matches Some(f) ==> entry.format_used() == f,
        entry.format is None ==> entry.format_used() == formats::format_of(ext),
{
    formats::law_extension(dir, stem, ext);
}

} // verus!
