//! Minimal filesystem access for telemetry providers.
//!
//! Real sysfs/procfs reads and fixture-driven tests share one interface so
//! hardware parsing can be tested without the matching physical device.
//! A [`Sys`] is modelled as three partial functions from paths to contents:
//! file text, directory listings and symlink targets. Every parser in the
//! crate states its result in terms of these functions.

use vstd::prelude::*;

use crate::text::{chars_of, eq_chars};

verus! {

/// One directory entry, with only the properties providers need.
#[derive(Clone, Debug, PartialEq, Eq)]
pub struct SysEntry {
    pub name: String,
    pub is_symlink: bool,
    pub is_dir: bool,
}

/// Abstract value of a directory entry: name, is-symlink, is-directory.
pub type EntryModel = (Seq<char>, bool, bool);

impl View for SysEntry {
    type V = EntryModel;

    open spec fn view(&self) -> EntryModel {
        (self.name@, self.is_symlink, self.is_dir)
    }
}

pub open spec fn entries_view(es: Seq<SysEntry>) -> Seq<EntryModel> {
    es.map_values(|e: SysEntry| e@)
}

/// A view of a filesystem.
///
/// The three spec functions describe what the source holds; the exec methods
/// report exactly that. A source that does not define them leaves its content
/// unspecified.
pub trait Sys {
    /// Text of the file at `path`, `None` when missing or unreadable.
    open spec fn spec_file(&self, path: Seq<char>) -> Option<Seq<char>> {
        vstd::pervasive::arbitrary()
    }

    /// Listing of the directory at `path`, `None` when missing or unreadable.
    open spec fn spec_dir(&self, path: Seq<char>) -> Option<Seq<EntryModel>> {
        vstd::pervasive::arbitrary()
    }

    /// Direct (unresolved) target of the symlink at `path`.
    open spec fn spec_link(&self, path: Seq<char>) -> Option<Seq<char>> {
        vstd::pervasive::arbitrary()
    }

    /// Read a text file. `None` if the file is missing or unreadable.
    fn read_to_string(&self, path: &str) -> (r: Option<String>)
        ensures
            match r {
                Some(t) => self.spec_file(path@) == Some(t@),
                None => self.spec_file(path@) is None,
            },
    ;

    /// List a directory. `None` if the directory is missing or unreadable.
    fn read_dir(&self, path: &str) -> (r: Option<Vec<SysEntry>>)
        ensures
            match r {
                Some(es) => self.spec_dir(path@) == Some(entries_view(es@)),
                None => self.spec_dir(path@) is None,
            },
    ;

    /// Direct symlink target (not resolved). `None` if not a symlink or the
    /// target cannot be read.
    fn symlink_target(&self, path: &str) -> (r: Option<String>)
        ensures
            match r {
                Some(t) => self.spec_link(path@) == Some(t@),
                None => self.spec_link(path@) is None,
            },
    ;
}

// ---------------------------------------------------------------------------
// In-memory filesystem
// ---------------------------------------------------------------------------

/// Value stored under the latest entry whose key is `path`.
pub open spec fn last_value(s: Seq<(Seq<char>, Seq<char>)>, path: Seq<char>) -> Option<Seq<char>>
    decreases s.len(),
{
    if s.len() == 0 {
        None
    } else if s.last().0 == path {
        Some(s.last().1)
    } else {
        last_value(s.drop_last(), path)
    }
}

/// Entries registered for directory `path`, in insertion order.
pub open spec fn dir_entries(s: Seq<(Seq<char>, EntryModel)>, path: Seq<char>) -> Seq<EntryModel>
    decreases s.len(),
{
    if s.len() == 0 {
        seq![]
    } else {
        let rest = dir_entries(s.drop_last(), path);
        if s.last().0 == path {
            rest.push(s.last().1)
        } else {
            rest
        }
    }
}

pub open spec fn pairs_view(v: Seq<(String, String)>) -> Seq<(Seq<char>, Seq<char>)> {
    v.map_values(|p: (String, String)| (p.0@, p.1@))
}

pub open spec fn dir_pairs_view(v: Seq<(String, SysEntry)>) -> Seq<(Seq<char>, EntryModel)> {
    v.map_values(|p: (String, SysEntry)| (p.0@, p.1@))
}

/// In-memory filesystem for fixture-driven tests and offline reports.
///
/// Writing a file or a symlink twice keeps the latest content; directory
/// entries accumulate per directory in the order they are added.
pub struct FixtureSys {
    files: Vec<(String, String)>,
    dirs: Vec<(String, SysEntry)>,
    symlinks: Vec<(String, String)>,
}

impl FixtureSys {
    pub closed spec fn files_model(&self) -> Seq<(Seq<char>, Seq<char>)> {
        pairs_view(self.files@)
    }

    pub closed spec fn dirs_model(&self) -> Seq<(Seq<char>, EntryModel)> {
        dir_pairs_view(self.dirs@)
    }

    pub closed spec fn links_model(&self) -> Seq<(Seq<char>, Seq<char>)> {
        pairs_view(self.symlinks@)
    }

    pub fn new() -> (r: Self)
        ensures
            r.files_model() == Seq::<(Seq<char>, Seq<char>)>::empty(),
            r.dirs_model() == Seq::<(Seq<char>, EntryModel)>::empty(),
            r.links_model() == Seq::<(Seq<char>, Seq<char>)>::empty(),
    {
        let r = FixtureSys { files: Vec::new(), dirs: Vec::new(), symlinks: Vec::new() };
        assert(pairs_view(r.files@) =~= Seq::<(Seq<char>, Seq<char>)>::empty());
        assert(dir_pairs_view(r.dirs@) =~= Seq::<(Seq<char>, EntryModel)>::empty());
        assert(pairs_view(r.symlinks@) =~= Seq::<(Seq<char>, Seq<char>)>::empty());
        r
    }

    /// Store `content` as the text of the file at `path`.
    pub fn file(&mut self, path: &str, content: &str) -> (ret: &mut Self)
        ensures
            ret.files_model() == old(self).files_model().push((path@, content@)),
            ret.dirs_model() == old(self).dirs_model(),
            ret.links_model() == old(self).links_model(),
            *final(self) == *final(ret),
    {
        self.files.push((path.to_string(), content.to_string()));
        assert(pairs_view(self.files@) =~= pairs_view(old(self).files@).push((path@, content@)));
        self
    }

    /// Add an entry named `name` to the listing of directory `path`.
    pub fn dir_entry(&mut self, path: &str, name: &str, is_dir: bool, is_symlink: bool) -> (ret:
        &mut Self)
        ensures
            ret.dirs_model() == old(self).dirs_model().push((path@, (name@, is_symlink, is_dir))),
            ret.files_model() == old(self).files_model(),
            ret.links_model() == old(self).links_model(),
            *final(self) == *final(ret),
    {
        self.dirs.push((path.to_string(), SysEntry { name: name.to_string(), is_symlink, is_dir }));
        assert(dir_pairs_view(self.dirs@) =~= dir_pairs_view(old(self).dirs@).push(
            (path@, (name@, is_symlink, is_dir)),
        ));
        self
    }

    /// Make `path` a symlink to `target`.
    pub fn symlink(&mut self, path: &str, target: &str) -> (ret: &mut Self)
        ensures
            ret.links_model() == old(self).links_model().push((path@, target@)),
            ret.files_model() == old(self).files_model(),
            ret.dirs_model() == old(self).dirs_model(),
            *final(self) == *final(ret),
    {
        self.symlinks.push((path.to_string(), target.to_string()));
        assert(pairs_view(self.symlinks@) =~= pairs_view(old(self).symlinks@).push(
            (path@, target@),
        ));
        self
    }
}

impl Default for FixtureSys {
    fn default() -> (r: Self)
        ensures
            r.files_model() == Seq::<(Seq<char>, Seq<char>)>::empty(),
            r.dirs_model() == Seq::<(Seq<char>, EntryModel)>::empty(),
            r.links_model() == Seq::<(Seq<char>, Seq<char>)>::empty(),
    {
        FixtureSys::new()
    }
}

fn lookup_last(v: &Vec<(String, String)>, path: &str) -> (r: Option<String>)
    ensures
        match r {
            Some(t) => last_value(pairs_view(v@), path@) == Some(t@),
            None => last_value(pairs_view(v@), path@) is None,
        },
{
    let p = chars_of(path);
    let mut i = v.len();
    assert(pairs_view(v@).take(v@.len() as int) =~= pairs_view(v@));
    while i > 0
        invariant
            i <= v@.len(),
            p@ == path@,
            last_value(pairs_view(v@), path@) == last_value(pairs_view(v@).take(i as int), path@),
        decreases i,
    {
        let ghost t = pairs_view(v@).take(i as int);
        let key = chars_of(v[i - 1].0.as_str());
        assert(t.last() == (v@[i - 1].0@, v@[i - 1].1@));
        if eq_chars(key.as_slice(), p.as_slice()) {
            return Some(v[i - 1].1.clone());
        }
        assert(t.drop_last() =~= pairs_view(v@).take(i - 1));
        i = i - 1;
    }
    assert(pairs_view(v@).take(0).len() == 0);
    None
}

impl Sys for FixtureSys {
    open spec fn spec_file(&self, path: Seq<char>) -> Option<Seq<char>> {
        last_value(self.files_model(), path)
    }

    open spec fn spec_dir(&self, path: Seq<char>) -> Option<Seq<EntryModel>> {
        let es = dir_entries(self.dirs_model(), path);
        if es.len() == 0 {
            None
        } else {
            Some(es)
        }
    }

    open spec fn spec_link(&self, path: Seq<char>) -> Option<Seq<char>> {
        last_value(self.links_model(), path)
    }

    fn read_to_string(&self, path: &str) -> (r: Option<String>) {
        assert(pairs_view(self.files@).take(self.files@.len() as int) =~= pairs_view(self.files@));
        lookup_last(&self.files, path)
    }

    fn read_dir(&self, path: &str) -> (r: Option<Vec<SysEntry>>) {
        let p = chars_of(path);
        let mut out: Vec<SysEntry> = Vec::new();
        for i in 0..self.dirs.len()
            invariant
                p@ == path@,
                entries_view(out@) == dir_entries(dir_pairs_view(self.dirs@).take(i as int), path@),
        {
            let ghost pre = dir_pairs_view(self.dirs@).take(i as int);
            let ghost nxt = dir_pairs_view(self.dirs@).take(i + 1);
            assert(nxt.drop_last() =~= pre);
            let key = chars_of(self.dirs[i].0.as_str());
            assert(nxt.last() == (self.dirs@[i as int].0@, self.dirs@[i as int].1@));
            if eq_chars(key.as_slice(), p.as_slice()) {
                let src = &self.dirs[i].1;
                let e = SysEntry {
                    name: src.name.clone(),
                    is_symlink: src.is_symlink,
                    is_dir: src.is_dir,
                };
                let ghost before = out@;
                out.push(e);
                assert(entries_view(out@) =~= entries_view(before).push(e@));
            }
        }
        assert(dir_pairs_view(self.dirs@).take(self.dirs@.len() as int) =~= dir_pairs_view(self.dirs@));
        if out.len() == 0 {
            None
        } else {
            Some(out)
        }
    }

    fn symlink_target(&self, path: &str) -> (r: Option<String>) {
        assert(pairs_view(self.symlinks@).take(self.symlinks@.len() as int) =~= pairs_view(self.symlinks@));
        lookup_last(&self.symlinks, path)
    }
}

} // verus!
