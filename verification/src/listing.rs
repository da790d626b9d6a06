//! What was read from the disk: the entries of directories.

use vstd::prelude::*;

use crate::path::{components_of, valid_name, Step, TreePath, DOT, SEPARATOR};
use crate::path_map::PathMap;
use crate::text::{decode_lossy, lossy_plain, lossy_text};

verus! {

/// An entry of a directory: its name, and whether it is a directory itself.
#[derive(Debug)]
pub struct DirEntry {
    name: Vec<u8>,
    is_dir: bool,
    // the name as it is shown
    shown: String,
}

/// The mathematical value of a [`DirEntry`].
pub struct EntryView {
    pub name: Seq<u8>,
    pub is_dir: bool,
}

impl DirEntry {
    pub closed spec fn view(&self) -> EntryView {
        EntryView { name: self.name@, is_dir: self.is_dir }
    }

    #[verifier::type_invariant]
    spec fn name_valid(&self) -> bool {
        &&& valid_name(self.name@)
        &&& self.shown@ == lossy_text(self.name@)
        &&& lossy_plain(self.name@)
    }

    /// An entry with this name. No directory has an entry whose name is empty, `.` or
    /// `..`, or holds a separator.
    pub fn new(name: Vec<u8>, is_dir: bool) -> (entry: Option<DirEntry>)
        ensures
            match entry {
                Some(e) => valid_name(name@) && e@ == (EntryView { name: name@, is_dir }),
                None => !valid_name(name@),
            },
            entry is Some ==> lossy_plain(name@),
    {
        if name.len() == 0 {
            return None;
        }
        if name[0] == DOT && (name.len() == 1 || (name.len() == 2 && name[1] == DOT)) {
            assert(name@ =~= seq![DOT] || name@ =~= seq![DOT, DOT]);
            return None;
        }
        let mut i: usize = 0;
        while i < name.len()
            invariant
                i <= name@.len(),
                forall|j: int| 0 <= j < i ==> name@[j] != SEPARATOR,
            decreases name@.len() - i,
        {
            if name[i] == SEPARATOR {
                assert(name@.contains(SEPARATOR));
                return None;
            }
            i = i + 1;
        }
        assert(valid_name(name@)) by {
            assert(name@ != seq![DOT]) by {
                assert(seq![DOT].len() == 1 && seq![DOT][0] == DOT);
            }
            assert(name@ != seq![DOT, DOT]) by {
                let dots = seq![DOT, DOT];
                assert(dots.len() == 2 && dots[0] == DOT && dots[1] == DOT);
            }
        }
        let shown = decode_lossy(&name);
        Some(DirEntry { name, is_dir, shown })
    }

    /// The entry's name.
    pub fn name(&self) -> (name: &Vec<u8>)
        ensures
            name@ == self@.name,
            valid_name(name@),
            lossy_plain(name@),
    {
        proof {
            use_type_invariant(self);
        }
        &self.name
    }

    /// The entry's name, as it is shown.
    pub fn shown_name(&self) -> (name: &str)
        ensures
            name@ == lossy_text(self@.name),
    {
        proof {
            use_type_invariant(self);
        }
        self.shown.as_str()
    }

    /// Whether the entry is a directory.
    pub fn is_dir(&self) -> (r: bool)
        ensures
            r == self@.is_dir,
    {
        self.is_dir
    }
}

/// The values of a list of entries.
pub open spec fn entry_views(entries: Seq<DirEntry>) -> Seq<EntryView> {
    entries.map_values(|e: DirEntry| e.view())
}

/// The entries of the directories that could be read, by the directory's components.
pub type Disk = Map<Seq<Step>, Seq<EntryView>>;

/// The values of a map of entries.
pub open spec fn disk_of(dirs: Map<Seq<Step>, Vec<DirEntry>>) -> Disk {
    dirs.map_values(|entries: Vec<DirEntry>| entry_views(entries@))
}

/// The directories that were read, each with its entries in the order in which they
/// came. A directory that could not be read is not in it.
#[derive(Debug)]
pub struct Snapshot {
    dirs: PathMap<Vec<DirEntry>>,
}

impl Snapshot {
    pub closed spec fn view(&self) -> Disk {
        disk_of(self.dirs@)
    }

    #[verifier::type_invariant]
    pub open spec fn valid(&self) -> bool {
        names_valid(self@) && names_plain(self@)
    }

    /// A snapshot without directories.
    pub fn new() -> (snapshot: Snapshot)
        ensures
            snapshot@ == Map::<Seq<Step>, Seq<EntryView>>::empty(),
    {
        let snapshot = Snapshot { dirs: PathMap::new() };
        assert(snapshot@ =~= Map::<Seq<Step>, Seq<EntryView>>::empty());
        snapshot
    }

    /// Records what a directory holds.
    pub fn record(&mut self, dir: TreePath, entries: Vec<DirEntry>)
        ensures
            final(self)@ == old(self)@.insert(components_of(dir@), entry_views(entries@)),
    {
        proof {
            use_type_invariant(&*self);
        }
        let mut i: usize = 0;
        while i < entries.len()
            invariant
                i <= entries@.len(),
                forall|j: int|
                    0 <= j < i ==> valid_name((#[trigger] entries@[j])@.name) && lossy_plain(
                        entries@[j]@.name,
                    ),
            decreases entries@.len() - i,
        {
            let _ = entries[i].name();
            i = i + 1;
        }
        let ghost (key, value) = (components_of(dir@), entry_views(entries@));
        let mut dirs = PathMap::new();
        std::mem::swap(&mut dirs, &mut self.dirs);
        dirs.insert(dir, entries);
        assert(disk_of(dirs@) =~= old(self)@.insert(key, value));
        std::mem::swap(&mut dirs, &mut self.dirs);
    }

    /// What a directory holds, if it was read.
    pub fn listing(&self, dir: &TreePath) -> (r: Option<&Vec<DirEntry>>)
        ensures
            match r {
                Some(entries) => self@.contains_key(components_of(dir@))
                    && self@[components_of(dir@)] == entry_views(entries@),
                None => !self@.contains_key(components_of(dir@)),
            },
    {
        self.dirs.get(dir)
    }
}

/// Whether every entry has a valid name.
pub open spec fn names_valid(disk: Disk) -> bool {
    forall|dir: Seq<Step>, i: int|
        disk.contains_key(dir) && 0 <= i < disk[dir].len() ==> valid_name(
            (#[trigger] disk[dir][i]).name,
        )
}

/// Whether every name that is valid UTF-8 is shown as it is.
pub open spec fn names_plain(disk: Disk) -> bool {
    forall|dir: Seq<Step>, i: int|
        disk.contains_key(dir) && 0 <= i < disk[dir].len() ==> lossy_plain(
            (#[trigger] disk[dir][i]).name,
        )
}

/// Whether no directory holds two entries of one name.
pub open spec fn names_distinct(disk: Disk) -> bool {
    forall|dir: Seq<Step>, i: int, j: int|
        disk.contains_key(dir) && 0 <= i < j < disk[dir].len() ==> (#[trigger] disk[dir][i]).name != (
        #[trigger] disk[dir][j]).name
}

}
