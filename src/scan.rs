use vstd::prelude::*;

use crate::error::Error;
use crate::file_index::{ActionType, FileIndex, IndexType, PathKey};
use crate::file_info::{FileInfo, Timestamp};
use crate::path::{is_valid_component, str_eq, valid_component, valid_path, RelPath};

verus! {

/// What the caller found at the root of a tree before indexing it.
#[derive(Clone, Copy, Debug, PartialEq, Eq, Structural)]
pub struct TreeProbe {
    /// The root exists.
    pub exists: bool,
    /// The marker file `.waa` stands at the root.
    pub has_marker: bool,
    /// The root holds no entry (true where it does not exist).
    pub is_empty: bool,
    /// `Databases/msgstore.db.crypt14` or `.crypt15` exists below the root.
    pub has_database: bool,
}

/// What the caller must do before the tree is indexed.
#[derive(Clone, Copy, Debug, PartialEq, Eq, Structural)]
pub struct SetupPlan {
    /// Create the root folder.
    pub create_root: bool,
    /// Write the marker file at the root.
    pub write_marker: bool,
    /// Walk the tree to build the index; otherwise it starts empty.
    pub scan: bool,
}

/// The rules for a tree: a live folder must hold a message database and no
/// marker; an archive must carry the marker or be empty (or absent), and
/// gets the marker in real mode. In dry mode nothing is written and an
/// absent archive counts as empty.
pub open spec fn setup_rule(index_type: IndexType, action_type: ActionType, probe: TreeProbe) -> Option<
    SetupPlan,
> {
    match index_type {
        IndexType::Original => if probe.has_database && !probe.has_marker {
            Some(SetupPlan { create_root: false, write_marker: false, scan: true })
        } else {
            None
        },
        IndexType::Archive => if probe.exists && probe.has_marker {
            Some(SetupPlan { create_root: false, write_marker: false, scan: true })
        } else if probe.exists && !probe.is_empty {
            None
        } else {
            match action_type {
                ActionType::Real => Some(
                    SetupPlan { create_root: !probe.exists, write_marker: true, scan: true },
                ),
                ActionType::Dry => Some(
                    SetupPlan { create_root: false, write_marker: false, scan: probe.exists },
                ),
            }
        },
    }
}

/// The error for a tree at `root` that breaks the rules.
pub open spec fn setup_error(index_type: IndexType, e: Error, root: Seq<char>) -> bool {
    match index_type {
        IndexType::Original => e matches Error::NotWhatsAppFolder(p) && p@ == root,
        IndexType::Archive => e matches Error::NewArchiveFolderNotEmpty(p) && p@ == root,
    }
}

/// Decides how the tree at `root` is set up, from what the caller found
/// there; fails where the tree breaks the rules of `setup_rule`.
pub fn plan_setup(index_type: IndexType, action_type: ActionType, root: &String, probe: TreeProbe) -> (r:
    Result<SetupPlan, Error>)
    ensures
        r is Ok <==> setup_rule(index_type, action_type, probe) is Some,
        r matches Ok(plan) ==> setup_rule(index_type, action_type, probe) == Some(plan),
        r matches Err(e) ==> setup_error(index_type, e, root@),
{
    match index_type {
        IndexType::Original => {
            if probe.has_database && !probe.has_marker {
                Ok(SetupPlan { create_root: false, write_marker: false, scan: true })
            } else {
                Err(Error::NotWhatsAppFolder(root.clone()))
            }
        },
        IndexType::Archive => {
            if probe.exists && probe.has_marker {
                Ok(SetupPlan { create_root: false, write_marker: false, scan: true })
            } else if probe.exists && !probe.is_empty {
                Err(Error::NewArchiveFolderNotEmpty(root.clone()))
            } else {
                match action_type {
                    ActionType::Real => Ok(
                        SetupPlan { create_root: !probe.exists, write_marker: true, scan: true },
                    ),
                    ActionType::Dry => Ok(
                        SetupPlan { create_root: false, write_marker: false, scan: probe.exists },
                    ),
                }
            }
        },
    }
}

/// The kind of a directory entry, with a file's metadata.
pub enum EntryKind {
    File { modification_time: Timestamp, size: u64 },
    Directory,
    Other,
}

/// One entry of a directory listing.
pub struct DirEntry {
    pub name: String,
    pub kind: EntryKind,
}

/// The entry is the marker at the root.
pub open spec fn is_root_marker(dir: Seq<Seq<char>>, name: Seq<char>) -> bool {
    dir.len() == 0 && name == ".waa"@
}

/// The index after the files of one listing of `dir` are recorded, in order.
pub open spec fn record_listing(
    m: Map<PathKey, FileInfo>,
    dir: Seq<Seq<char>>,
    entries: Seq<DirEntry>,
) -> Map<PathKey, FileInfo>
    decreases entries.len(),
{
    if entries.len() == 0 {
        m
    } else {
        let rest = record_listing(m, dir, entries.drop_last());
        let e = entries.last();
        match e.kind {
            EntryKind::File { modification_time, size } => if !is_root_marker(dir, e.name@)
                && valid_component(e.name@) {
                rest.insert(
                    dir.push(e.name@),
                    FileInfo::spec_new(e.name@, modification_time, size),
                )
            } else {
                rest
            },
            _ => rest,
        }
    }
}

/// The subdirectories of one listing of `dir`, in order.
pub open spec fn listed_dirs(dir: Seq<Seq<char>>, entries: Seq<DirEntry>) -> Seq<Seq<Seq<char>>>
    decreases entries.len(),
{
    if entries.len() == 0 {
        Seq::empty()
    } else {
        let rest = listed_dirs(dir, entries.drop_last());
        let e = entries.last();
        if e.kind is Directory && valid_component(e.name@) {
            rest.push(dir.push(e.name@))
        } else {
            rest
        }
    }
}

/// The entries of one listing of `dir` that are neither files nor folders,
/// or whose names cannot stand in a path, as the path they would have.
pub open spec fn listed_oddities(dir: Seq<Seq<char>>, entries: Seq<DirEntry>) -> Seq<Seq<Seq<char>>>
    decreases entries.len(),
{
    if entries.len() == 0 {
        Seq::empty()
    } else {
        let rest = listed_oddities(dir, entries.drop_last());
        let e = entries.last();
        if e.kind is Other || !valid_component(e.name@) {
            rest.push(dir.push(e.name@))
        } else {
            rest
        }
    }
}

/// A breadth-first walk of a tree that fills an index. The caller lists
/// each folder that `next_dir` names and hands the listing to `accept`.
pub struct TreeScan {
    pending: Vec<Vec<String>>,
    next: usize,
    warnings: Vec<Vec<String>>,
}

pub open spec fn parts_view(p: Vec<String>) -> Seq<Seq<char>> {
    Seq::new(p@.len(), |i: int| p@[i]@)
}

impl TreeScan {
    /// The folders still to list, first to last.
    pub closed spec fn queue(&self) -> Seq<Seq<Seq<char>>> {
        Seq::new((self.pending@.len() - self.next) as nat, |i: int| parts_view(self.pending@[self.next + i]))
    }

    /// The entries passed over with a warning, so far.
    pub closed spec fn ignored(&self) -> Seq<Seq<Seq<char>>> {
        Seq::new(self.warnings@.len(), |i: int| parts_view(self.warnings@[i]))
    }

    pub closed spec fn wf(&self) -> bool {
        &&& self.next <= self.pending@.len()
        &&& forall|i: int, j: int|
            0 <= i < self.pending@.len() && 0 <= j < self.pending@[i]@.len() ==> valid_component(
                #[trigger] self.pending@[i]@[j]@,
            )
    }

    /// Whether every folder has been listed.
    pub fn is_done(&self) -> (r: bool)
        requires
            self.wf(),
        ensures
            r == (self.queue().len() == 0),
    {
        self.next >= self.pending.len()
    }

    /// The entries passed over with a warning: links and other special
    /// files, and names that cannot stand in a path.
    pub fn warnings(&self) -> (r: &Vec<Vec<String>>)
        ensures
            Seq::new(r@.len(), |i: int| parts_view(r@[i])) == self.ignored(),
    {
        &self.warnings
    }
}

/// A copy of a list of path components.
fn copy_parts(p: &Vec<String>) -> (r: Vec<String>)
    ensures
        parts_view(r) == parts_view(*p),
{
    let mut r: Vec<String> = Vec::new();
    let mut i: usize = 0;
    while i < p.len()
        invariant
            i <= p@.len(),
            r@.len() == i,
            forall|j: int| 0 <= j < i ==> (#[trigger] r@[j])@ == p@[j]@,
        decreases p@.len() - i,
    {
        r.push(p[i].clone());
        i = i + 1;
    }
    assert(parts_view(r) =~= parts_view(*p));
    r
}

impl TreeScan {
    /// The next folder to list, relative to the root (the root itself is
    /// empty); `None` once every folder has been listed.
    pub fn next_dir(&mut self) -> (r: Option<Vec<String>>)
        requires
            old(self).wf(),
        ensures
            final(self).wf(),
            final(self).ignored() == old(self).ignored(),
            old(self).queue().len() == 0 ==> r is None && final(self).queue() == old(self).queue(),
            old(self).queue().len() > 0 ==> (r matches Some(d) && parts_view(d) == old(self).queue()[0]
                && final(self).queue() == old(self).queue().drop_first()),
            r matches Some(d) ==> forall|j: int| 0 <= j < d@.len() ==> valid_component(#[trigger] d@[j]@),
    {
        if self.next >= self.pending.len() {
            return None;
        }
        let d = copy_parts(&self.pending[self.next]);
        let ghost src = self.pending@[self.next as int];
        assert(parts_view(d).len() == d@.len());
        assert(parts_view(src).len() == src@.len());
        assert forall|j: int| 0 <= j < d@.len() implies valid_component(#[trigger] d@[j]@) by {
            assert(parts_view(d)[j] == d@[j]@);
            assert(parts_view(src)[j] == src@[j]@);
        }
        let ghost q = self.queue();
        self.next = self.next + 1;
        assert(self.queue() =~= q.drop_first());
        Some(d)
    }

    /// Takes the listing of `dir`: records its files in `index` (all but
    /// the marker at the root), queues its folders, and notes the other
    /// entries and the names that cannot stand in a path.
    pub fn accept(&mut self, index: &mut FileIndex, dir: &Vec<String>, entries: Vec<DirEntry>)
        requires
            old(self).wf(),
            old(index).wf(),
            forall|j: int| 0 <= j < dir@.len() ==> valid_component(#[trigger] dir@[j]@),
        ensures
            final(self).wf(),
            final(index).wf(),
            final(index).mode() == old(index).mode(),
            final(index).kind() == old(index).kind(),
            final(index).root_path() == old(index).root_path(),
            final(index)@ == record_listing(old(index)@, parts_view(*dir), entries@),
            final(self).queue() == old(self).queue() + listed_dirs(parts_view(*dir), entries@),
            final(self).ignored() == old(self).ignored() + listed_oddities(parts_view(*dir), entries@),
    {
        let ghost dv = parts_view(*dir);
        let ghost m0 = index@;
        let ghost q0 = self.queue();
        let ghost w0 = self.ignored();
        let mut i: usize = 0;
        while i < entries.len()
            invariant
                self.wf(),
                index.wf(),
                index.mode() == old(index).mode(),
                index.kind() == old(index).kind(),
                index.root_path() == old(index).root_path(),
                dv == parts_view(*dir),
                forall|j: int| 0 <= j < dir@.len() ==> valid_component(#[trigger] dir@[j]@),
                i <= entries@.len(),
                index@ == record_listing(m0, dv, entries@.subrange(0, i as int)),
                self.queue() == q0 + listed_dirs(dv, entries@.subrange(0, i as int)),
                self.ignored() == w0 + listed_oddities(dv, entries@.subrange(0, i as int)),
            decreases entries@.len() - i,
        {
            let ghost sub = entries@.subrange(0, i as int + 1);
            assert(sub.drop_last() =~= entries@.subrange(0, i as int));
            let e = &entries[i];
            let mut parts = copy_parts(dir);
            parts.push(e.name.clone());
            assert(parts_view(parts) =~= dv.push(e.name@));
            let valid = is_valid_component(&e.name);
            if !valid {
                let ghost w = self.ignored();
                self.warnings.push(parts);
                assert(self.ignored() =~= w.push(dv.push(e.name@)));
            } else {
                match &e.kind {
                    EntryKind::File { modification_time, size } => {
                        let marker = dir.len() == 0 && str_eq(e.name.as_str(), ".waa");
                        if !marker {
                            let info = FileInfo::new(e.name.as_str(), *modification_time, *size);
                            match RelPath::new(parts) {
                                Some(p) => {
                                    index.insert_record(p, info);
                                },
                                None => {
                                    assert(valid_path(dv.push(e.name@)));
                                },
                            }
                        }
                    },
                    EntryKind::Directory => {
                        let ghost q = self.queue();
                        assert forall|j: int| 0 <= j < parts@.len() implies valid_component(#[trigger] parts@[j]@) by {
                            assert(parts_view(parts)[j] == parts@[j]@);
                            if j < dir@.len() {
                                assert(dv[j] == dir@[j]@);
                            }
                        }
                        self.pending.push(parts);
                        assert(self.queue() =~= q.push(dv.push(e.name@)));
                    },
                    EntryKind::Other => {
                        let ghost w = self.ignored();
                        self.warnings.push(parts);
                        assert(self.ignored() =~= w.push(dv.push(e.name@)));
                    },
                }
            }
            i = i + 1;
            assert(self.queue() =~= q0 + listed_dirs(dv, sub));
            assert(self.ignored() =~= w0 + listed_oddities(dv, sub));
        }
        assert(entries@.subrange(0, entries@.len() as int) =~= entries@);
    }
}

impl FileIndex {
    /// Empties the index and starts a walk of its tree at the root.
    pub fn begin_scan(&mut self) -> (r: TreeScan)
        requires
            old(self).wf(),
        ensures
            final(self).wf(),
            final(self)@ == Map::<PathKey, FileInfo>::empty(),
            final(self).mode() == old(self).mode(),
            final(self).kind() == old(self).kind(),
            final(self).root_path() == old(self).root_path(),
            r.wf(),
            r.queue() == seq![Seq::<Seq<char>>::empty()],
            r.ignored().len() == 0,
    {
        self.clear();
        let mut pending: Vec<Vec<String>> = Vec::new();
        pending.push(Vec::new());
        let r = TreeScan { pending, next: 0, warnings: Vec::new() };
        assert(parts_view(r.pending@[0]) =~= Seq::<Seq<char>>::empty());
        assert(r.queue() =~= seq![Seq::<Seq<char>>::empty()]);
        assert(r.ignored() =~= Seq::<Seq<Seq<char>>>::empty());
        r
    }
}

} // verus!
