use vstd::prelude::*;

use crate::error::Error;
use crate::file_index::{ActionType, FileIndex, IndexType, PathKey};
use crate::file_info::FileInfo;
use crate::path::{views, RelPath};

verus! {

/// The set of paths that a list names.
pub open spec fn path_set(files: Seq<RelPath>) -> Set<PathKey> {
    Set::new(|p: PathKey| exists|i: int| 0 <= i < files.len() && (#[trigger] files[i])@ == p)
}

/// A list of (path, record) pairs as keys and records.
pub open spec fn plan_view(plan: Seq<(RelPath, FileInfo)>) -> Seq<(PathKey, FileInfo)> {
    Seq::new(plan.len(), |i: int| (plan[i].0@, plan[i].1))
}

/// `p` must be copied from `src` to `dest`: the source has it and the
/// destination lacks it or holds another record.
pub open spec fn needs_copy(dest: Map<PathKey, FileInfo>, src: Map<PathKey, FileInfo>, p: PathKey) -> bool {
    &&& src.contains_key(p)
    &&& (!dest.contains_key(p) || dest[p] != src[p])
}

/// `plan` lists each requested path that needs a copy exactly once, with
/// the source's record, changed files before missing ones.
pub open spec fn is_mirror_plan(
    dest: Map<PathKey, FileInfo>,
    src: Map<PathKey, FileInfo>,
    files: Set<PathKey>,
    plan: Seq<(PathKey, FileInfo)>,
) -> bool {
    &&& forall|i: int, j: int| 0 <= i < j < plan.len() ==> (#[trigger] plan[i]).0 != (#[trigger] plan[j]).0
    &&& forall|i: int|
        0 <= i < plan.len() ==> files.contains((#[trigger] plan[i]).0) && needs_copy(dest, src, plan[i].0)
            && plan[i].1 == src[plan[i].0]
    &&& forall|p: PathKey|
        files.contains(p) && #[trigger] needs_copy(dest, src, p) ==> exists|i: int|
            0 <= i < plan.len() && (#[trigger] plan[i]).0 == p
    &&& forall|i: int, j: int|
        0 <= i < plan.len() && 0 <= j < plan.len() && !dest.contains_key((#[trigger] plan[i]).0)
            && dest.contains_key((#[trigger] plan[j]).0) ==> j < i
}

/// The destination after each item of `plan` was copied, in order.
pub open spec fn apply_plan(dest: Map<PathKey, FileInfo>, plan: Seq<(PathKey, FileInfo)>) -> Map<
    PathKey,
    FileInfo,
>
    decreases plan.len(),
{
    if plan.len() == 0 {
        dest
    } else {
        apply_plan(dest, plan.drop_last()).insert(plan.last().0, plan.last().1)
    }
}

proof fn lemma_apply_plan(dest: Map<PathKey, FileInfo>, plan: Seq<(PathKey, FileInfo)>, p: PathKey)
    requires
        forall|i: int, j: int| 0 <= i < j < plan.len() ==> (#[trigger] plan[i]).0 != (#[trigger] plan[j]).0,
    ensures
        forall|i: int|
            0 <= i < plan.len() && (#[trigger] plan[i]).0 == p ==> apply_plan(dest, plan).contains_key(p)
                && apply_plan(dest, plan)[p] == plan[i].1,
        (forall|i: int| 0 <= i < plan.len() ==> (#[trigger] plan[i]).0 != p) ==> apply_plan(
            dest,
            plan,
        ).contains_key(p) == dest.contains_key(p) && apply_plan(dest, plan)[p] == dest[p],
    decreases plan.len(),
{
    if plan.len() > 0 {
        let rest = plan.drop_last();
        assert forall|i: int, j: int| 0 <= i < j < rest.len() implies (#[trigger] rest[i]).0 != (
        #[trigger] rest[j]).0 by {
            assert(rest[i] == plan[i] && rest[j] == plan[j]);
        }
        lemma_apply_plan(dest, rest, p);
        assert forall|i: int| 0 <= i < plan.len() && (#[trigger] plan[i]).0 == p implies apply_plan(
            dest,
            plan,
        ).contains_key(p) && apply_plan(dest, plan)[p] == plan[i].1 by {
            if i < plan.len() - 1 {
                assert(rest[i] == plan[i]);
                assert(plan[plan.len() - 1].0 != p);
            }
        }
        if forall|i: int| 0 <= i < plan.len() ==> (#[trigger] plan[i]).0 != p {
            assert(plan[plan.len() - 1].0 != p);
            assert forall|i: int| 0 <= i < rest.len() implies (#[trigger] rest[i]).0 != p by {
                assert(rest[i] == plan[i]);
            }
        }
    }
}

/// Mirroring is idempotent: once every item of a mirror plan has been
/// copied, the destination agrees with the source on every requested path,
/// and a second plan for the same request is empty.
pub proof fn lemma_mirror_idempotent(
    dest: Map<PathKey, FileInfo>,
    src: Map<PathKey, FileInfo>,
    files: Set<PathKey>,
    plan: Seq<(PathKey, FileInfo)>,
    again: Seq<(PathKey, FileInfo)>,
)
    requires
        files.subset_of(src.dom()),
        is_mirror_plan(dest, src, files, plan),
        is_mirror_plan(apply_plan(dest, plan), src, files, again),
    ensures
        forall|p: PathKey|
            #[trigger] files.contains(p) ==> apply_plan(dest, plan).contains_key(p) && apply_plan(
                dest,
                plan,
            )[p] == src[p],
        again.len() == 0,
{
    let after = apply_plan(dest, plan);
    assert forall|p: PathKey| #[trigger] files.contains(p) implies after.contains_key(p) && after[p]
        == src[p] by {
        lemma_apply_plan(dest, plan, p);
        if needs_copy(dest, src, p) {
            let i = choose|i: int| 0 <= i < plan.len() && (#[trigger] plan[i]).0 == p;
            assert(plan[i].1 == src[plan[i].0]);
        } else {
            if exists|i: int| 0 <= i < plan.len() && (#[trigger] plan[i]).0 == p {
                let i = choose|i: int| 0 <= i < plan.len() && (#[trigger] plan[i]).0 == p;
                assert(needs_copy(dest, src, plan[i].0));
            }
        }
    }
    if again.len() > 0 {
        let q = again[0].0;
        assert(files.contains(q) && needs_copy(after, src, q));
    }
}

/// What the caller observed while writing a file into the tree.
pub enum TransferOutcome {
    /// The file was written (or, in dry mode, read at its source); its
    /// metadata read back gives this record.
    Written(FileInfo),
    /// Writing failed with this error.
    Failed(Error),
}

/// The library's ruling on a finished transfer.
pub struct ImportVerdict {
    /// Whether the import succeeded.
    pub result: Result<(), Error>,
    /// Whether the caller must delete the destination file, best effort.
    pub discard_destination: bool,
}

/// An import that yields `actual` succeeds: in dry mode, without an expected
/// record, or where the record read back equals the expected one.
pub open spec fn accepts(mode: ActionType, expected: Option<FileInfo>, actual: FileInfo) -> bool {
    mode is Dry || expected is None || expected == Some(actual)
}

impl FileIndex {
    /// Rules on a transfer of the file at `relative_path`, whose record read
    /// back must equal `expected` where one is given, and updates the index:
    /// a success records what was read back; in real mode a failure drops
    /// the path and has the caller delete whatever was left there.
    fn import_file_maybe_metadata(
        &mut self,
        relative_path: &RelPath,
        expected: Option<FileInfo>,
        outcome: TransferOutcome,
    ) -> (r: ImportVerdict)
        requires
            old(self).wf(),
        ensures
            final(self).wf(),
            final(self).mode() == old(self).mode(),
            final(self).kind() == old(self).kind(),
            final(self).root_path() == old(self).root_path(),
            match outcome {
                TransferOutcome::Written(actual) => if accepts(old(self).mode(), expected, actual) {
                    &&& r.result is Ok
                    &&& !r.discard_destination
                    &&& final(self)@ == old(self)@.insert(relative_path@, actual)
                } else {
                    &&& r.result matches Err(e) && e matches Error::FileMismatch(q) && q@
                        == relative_path@
                    &&& r.discard_destination
                    &&& final(self)@ == old(self)@.remove(relative_path@)
                },
                TransferOutcome::Failed(e) => {
                    &&& r.result == Err::<(), Error>(e)
                    &&& r.discard_destination == (old(self).mode() is Real)
                    &&& old(self).mode() is Real ==> final(self)@ == old(self)@.remove(relative_path@)
                    &&& old(self).mode() is Dry ==> final(self)@ == old(self)@
                },
            },
    {
        let on_disk = match self.action_type() {
            ActionType::Real => true,
            ActionType::Dry => false,
        };
        match outcome {
            TransferOutcome::Written(actual) => {
                let ok = match expected {
                    None => true,
                    Some(e) => !on_disk || e.matches(&actual),
                };
                if ok {
                    self.insert_record(relative_path.duplicate(), actual);
                    ImportVerdict { result: Ok(()), discard_destination: false }
                } else {
                    self.remove_record(relative_path);
                    ImportVerdict {
                        result: Err(Error::FileMismatch(relative_path.duplicate())),
                        discard_destination: true,
                    }
                }
            },
            TransferOutcome::Failed(e) => {
                if on_disk {
                    self.remove_record(relative_path);
                }
                ImportVerdict { result: Err(e), discard_destination: on_disk }
            },
        }
    }

    /// Rules on a transfer of a file into `relative_path`, with no record
    /// to compare against (see `import_file_with_metadata`).
    pub fn import_file(&mut self, relative_path: &RelPath, outcome: TransferOutcome) -> (r:
        ImportVerdict)
        requires
            old(self).wf(),
        ensures
            final(self).wf(),
            final(self).mode() == old(self).mode(),
            final(self).kind() == old(self).kind(),
            final(self).root_path() == old(self).root_path(),
            match outcome {
                TransferOutcome::Written(actual) => {
                    &&& r.result is Ok
                    &&& !r.discard_destination
                    &&& final(self)@ == old(self)@.insert(relative_path@, actual)
                },
                TransferOutcome::Failed(e) => {
                    &&& r.result == Err::<(), Error>(e)
                    &&& r.discard_destination == (old(self).mode() is Real)
                    &&& old(self).mode() is Real ==> final(self)@ == old(self)@.remove(relative_path@)
                    &&& old(self).mode() is Dry ==> final(self)@ == old(self)@
                },
            },
    {
        self.import_file_maybe_metadata(relative_path, None, outcome)
    }

    /// Rules on a transfer of a file into `relative_path` whose metadata
    /// must come out as `info`.
    ///
    /// The caller copies crash-safely (a temporary sibling, synced, then
    /// renamed over the destination), sets the destination's modification
    /// time to `info`'s and reads its metadata back; in dry mode it reads
    /// the source's metadata instead. A record that differs from `info`
    /// is a mismatch. On any failure in real mode the path leaves the index
    /// and the verdict has the caller delete the destination, so that no
    /// partial or corrupt copy stays indexed or on disk.
    pub fn import_file_with_metadata(
        &mut self,
        relative_path: &RelPath,
        info: &FileInfo,
        outcome: TransferOutcome,
    ) -> (r: ImportVerdict)
        requires
            old(self).wf(),
        ensures
            final(self).wf(),
            final(self).mode() == old(self).mode(),
            final(self).kind() == old(self).kind(),
            final(self).root_path() == old(self).root_path(),
            match outcome {
                TransferOutcome::Written(actual) => if old(self).mode() is Dry || actual == *info {
                    &&& r.result is Ok
                    &&& !r.discard_destination
                    &&& final(self)@ == old(self)@.insert(relative_path@, actual)
                } else {
                    &&& r.result matches Err(e) && e matches Error::FileMismatch(q) && q@
                        == relative_path@
                    &&& r.discard_destination
                    &&& !final(self)@.contains_key(relative_path@)
                    &&& final(self)@ == old(self)@.remove(relative_path@)
                },
                TransferOutcome::Failed(e) => {
                    &&& r.result == Err::<(), Error>(e)
                    &&& r.discard_destination == (old(self).mode() is Real)
                    &&& old(self).mode() is Real ==> !final(self)@.contains_key(relative_path@)
                    &&& old(self).mode() is Real ==> final(self)@ == old(self)@.remove(relative_path@)
                    &&& old(self).mode() is Dry ==> final(self)@ == old(self)@
                },
            },
            r.result is Ok && old(self).mode() is Real ==> final(self)@.contains_key(relative_path@)
                && final(self)@[relative_path@] == *info,
    {
        self.import_file_maybe_metadata(relative_path, Some(*info), outcome)
    }
}

/// `planned` holds exactly the paths that `plan` lists.
pub open spec fn tracks(planned: Map<PathKey, FileInfo>, plan: Seq<(RelPath, FileInfo)>) -> bool {
    &&& forall|a: int| 0 <= a < plan.len() ==> planned.contains_key((#[trigger] plan[a]).0@)
    &&& forall|p: PathKey| #[trigger]
        planned.contains_key(p) ==> exists|a: int| 0 <= a < plan.len() && (#[trigger] plan[a]).0@ == p
}

/// Whether `plan`, tracked by `planned`, already lists `path`.
fn plan_has(planned: &FileIndex, plan: &Vec<(RelPath, FileInfo)>, path: &RelPath) -> (r: bool)
    requires
        planned.wf(),
        tracks(planned@, plan@),
    ensures
        r == exists|i: int| 0 <= i < plan@.len() && (#[trigger] plan@[i]).0@ == path@,
{
    let r = planned.contains(path);
    proof {
        if r {
            assert(planned@.contains_key(path@));
        } else {
            assert forall|i: int| 0 <= i < plan@.len() implies (#[trigger] plan@[i]).0@ != path@ by {
                assert(planned@.contains_key(plan@[i].0@));
            }
        }
    }
    r
}

/// Appends `(path, info)` to `plan` and tracks it in `planned`.
fn add_to_plan(planned: &mut FileIndex, plan: &mut Vec<(RelPath, FileInfo)>, path: &RelPath, info: FileInfo)
    requires
        old(planned).wf(),
        tracks(old(planned)@, old(plan)@),
    ensures
        final(planned).wf(),
        tracks(final(planned)@, final(plan)@),
        final(plan)@.len() == old(plan)@.len() + 1,
        forall|a: int| 0 <= a < old(plan)@.len() ==> final(plan)@[a] == old(plan)@[a],
        final(plan)@.last().0@ == path@,
        final(plan)@.last().1 == info,
{
    let ghost before = plan@;
    planned.insert_record(path.duplicate(), info);
    plan.push((path.duplicate(), info));
    assert forall|p: PathKey| #[trigger] planned@.contains_key(p) implies exists|a: int|
        0 <= a < plan@.len() && (#[trigger] plan@[a]).0@ == p by {
        if p == path@ {
            assert(plan@[before.len() as int].0@ == p);
        } else {
            let a = choose|a: int| 0 <= a < before.len() && (#[trigger] before[a]).0@ == p;
            assert(plan@[a] == before[a]);
        }
    }
    assert forall|a: int| 0 <= a < plan@.len() implies planned@.contains_key((#[trigger] plan@[a]).0@) by {
        if a < before.len() {
            assert(plan@[a] == before[a]);
        }
    }
}

impl FileIndex {
    /// The copies that mirror `files` from `source_index` into this index:
    /// each requested path that the source holds and that this index lacks
    /// or holds with another record, with the source's record; changed
    /// files first, then missing ones. Fails with `IndexEntryMissing` where
    /// a requested path is not in the source. Files only this index holds
    /// are left alone.
    ///
    /// The caller copies the items in order, reporting each through
    /// `import_file_with_metadata`, and stops at the first failure.
    pub fn mirror_specified(&self, source_index: &FileIndex, files: &Vec<RelPath>) -> (r: Result<
        Vec<(RelPath, FileInfo)>,
        Error,
    >)
        requires
            self.wf(),
            source_index.wf(),
        ensures
            r is Err <==> exists|i: int|
                0 <= i < files@.len() && !source_index@.contains_key((#[trigger] files@[i])@),
            r matches Err(e) ==> e is IndexEntryMissing,
            r matches Ok(plan) ==> is_mirror_plan(
                self@,
                source_index@,
                path_set(files@),
                plan_view(plan@),
            ),
    {
        let ghost dest = self@;
        let ghost src = source_index@;
        let ghost fs = path_set(files@);
        let mut i: usize = 0;
        while i < files.len()
            invariant
                source_index.wf(),
                i <= files@.len(),
                forall|j: int| 0 <= j < i ==> source_index@.contains_key((#[trigger] files@[j])@),
            decreases files@.len() - i,
        {
            if !source_index.contains(&files[i]) {
                return Err(Error::IndexEntryMissing);
            }
            i = i + 1;
        }
        let mut plan: Vec<(RelPath, FileInfo)> = Vec::new();
        let mut planned = FileIndex::new(IndexType::Archive, String::new(), ActionType::Dry);
        // Changed files: held by both sides with different records.
        let mut i: usize = 0;
        while i < files.len()
            invariant
                self.wf(),
                source_index.wf(),
                planned.wf(),
                tracks(planned@, plan@),
                dest == self@,
                src == source_index@,
                fs == path_set(files@),
                i <= files@.len(),
                forall|j: int| 0 <= j < files@.len() ==> src.contains_key((#[trigger] files@[j])@),
                forall|a: int, b: int|
                    0 <= a < b < plan@.len() ==> (#[trigger] plan@[a]).0@ != (#[trigger] plan@[b]).0@,
                forall|a: int|
                    0 <= a < plan@.len() ==> fs.contains((#[trigger] plan@[a]).0@) && needs_copy(
                        dest,
                        src,
                        plan@[a].0@,
                    ) && plan@[a].1 == src[plan@[a].0@] && dest.contains_key(plan@[a].0@),
                forall|j: int|
                    0 <= j < i && dest.contains_key((#[trigger] files@[j])@) && needs_copy(
                        dest,
                        src,
                        files@[j]@,
                    ) ==> exists|a: int| 0 <= a < plan@.len() && (#[trigger] plan@[a]).0@ == files@[j]@,
            decreases files@.len() - i,
        {
            let f = &files[i];
            let ghost before = plan@;
            assert(fs.contains(files@[i as int]@));
            match (self.get(f), source_index.get(f)) {
                (Some(mine), Some(theirs)) => {
                    if !mine.matches(&theirs) && !plan_has(&planned, &plan, f) {
                        add_to_plan(&mut planned, &mut plan, f, theirs);
                        assert(plan@[before.len() as int].0@ == f@);
                    }
                },
                _ => {},
            }
            proof {
                assert forall|j: int|
                    0 <= j < i + 1 && dest.contains_key((#[trigger] files@[j])@) && needs_copy(
                        dest,
                        src,
                        files@[j]@,
                    ) implies exists|a: int| 0 <= a < plan@.len() && (#[trigger] plan@[a]).0@ == files@[j]@ by {
                    if j < i {
                        let a = choose|a: int| 0 <= a < before.len() && (#[trigger] before[a]).0@ == files@[j]@;
                        assert(plan@[a] == before[a]);
                    }
                }
            }
            i = i + 1;
        }
        // Missing files: held by the source alone.
        let mut i: usize = 0;
        while i < files.len()
            invariant
                self.wf(),
                source_index.wf(),
                planned.wf(),
                tracks(planned@, plan@),
                dest == self@,
                src == source_index@,
                fs == path_set(files@),
                i <= files@.len(),
                forall|j: int| 0 <= j < files@.len() ==> src.contains_key((#[trigger] files@[j])@),
                forall|a: int, b: int|
                    0 <= a < b < plan@.len() ==> (#[trigger] plan@[a]).0@ != (#[trigger] plan@[b]).0@,
                forall|a: int|
                    0 <= a < plan@.len() ==> fs.contains((#[trigger] plan@[a]).0@) && needs_copy(
                        dest,
                        src,
                        plan@[a].0@,
                    ) && plan@[a].1 == src[plan@[a].0@],
                forall|a: int, b: int|
                    0 <= a < plan@.len() && 0 <= b < plan@.len() && !dest.contains_key(
                        (#[trigger] plan@[a]).0@,
                    ) && dest.contains_key((#[trigger] plan@[b]).0@) ==> b < a,
                forall|j: int|
                    0 <= j < files@.len() && dest.contains_key((#[trigger] files@[j])@) && needs_copy(
                        dest,
                        src,
                        files@[j]@,
                    ) ==> exists|a: int| 0 <= a < plan@.len() && (#[trigger] plan@[a]).0@ == files@[j]@,
                forall|j: int|
                    0 <= j < i && needs_copy(dest, src, (#[trigger] files@[j])@) ==> exists|a: int|
                        0 <= a < plan@.len() && (#[trigger] plan@[a]).0@ == files@[j]@,
            decreases files@.len() - i,
        {
            let f = &files[i];
            let ghost before = plan@;
            assert(fs.contains(files@[i as int]@));
            if !self.contains(f) && !plan_has(&planned, &plan, f) {
                let theirs = source_index.get(f);
                match theirs {
                    Some(info) => {
                        add_to_plan(&mut planned, &mut plan, f, info);
                        assert(plan@[before.len() as int].0@ == f@);
                    },
                    None => {},
                }
            }
            proof {
                assert forall|j: int|
                    0 <= j < files@.len() && dest.contains_key((#[trigger] files@[j])@) && needs_copy(
                        dest,
                        src,
                        files@[j]@,
                    ) implies exists|a: int| 0 <= a < plan@.len() && (#[trigger] plan@[a]).0@ == files@[j]@ by {
                    let a = choose|a: int| 0 <= a < before.len() && (#[trigger] before[a]).0@ == files@[j]@;
                    assert(plan@[a] == before[a]);
                }
                assert forall|j: int|
                    0 <= j < i + 1 && needs_copy(dest, src, (#[trigger] files@[j])@) implies exists|a: int|
                        0 <= a < plan@.len() && (#[trigger] plan@[a]).0@ == files@[j]@ by {
                    if j < i {
                        let a = choose|a: int| 0 <= a < before.len() && (#[trigger] before[a]).0@ == files@[j]@;
                        assert(plan@[a] == before[a]);
                    } else if dest.contains_key(files@[j]@) {
                        let a = choose|a: int| 0 <= a < before.len() && (#[trigger] before[a]).0@ == files@[j]@;
                        assert(plan@[a] == before[a]);
                    }
                }
            }
            i = i + 1;
        }
        proof {
            let pv = plan_view(plan@);
            assert forall|p: PathKey| fs.contains(p) && #[trigger] needs_copy(dest, src, p) implies exists|
                a: int,
            | 0 <= a < pv.len() && (#[trigger] pv[a]).0 == p by {
                let j = choose|j: int| 0 <= j < files@.len() && (#[trigger] files@[j])@ == p;
                let a = choose|a: int| 0 <= a < plan@.len() && (#[trigger] plan@[a]).0@ == files@[j]@;
                assert(pv[a].0 == p);
            }
        }
        Ok(plan)
    }
    /// The copies that mirror every file of `source_index` into this index
    /// (see `mirror_specified`).
    pub fn mirror_all(&self, source_index: &FileIndex) -> (r: Vec<(RelPath, FileInfo)>)
        requires
            self.wf(),
            source_index.wf(),
        ensures
            is_mirror_plan(self@, source_index@, source_index@.dom(), plan_view(r@)),
    {
        let files = source_index.get_all_paths();
        assert(path_set(files@) =~= source_index@.dom()) by {
            assert forall|p: PathKey| path_set(files@).contains(p) implies source_index@.contains_key(p) by {
                let i = choose|i: int| 0 <= i < files@.len() && (#[trigger] files@[i])@ == p;
                assert(views(files@)[i] == p);
            }
            assert forall|p: PathKey| source_index@.contains_key(p) implies path_set(files@).contains(p) by {
                let i = choose|i: int| 0 <= i < views(files@).len() && views(files@)[i] == p;
                assert(files@[i]@ == p);
            }
        }
        match self.mirror_specified(source_index, &files) {
            Ok(plan) => plan,
            Err(_) => {
                proof {
                    let i = choose|i: int|
                        0 <= i < files@.len() && !source_index@.contains_key((#[trigger] files@[i])@);
                    assert(path_set(files@).contains(files@[i]@));
                }
                Vec::new()
            },
        }
    }
}

} // verus!
