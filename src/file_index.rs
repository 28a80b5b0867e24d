use vstd::prelude::*;

use crate::error::Error;
use crate::file_info::FileInfo;
use crate::order::{compare_paths, lemma_path_lt_irreflexive, lemma_path_lt_transitive, path_lt};
use crate::path::{str_eq, valid_path, views, RelPath};

verus! {

/// The key of an index: a relative path as its components.
pub type PathKey = Seq<Seq<char>>;

/// What the index is built over.
#[derive(Clone, Copy, Debug, PartialEq, Eq, Structural)]
pub enum IndexType {
    /// A live data folder.
    Original,
    /// The archive of a live data folder.
    Archive,
}

/// Whether changes reach the filesystem or only the index.
#[derive(Clone, Copy, Debug, PartialEq, Eq, Structural)]
pub enum ActionType {
    Real,
    Dry,
}

/// A path is media when its first component is `Media` and its file name
/// is not the `.nomedia` marker.
pub open spec fn is_media(p: PathKey) -> bool {
    p.len() > 0 && p[0] == "Media"@ && p.last() != ".nomedia"@
}

/// The total size of the records selected by `media`: all of them where it
/// is `None`, else those whose media-ness it gives.
pub open spec fn sum_sizes(recs: Seq<(PathKey, FileInfo)>, media: Option<bool>) -> int
    decreases recs.len(),
{
    if recs.len() == 0 {
        0
    } else {
        let rest = sum_sizes(recs.drop_last(), media);
        match media {
            Some(m) => if is_media(recs.last().0) == m {
                rest + recs.last().1.bytes()
            } else {
                rest
            },
            None => rest + recs.last().1.bytes(),
        }
    }
}

/// The paths of `s` that `m` holds (`keep`) or lacks (`!keep`), in order.
pub open spec fn select_paths(s: Seq<PathKey>, m: Map<PathKey, FileInfo>, keep: bool) -> Seq<PathKey>
    decreases s.len(),
{
    if s.len() == 0 {
        s
    } else {
        let rest = select_paths(s.drop_last(), m, keep);
        if m.contains_key(s.last()) == keep {
            rest.push(s.last())
        } else {
            rest
        }
    }
}

/// `n` capped at the largest `u64`.
pub open spec fn saturate(n: int) -> int {
    if n > u64::MAX {
        u64::MAX as int
    } else {
        n
    }
}

/// The index after removing `files[0..n]` in order; none where one of them
/// is missing at its turn.
pub open spec fn removed_in_order(m: Map<PathKey, FileInfo>, files: Seq<PathKey>, n: int) -> Option<
    Map<PathKey, FileInfo>,
>
    decreases n,
{
    if n <= 0 {
        Some(m)
    } else {
        match removed_in_order(m, files, n - 1) {
            Some(m2) => if m2.contains_key(files[n - 1]) {
                Some(m2.remove(files[n - 1]))
            } else {
                None
            },
            None => None,
        }
    }
}

/// Whether `p` is a media path.
pub fn is_media_path(p: &RelPath) -> (r: bool)
    ensures
        r == is_media(p@),
{
    str_eq(p.first().as_str(), "Media") && !str_eq(p.file_name().as_str(), ".nomedia")
}

/// An index of the files of one directory tree: relative path to record.
pub struct FileIndex {
    index_type: IndexType,
    action_type: ActionType,
    root: String,
    entries: Vec<(RelPath, FileInfo)>,
    contents: Ghost<Map<PathKey, FileInfo>>,
}

impl View for FileIndex {
    type V = Map<PathKey, FileInfo>;

    closed spec fn view(&self) -> Map<PathKey, FileInfo> {
        self.contents@
    }
}

impl FileIndex {
    /// The records, in the order in which the index holds them.
    pub closed spec fn records(&self) -> Seq<(PathKey, FileInfo)> {
        Seq::new(self.entries@.len(), |i: int| (self.entries@[i].0@, self.entries@[i].1))
    }

    pub closed spec fn mode(&self) -> ActionType {
        self.action_type
    }

    pub closed spec fn kind(&self) -> IndexType {
        self.index_type
    }

    pub closed spec fn root_path(&self) -> Seq<char> {
        self.root@
    }

    /// The records and the map agree, keys are unique and in path order,
    /// and each key is a relative path.
    pub closed spec fn wf(&self) -> bool {
        &&& forall|i: int, j: int|
            0 <= i < j < self.entries@.len() ==> path_lt(
                (#[trigger] self.entries@[i]).0@,
                (#[trigger] self.entries@[j]).0@,
            )
        &&& forall|i: int, j: int|
            0 <= i < j < self.entries@.len() ==> (#[trigger] self.entries@[i]).0@ != (
            #[trigger] self.entries@[j]).0@
        &&& forall|i: int|
            0 <= i < self.entries@.len() ==> self.contents@.contains_key(
                (#[trigger] self.entries@[i]).0@,
            ) && self.contents@[self.entries@[i].0@] == self.entries@[i].1
        &&& forall|k: PathKey| #[trigger]
            self.contents@.contains_key(k) ==> exists|i: int|
                0 <= i < self.entries@.len() && (#[trigger] self.entries@[i]).0@ == k
        &&& forall|k: PathKey| #[trigger] self.contents@.contains_key(k) ==> valid_path(k)
    }

    /// What a well-formed index states of its records.
    pub proof fn lemma_records(&self)
        requires
            self.wf(),
        ensures
            forall|i: int, j: int|
                0 <= i < j < self.records().len() ==> (#[trigger] self.records()[i]).0 != (
                #[trigger] self.records()[j]).0,
            forall|i: int|
                0 <= i < self.records().len() ==> self@.contains_key((#[trigger] self.records()[i]).0)
                    && self@[self.records()[i].0] == self.records()[i].1,
            forall|k: PathKey| #[trigger]
                self@.contains_key(k) ==> exists|i: int|
                    0 <= i < self.records().len() && (#[trigger] self.records()[i]).0 == k,
            forall|k: PathKey| #[trigger] self@.contains_key(k) ==> valid_path(k),
    {
        assert forall|k: PathKey| #[trigger]
            self@.contains_key(k) implies exists|i: int|
                0 <= i < self.records().len() && (#[trigger] self.records()[i]).0 == k by {
            let i = choose|i: int| 0 <= i < self.entries@.len() && (#[trigger] self.entries@[i]).0@ == k;
            assert(self.records()[i].0 == k);
        }
    }

    /// An index over the tree at `root`, with no records yet: the caller
    /// checks the tree with `plan_setup` and fills the index with a walk
    /// (see `begin_scan`).
    pub fn new(index_type: IndexType, root: String, action_type: ActionType) -> (r: FileIndex)
        ensures
            r.wf(),
            r@ == Map::<PathKey, FileInfo>::empty(),
            r.kind() == index_type,
            r.mode() == action_type,
            r.root_path() == root@,
    {
        FileIndex {
            index_type,
            action_type,
            root,
            entries: Vec::new(),
            contents: Ghost(Map::empty()),
        }
    }

    /// The root of the tree.
    pub fn root(&self) -> (r: &String)
        ensures
            r@ == self.root_path(),
    {
        &self.root
    }

    /// Whether changes reach the filesystem.
    pub fn action_type(&self) -> (r: ActionType)
        ensures
            r == self.mode(),
    {
        self.action_type
    }

    /// What the index is built over.
    pub fn index_type(&self) -> (r: IndexType)
        ensures
            r == self.kind(),
    {
        self.index_type
    }

    /// The number of records.
    pub fn len(&self) -> (r: usize)
        ensures
            r == self.records().len(),
    {
        self.entries.len()
    }

    /// The record at position `i` of the index's own order.
    pub fn entry_at(&self, i: usize) -> (r: (&RelPath, &FileInfo))
        requires
            i < self.records().len(),
        ensures
            r.0@ == self.records()[i as int].0,
            *r.1 == self.records()[i as int].1,
    {
        (&self.entries[i].0, &self.entries[i].1)
    }

    /// Where `path` stands among the records: its position, or where it
    /// would go.
    fn search(&self, path: &RelPath) -> (r: (bool, usize))
        requires
            self.wf(),
        ensures
            r.0 ==> r.1 < self.entries@.len() && self.entries@[r.1 as int].0@ == path@,
            r.0 <==> self@.contains_key(path@),
            !r.0 ==> r.1 <= self.entries@.len(),
            !r.0 ==> forall|k: int| 0 <= k < r.1 ==> path_lt((#[trigger] self.entries@[k]).0@, path@),
            !r.0 ==> forall|k: int|
                r.1 <= k < self.entries@.len() ==> path_lt(path@, (#[trigger] self.entries@[k]).0@),
    {
        let mut lo: usize = 0;
        let mut hi: usize = self.entries.len();
        while lo < hi
            invariant
                self.wf(),
                lo <= hi <= self.entries@.len(),
                forall|k: int| 0 <= k < lo ==> path_lt((#[trigger] self.entries@[k]).0@, path@),
                forall|k: int| hi <= k < self.entries@.len() ==> path_lt(path@, (#[trigger] self.entries@[k]).0@),
            decreases hi - lo,
        {
            let mid = lo + (hi - lo) / 2;
            let c = compare_paths(&self.entries[mid].0, path);
            let ghost m = self.entries@[mid as int].0@;
            if c == 0 {
                return (true, mid);
            } else if c < 0 {
                assert forall|k: int| 0 <= k < mid + 1 implies path_lt((#[trigger] self.entries@[k]).0@, path@) by {
                    if k < mid {
                        lemma_path_lt_transitive(self.entries@[k].0@, m, path@);
                    }
                }
                lo = mid + 1;
            } else {
                assert forall|k: int| mid <= k < self.entries@.len() implies path_lt(path@, (#[trigger] self.entries@[k]).0@) by {
                    if k > mid {
                        lemma_path_lt_transitive(path@, m, self.entries@[k].0@);
                    }
                }
                hi = mid;
            }
        }
        proof {
            if self@.contains_key(path@) {
                let j = choose|j: int| 0 <= j < self.entries@.len() && (#[trigger] self.entries@[j]).0@ == path@;
                lemma_path_lt_irreflexive(path@);
                if j < lo {
                    assert(path_lt(self.entries@[j].0@, path@));
                } else {
                    assert(path_lt(path@, self.entries@[j].0@));
                }
            }
        }
        (false, lo)
    }

    /// Where `path` stands among the records.
    fn position(&self, path: &RelPath) -> (r: Option<usize>)
        requires
            self.wf(),
        ensures
            r matches Some(i) ==> i < self.entries@.len() && self.entries@[i as int].0@ == path@,
            r is None <==> !self@.contains_key(path@),
    {
        let (found, i) = self.search(path);
        if found {
            Some(i)
        } else {
            None
        }
    }

    /// Whether `path` is indexed.
    pub fn contains(&self, path: &RelPath) -> (r: bool)
        requires
            self.wf(),
        ensures
            r == self@.contains_key(path@),
    {
        self.position(path).is_some()
    }

    /// The record of `path`, if it is indexed.
    pub fn get(&self, path: &RelPath) -> (r: Option<FileInfo>)
        requires
            self.wf(),
        ensures
            r == (if self@.contains_key(path@) { Some(self@[path@]) } else { None }),
    {
        match self.position(path) {
            Some(i) => Some(self.entries[i].1),
            None => None,
        }
    }

    /// Records `info` under `path`, replacing any record there.
    pub fn insert_record(&mut self, path: RelPath, info: FileInfo)
        requires
            old(self).wf(),
        ensures
            final(self).wf(),
            final(self)@ == old(self)@.insert(path@, info),
            final(self).mode() == old(self).mode(),
            final(self).kind() == old(self).kind(),
            final(self).root_path() == old(self).root_path(),
    {
        let ghost k = path@;
        let ghost before = self.entries@;
        // A path is valid by construction; asking its length brings that fact in.
        let _ = path.len();
        let (found, i) = self.search(&path);
        if found {
            self.entries.set(i, (path, info));
            assert forall|a: int| 0 <= a < self.entries@.len() implies (#[trigger] self.entries@[a]).0@
                == before[a].0@ by {}
        } else {
            self.entries.insert(i, (path, info));
            assert forall|a: int| 0 <= a < self.entries@.len() implies #[trigger] self.entries@[a] == (
            if a < i {
                before[a]
            } else if a == i {
                (self.entries@[a].0, info)
            } else {
                before[a - 1]
            }) by {}
            assert forall|a: int, b: int|
                0 <= a < b < self.entries@.len() implies path_lt(
                (#[trigger] self.entries@[a]).0@,
                (#[trigger] self.entries@[b]).0@,
            ) by {
                if a < i && b == i {
                    assert(path_lt(before[a].0@, k));
                } else if a == i && b > i {
                    assert(path_lt(k, before[b - 1].0@));
                } else if a < i && b > i {
                    assert(path_lt(before[a].0@, before[b - 1].0@));
                } else if a > i {
                    assert(path_lt(before[a - 1].0@, before[b - 1].0@));
                }
            }
        }
        self.contents = Ghost(self.contents@.insert(k, info));
        assert forall|a: int, b: int|
            0 <= a < b < self.entries@.len() implies (#[trigger] self.entries@[a]).0@ != (
            #[trigger] self.entries@[b]).0@ by {
            lemma_path_lt_irreflexive(self.entries@[a].0@);
        }
        assert forall|k2: PathKey| #[trigger]
            self.contents@.contains_key(k2) implies exists|j: int|
                0 <= j < self.entries@.len() && (#[trigger] self.entries@[j]).0@ == k2 by {
            if k2 != k {
                let j = choose|j: int| 0 <= j < before.len() && (#[trigger] before[j]).0@ == k2;
                if found || j < i {
                    assert(self.entries@[j].0@ == k2);
                } else {
                    assert(self.entries@[j + 1].0@ == k2);
                }
            } else {
                assert(self.entries@[i as int].0@ == k);
            }
        }
        assert forall|a: int|
            0 <= a < self.entries@.len() implies self.contents@.contains_key(
                (#[trigger] self.entries@[a]).0@,
            ) && self.contents@[self.entries@[a].0@] == self.entries@[a].1 by {
            if self.entries@[a].0@ != k {
                let j = if found || a < i { a } else { a - 1 };
                assert(self.entries@[a] == before[j]);
            }
        }
    }

    /// Drops the record of `path`; whether there was one.
    pub fn remove_record(&mut self, path: &RelPath) -> (r: bool)
        requires
            old(self).wf(),
        ensures
            final(self).wf(),
            final(self)@ == old(self)@.remove(path@),
            r == old(self)@.contains_key(path@),
            final(self).mode() == old(self).mode(),
            final(self).kind() == old(self).kind(),
            final(self).root_path() == old(self).root_path(),
    {
        match self.position(path) {
            Some(i) => {
                let ghost before = self.entries@;
                let _ = self.entries.remove(i);
                self.contents = Ghost(self.contents@.remove(path@));
                assert forall|j: int| 0 <= j < self.entries@.len() implies #[trigger] self.entries@[j]
                    == (if j < i { before[j] } else { before[j + 1] }) by {}
                assert forall|k2: PathKey| #[trigger]
                    self.contents@.contains_key(k2) implies exists|j: int|
                        0 <= j < self.entries@.len() && (#[trigger] self.entries@[j]).0@ == k2 by {
                    let j = choose|j: int| 0 <= j < before.len() && (#[trigger] before[j]).0@ == k2;
                    if j < i {
                        assert(self.entries@[j].0@ == k2);
                    } else {
                        assert(j != i);
                        assert(self.entries@[j - 1].0@ == k2);
                    }
                }
                true
            },
            None => {
                assert(self.contents@.remove(path@) =~= self.contents@);
                false
            },
        }
    }

    /// Removes `path` from the index. In real mode the caller deletes the
    /// file from disk first, so that a failed delete leaves both as they
    /// were.
    pub fn remove_file(&mut self, path: &RelPath) -> (r: Result<(), Error>)
        requires
            old(self).wf(),
        ensures
            final(self).wf(),
            final(self).mode() == old(self).mode(),
            final(self).kind() == old(self).kind(),
            final(self).root_path() == old(self).root_path(),
            r is Ok <==> old(self)@.contains_key(path@),
            r is Ok ==> final(self)@ == old(self)@.remove(path@),
            r matches Err(e) ==> e matches Error::FileMissing(p) && p@ == path@ && final(self)@ == old(
                self,
            )@,
    {
        if self.remove_record(path) {
            Ok(())
        } else {
            Err(Error::FileMissing(path.duplicate()))
        }
    }
    /// The total size of the selected records (see `sum_sizes`), exactly.
    fn total_size(&self, media: Option<bool>) -> (r: u128)
        requires
            self.wf(),
        ensures
            r == sum_sizes(self.records(), media),
    {
        let mut total: u128 = 0;
        let mut i: usize = 0;
        while i < self.entries.len()
            invariant
                i <= self.entries@.len(),
                total == sum_sizes(self.records().subrange(0, i as int), media),
                total <= i * (u64::MAX as int),
            decreases self.entries@.len() - i,
        {
            let ghost recs = self.records().subrange(0, i as int + 1);
            assert(recs.drop_last() =~= self.records().subrange(0, i as int));
            let size = self.entries[i].1.get_size();
            let counted = match media {
                None => true,
                Some(m) => is_media_path(&self.entries[i].0) == m,
            };
            assert(total + size <= (i + 1) * (u64::MAX as int)) by (nonlinear_arith)
                requires
                    total <= i * (u64::MAX as int),
                    size <= u64::MAX,
            ;
            assert((i + 1) * (u64::MAX as int) <= u128::MAX) by (nonlinear_arith)
                requires
                    i < usize::MAX,
                    usize::MAX <= u64::MAX,
            ;
            if counted {
                total = total + size as u128;
            }
            i = i + 1;
        }
        assert(self.records().subrange(0, self.entries@.len() as int) =~= self.records());
        total
    }

    /// The total size of all records in bytes, capped at `u64::MAX`.
    pub fn size_bytes(&self) -> (r: u64)
        requires
            self.wf(),
        ensures
            r == saturate(sum_sizes(self.records(), None)),
    {
        let t = self.total_size(None);
        if t > u64::MAX as u128 {
            u64::MAX
        } else {
            t as u64
        }
    }

    /// The total size of the media files in bytes, capped at `u64::MAX`.
    pub fn media_size_bytes(&self) -> (r: u64)
        requires
            self.wf(),
        ensures
            r == saturate(sum_sizes(self.records(), Some(true))),
    {
        let t = self.total_size(Some(true));
        if t > u64::MAX as u128 {
            u64::MAX
        } else {
            t as u64
        }
    }

    /// The total size of the files that are not media in bytes, capped at
    /// `u64::MAX`.
    pub fn non_media_size_bytes(&self) -> (r: u64)
        requires
            self.wf(),
        ensures
            r == saturate(sum_sizes(self.records(), Some(false))),
    {
        let t = self.total_size(Some(false));
        if t > u64::MAX as u128 {
            u64::MAX
        } else {
            t as u64
        }
    }

    /// Every indexed path, once each.
    pub fn get_all_paths(&self) -> (r: Vec<RelPath>)
        requires
            self.wf(),
        ensures
            views(r@) == Seq::new(self.records().len(), |i: int| self.records()[i].0),
            forall|k: PathKey| self@.contains_key(k) <==> views(r@).contains(k),
    {
        let mut r: Vec<RelPath> = Vec::new();
        let mut i: usize = 0;
        while i < self.entries.len()
            invariant
                i <= self.entries@.len(),
                views(r@) == Seq::new(i as nat, |j: int| self.records()[j].0),
            decreases self.entries@.len() - i,
        {
            let ghost before = r@;
            assert(views(before).len() == before.len());
            assert(before.len() == i);
            let d = self.entries[i].0.duplicate();
            r.push(d);
            assert(r@[i as int]@ == self.records()[i as int].0);
            assert forall|j: int| 0 <= j < i implies r@[j]@ == self.records()[j].0 by {
                assert(r@[j] == before[j]);
                assert(views(before)[j] == self.records()[j].0);
            }
            i = i + 1;
            assert(views(r@) =~= Seq::new(i as nat, |j: int| self.records()[j].0));
        }
        proof {
            self.lemma_records();
            assert forall|k: PathKey| self@.contains_key(k) <==> views(r@).contains(k) by {
                if self@.contains_key(k) {
                    let j = choose|j: int| 0 <= j < self.records().len() && (#[trigger] self.records()[j]).0 == k;
                    assert(views(r@)[j] == k);
                }
                if views(r@).contains(k) {
                    let j = choose|j: int| 0 <= j < views(r@).len() && views(r@)[j] == k;
                    assert(self.records()[j].0 == k);
                }
            }
        }
        r
    }

    fn select(&self, list: &Vec<RelPath>, keep: bool) -> (r: Vec<RelPath>)
        requires
            self.wf(),
        ensures
            views(r@) == select_paths(views(list@), self@, keep),
    {
        let mut r: Vec<RelPath> = Vec::new();
        let mut i: usize = 0;
        while i < list.len()
            invariant
                self.wf(),
                i <= list@.len(),
                views(r@) == select_paths(views(list@).subrange(0, i as int), self@, keep),
            decreases list@.len() - i,
        {
            let ghost s = views(list@).subrange(0, i as int + 1);
            assert(s.drop_last() =~= views(list@).subrange(0, i as int));
            if self.contains(&list[i]) == keep {
                r.push(list[i].duplicate());
            }
            i = i + 1;
            assert(views(r@) =~= select_paths(s, self@, keep));
        }
        assert(views(list@).subrange(0, list@.len() as int) =~= views(list@));
        r
    }

    /// The paths of `list` that the index holds, in order.
    pub fn filter_existing(&self, list: &Vec<RelPath>) -> (r: Vec<RelPath>)
        requires
            self.wf(),
        ensures
            views(r@) == select_paths(views(list@), self@, true),
    {
        self.select(list, true)
    }

    /// The paths of `list` that the index lacks, in order.
    pub fn filter_missing(&self, list: &Vec<RelPath>) -> (r: Vec<RelPath>)
        requires
            self.wf(),
        ensures
            views(r@) == select_paths(views(list@), self@, false),
    {
        self.select(list, false)
    }
    /// Drops every record.
    pub fn clear(&mut self)
        requires
            old(self).wf(),
        ensures
            final(self).wf(),
            final(self)@ == Map::<PathKey, FileInfo>::empty(),
            final(self).mode() == old(self).mode(),
            final(self).kind() == old(self).kind(),
            final(self).root_path() == old(self).root_path(),
    {
        self.entries = Vec::new();
        self.contents = Ghost(Map::empty());
    }

    /// Removes each of `files` in turn, stopping at the first that is not
    /// indexed. In real mode the caller deletes each file from disk before
    /// its removal here.
    pub fn remove_files(&mut self, files: &Vec<RelPath>) -> (r: Result<(), Error>)
        requires
            old(self).wf(),
        ensures
            final(self).wf(),
            final(self).mode() == old(self).mode(),
            final(self).kind() == old(self).kind(),
            final(self).root_path() == old(self).root_path(),
            r is Ok <==> removed_in_order(old(self)@, views(files@), files@.len() as int) is Some,
            r is Ok ==> Some(final(self)@) == removed_in_order(
                old(self)@,
                views(files@),
                files@.len() as int,
            ),
            r matches Err(e) ==> exists|i: int|
                0 <= i < files@.len() && removed_in_order(old(self)@, views(files@), i) == Some(
                    final(self)@,
                ) && !final(self)@.contains_key(files@[i]@) && (e matches Error::FileMissing(p) && p@
                    == files@[i]@),
    {
        let ghost start = self@;
        let mut i: usize = 0;
        while i < files.len()
            invariant
                self.wf(),
                self.mode() == old(self).mode(),
                self.kind() == old(self).kind(),
                self.root_path() == old(self).root_path(),
                start == old(self)@,
                i <= files@.len(),
                removed_in_order(start, views(files@), i as int) == Some(self@),
            decreases files@.len() - i,
        {
            let ghost before = self@;
            match self.remove_file(&files[i]) {
                Ok(()) => {},
                Err(e) => {
                    proof {
                        lemma_removed_stays_none(start, views(files@), i as int + 1, files@.len() as int);
                    }
                    return Err(e);
                },
            }
            i = i + 1;
        }
        Ok(())
    }
}

proof fn lemma_removed_stays_none(m: Map<PathKey, FileInfo>, files: Seq<PathKey>, a: int, b: int)
    requires
        0 <= a <= b,
        removed_in_order(m, files, a) is None,
    ensures
        removed_in_order(m, files, b) is None,
    decreases b - a,
{
    if a < b {
        lemma_removed_stays_none(m, files, a + 1, b);
    }
}

} // verus!
