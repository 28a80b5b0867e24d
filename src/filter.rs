use vstd::prelude::*;
use vstd::seq_lib::group_to_multiset_ensures;

use crate::file_index::{is_media, is_media_path, FileIndex, PathKey};
use crate::file_info::{ts_millis, ts_nanos, FileInfo, Timestamp};
use crate::path::{views, RelPath};

verus! {

broadcast use group_to_multiset_ensures;

/// How files are ranked for keeping; a lower score is more worth keeping.
#[derive(Clone, Copy, Debug, PartialEq, Eq, Structural)]
pub enum FileScore {
    /// Smaller files first: the score is the size.
    Smaller,
    /// Newer files first: the score is minus the creation time in
    /// milliseconds.
    Newer,
    /// Small and new files first: the size doubled for each average month
    /// of age. This score is real-valued; the caller computes it and hands
    /// over an integer key that orders as it does.
    SmallerNewer,
}

/// The score of a file under `order`, with `decayed` the caller's key for
/// the size-and-age score.
pub open spec fn score_of(order: FileScore, info: FileInfo, decayed: i64) -> int {
    match order {
        FileScore::Smaller => info.bytes() as int,
        FileScore::Newer => -ts_millis(info.created()),
        FileScore::SmallerNewer => decayed as int,
    }
}

impl FileScore {
    /// The score of `info`; `decayed` is used by `SmallerNewer` alone.
    pub fn evaluate(&self, info: &FileInfo, decayed: i64) -> (r: i128)
        ensures
            r == score_of(*self, *info, decayed),
    {
        match self {
            FileScore::Smaller => info.get_size() as i128,
            FileScore::Newer => -info.estimate_creation_date().as_millis(),
            FileScore::SmallerNewer => decayed as i128,
        }
    }
}

/// A bound on the bytes that the kept files may take.
#[derive(Clone, Copy, Debug, PartialEq, Eq, Structural)]
pub enum DataLimit {
    /// No bound.
    Infinite,
    /// At most this many bytes.
    Bytes(u64),
}

impl DataLimit {
    /// The bound of `count` bytes.
    pub fn from_bytes(count: u64) -> (r: DataLimit)
        ensures
            r == DataLimit::Bytes(count),
    {
        DataLimit::Bytes(count)
    }

    /// Applies `f` to the byte count, if there is one.
    pub fn map<F: FnOnce(u64) -> u64>(self, f: F) -> (r: DataLimit)
        requires
            self matches DataLimit::Bytes(count) ==> f.requires((count,)),
        ensures
            self is Infinite ==> r is Infinite,
            self matches DataLimit::Bytes(count) ==> r matches DataLimit::Bytes(v) && f.ensures(
                (count,),
                v,
            ),
    {
        match self {
            DataLimit::Infinite => DataLimit::Infinite,
            DataLimit::Bytes(count) => DataLimit::Bytes(f(count)),
        }
    }
}

/// Which files are to be kept before all others.
#[derive(Clone, Copy, Debug, PartialEq, Eq, Structural)]
pub enum FilePredicate {
    /// Every file or none.
    Constant(bool),
    /// Files whose estimated creation lies at most this many nanoseconds
    /// before now.
    AgeLessThan(i128),
}

/// Whether `pred` holds of a file created at `created`, at time `now`.
pub open spec fn predicate_holds(pred: FilePredicate, created: Timestamp, now: Timestamp) -> bool {
    match pred {
        FilePredicate::Constant(b) => b,
        FilePredicate::AgeLessThan(max) => ts_nanos(now) - ts_nanos(created) <= max,
    }
}

impl FilePredicate {
    /// The predicate that holds of every file.
    pub fn all() -> (r: FilePredicate)
        ensures
            r == FilePredicate::Constant(true),
    {
        FilePredicate::Constant(true)
    }

    /// The predicate that holds of no file.
    pub fn none() -> (r: FilePredicate)
        ensures
            r == FilePredicate::Constant(false),
    {
        FilePredicate::Constant(false)
    }

    /// The predicate that holds of files at most `secs` seconds and `nanos`
    /// nanoseconds old.
    pub fn age_less_than(secs: u64, nanos: u32) -> (r: FilePredicate)
        ensures
            r matches FilePredicate::AgeLessThan(max) && max == secs * 1_000_000_000 + nanos,
    {
        FilePredicate::AgeLessThan(secs as i128 * 1_000_000_000 + nanos as i128)
    }

    /// Whether the predicate holds of `file_info` at time `now`.
    pub fn matches(&self, file_info: &FileInfo, now: Timestamp) -> (r: bool)
        ensures
            r == predicate_holds(*self, file_info.created(), now),
    {
        match self {
            FilePredicate::Constant(b) => *b,
            FilePredicate::AgeLessThan(max) => {
                let age = now.as_nanos() - file_info.estimate_creation_date().as_nanos();
                age <= *max
            },
        }
    }
}

/// Which media files to keep and how many bytes they may take.
pub struct FileQuery {
    /// How files are ranked.
    pub order: FileScore,
    /// The bound on what is kept.
    pub data_limit: DataLimit,
    /// The files kept before all others.
    pub priority: FilePredicate,
}

impl Default for FileQuery {
    fn default() -> (r: FileQuery)
        ensures
            r.order == FileScore::Newer,
            r.data_limit == DataLimit::Infinite,
            r.priority == FilePredicate::Constant(false),
    {
        FileQuery {
            order: FileScore::Newer,
            data_limit: DataLimit::Infinite,
            priority: FilePredicate::none(),
        }
    }
}

impl FileQuery {
    /// Sets how files are ranked.
    pub fn set_order(&mut self, order: FileScore)
        ensures
            final(self).order == order,
            final(self).data_limit == old(self).data_limit,
            final(self).priority == old(self).priority,
    {
        self.order = order;
    }

    /// Sets the bound on what is kept.
    pub fn set_limit(&mut self, data_limit: DataLimit)
        ensures
            final(self).order == old(self).order,
            final(self).data_limit == data_limit,
            final(self).priority == old(self).priority,
    {
        self.data_limit = data_limit;
    }

    /// Sets which files are kept before all others.
    pub fn set_priority(&mut self, predicate: FilePredicate)
        ensures
            final(self).order == old(self).order,
            final(self).data_limit == old(self).data_limit,
            final(self).priority == predicate,
    {
        self.priority = predicate;
    }
}

/// A media file as the ranking sees it.
pub struct Candidate {
    pub path: RelPath,
    pub size: u64,
    /// Whether the priority predicate holds of it.
    pub protected: bool,
    pub score: i128,
}

/// A candidate's path, size, protection and score.
pub type RankView = (Seq<Seq<char>>, u64, bool, i128);

pub open spec fn rank_view(c: Candidate) -> RankView {
    (c.path@, c.size, c.protected, c.score)
}

pub open spec fn rank_views(s: Seq<Candidate>) -> Seq<RankView> {
    Seq::new(s.len(), |i: int| rank_view(s[i]))
}

/// `a` is at least as worth keeping as `b`: protected files first, then
/// lower scores.
pub open spec fn ranks_before(a: RankView, b: RankView) -> bool {
    (a.2 && !b.2) || (a.2 == b.2 && a.3 <= b.3)
}

/// From most to least worth keeping.
pub open spec fn ranked(s: Seq<RankView>) -> bool {
    forall|i: int, j: int| 0 <= i < j < s.len() ==> ranks_before(#[trigger] s[i], #[trigger] s[j])
}

/// The bytes that the first `k` entries of `s` take.
pub open spec fn prefix_bytes(s: Seq<RankView>, k: int) -> int
    decreases k,
{
    if k <= 0 || k > s.len() {
        0
    } else {
        prefix_bytes(s, k - 1) + s[k - 1].1
    }
}

/// `delete` and `retain` split the ranked list `s` under `limit`: the last
/// `c` entries are deleted and the rest kept, where `c` is the least count
/// whose removal, walking from the least worth keeping, brings the total
/// down to the limit; the walk never reaches the first entry, so that one
/// is always kept. Without a limit nothing is deleted.
pub open spec fn is_quota_split(
    s: Seq<RankView>,
    limit: DataLimit,
    delete: Seq<Seq<Seq<char>>>,
    retain: Seq<Seq<Seq<char>>>,
) -> bool {
    let n = s.len() as int;
    let c = delete.len() as int;
    &&& c + retain.len() == n
    &&& forall|i: int| 0 <= i < retain.len() ==> #[trigger] retain[i] == s[i].0
    &&& forall|i: int| 0 <= i < c ==> #[trigger] delete[i] == s[n - c + i].0
    &&& match limit {
        DataLimit::Infinite => c == 0,
        DataLimit::Bytes(l) => {
            &&& (n == 0 ==> c == 0)
            &&& (n > 0 ==> c <= n - 1)
            &&& forall|k: int| n - c < k <= n ==> #[trigger] prefix_bytes(s, k) > l
            &&& (c == n - 1 || prefix_bytes(s, n - c) <= l)
        },
    }
}

/// Ranks `v` from most to least worth keeping.
fn rank_sort(v: Vec<Candidate>) -> (r: Vec<Candidate>)
    ensures
        rank_views(r@).to_multiset() == rank_views(v@).to_multiset(),
        ranked(rank_views(r@)),
{
    let ghost orig = rank_views(v@);
    let mut rest = v;
    let mut out: Vec<Candidate> = Vec::new();
    while rest.len() > 0
        invariant
            rank_views(out@).to_multiset().add(rank_views(rest@).to_multiset()) == orig.to_multiset(),
            ranked(rank_views(out@)),
            forall|i: int, j: int|
                0 <= i < out@.len() && 0 <= j < rest@.len() ==> ranks_before(
                    #[trigger] rank_view(out@[i]),
                    #[trigger] rank_view(rest@[j]),
                ),
        decreases rest@.len(),
    {
        let mut m: usize = 0;
        let mut k: usize = 1;
        while k < rest.len()
            invariant
                0 <= m < rest@.len(),
                1 <= k <= rest@.len(),
                forall|j: int| 0 <= j < k ==> ranks_before(rank_view(rest@[m as int]), #[trigger] rank_view(rest@[j])),
            decreases rest@.len() - k,
        {
            let better = (rest[k].protected && !rest[m].protected) || (rest[k].protected
                == rest[m].protected && rest[k].score < rest[m].score);
            if better {
                m = k;
            }
            k = k + 1;
        }
        let ghost rv = rank_views(rest@);
        let ghost ov = rank_views(out@);
        let ghost x = rank_view(rest@[m as int]);
        let c = rest.remove(m);
        assert(rank_views(rest@) =~= rv.remove(m as int));
        out.push(c);
        assert(rank_views(out@) =~= ov.push(x));
        assert(rank_views(out@).to_multiset().add(rank_views(rest@).to_multiset()) =~= orig.to_multiset());
        assert forall|i: int, j: int|
            0 <= i < out@.len() && 0 <= j < rest@.len() implies ranks_before(
                #[trigger] rank_view(out@[i]),
                #[trigger] rank_view(rest@[j]),
            ) by {
            let jj = if j < m { j } else { j + 1 };
            assert(rank_view(rest@[j]) == rv[jj]);
            if i < out@.len() - 1 {
                assert(rank_view(out@[i]) == ov[i]);
            }
        }
        assert forall|i: int, j: int| 0 <= i < j < rank_views(out@).len() implies ranks_before(
            #[trigger] rank_views(out@)[i],
            #[trigger] rank_views(out@)[j],
        ) by {
            if j < out@.len() - 1 {
                assert(rank_views(out@)[i] == ov[i]);
                assert(rank_views(out@)[j] == ov[j]);
            } else {
                assert(rank_views(out@)[i] == ov[i]);
            }
        }
    }
    out
}

/// The paths of `s`, in order.
pub open spec fn rank_paths(s: Seq<RankView>) -> Seq<Seq<Seq<char>>> {
    Seq::new(s.len(), |i: int| s[i].0)
}

/// Splits the ranked candidates `s` under `limit` (see `is_quota_split`):
/// the paths to delete, then the paths to keep.
fn quota_split(s: &Vec<Candidate>, limit: DataLimit) -> (r: (Vec<RelPath>, Vec<RelPath>))
    ensures
        is_quota_split(rank_views(s@), limit, views(r.0@), views(r.1@)),
{
    let ghost sv = rank_views(s@);
    let n = s.len();
    let c: usize = match limit {
        DataLimit::Infinite => 0,
        DataLimit::Bytes(l) => {
            if n == 0 {
                0
            } else {
                let mut total: u128 = 0;
                let mut i: usize = 0;
                while i < n
                    invariant
                        n == s@.len(),
                        sv == rank_views(s@),
                        i <= n,
                        total == prefix_bytes(sv, i as int),
                        total <= i * (u64::MAX as int),
                    decreases n - i,
                {
                    let size = s[i].size;
                    assert(total + size <= (i + 1) * (u64::MAX as int)) by (nonlinear_arith)
                        requires
                            total <= i * (u64::MAX as int),
                            size <= u64::MAX,
                    ;
                    assert((i + 1) * (u64::MAX as int) <= u128::MAX) by (nonlinear_arith)
                        requires
                            i < usize::MAX,
                            usize::MAX <= u64::MAX,
                    ;
                    total = total + size as u128;
                    i = i + 1;
                }
                let mut j: usize = 0;
                while j < n - 1 && total > l as u128
                    invariant
                        n == s@.len(),
                        n > 0,
                        sv == rank_views(s@),
                        j <= n - 1,
                        total == prefix_bytes(sv, n - j),
                        forall|k: int| n - j < k <= n ==> #[trigger] prefix_bytes(sv, k) > l,
                    decreases n - j,
                {
                    let size = s[n - 1 - j].size;
                    assert(prefix_bytes(sv, n - j) == prefix_bytes(sv, n - j - 1) + sv[n - j - 1].1);
                    assert(prefix_bytes(sv, n - j - 1) >= 0) by {
                        lemma_prefix_nonneg(sv, n - j - 1);
                    }
                    total = total - size as u128;
                    j = j + 1;
                }
                j
            }
        },
    };
    let mut delete: Vec<RelPath> = Vec::new();
    let mut retain: Vec<RelPath> = Vec::new();
    let mut i: usize = 0;
    while i < n
        invariant
            n == s@.len(),
            sv == rank_views(s@),
            c <= n,
            i <= n,
            i <= n - c ==> retain@.len() == i && delete@.len() == 0,
            i > n - c ==> retain@.len() == n - c && delete@.len() == i - (n - c),
            forall|k: int| 0 <= k < retain@.len() ==> (#[trigger] retain@[k])@ == sv[k].0,
            forall|k: int| 0 <= k < delete@.len() ==> (#[trigger] delete@[k])@ == sv[n - c + k].0,
        decreases n - i,
    {
        let p = s[i].path.duplicate();
        if i < n - c {
            retain.push(p);
        } else {
            delete.push(p);
        }
        i = i + 1;
    }
    proof {
        assert(views(retain@).len() == retain@.len());
        assert(views(delete@).len() == delete@.len());
        assert(views(delete@).len() == c);
    }
    (delete, retain)
}

proof fn lemma_prefix_nonneg(s: Seq<RankView>, k: int)
    ensures
        prefix_bytes(s, k) >= 0,
    decreases k,
{
    if k > 0 && k <= s.len() {
        lemma_prefix_nonneg(s, k - 1);
    }
}

/// Ranks `candidates` and splits them under `limit`: the paths to delete,
/// then the paths to keep (see `is_quota_split`). A protected candidate is
/// deleted only where every kept one is protected too.
pub fn partition(candidates: Vec<Candidate>, limit: DataLimit) -> (r: (Vec<RelPath>, Vec<RelPath>))
    ensures
        exists|s: Seq<RankView>|
            {
                &&& s.to_multiset() == rank_views(candidates@).to_multiset()
                &&& ranked(s)
                &&& is_quota_split(s, limit, views(r.0@), views(r.1@))
                &&& forall|i: int, j: int|
                    0 <= i < r.1@.len() <= j < s.len() && (#[trigger] s[j]).2 ==> (#[trigger] s[i]).2
            },
{
    let sorted = rank_sort(candidates);
    let r = quota_split(&sorted, limit);
    let ghost s = rank_views(sorted@);
    assert forall|i: int, j: int| 0 <= i < r.1@.len() <= j < s.len() && (#[trigger] s[j]).2 implies (
    #[trigger] s[i]).2 by {
        assert(ranks_before(s[i], s[j]));
    }
    r
}

/// The media records among the first `n` of `recs`, in order.
pub open spec fn media_records(recs: Seq<(PathKey, FileInfo)>, n: int) -> Seq<(PathKey, FileInfo)>
    decreases n,
{
    if n <= 0 || n > recs.len() {
        Seq::empty()
    } else {
        let rest = media_records(recs, n - 1);
        if is_media(recs[n - 1].0) {
            rest.push(recs[n - 1])
        } else {
            rest
        }
    }
}

/// The caller's key for the `k`-th media file, where there is one.
pub open spec fn decayed_at(decayed: Seq<i64>, k: int) -> i64 {
    if 0 <= k < decayed.len() {
        decayed[k]
    } else {
        0
    }
}

/// How `query` sees the media file `rec` at time `now`.
pub open spec fn candidate_of(
    query: FileQuery,
    now: Timestamp,
    rec: (PathKey, FileInfo),
    decayed: i64,
) -> RankView {
    (
        rec.0,
        rec.1.bytes(),
        predicate_holds(query.priority, rec.1.created(), now),
        score_of(query.order, rec.1, decayed) as i128,
    )
}

/// The candidates of the media files of `recs`.
pub open spec fn media_candidates(
    recs: Seq<(PathKey, FileInfo)>,
    query: FileQuery,
    now: Timestamp,
    decayed: Seq<i64>,
) -> Seq<RankView> {
    let m = media_records(recs, recs.len() as int);
    Seq::new(m.len(), |k: int| candidate_of(query, now, m[k], decayed_at(decayed, k)))
}

impl FileIndex {
    /// The media files, in the index's order.
    pub fn media_files(&self) -> (r: Vec<(RelPath, FileInfo)>)
        requires
            self.wf(),
        ensures
            Seq::new(r@.len(), |i: int| (r@[i].0@, r@[i].1)) == media_records(
                self.records(),
                self.records().len() as int,
            ),
    {
        let n = self.len();
        let mut r: Vec<(RelPath, FileInfo)> = Vec::new();
        let mut i: usize = 0;
        while i < n
            invariant
                n == self.records().len(),
                i <= n,
                Seq::new(r@.len(), |k: int| (r@[k].0@, r@[k].1)) == media_records(self.records(), i as int),
            decreases n - i,
        {
            let (p, info) = self.entry_at(i);
            let ghost before = r@;
            if is_media_path(p) {
                r.push((p.duplicate(), *info));
            }
            i = i + 1;
            assert(Seq::new(r@.len(), |k: int| (r@[k].0@, r@[k].1)) =~= media_records(self.records(), i as int)) by {
                assert(Seq::new(before.len(), |k: int| (before[k].0@, before[k].1)) == media_records(self.records(), i - 1));
                if is_media(self.records()[i - 1].0) {
                    assert forall|k: int| 0 <= k < before.len() implies r@[k] == before[k] by {}
                }
            }
        }
        r
    }

    /// Which media files to delete and which to keep to satisfy `query` at
    /// time `now`: the paths to delete, then the paths to keep. The media
    /// files are ranked, protected ones first, then by score, and deleted
    /// from the least worth keeping until the rest fits the limit (see
    /// `partition`). `decayed` holds the caller's keys for the size-and-age
    /// score, one per media file in the order of `media_files`; the other
    /// scores do not read it.
    pub fn get_delete_retain_candidates(
        &self,
        query: &FileQuery,
        now: Timestamp,
        decayed: &Vec<i64>,
    ) -> (r: (Vec<RelPath>, Vec<RelPath>))
        requires
            self.wf(),
        ensures
            exists|s: Seq<RankView>|
                {
                    &&& s.to_multiset() == media_candidates(self.records(), *query, now, decayed@).to_multiset()
                    &&& ranked(s)
                    &&& is_quota_split(s, query.data_limit, views(r.0@), views(r.1@))
                    &&& forall|i: int, j: int|
                        0 <= i < r.1@.len() <= j < s.len() && (#[trigger] s[j]).2 ==> (#[trigger] s[i]).2
                },
    {
        let media = self.media_files();
        let ghost m = media_records(self.records(), self.records().len() as int);
        let mut cands: Vec<Candidate> = Vec::new();
        let mut k: usize = 0;
        while k < media.len()
            invariant
                Seq::new(media@.len(), |i: int| (media@[i].0@, media@[i].1)) == m,
                k <= media@.len(),
                rank_views(cands@) == Seq::new(k as nat, |i: int| candidate_of(*query, now, m[i], decayed_at(decayed@, i))),
            decreases media@.len() - k,
        {
            let info = media[k].1;
            let d: i64 = if k < decayed.len() {
                decayed[k]
            } else {
                0
            };
            let c = Candidate {
                path: media[k].0.duplicate(),
                size: info.get_size(),
                protected: query.priority.matches(&info, now),
                score: query.order.evaluate(&info, d),
            };
            let ghost before = cands@;
            let ghost cv = rank_view(c);
            assert(rank_views(before).len() == before.len());
            assert(before.len() == k);
            cands.push(c);
            assert(m[k as int] == (media@[k as int].0@, media@[k as int].1));
            assert(d == decayed_at(decayed@, k as int));
            assert(rank_view(c) == candidate_of(*query, now, m[k as int], decayed_at(decayed@, k as int)));
            assert(rank_view(cands@[k as int]) == cv);
            k = k + 1;
            let ghost target = Seq::new(k as nat, |i: int| candidate_of(*query, now, m[i], decayed_at(decayed@, i)));
            let ghost prev = Seq::new((k - 1) as nat, |i: int| candidate_of(*query, now, m[i], decayed_at(decayed@, i)));
            assert forall|i: int| 0 <= i < k implies rank_views(cands@)[i] == target[i] by {
                if i < k - 1 {
                    assert(cands@[i] == before[i]);
                    assert(rank_views(before)[i] == prev[i]);
                }
            }
            assert(rank_views(cands@) =~= target);
        }
        assert(rank_views(cands@) =~= media_candidates(self.records(), *query, now, decayed@));
        partition(cands, query.data_limit)
    }

    /// The media files to delete to satisfy `query` (see
    /// `get_delete_retain_candidates`).
    pub fn get_delete_candidates(&self, query: &FileQuery, now: Timestamp, decayed: &Vec<i64>) -> (r:
        Vec<RelPath>)
        requires
            self.wf(),
        ensures
            exists|s: Seq<RankView>, retained: nat|
                {
                    &&& s.to_multiset() == media_candidates(self.records(), *query, now, decayed@).to_multiset()
                    &&& ranked(s)
                    &&& retained + r@.len() == s.len()
                    &&& is_quota_split(s, query.data_limit, views(r@), rank_paths(s).subrange(0, retained as int))
                },
    {
        let (delete, retain) = self.get_delete_retain_candidates(query, now, decayed);
        proof {
            let s = choose|s: Seq<RankView>|
                {
                    &&& s.to_multiset() == media_candidates(self.records(), *query, now, decayed@).to_multiset()
                    &&& ranked(s)
                    &&& is_quota_split(s, query.data_limit, views(delete@), views(retain@))
                    &&& forall|i: int, j: int|
                        0 <= i < retain@.len() <= j < s.len() && (#[trigger] s[j]).2 ==> (#[trigger] s[i]).2
                };
            assert(views(retain@) =~= rank_paths(s).subrange(0, retain@.len() as int));
            assert(retain@.len() + delete@.len() == s.len());
        }
        delete
    }

    /// The media files to keep to satisfy `query` (see
    /// `get_delete_retain_candidates`).
    pub fn get_retain_candidates(&self, query: &FileQuery, now: Timestamp, decayed: &Vec<i64>) -> (r:
        Vec<RelPath>)
        requires
            self.wf(),
        ensures
            exists|s: Seq<RankView>|
                {
                    &&& s.to_multiset() == media_candidates(self.records(), *query, now, decayed@).to_multiset()
                    &&& ranked(s)
                    &&& r@.len() <= s.len()
                    &&& is_quota_split(s, query.data_limit, rank_paths(s).subrange(r@.len() as int, s.len() as int), views(r@))
                },
    {
        let (delete, retain) = self.get_delete_retain_candidates(query, now, decayed);
        proof {
            let s = choose|s: Seq<RankView>|
                {
                    &&& s.to_multiset() == media_candidates(self.records(), *query, now, decayed@).to_multiset()
                    &&& ranked(s)
                    &&& is_quota_split(s, query.data_limit, views(delete@), views(retain@))
                    &&& forall|i: int, j: int|
                        0 <= i < retain@.len() <= j < s.len() && (#[trigger] s[j]).2 ==> (#[trigger] s[i]).2
                };
            assert(views(delete@) =~= rank_paths(s).subrange(retain@.len() as int, s.len() as int));
        }
        retain
    }
}

} // verus!
