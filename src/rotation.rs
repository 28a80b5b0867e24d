use vstd::prelude::*;

use crate::error::Error;
use crate::file_index::{removed_in_order, FileIndex, PathKey};
use crate::file_info::{ts_before, FileInfo};
use crate::grammar::{
    date_at, date_shape_at, digit_run_end, digits_end, has_word, line_end, line_end_from, word, word_at,
};
use crate::path::{chars_of, str_eq, views, RelPath};

verus! {

/// The day number that the date written `YYYY-MM-DD` has in the proleptic
/// Gregorian calendar (days since the start of year 1, that day being 1);
/// none where the text names no date.
pub uninterp spec fn dashed_date_day(text: Seq<char>) -> Option<i32>;

/// Relies on chrono's `NaiveDate::parse_from_str` with the format
/// `%Y-%m-%d`, then `Datelike::num_days_from_ce`: the date's day number.
#[verifier::external_body]
fn day_number_of_dashed_date(text: &str) -> (r: Option<i32>)
    ensures
        r == dashed_date_day(text@),
{
    match chrono::NaiveDate::parse_from_str(text, "%Y-%m-%d") {
        Ok(d) => Some(chrono::Datelike::num_days_from_ce(&d)),
        Err(_) => None,
    }
}

/// Where `msgstore[-increment-N]-` stands at `i` and a date follows, the
/// date's position.
pub open spec fn dated_snapshot_at(s: Seq<char>, i: int) -> Option<int> {
    if !has_word(s, i, "msgstore"@) {
        None
    } else {
        let j = i + "msgstore"@.len();
        let d = j + "-increment-"@.len();
        let e = digit_run_end(s, d);
        if has_word(s, j, "-increment-"@) && e > d && e < s.len() && s[e] == '-' && date_shape_at(
            s,
            e + 1,
        ) {
            Some(e + 1)
        } else if j < s.len() && s[j] == '-' && date_shape_at(s, j + 1) {
            Some(j + 1)
        } else {
            None
        }
    }
}

/// The date position of the leftmost dated snapshot name at or after `i`.
pub open spec fn first_dated_snapshot(s: Seq<char>, i: int) -> Option<int>
    decreases s.len() - i,
{
    if i < 0 || i >= s.len() {
        None
    } else {
        match dated_snapshot_at(s, i) {
            Some(k) => Some(k),
            None => first_dated_snapshot(s, i + 1),
        }
    }
}

/// The day of a dated database snapshot: a file under `Databases` whose
/// name holds `msgstore[-increment-N]-YYYY-MM-DD.`, with a valid date.
pub open spec fn snapshot_day(p: PathKey) -> Option<i32> {
    if p.len() > 0 && p[0] == "Databases"@ {
        match first_dated_snapshot(p.last(), 0) {
            Some(k) => dashed_date_day(p.last().subrange(k, k + 10)),
            None => None,
        }
    } else {
        None
    }
}

/// The distinct days of the dated snapshots in `m`.
pub open spec fn snapshot_days(m: Map<PathKey, FileInfo>) -> Set<i32> {
    Set::new(|d: i32| exists|p: PathKey| m.contains_key(p) && #[trigger] snapshot_day(p) == Some(d))
}

/// The snapshot days of `m` later than `d`.
pub open spec fn newer_days(m: Map<PathKey, FileInfo>, d: i32) -> Set<i32> {
    snapshot_days(m).filter(|x: i32| x > d)
}

/// `p` is a dated snapshot of which `keep` or more later days exist: it is
/// older than the `keep` most recent days.
pub open spec fn stale_snapshot(m: Map<PathKey, FileInfo>, keep: nat, p: PathKey) -> bool {
    &&& m.contains_key(p)
    &&& snapshot_day(p) matches Some(d) && newer_days(m, d).len() >= keep
}

/// The day of the snapshot that `p` names, if it names one.
pub fn snapshot_day_of(p: &RelPath) -> (r: Option<i32>)
    ensures
        r == snapshot_day(p@),
{
    if !str_eq(p.first().as_str(), "Databases") {
        return None;
    }
    let name = p.file_name();
    let cs = chars_of(name.as_str());
    let store = word("msgstore");
    let inc = word("-increment-");
    let mut i: usize = 0;
    while i < cs.len()
        invariant
            cs@ == name@,
            p@.len() > 0,
            p@[0] == "Databases"@,
            name@ == p@.last(),
            store@ == "msgstore"@,
            inc@ == "-increment-"@,
            i <= cs@.len(),
            first_dated_snapshot(cs@, 0) == first_dated_snapshot(cs@, i as int),
        decreases cs@.len() - i,
    {
        if word_at(&cs, i, &store) {
            let j = i + store.len();
            let mut found: Option<usize> = None;
            if word_at(&cs, j, &inc) {
                let d = j + inc.len();
                let e = digits_end(&cs, d);
                if e > d && e < cs.len() && cs[e] == '-' && date_at(&cs, e + 1) {
                    found = Some(e + 1);
                }
            }
            if found.is_none() && j < cs.len() && cs[j] == '-' && date_at(&cs, j + 1) {
                found = Some(j + 1);
            }
            assert(found == match dated_snapshot_at(cs@, i as int) {
                Some(k) => Some(k as usize),
                None => None::<usize>,
            });
            if let Some(k) = found {
                let text = name.as_str().substring_char(k, k + 10);
                return day_number_of_dashed_date(text);
            }
        }
        i = i + 1;
    }
    None
}

/// How many of the distinct `days` are later than `d`.
fn count_later(days: &Vec<i32>, d: i32) -> (r: usize)
    requires
        days@.no_duplicates(),
    ensures
        r == days@.to_set().filter(|x: i32| x > d).len(),
{
    let mut count: usize = 0;
    let mut i: usize = 0;
    let ghost mut acc: Set<i32> = Set::empty();
    while i < days.len()
        invariant
            days@.no_duplicates(),
            i <= days@.len(),
            acc.finite(),
            acc.len() == count,
            count <= i,
            acc == Set::new(|x: i32| x > d && exists|j: int| 0 <= j < i && days@[j] == x),
        decreases days@.len() - i,
    {
        let x = days[i];
        proof {
            let next = Set::new(|y: i32| y > d && exists|j: int| 0 <= j < i + 1 && days@[j] == y);
            if x > d {
                assert(!acc.contains(x)) by {
                    if acc.contains(x) {
                        let j = choose|j: int| 0 <= j < i && days@[j] == x;
                        assert(days@[j] == days@[i as int]);
                    }
                }
                assert(next =~= acc.insert(x));
            } else {
                assert(next =~= acc);
            }
            acc = next;
        }
        if x > d {
            count = count + 1;
        }
        i = i + 1;
    }
    assert(acc =~= days@.to_set().filter(|x: i32| x > d)) by {
        assert forall|y: i32| days@.to_set().filter(|x: i32| x > d).contains(y) implies acc.contains(y) by {
            let j = choose|j: int| 0 <= j < days@.len() && days@[j] == y;
        }
    }
    count
}

/// Rotation keeps the `keep` most recent days: where exactly `keep + 1`
/// distinct snapshot days exist, a snapshot is stale exactly when its day
/// is the oldest; where at most `keep` exist, none is stale.
pub proof fn lemma_rotation_boundary(m: Map<PathKey, FileInfo>, keep: nat, p: PathKey)
    requires
        snapshot_days(m).finite(),
        m.contains_key(p),
        snapshot_day(p) is Some,
    ensures
        snapshot_days(m).len() == keep + 1 ==> (stale_snapshot(m, keep, p) <==> forall|x: i32|
            #[trigger] snapshot_days(m).contains(x) ==> snapshot_day(p)->0 <= x),
        snapshot_days(m).len() <= keep ==> !stale_snapshot(m, keep, p),
{
    let all = snapshot_days(m);
    let d = snapshot_day(p)->0;
    let later = newer_days(m, d);
    assert(all.contains(d));
    assert(later.subset_of(all.remove(d)));
    vstd::set_lib::lemma_len_subset(later, all.remove(d));
    if forall|x: i32| #[trigger] all.contains(x) ==> d <= x {
        assert(later =~= all.remove(d));
    } else {
        let y = choose|y: i32| #[trigger] all.contains(y) && !(d <= y);
        assert(later.subset_of(all.remove(d).remove(y)));
        vstd::set_lib::lemma_len_subset(later, all.remove(d).remove(y));
    }
}

/// The first dot at or after `i`, or the end.
pub open spec fn first_dot(s: Seq<char>, i: int) -> int
    decreases s.len() - i,
{
    if i < 0 || i >= s.len() || s[i] == '.' {
        i
    } else {
        first_dot(s, i + 1)
    }
}

/// A file name up to its first dot: what stays when only the extension
/// changes.
pub open spec fn name_prefix(s: Seq<char>) -> Seq<char> {
    s.subrange(0, first_dot(s, 0))
}

/// `p` is a visible file directly under `Backups`.
pub open spec fn in_backups(p: PathKey) -> bool {
    &&& p.len() == 2
    &&& p[0] == "Backups"@
    &&& !(p[1].len() > 0 && p[1][0] == '.')
}

/// `p` is a backup of which a later one with the same name prefix exists.
pub open spec fn superseded_backup(m: Map<PathKey, FileInfo>, p: PathKey) -> bool {
    &&& m.contains_key(p)
    &&& in_backups(p)
    &&& exists|q: PathKey|
        #![trigger m.contains_key(q), in_backups(q)]
        m.contains_key(q) && in_backups(q) && name_prefix(q[1]) == name_prefix(p[1]) && ts_before(
            m[p].modified(),
            m[q].modified(),
        )
}

spec fn info_is(x: Option<(bool, String)>, y: Option<(bool, Seq<char>)>) -> bool {
    x matches Some((inc, ext)) && y == Some((inc, ext@))
}

spec fn key_is(k: Option<String>, v: Seq<char>) -> bool {
    k matches Some(s) && s@ == v
}

/// The name prefix of `p` where it is a backup.
fn backup_prefix_of(p: &RelPath) -> (r: Option<String>)
    ensures
        r is Some <==> in_backups(p@),
        r matches Some(k) ==> k@ == name_prefix(p@[1]),
{
    let n = p.len();
    if n != 2 || !str_eq(p.first().as_str(), "Backups") {
        return None;
    }
    let name = p.file_name();
    let cs = chars_of(name.as_str());
    assert(name@ == p@[1]);
    if cs.len() > 0 && cs[0] == '.' {
        return None;
    }
    let mut i: usize = 0;
    while i < cs.len() && cs[i] != '.'
        invariant
            i <= cs@.len(),
            first_dot(cs@, 0) == first_dot(cs@, i as int),
        decreases cs@.len() - i,
    {
        i = i + 1;
    }
    let prefix = name.as_str().substring_char(0, i);
    Some(String::from_str(prefix))
}

/// Where `msgstore[-increment-N].db.` stands at `i`: whether it names an
/// incremental backup, and where the extension starts.
pub open spec fn current_db_at(s: Seq<char>, i: int) -> Option<(bool, int)> {
    if !has_word(s, i, "msgstore"@) {
        None
    } else {
        let j = i + "msgstore"@.len();
        let d = j + "-increment-"@.len();
        let e = digit_run_end(s, d);
        if has_word(s, j, "-increment-"@) && e > d && has_word(s, e, ".db."@) {
            Some((true, e + ".db."@.len()))
        } else if has_word(s, j, ".db."@) {
            Some((false, j + ".db."@.len()))
        } else {
            None
        }
    }
}

/// The leftmost current-backup name at or after `i`.
pub open spec fn first_current_db(s: Seq<char>, i: int) -> Option<(bool, int)>
    decreases s.len() - i,
{
    if i < 0 || i >= s.len() {
        None
    } else {
        match current_db_at(s, i) {
            Some(x) => Some(x),
            None => first_current_db(s, i + 1),
        }
    }
}

/// A current database backup under `Databases`: whether it is
/// incremental, and its extension (up to a line break).
pub open spec fn db_backup(p: PathKey) -> Option<(bool, Seq<char>)> {
    if p.len() > 0 && p[0] == "Databases"@ {
        match first_current_db(p.last(), 0) {
            Some((inc, k)) => Some((inc, p.last().subrange(k, line_end(p.last(), k)))),
            None => None,
        }
    } else {
        None
    }
}

/// The extension of the current backup `p`.
pub open spec fn backup_extension(p: PathKey) -> Seq<char> {
    match db_backup(p) {
        Some((_, ext)) => ext,
        None => Seq::empty(),
    }
}

/// `q` is a full backup.
pub open spec fn is_full_backup(q: PathKey) -> bool {
    db_backup(q) matches Some((inc, _)) && !inc
}

/// `cur` is a full backup modified no earlier than any other in `m`.
pub open spec fn is_current_full(m: Map<PathKey, FileInfo>, cur: PathKey) -> bool {
    &&& m.contains_key(cur)
    &&& is_full_backup(cur)
    &&& forall|q: PathKey|
        #[trigger] m.contains_key(q) && is_full_backup(q) ==> !ts_before(m[cur].modified(), m[q].modified())
}

/// Against the current full backup `cur`, `p` is a backup in another
/// format, or an incremental one older than `cur`.
pub open spec fn superseded_db(m: Map<PathKey, FileInfo>, cur: PathKey, p: PathKey) -> bool {
    &&& m.contains_key(p)
    &&& db_backup(p) matches Some((inc, ext)) && (ext != backup_extension(cur) || (inc && ts_before(
        m[p].modified(),
        m[cur].modified(),
    )))
}

/// Whether `p` is a current backup: incremental or not, and its extension.
pub fn db_backup_of(p: &RelPath) -> (r: Option<(bool, String)>)
    ensures
        r is Some <==> db_backup(p@) is Some,
        r matches Some((inc, ext)) ==> db_backup(p@) == Some((inc, ext@)),
{
    if !str_eq(p.first().as_str(), "Databases") {
        return None;
    }
    let name = p.file_name();
    let cs = chars_of(name.as_str());
    let store = word("msgstore");
    let inc = word("-increment-");
    let dbw = word(".db.");
    let mut i: usize = 0;
    while i < cs.len()
        invariant
            cs@ == name@,
            p@.len() > 0,
            p@[0] == "Databases"@,
            name@ == p@.last(),
            store@ == "msgstore"@,
            inc@ == "-increment-"@,
            dbw@ == ".db."@,
            i <= cs@.len(),
            first_current_db(cs@, 0) == first_current_db(cs@, i as int),
        decreases cs@.len() - i,
    {
        if word_at(&cs, i, &store) {
            let j = i + store.len();
            let mut found: Option<(bool, usize)> = None;
            if word_at(&cs, j, &inc) {
                let d = j + inc.len();
                let e = digits_end(&cs, d);
                if e > d && word_at(&cs, e, &dbw) {
                    found = Some((true, e + dbw.len()));
                }
            }
            if found.is_none() && word_at(&cs, j, &dbw) {
                found = Some((false, j + dbw.len()));
            }
            assert(found == match current_db_at(cs@, i as int) {
                Some((b, k)) => Some((b, k as usize)),
                None => None::<(bool, usize)>,
            });
            if let Some((incremental, k)) = found {
                let end = line_end_from(&cs, k);
                let ext = name.as_str().substring_char(k, end);
                return Some((incremental, String::from_str(ext)));
            }
        }
        i = i + 1;
    }
    None
}

/// Removing distinct indexed paths one by one never misses and removes
/// exactly them.
proof fn lemma_remove_distinct(m: Map<PathKey, FileInfo>, files: Seq<PathKey>, k: int)
    requires
        0 <= k <= files.len(),
        files.no_duplicates(),
        forall|i: int| 0 <= i < files.len() ==> m.contains_key(#[trigger] files[i]),
    ensures
        removed_in_order(m, files, k) == Some(m.remove_keys(files.subrange(0, k).to_set())),
    decreases k,
{
    if k == 0 {
        assert(m.remove_keys(files.subrange(0, 0).to_set()) =~= m);
    } else {
        lemma_remove_distinct(m, files, k - 1);
        let head = files.subrange(0, k - 1);
        let whole = files.subrange(0, k);
        let prev = m.remove_keys(head.to_set());
        assert(!head.to_set().contains(files[k - 1])) by {
            if head.to_set().contains(files[k - 1]) {
                let j = choose|j: int| 0 <= j < head.len() && #[trigger] head[j] == files[k - 1];
                assert(files[j] == files[k - 1]);
            }
        }
        assert(prev.contains_key(files[k - 1]));
        assert forall|x: PathKey| whole.to_set().contains(x) <==> (head.to_set().contains(x) || x == files[k - 1]) by {
            if whole.to_set().contains(x) {
                let j = choose|j: int| 0 <= j < whole.len() && #[trigger] whole[j] == x;
                if j < k - 1 {
                    assert(head[j] == x);
                }
            }
            if head.to_set().contains(x) {
                let j = choose|j: int| 0 <= j < head.len() && #[trigger] head[j] == x;
                assert(whole[j] == x);
            }
            if x == files[k - 1] {
                assert(whole[k - 1] == x);
            }
        }
        assert(prev.remove(files[k - 1]) =~= m.remove_keys(whole.to_set()));
    }
}

/// The set of paths that a list names is the set of keys meeting `pred`.
proof fn lemma_list_is_set(list: Seq<PathKey>, m: Map<PathKey, FileInfo>, pred: spec_fn(PathKey) -> bool)
    requires
        forall|i: int| 0 <= i < list.len() ==> #[trigger] pred(list[i]),
        forall|p: PathKey| #[trigger] pred(p) ==> list.contains(p),
    ensures
        list.subrange(0, list.len() as int).to_set() == Set::new(|p: PathKey| pred(p)),
{
    assert(list.subrange(0, list.len() as int) =~= list);
    assert(list.to_set() =~= Set::new(|p: PathKey| pred(p)));
}

impl FileIndex {
    /// The dated database snapshots to delete so that only the `keep` most
    /// recent snapshot days remain: each snapshot of which `keep` or more
    /// later days exist. Nothing goes while there are at most `keep` days.
    pub fn previous_dbs(&self, keep: usize) -> (r: Vec<RelPath>)
        requires
            self.wf(),
        ensures
            views(r@).no_duplicates(),
            forall|i: int| 0 <= i < r@.len() ==> stale_snapshot(self@, keep as nat, (#[trigger] r@[i])@),
            forall|p: PathKey| stale_snapshot(self@, keep as nat, p) ==> views(r@).contains(p),
    {
        proof {
            self.lemma_records();
        }
        let ghost recs = self.records();
        let n = self.len();
        let mut day_of: Vec<Option<i32>> = Vec::new();
        let mut days: Vec<i32> = Vec::new();
        let mut i: usize = 0;
        while i < n
            invariant
                self.wf(),
                recs == self.records(),
                n == recs.len(),
                i <= n,
                day_of@.len() == i,
                forall|j: int| 0 <= j < i ==> day_of@[j] == #[trigger] snapshot_day(recs[j].0),
                days@.no_duplicates(),
                days@.to_set() == Set::new(|d: i32| exists|j: int| 0 <= j < i && snapshot_day(recs[j].0) == Some(d)),
            decreases n - i,
        {
            let (p, _) = self.entry_at(i);
            let day = snapshot_day_of(p);
            day_of.push(day);
            let ghost before = days@;
            if let Some(d) = day {
                let mut seen = false;
                let mut k: usize = 0;
                while k < days.len()
                    invariant
                        k <= days@.len(),
                        seen == exists|m: int| 0 <= m < k && days@[m] == d,
                    decreases days@.len() - k,
                {
                    if days[k] == d {
                        seen = true;
                    }
                    k = k + 1;
                }
                if !seen {
                    days.push(d);
                    assert forall|a: int, b: int| 0 <= a < b < days@.len() implies days@[a] != days@[b] by {
                        if b == days@.len() - 1 {
                            assert(days@[a] == before[a]);
                        } else {
                            assert(days@[a] == before[a] && days@[b] == before[b]);
                        }
                    }
                }
            }
            proof {
                let target = Set::new(|d: i32| exists|j: int| 0 <= j < i + 1 && snapshot_day(recs[j].0) == Some(d));
                assert forall|d: i32| days@.to_set().contains(d) <==> target.contains(d) by {
                    if days@.to_set().contains(d) {
                        let m = choose|m: int| 0 <= m < days@.len() && days@[m] == d;
                        if m < before.len() {
                            assert(before[m] == d);
                            assert(before.to_set().contains(d));
                        }
                    }
                    if target.contains(d) {
                        let j = choose|j: int| 0 <= j < i + 1 && snapshot_day(recs[j].0) == Some(d);
                        if j < i {
                            assert(before.to_set().contains(d));
                            let m = choose|m: int| 0 <= m < before.len() && before[m] == d;
                            assert(days@[m] == d);
                        } else {
                            if !before.contains(d) {
                                assert(days@[before.len() as int] == d);
                            } else {
                                let m = choose|m: int| 0 <= m < before.len() && before[m] == d;
                                assert(days@[m] == d);
                            }
                        }
                    }
                }
                assert(days@.to_set() =~= target);
            }
            i = i + 1;
        }
        assert(days@.to_set() =~= snapshot_days(self@)) by {
            assert forall|d: i32| snapshot_days(self@).contains(d) implies days@.to_set().contains(d) by {
                let p = choose|p: PathKey| self@.contains_key(p) && #[trigger] snapshot_day(p) == Some(d);
                let j = choose|j: int| 0 <= j < recs.len() && (#[trigger] recs[j]).0 == p;
                assert(snapshot_day(recs[j].0) == Some(d));
            }
            assert forall|d: i32| days@.to_set().contains(d) implies snapshot_days(self@).contains(d) by {
                let j = choose|j: int| 0 <= j < n && snapshot_day(recs[j].0) == Some(d);
                assert(self@.contains_key(recs[j].0));
            }
        }
        let mut r: Vec<RelPath> = Vec::new();
        let ghost mut idx: Seq<int> = Seq::empty();
        let mut i: usize = 0;
        while i < n
            invariant
                self.wf(),
                recs == self.records(),
                n == recs.len(),
                i <= n,
                day_of@.len() == n,
                forall|j: int| 0 <= j < n ==> day_of@[j] == #[trigger] snapshot_day(recs[j].0),
                days@.no_duplicates(),
                days@.to_set() == snapshot_days(self@),
                forall|a: int, b: int| 0 <= a < b < recs.len() ==> (#[trigger] recs[a]).0 != (#[trigger] recs[b]).0,
                forall|j: int| 0 <= j < recs.len() ==> self@.contains_key((#[trigger] recs[j]).0),
                idx.len() == r@.len(),
                forall|k: int| 0 <= k < r@.len() ==> 0 <= #[trigger] idx[k] < i && r@[k]@ == recs[idx[k]].0,
                forall|k: int| 0 <= k < r@.len() ==> stale_snapshot(self@, keep as nat, (#[trigger] r@[k])@),
                views(r@).no_duplicates(),
                forall|j: int| 0 <= j < i && stale_snapshot(self@, keep as nat, (#[trigger] recs[j]).0) ==> views(r@).contains(recs[j].0),
            decreases n - i,
        {
            if let Some(d) = day_of[i] {
                let later = count_later(&days, d);
                let ghost before = r@;
                if later >= keep {
                    let (p, _) = self.entry_at(i);
                    r.push(p.duplicate());
                    proof {
                        assert(views(r@) =~= views(before).push(recs[i as int].0));
                        assert forall|k: int| 0 <= k < before.len() implies views(before)[k] != recs[i as int].0 by {
                            assert(0 <= idx[k] < i);
                        }
                        idx = idx.push(i as int);
                        assert forall|j: int| 0 <= j < i + 1 && stale_snapshot(self@, keep as nat, (#[trigger] recs[j]).0) implies views(r@).contains(recs[j].0) by {
                            if j < i {
                                let k = choose|k: int| 0 <= k < views(before).len() && views(before)[k] == recs[j].0;
                                assert(views(r@)[k] == recs[j].0);
                            } else {
                                assert(views(r@)[before.len() as int] == recs[j].0);
                            }
                        }
                    }
                }
            }
            i = i + 1;
        }
        proof {
            assert forall|p: PathKey| stale_snapshot(self@, keep as nat, p) implies views(r@).contains(p) by {
                let j = choose|j: int| 0 <= j < recs.len() && (#[trigger] recs[j]).0 == p;
            }
        }
        r
    }
    /// The backups to delete: every visible file directly under `Backups`
    /// of which a later file with the same name prefix exists, so that only
    /// the latest of each prefix stays.
    pub fn old_backups(&self) -> (r: Vec<RelPath>)
        requires
            self.wf(),
        ensures
            views(r@).no_duplicates(),
            forall|i: int| 0 <= i < r@.len() ==> superseded_backup(self@, (#[trigger] r@[i])@),
            forall|p: PathKey| superseded_backup(self@, p) ==> views(r@).contains(p),
    {
        proof {
            self.lemma_records();
        }
        let ghost recs = self.records();
        let n = self.len();
        let mut keys: Vec<Option<String>> = Vec::new();
        let mut i: usize = 0;
        while i < n
            invariant
                recs == self.records(),
                n == recs.len(),
                i <= n,
                keys@.len() == i,
                forall|j: int| 0 <= j < i ==> ((#[trigger] keys@[j]) is Some <==> in_backups(recs[j].0)),
                forall|j: int| 0 <= j < i ==> (#[trigger] keys@[j]) is Some ==> key_is(keys@[j], name_prefix(recs[j].0[1])),
            decreases n - i,
        {
            let (p, _) = self.entry_at(i);
            keys.push(backup_prefix_of(p));
            i = i + 1;
        }
        let mut r: Vec<RelPath> = Vec::new();
        let ghost mut idx: Seq<int> = Seq::empty();
        let mut i: usize = 0;
        while i < n
            invariant
                self.wf(),
                recs == self.records(),
                n == recs.len(),
                i <= n,
                keys@.len() == n,
                forall|j: int| 0 <= j < n ==> ((#[trigger] keys@[j]) is Some <==> in_backups(recs[j].0)),
                forall|j: int| 0 <= j < n ==> (#[trigger] keys@[j]) is Some ==> key_is(keys@[j], name_prefix(recs[j].0[1])),
                forall|a: int, b: int| 0 <= a < b < recs.len() ==> (#[trigger] recs[a]).0 != (#[trigger] recs[b]).0,
                forall|j: int| 0 <= j < recs.len() ==> self@.contains_key((#[trigger] recs[j]).0) && self@[recs[j].0] == recs[j].1,
                forall|q: PathKey| #[trigger] self@.contains_key(q) ==> exists|j: int| 0 <= j < recs.len() && (#[trigger] recs[j]).0 == q,
                idx.len() == r@.len(),
                forall|k: int| 0 <= k < r@.len() ==> 0 <= #[trigger] idx[k] < i && r@[k]@ == recs[idx[k]].0,
                forall|k: int| 0 <= k < r@.len() ==> superseded_backup(self@, (#[trigger] r@[k])@),
                views(r@).no_duplicates(),
                forall|j: int| 0 <= j < i && superseded_backup(self@, (#[trigger] recs[j]).0) ==> views(r@).contains(recs[j].0),
            decreases n - i,
        {
            if let Some(key) = &keys[i] {
                let (p, info) = self.entry_at(i);
                let t = info.get_modification_time();
                let mut later = false;
                let ghost mut wit: int = 0;
                let mut j: usize = 0;
                while j < n
                    invariant
                        recs == self.records(),
                        n == recs.len(),
                        j <= n,
                        keys@.len() == n,
                        later ==> 0 <= wit < j && key_is(keys@[wit], key@) && ts_before(t, recs[wit].1.modified()),
                        !later ==> forall|b: int| 0 <= b < j ==> !(key_is(#[trigger] keys@[b], key@) && ts_before(t, recs[b].1.modified())),
                    decreases n - j,
                {
                    if let Some(other) = &keys[j] {
                        let (_, info2) = self.entry_at(j);
                        if *other == *key && t.before(&info2.get_modification_time()) {
                            later = true;
                            proof {
                                wit = j as int;
                            }
                        }
                    }
                    j = j + 1;
                }
                proof {
                    let pk = recs[i as int].0;
                    if later {
                        let b = wit;
                        assert(self@.contains_key(recs[b].0) && in_backups(recs[b].0));
                    } else {
                        if superseded_backup(self@, pk) {
                            let q = choose|q: PathKey| #![trigger self@.contains_key(q), in_backups(q)]
                                self@.contains_key(q) && in_backups(q) && name_prefix(q[1]) == name_prefix(pk[1]) && ts_before(self@[pk].modified(), self@[q].modified());
                            let b = choose|b: int| 0 <= b < recs.len() && (#[trigger] recs[b]).0 == q;
                            assert(keys@[b] is Some);
                            assert(key_is(keys@[b], name_prefix(q[1])));
                        }
                    }
                }
                if later {
                    let ghost before = r@;
                    r.push(p.duplicate());
                    proof {
                        assert(views(r@) =~= views(before).push(recs[i as int].0));
                        assert forall|k: int| 0 <= k < before.len() implies views(before)[k] != recs[i as int].0 by {
                            assert(0 <= idx[k] < i);
                        }
                        idx = idx.push(i as int);
                        assert forall|j: int| 0 <= j < i + 1 && superseded_backup(self@, (#[trigger] recs[j]).0) implies views(r@).contains(recs[j].0) by {
                            if j < i {
                                let k = choose|k: int| 0 <= k < views(before).len() && views(before)[k] == recs[j].0;
                                assert(views(r@)[k] == recs[j].0);
                            } else {
                                assert(views(r@)[before.len() as int] == recs[j].0);
                            }
                        }
                    }
                }
            }
            i = i + 1;
        }
        proof {
            assert forall|p: PathKey| superseded_backup(self@, p) implies views(r@).contains(p) by {
                let j = choose|j: int| 0 <= j < recs.len() && (#[trigger] recs[j]).0 == p;
            }
        }
        r
    }
    /// The database backups to delete against the current full backup (the
    /// full backup modified last): those in another format, and incremental
    /// ones older than it. `None` where there is no full backup at all.
    pub fn superseded_dbs(&self) -> (r: Option<Vec<RelPath>>)
        requires
            self.wf(),
        ensures
            r is None <==> !exists|q: PathKey| #[trigger] self@.contains_key(q) && is_full_backup(q),
            r matches Some(v) ==> exists|cur: PathKey|
                {
                    &&& is_current_full(self@, cur)
                    &&& views(v@).no_duplicates()
                    &&& forall|i: int| 0 <= i < v@.len() ==> superseded_db(self@, cur, (#[trigger] v@[i])@)
                    &&& forall|p: PathKey| superseded_db(self@, cur, p) ==> views(v@).contains(p)
                },
    {
        proof {
            self.lemma_records();
        }
        let ghost recs = self.records();
        let n = self.len();
        let mut infos: Vec<Option<(bool, String)>> = Vec::new();
        let mut best: Option<usize> = None;
        let mut i: usize = 0;
        while i < n
            invariant
                recs == self.records(),
                n == recs.len(),
                i <= n,
                infos@.len() == i,
                forall|j: int| 0 <= j < i ==> ((#[trigger] infos@[j]) is Some <==> db_backup(recs[j].0) is Some),
                forall|j: int| 0 <= j < i ==> (#[trigger] infos@[j]) is Some ==> info_is(infos@[j], db_backup(recs[j].0)),
                best matches Some(b) ==> b < i && is_full_backup(recs[b as int].0),
                best matches Some(b) ==> forall|j: int| 0 <= j < i && #[trigger] is_full_backup(recs[j].0) ==> !ts_before(recs[b as int].1.modified(), recs[j].1.modified()),
                best is None ==> forall|j: int| 0 <= j < i ==> !#[trigger] is_full_backup(recs[j].0),
            decreases n - i,
        {
            let (p, info) = self.entry_at(i);
            let b = db_backup_of(p);
            let full = match &b {
                Some((inc, _)) => !*inc,
                None => false,
            };
            if full {
                match best {
                    None => {
                        best = Some(i);
                    },
                    Some(k) => {
                        let (_, binfo) = self.entry_at(k);
                        if binfo.get_modification_time().before(&info.get_modification_time()) {
                            best = Some(i);
                        }
                    },
                }
            }
            infos.push(b);
            i = i + 1;
        }
        let cur = match best {
            None => {
                proof {
                    if exists|q: PathKey| #[trigger] self@.contains_key(q) && is_full_backup(q) {
                        let q = choose|q: PathKey| #[trigger] self@.contains_key(q) && is_full_backup(q);
                        let j = choose|j: int| 0 <= j < recs.len() && (#[trigger] recs[j]).0 == q;
                        assert(is_full_backup(recs[j].0));
                    }
                }
                return None;
            },
            Some(b) => b,
        };
        let ghost cur_key = recs[cur as int].0;
        proof {
            assert forall|q: PathKey| #[trigger] self@.contains_key(q) && is_full_backup(q) implies !ts_before(self@[cur_key].modified(), self@[q].modified()) by {
                let j = choose|j: int| 0 <= j < recs.len() && (#[trigger] recs[j]).0 == q;
                assert(is_full_backup(recs[j].0));
            }
            assert(is_current_full(self@, cur_key));
        }
        let (_, cur_info) = self.entry_at(cur);
        let cur_time = cur_info.get_modification_time();
        let cur_ext = match &infos[cur] {
            Some((_, e)) => e.clone(),
            None => String::new(),
        };
        assert(cur_ext@ == backup_extension(cur_key));
        let mut r: Vec<RelPath> = Vec::new();
        let ghost mut idx: Seq<int> = Seq::empty();
        let mut i: usize = 0;
        while i < n
            invariant
                self.wf(),
                recs == self.records(),
                n == recs.len(),
                i <= n,
                infos@.len() == n,
                forall|j: int| 0 <= j < n ==> ((#[trigger] infos@[j]) is Some <==> db_backup(recs[j].0) is Some),
                forall|j: int| 0 <= j < n ==> (#[trigger] infos@[j]) is Some ==> info_is(infos@[j], db_backup(recs[j].0)),
                cur_ext@ == backup_extension(cur_key),
                self@.contains_key(cur_key),
                cur_time == self@[cur_key].modified(),
                forall|a: int, b: int| 0 <= a < b < recs.len() ==> (#[trigger] recs[a]).0 != (#[trigger] recs[b]).0,
                forall|j: int| 0 <= j < recs.len() ==> self@.contains_key((#[trigger] recs[j]).0) && self@[recs[j].0] == recs[j].1,
                forall|q: PathKey| #[trigger] self@.contains_key(q) ==> exists|j: int| 0 <= j < recs.len() && (#[trigger] recs[j]).0 == q,
                idx.len() == r@.len(),
                forall|k: int| 0 <= k < r@.len() ==> 0 <= #[trigger] idx[k] < i && r@[k]@ == recs[idx[k]].0,
                forall|k: int| 0 <= k < r@.len() ==> superseded_db(self@, cur_key, (#[trigger] r@[k])@),
                views(r@).no_duplicates(),
                forall|j: int| 0 <= j < i && superseded_db(self@, cur_key, (#[trigger] recs[j]).0) ==> views(r@).contains(recs[j].0),
            decreases n - i,
        {
            let stale = match &infos[i] {
                Some((inc, ext)) => {
                    let (_, info) = self.entry_at(i);
                    *ext != cur_ext || (*inc && info.get_modification_time().before(&cur_time))
                },
                None => false,
            };
            assert(stale == superseded_db(self@, cur_key, recs[i as int].0));
            if stale {
                let (p, _) = self.entry_at(i);
                let ghost before = r@;
                r.push(p.duplicate());
                proof {
                    assert(views(r@) =~= views(before).push(recs[i as int].0));
                    assert forall|k: int| 0 <= k < before.len() implies views(before)[k] != recs[i as int].0 by {
                        assert(0 <= idx[k] < i);
                    }
                    idx = idx.push(i as int);
                    assert forall|j: int| 0 <= j < i + 1 && superseded_db(self@, cur_key, (#[trigger] recs[j]).0) implies views(r@).contains(recs[j].0) by {
                        if j < i {
                            let k = choose|k: int| 0 <= k < views(before).len() && views(before)[k] == recs[j].0;
                            assert(views(r@)[k] == recs[j].0);
                        } else {
                            assert(views(r@)[before.len() as int] == recs[j].0);
                        }
                    }
                }
            }
            i = i + 1;
        }
        proof {
            assert forall|p: PathKey| superseded_db(self@, cur_key, p) implies views(r@).contains(p) by {
                let j = choose|j: int| 0 <= j < recs.len() && (#[trigger] recs[j]).0 == p;
            }
        }
        Some(r)
    }
}

impl FileIndex {
    /// Drops from the index every backup of which a later one with the same
    /// name prefix exists (see `old_backups`). In real mode the caller
    /// deletes each of `old_backups` from disk and removes it with
    /// `remove_file` instead.
    pub fn clean_old_backups(&mut self) -> (r: Result<(), Error>)
        requires
            old(self).wf(),
        ensures
            final(self).wf(),
            final(self).mode() == old(self).mode(),
            final(self).root_path() == old(self).root_path(),
            r is Ok,
            final(self)@ == old(self)@.remove_keys(Set::new(|p: PathKey| superseded_backup(old(self)@, p))),
    {
        let ghost m = self@;
        let v = self.old_backups();
        proof {
            lemma_remove_distinct(m, views(v@), v@.len() as int);
            lemma_list_is_set(views(v@), m, |p: PathKey| superseded_backup(m, p));
        }
        self.remove_files(&v)
    }

    /// Rotates the database backups in the index: drops the dated snapshots
    /// older than the `keep` most recent days (see `previous_dbs`), then the
    /// backups that the current full backup supersedes (see
    /// `superseded_dbs`). Fails with `NoCurrentDatabase`, after the first
    /// step, where no full backup remains. In real mode the caller deletes
    /// each file from disk before its removal instead.
    pub fn clean_old_dbs(&mut self, keep: usize) -> (r: Result<(), Error>)
        requires
            old(self).wf(),
        ensures
            final(self).wf(),
            final(self).mode() == old(self).mode(),
            final(self).root_path() == old(self).root_path(),
            ({
                let m1 = old(self)@.remove_keys(
                    Set::new(|p: PathKey| stale_snapshot(old(self)@, keep as nat, p)),
                );
                &&& r is Err <==> !exists|q: PathKey| #[trigger] m1.contains_key(q) && is_full_backup(q)
                &&& r matches Err(e) ==> e is NoCurrentDatabase && final(self)@ == m1
                &&& r is Ok ==> exists|cur: PathKey|
                    is_current_full(m1, cur) && final(self)@ == m1.remove_keys(
                        Set::new(|p: PathKey| superseded_db(m1, cur, p)),
                    )
            }),
    {
        let ghost m = self@;
        let v = self.previous_dbs(keep);
        proof {
            lemma_remove_distinct(m, views(v@), v@.len() as int);
            lemma_list_is_set(views(v@), m, |p: PathKey| stale_snapshot(m, keep as nat, p));
        }
        let removed = self.remove_files(&v);
        assert(removed is Ok);
        let ghost m1 = self@;
        assert(m1 =~= m.remove_keys(Set::new(|p: PathKey| stale_snapshot(m, keep as nat, p))));
        match self.superseded_dbs() {
            None => Err(Error::NoCurrentDatabase),
            Some(w) => {
                let ghost cur = choose|cur: PathKey|
                        {
                            &&& is_current_full(m1, cur)
                            &&& views(w@).no_duplicates()
                            &&& forall|i: int| 0 <= i < w@.len() ==> superseded_db(m1, cur, (#[trigger] w@[i])@)
                            &&& forall|p: PathKey| superseded_db(m1, cur, p) ==> views(w@).contains(p)
                        };
                proof {
                    lemma_remove_distinct(m1, views(w@), w@.len() as int);
                    lemma_list_is_set(views(w@), m1, |p: PathKey| superseded_db(m1, cur, p));
                }
                let r = self.remove_files(&w);
                assert(self@ =~= m1.remove_keys(Set::new(|p: PathKey| superseded_db(m1, cur, p))));
                r
            },
        }
    }
}

} // verus!
