use vstd::prelude::*;

use crate::path::chars_of;

verus! {

/// An instant as whole seconds since the Unix epoch plus nanoseconds.
#[derive(Clone, Copy, Debug, PartialEq, Eq, Structural)]
pub struct Timestamp {
    pub secs: i64,
    pub nanos: u32,
}

/// `a` comes strictly before `b`: seconds first, then nanoseconds.
pub open spec fn ts_before(a: Timestamp, b: Timestamp) -> bool {
    a.secs < b.secs || (a.secs == b.secs && a.nanos < b.nanos)
}

/// The instant in nanoseconds since the epoch.
pub open spec fn ts_nanos(t: Timestamp) -> int {
    t.secs * 1_000_000_000 + t.nanos
}

/// The instant in whole milliseconds since the epoch.
pub open spec fn ts_millis(t: Timestamp) -> int {
    t.secs * 1000 + t.nanos / 1_000_000
}

impl Timestamp {
    /// Whether `self` comes strictly before `other`.
    pub fn before(&self, other: &Timestamp) -> (r: bool)
        ensures
            r == ts_before(*self, *other),
    {
        self.secs < other.secs || (self.secs == other.secs && self.nanos < other.nanos)
    }

    /// The instant in nanoseconds since the epoch.
    pub fn as_nanos(&self) -> (r: i128)
        ensures
            r == ts_nanos(*self),
    {
        self.secs as i128 * 1_000_000_000 + self.nanos as i128
    }

    /// The instant in whole milliseconds since the epoch.
    pub fn as_millis(&self) -> (r: i128)
        ensures
            r == ts_millis(*self),
    {
        self.secs as i128 * 1000 + (self.nanos / 1_000_000) as i128
    }
}

pub open spec fn is_digit(c: char) -> bool {
    '0' <= c && c <= '9'
}

/// At position `i` of a file name stands `-DDDDDDDD-WADDDD.` with at least
/// one character after it: the naming convention of the messenger's media.
pub open spec fn media_stamp_at(s: Seq<char>, i: int) -> bool {
    &&& 0 <= i
    &&& i + 17 < s.len()
    &&& s[i] == '-'
    &&& forall|k: int| i + 1 <= k < i + 9 ==> is_digit(#[trigger] s[k])
    &&& s[i + 9] == '-'
    &&& s[i + 10] == 'W'
    &&& s[i + 11] == 'A'
    &&& forall|k: int| i + 12 <= k < i + 16 ==> is_digit(#[trigger] s[k])
    &&& s[i + 16] == '.'
}

/// The last position below `n` at which a media stamp stands.
pub open spec fn last_media_stamp(s: Seq<char>, n: int) -> Option<int>
    decreases n,
{
    if n <= 0 {
        None
    } else if media_stamp_at(s, n - 1) {
        Some(n - 1)
    } else {
        last_media_stamp(s, n - 1)
    }
}

/// The eight date digits that a file name carries by the convention, taken
/// from its last stamp; none where the name holds a line break.
pub open spec fn name_date_digits(s: Seq<char>) -> Option<Seq<char>> {
    if s.contains('\n') {
        None
    } else {
        match last_media_stamp(s, s.len() as int) {
            Some(i) => Some(s.subrange(i + 1, i + 9)),
            None => None,
        }
    }
}

/// The second, since the epoch, at which the day written `YYYYMMDD` begins
/// in UTC; none where the digits name no date.
pub uninterp spec fn compact_date_midnight(digits: Seq<char>) -> Option<i64>;

/// Relies on chrono's `NaiveDate::parse_from_str` with the format `%Y%m%d`,
/// then `NaiveDate::and_time` at midnight, `NaiveDateTime::and_utc` and
/// `DateTime::timestamp`: the start of that day as seconds since the epoch.
#[verifier::external_body]
fn day_start_of_compact_date(digits: &str) -> (r: Option<i64>)
    ensures
        r == compact_date_midnight(digits@),
{
    match chrono::NaiveDate::parse_from_str(digits, "%Y%m%d") {
        Ok(d) => Some(d.and_time(chrono::NaiveTime::MIN).and_utc().timestamp()),
        Err(_) => None,
    }
}

/// The creation date of a file named `name`: the start of the day that the
/// name carries, else the modification time.
pub open spec fn estimated_creation(name: Seq<char>, modified: Timestamp) -> Timestamp {
    match name_date_digits(name) {
        Some(d) => match compact_date_midnight(d) {
            Some(secs) => Timestamp { secs, nanos: 0 },
            None => modified,
        },
        None => modified,
    }
}

/// A file's estimated creation date comes from the date its name carries,
/// whatever its modification time; where the name carries none it is the
/// modification time.
pub proof fn lemma_creation_date_from_name(name: Seq<char>, modified: Timestamp, other: Timestamp)
    ensures
        name_date_digits(name) matches Some(d) ==> (compact_date_midnight(d) matches Some(secs)
            ==> estimated_creation(name, modified) == estimated_creation(name, other)
            && estimated_creation(name, modified) == (Timestamp { secs: secs, nanos: 0 })),
        name_date_digits(name) is None ==> estimated_creation(name, modified) == modified,
{
}

fn stamp_at(cs: &Vec<char>, i: usize) -> (r: bool)
    ensures
        r == media_stamp_at(cs@, i as int),
{
    if i > usize::MAX - 18 || i + 17 >= cs.len() {
        assert(cs@.len() == cs.len());
        return false;
    }
    if cs[i] != '-' || cs[i + 9] != '-' || cs[i + 10] != 'W' || cs[i + 11] != 'A' || cs[i + 16] != '.' {
        return false;
    }
    let end: usize = i + 16;
    let mut k: usize = i + 1;
    while k < end
        invariant
            end == i + 16,
            i + 17 < cs@.len(),
            i + 1 <= k <= i + 16,
            forall|m: int| i + 1 <= m < k && m != i + 9 && m != i + 10 && m != i + 11 ==> is_digit(
                #[trigger] cs@[m],
            ),
        decreases i + 16 - k,
    {
        if k < i + 9 || k >= i + 12 {
            if !('0' <= cs[k] && cs[k] <= '9') {
                return false;
            }
        }
        k = k + 1;
    }
    true
}

/// The date digits that the file name `name` carries, if any.
pub fn date_digits_of_name(name: &str) -> (r: Option<String>)
    ensures
        r matches Some(d) ==> name_date_digits(name@) == Some(d@),
        r is None ==> name_date_digits(name@) is None,
{
    let cs = chars_of(name);
    let n = cs.len();
    let mut k: usize = 0;
    while k < n
        invariant
            n == cs@.len(),
            cs@ == name@,
            k <= n,
            forall|m: int| 0 <= m < k ==> cs@[m] != '\n',
        decreases n - k,
    {
        if cs[k] == '\n' {
            assert(name@.contains('\n'));
            return None;
        }
        k = k + 1;
    }
    assert(!name@.contains('\n'));
    let mut i: usize = n;
    while i > 0
        invariant
            n == cs@.len(),
            cs@ == name@,
            i <= n,
            !name@.contains('\n'),
            last_media_stamp(cs@, n as int) == last_media_stamp(cs@, i as int),
        decreases i,
    {
        if stamp_at(&cs, i - 1) {
            assert(last_media_stamp(cs@, i as int) == Some((i - 1) as int));
            let d = name.substring_char(i, i + 8);
            let s = String::from_str(d);
            return Some(s);
        }
        i = i - 1;
    }
    None
}

/// A snapshot of one file's metadata.
#[derive(Clone, Copy, Debug, PartialEq, Eq, Structural)]
pub struct FileInfo {
    modification_time: Timestamp,
    estimated_creation_date: Timestamp,
    size: u64,
}

impl FileInfo {
    pub closed spec fn modified(self) -> Timestamp {
        self.modification_time
    }

    pub closed spec fn created(self) -> Timestamp {
        self.estimated_creation_date
    }

    pub closed spec fn bytes(self) -> u64 {
        self.size
    }

    /// The record that `new` builds.
    pub closed spec fn spec_new(file_name: Seq<char>, modification_time: Timestamp, size: u64) -> FileInfo {
        FileInfo {
            modification_time,
            estimated_creation_date: estimated_creation(file_name, modification_time),
            size,
        }
    }

    /// The record of a file named `file_name` whose metadata gives
    /// `modification_time` and `size`. The creation date is read from the
    /// name where it carries one, else taken from the modification time.
    pub fn new(file_name: &str, modification_time: Timestamp, size: u64) -> (r: FileInfo)
        ensures
            r.modified() == modification_time,
            r.created() == estimated_creation(file_name@, modification_time),
            r.bytes() == size,
            r == FileInfo::spec_new(file_name@, modification_time, size),
    {
        let estimated_creation_date = match date_digits_of_name(file_name) {
            Some(d) => match day_start_of_compact_date(d.as_str()) {
                Some(secs) => Timestamp { secs, nanos: 0 },
                None => modification_time,
            },
            None => modification_time,
        };
        FileInfo { modification_time, estimated_creation_date, size }
    }

    /// The modification time.
    pub fn get_modification_time(&self) -> (r: Timestamp)
        ensures
            r == self.modified(),
    {
        self.modification_time
    }

    /// The estimated creation date.
    pub fn estimate_creation_date(&self) -> (r: Timestamp)
        ensures
            r == self.created(),
    {
        self.estimated_creation_date
    }

    /// The size of the file in bytes.
    pub fn get_size(&self) -> (r: u64)
        ensures
            r == self.bytes(),
    {
        self.size
    }

    /// Whether two records agree in every field.
    pub fn matches(&self, other: &FileInfo) -> (r: bool)
        ensures
            r == (*self == *other),
    {
        self.modification_time.secs == other.modification_time.secs
            && self.modification_time.nanos == other.modification_time.nanos
            && self.estimated_creation_date.secs == other.estimated_creation_date.secs
            && self.estimated_creation_date.nanos == other.estimated_creation_date.nanos
            && self.size == other.size
    }
}

} // verus!
