//! Backup naming, restore path checks and backup listing order.
//!
//! Archiving and extracting happen outside the library; this module decides
//! names, which paths may be restored and which backups are the newest.

use vstd::prelude::*;
use vstd::string::*;

use crate::text::copy_text;

verus! {

/// Where the data lives and where backups go.
pub struct BackupConfig {
    pub data_dir: String,
    pub backup_dir: String,
}

/// `b` joined under directory `a` with one `/`.
pub open spec fn joined(a: Seq<char>, b: Seq<char>) -> Seq<char> {
    if a.len() == 0 {
        b
    } else if a.last() == '/' {
        a + b
    } else {
        a + seq!['/'] + b
    }
}

fn join_path(a: &str, b: &str) -> (r: String)
    ensures
        r@ == joined(a@, b@),
{
    let n = a.unicode_len();
    if n == 0 {
        return String::from_str(b);
    }
    let mut out = String::from_str(a);
    if a.get_char(n - 1) != '/' {
        out.append("/");
        proof {
            reveal_strlit("/");
        }
    }
    out.append(b);
    out
}

impl BackupConfig {
    /// Backups go to `backup_dir`, or to `backups` under the data directory.
    pub fn new(data_dir: &str, backup_dir: Option<&str>) -> (r: Self)
        ensures
            r.data_dir@ == data_dir@,
            r.backup_dir@ == match backup_dir {
                Some(b) => b@,
                None => joined(data_dir@, "backups"@),
            },
    {
        let backup = match backup_dir {
            Some(b) => String::from_str(b),
            None => join_path(data_dir, "backups"),
        };
        BackupConfig { data_dir: String::from_str(data_dir), backup_dir: backup }
    }
}

/// A UTC time of day and date, as the backup name spells it.
#[derive(Debug, Clone, Copy, PartialEq, Eq, Structural)]
pub struct BackupStamp {
    pub year: u32,
    pub month: u32,
    pub day: u32,
    pub hour: u32,
    pub minute: u32,
    pub second: u32,
}

/// The character of a decimal digit.
pub open spec fn digit_char(d: nat) -> char {
    (48 + d) as char
}

/// `n` in two digits.
pub open spec fn two_digits(n: nat) -> Seq<char> {
    seq![digit_char(n / 10), digit_char(n % 10)]
}

/// `n` in four digits.
pub open spec fn four_digits(n: nat) -> Seq<char> {
    two_digits(n / 100) + two_digits(n % 100)
}

/// The archive name: `toonstore_<name>_<YYYYMMDD>_<HHMMSS>.tar.gz`.
pub open spec fn backup_name(name: Seq<char>, t: BackupStamp) -> Seq<char> {
    "toonstore_"@ + name + "_"@ + four_digits(t.year as nat) + two_digits(t.month as nat)
        + two_digits(t.day as nat) + "_"@ + two_digits(t.hour as nat) + two_digits(t.minute as nat)
        + two_digits(t.second as nat) + ".tar.gz"@
}

fn push_digit(out: &mut String, d: u32)
    requires
        d < 10,
    ensures
        final(out)@ == old(out)@ + seq![digit_char(d as nat)],
{
    let s: &str = if d == 0 {
        "0"
    } else if d == 1 {
        "1"
    } else if d == 2 {
        "2"
    } else if d == 3 {
        "3"
    } else if d == 4 {
        "4"
    } else if d == 5 {
        "5"
    } else if d == 6 {
        "6"
    } else if d == 7 {
        "7"
    } else if d == 8 {
        "8"
    } else {
        "9"
    };
    proof {
        reveal_strlit("0");
        reveal_strlit("1");
        reveal_strlit("2");
        reveal_strlit("3");
        reveal_strlit("4");
        reveal_strlit("5");
        reveal_strlit("6");
        reveal_strlit("7");
        reveal_strlit("8");
        reveal_strlit("9");
    }
    out.append(s);
}

fn push_two(out: &mut String, n: u32)
    requires
        n < 100,
    ensures
        final(out)@ == old(out)@ + two_digits(n as nat),
{
    push_digit(out, n / 10);
    push_digit(out, n % 10);
    proof {
        assert(final(out)@ =~= old(out)@ + two_digits(n as nat));
    }
}

/// The archive file name for a backup called `name` taken at `t`.
pub fn backup_file_name(name: &str, t: &BackupStamp) -> (r: String)
    requires
        t.year <= 9999,
        t.month < 100,
        t.day < 100,
        t.hour < 100,
        t.minute < 100,
        t.second < 100,
    ensures
        r@ == backup_name(name@, *t),
{
    let mut out = String::from_str("toonstore_");
    out.append(name);
    out.append("_");
    push_two(&mut out, t.year / 100);
    push_two(&mut out, t.year % 100);
    push_two(&mut out, t.month);
    push_two(&mut out, t.day);
    out.append("_");
    push_two(&mut out, t.hour);
    push_two(&mut out, t.minute);
    push_two(&mut out, t.second);
    out.append(".tar.gz");
    proof {
        assert(out@ =~= backup_name(name@, *t));
    }
    out
}

/// Whether a restore path is relative and free of `..`.
pub open spec fn restorable_path(p: Seq<char>) -> bool {
    &&& (p.len() == 0 || p[0] != '/')
    &&& forall|i: int| 0 <= i < p.len() - 1 ==> !(p[i] == '.' && #[trigger] p[i + 1] == '.')
}

/// Whether `file` may be restored: not absolute and without `..`. The
/// caller still resolves it and checks that it stays in the backup directory.
pub fn restore_path_allowed(file: &str) -> (r: bool)
    ensures
        r == restorable_path(file@),
{
    let n = file.unicode_len();
    if n > 0 && file.get_char(0) == '/' {
        return false;
    }
    let mut i: usize = 0;
    while i < n && i + 1 < n
        invariant
            n == file@.len(),
            0 <= i,
            i <= n,
            n > 0 ==> file@[0] != '/',
            forall|j: int| 0 <= j < i && j < n - 1 ==> !(file@[j] == '.' && #[trigger] file@[j + 1] == '.'),
        decreases n - i,
    {
        if file.get_char(i) == '.' && file.get_char(i + 1) == '.' {
            return false;
        }
        i = i + 1;
    }
    true
}

/// A backup archive found on disk.
#[derive(Debug, Clone)]
pub struct BackupInfo {
    pub path: String,
    pub filename: String,
    pub size: u64,
    /// Modification time in seconds since the epoch, when known.
    pub modified: Option<u64>,
}

/// The sort key of a modification time: unknown times sort oldest.
pub open spec fn age_key(m: Option<u64>) -> int {
    match m {
        Some(t) => t as int,
        None => -1,
    }
}

/// Whether `s` runs from newest to oldest.
pub open spec fn newest_first_order(s: Seq<BackupInfo>) -> bool {
    forall|i: int, j: int| 0 <= i < j < s.len() ==> age_key(s[i].modified) >= age_key(s[j].modified)
}

fn is_newer(a: &Option<u64>, b: &Option<u64>) -> (r: bool)
    ensures
        r == (age_key(*a) > age_key(*b)),
{
    match (a, b) {
        (Some(x), Some(y)) => *x > *y,
        (Some(_), None) => true,
        _ => false,
    }
}

impl BackupInfo {
    fn copy(&self) -> (r: BackupInfo)
        ensures
            r.path@ == self.path@,
            r.filename@ == self.filename@,
            r.size == self.size,
            r.modified == self.modified,
    {
        BackupInfo {
            path: copy_text(&self.path),
            filename: copy_text(&self.filename),
            size: self.size,
            modified: self.modified,
        }
    }
}

/// Whether two backup records hold the same path, name, size and time.
pub open spec fn same_info(a: BackupInfo, b: BackupInfo) -> bool {
    a.path@ == b.path@ && a.filename@ == b.filename@ && a.size == b.size && a.modified == b.modified
}

/// Whether `perm` lists each position below `n` exactly once.
pub open spec fn is_permutation(perm: Seq<int>, n: nat) -> bool {
    &&& perm.len() == n
    &&& forall|i: int| 0 <= i < n ==> 0 <= #[trigger] perm[i] < n
    &&& forall|i: int, j: int| 0 <= i < j < n ==> perm[i] != perm[j]
}

/// The backups from newest to oldest: a reordering of `found`, each record
/// copied field by field.
pub fn newest_first(found: &Vec<BackupInfo>) -> (r: Vec<BackupInfo>)
    ensures
        r@.len() == found@.len(),
        newest_first_order(r@),
        exists|perm: Seq<int>|
            is_permutation(perm, found@.len()) && forall|i: int|
                0 <= i < r@.len() ==> same_info(#[trigger] r@[i], found@[perm[i]]),
{
    let mut out: Vec<BackupInfo> = Vec::new();
    let ghost mut perm: Seq<int> = Seq::empty();
    let mut i: usize = 0;
    while i < found.len()
        invariant
            0 <= i <= found@.len(),
            out@.len() == i,
            newest_first_order(out@),
            perm.len() == i,
            forall|a: int| 0 <= a < i ==> 0 <= #[trigger] perm[a] < i,
            forall|a: int, b: int| 0 <= a < b < i ==> perm[a] != perm[b],
            forall|a: int| 0 <= a < i ==> same_info(#[trigger] out@[a], found@[perm[a]]),
        decreases found@.len() - i,
    {
        let item = found[i].copy();
        let mut pos: usize = out.len();
        while pos > 0 && is_newer(&item.modified, &out[pos - 1].modified)
            invariant
                0 <= pos <= out@.len(),
                newest_first_order(out@),
                forall|k: int| pos <= k < out@.len() ==> age_key(item.modified) > age_key(#[trigger] out@[k].modified),
            decreases pos,
        {
            pos = pos - 1;
        }
        let ghost before = out@;
        let ghost pbefore = perm;
        proof {
            assert(pos > 0 ==> age_key(before[pos - 1].modified) >= age_key(item.modified));
            perm = perm.insert(pos as int, i as int);
        }
        let ghost copied = item;
        out.insert(pos, item);
        proof {
            let s = out@;
            assert(s =~= before.insert(pos as int, s[pos as int]));
            assert forall|a: int, b: int| 0 <= a < b < s.len() implies age_key(s[a].modified) >= age_key(s[b].modified) by {
                let oa = if a < pos { a } else { a - 1 };
                let ob = if b < pos { b } else { b - 1 };
                if a != pos && b != pos {
                    assert(s[a] == before[oa]);
                    assert(s[b] == before[ob]);
                } else if a == pos {
                    assert(s[b] == before[ob]);
                } else {
                    assert(s[a] == before[oa]);
                    if a < pos - 1 {
                        assert(age_key(before[a].modified) >= age_key(before[pos - 1].modified));
                    }
                }
            }
            assert forall|a: int| 0 <= a < i + 1 implies 0 <= #[trigger] perm[a] < i + 1 by {
                if a < pos {
                    assert(perm[a] == pbefore[a]);
                } else if a > pos {
                    assert(perm[a] == pbefore[a - 1]);
                }
            }
            assert forall|a: int, b: int| 0 <= a < b < i + 1 implies perm[a] != perm[b] by {
                let oa = if a < pos { a } else { a - 1 };
                let ob = if b < pos { b } else { b - 1 };
                if a != pos && b != pos {
                    assert(perm[a] == pbefore[oa] && perm[b] == pbefore[ob]);
                } else if a == pos {
                    assert(perm[b] == pbefore[ob]);
                } else {
                    assert(perm[a] == pbefore[oa]);
                }
            }
            assert forall|a: int| 0 <= a < i + 1 implies same_info(#[trigger] s[a], found@[perm[a]]) by {
                if a == pos {
                    assert(s[a] == copied);
                } else {
                    let oa = if a < pos { a } else { a - 1 };
                    assert(s[a] == before[oa]);
                    assert(perm[a] == pbefore[oa]);
                }
            }
        }
        i = i + 1;
    }
    proof {
        assert(is_permutation(perm, found@.len()));
    }
    out
}

/// File names of the first `n` backups.
pub fn first_names(sorted: &Vec<BackupInfo>, n: usize) -> (r: Vec<String>)
    ensures
        r@.len() == if n < sorted@.len() { n as int } else { sorted@.len() as int },
        forall|i: int| 0 <= i < r@.len() ==> #[trigger] r@[i]@ == sorted@[i].filename@,
{
    let mut out: Vec<String> = Vec::new();
    let mut i: usize = 0;
    while i < n && i < sorted.len()
        invariant
            0 <= i <= sorted@.len(),
            i <= n,
            out@.len() == i,
            forall|k: int| 0 <= k < i ==> #[trigger] out@[k]@ == sorted@[k].filename@,
        decreases sorted@.len() - i,
    {
        out.push(copy_text(&sorted[i].filename));
        i = i + 1;
    }
    out
}

/// Paths of the backups after the first `keep`: those that a cleanup deletes.
pub fn paths_beyond(sorted: &Vec<BackupInfo>, keep: usize) -> (r: Vec<String>)
    ensures
        r@.len() == if keep < sorted@.len() { sorted@.len() - keep } else { 0 },
        forall|i: int| 0 <= i < r@.len() ==> #[trigger] r@[i]@ == sorted@[keep + i].path@,
{
    let mut out: Vec<String> = Vec::new();
    if keep >= sorted.len() {
        return out;
    }
    let mut i: usize = keep;
    while i < sorted.len()
        invariant
            keep <= i <= sorted@.len(),
            out@.len() == i - keep,
            forall|k: int| 0 <= k < out@.len() ==> #[trigger] out@[k]@ == sorted@[keep + k].path@,
        decreases sorted@.len() - i,
    {
        out.push(copy_text(&sorted[i].path));
        i = i + 1;
    }
    out
}

} // verus!
