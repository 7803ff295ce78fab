//! The key directory: which row holds the current value of each key.

use vstd::prelude::*;
use vstd::string::*;
use vstd::utf8::*;

use crate::decimal::{is_digit, lemma_nat_text, nat_text, parse_u64, u64_of, write_u64};
use crate::resp::crlf;
use crate::text::copy_text;

verus! {

/// What `serde_json` reads as the string field `k` of the JSON object in
/// `b`, if `b` is a JSON object with such a string field.
pub uninterp spec fn json_string_field_of(b: Seq<u8>, k: Seq<char>) -> Option<Seq<char>>;

/// Relies on `serde_json::from_slice` into a `Value` and on the object's
/// `Map::remove(key)`: the string stored under `key`, or `None` when the bytes
/// are not a JSON object or the field is absent or not a string.
#[verifier::external_body]
fn json_string_field(bytes: &[u8], key: &str) -> (r: Option<String>)
    ensures
        r is None <==> json_string_field_of(bytes@, key@) is None,
        r matches Some(s) ==> json_string_field_of(bytes@, key@) == Some(s@),
{
    match serde_json::from_slice::<serde_json::Value>(bytes) {
        Ok(serde_json::Value::Object(mut fields)) => match fields.remove(key) {
            Some(serde_json::Value::String(s)) => Some(s),
            _ => None,
        },
        _ => None,
    }
}

/// The self-describing id of a record: its top-level `id` string field.
pub open spec fn json_id_of(b: Seq<u8>) -> Option<Seq<char>> {
    json_string_field_of(b, "id"@)
}

/// Whether some entry has key `k`.
pub open spec fn has_entry(s: Seq<(Seq<char>, u64)>, k: Seq<char>) -> bool {
    exists|i: int| 0 <= i < s.len() && s[i].0 == k
}

/// The position of the entry with key `k` (meaningful when `has_entry(s, k)`).
pub open spec fn entry_position(s: Seq<(Seq<char>, u64)>, k: Seq<char>) -> int {
    choose|i: int| 0 <= i < s.len() && s[i].0 == k
}

/// The row that `s` maps `k` to.
pub open spec fn row_of(s: Seq<(Seq<char>, u64)>, k: Seq<char>) -> Option<u64> {
    if has_entry(s, k) {
        Some(s[entry_position(s, k)].1)
    } else {
        None
    }
}

/// Whether no two entries share a key.
pub open spec fn entry_keys_unique(s: Seq<(Seq<char>, u64)>) -> bool {
    forall|i: int, j: int| 0 <= i < j < s.len() ==> s[i].0 != s[j].0
}

/// The directory file line of one entry: `key<TAB>row\n`.
pub open spec fn entry_line(key: Seq<u8>, row: u64) -> Seq<u8> {
    key + seq![9u8] + nat_text(row as nat) + seq![10u8]
}

/// The position of the first `b` in `text` at or after `from`, or the end.
pub open spec fn next_byte(text: Seq<u8>, from: int, b: u8) -> int
    decreases text.len() - from,
{
    if from < 0 || from >= text.len() {
        text.len() as int
    } else if text[from] == b {
        from
    } else {
        next_byte(text, from + 1, b)
    }
}

/// The entry that one directory file line stands for: a non-empty UTF-8
/// key before the first tab, a decimal row after it.
pub open spec fn line_entry(line: Seq<u8>) -> Option<(Seq<char>, u64)> {
    let t = next_byte(line, 0, 9u8);
    if 0 < t < line.len() && valid_utf8(line.subrange(0, t)) && u64_of(
        line.subrange(t + 1, line.len() as int),
    ) is Some {
        Some(
            (
                decode_utf8(line.subrange(0, t)),
                u64_of(line.subrange(t + 1, line.len() as int))->Some_0 as u64,
            ),
        )
    } else {
        None
    }
}

/// The entries after pointing `k` at `r`: a present key keeps its place.
pub open spec fn inserted(d: Seq<(Seq<char>, u64)>, k: Seq<char>, r: u64) -> Seq<(Seq<char>, u64)> {
    if has_entry(d, k) {
        d.update(entry_position(d, k), (k, r))
    } else {
        d.push((k, r))
    }
}

/// The entries after reading the lines of `text` from `start` on into `d`;
/// lines that stand for no entry are skipped.
pub open spec fn loaded(d: Seq<(Seq<char>, u64)>, text: Seq<u8>, start: int) -> Seq<(Seq<char>, u64)>
    decreases text.len() - start,
{
    if start < 0 || start >= text.len() {
        d
    } else {
        let end = next_byte(text, start, 10u8);
        if end < start || end > text.len() {
            d
        } else {
            let d1 = match line_entry(text.subrange(start, end)) {
                Some((k, r)) => inserted(d, k, r),
                None => d,
            };
            if end >= text.len() {
                d1
            } else {
                loaded(d1, text, end + 1)
            }
        }
    }
}

proof fn lemma_next_byte(text: Seq<u8>, from: int, j: int, b: u8)
    requires
        0 <= from <= j <= text.len(),
        forall|k: int| from <= k < j ==> text[k] != b,
        j == text.len() || text[j] == b,
    ensures
        next_byte(text, from, b) == j,
    decreases j - from,
{
    if from < j {
        lemma_next_byte(text, from + 1, j, b);
    }
}

/// The directory file for `s`: its entries' lines, in order.
pub open spec fn directory_file(s: Seq<(Seq<char>, u64)>) -> Seq<u8>
    decreases s.len(),
{
    if s.len() == 0 {
        seq![]
    } else {
        directory_file(s.drop_last()) + entry_line(encode_utf8(s.last().0), s.last().1)
    }
}

/// Mapping from string keys to row ids, in insertion order.
pub struct KeyDirectory {
    entries: Vec<(String, u64)>,
}

impl View for KeyDirectory {
    type V = Seq<(Seq<char>, u64)>;

    closed spec fn view(&self) -> Seq<(Seq<char>, u64)> {
        Seq::new(self.entries@.len(), |i: int| (self.entries@[i].0@, self.entries@[i].1))
    }
}

impl KeyDirectory {
    /// The invariant: keys are unique.
    pub closed spec fn wf(&self) -> bool {
        entry_keys_unique(self@)
    }

    /// An empty directory.
    pub fn new() -> (r: Self)
        ensures
            r.wf(),
            r@ == Seq::<(Seq<char>, u64)>::empty(),
    {
        let r = KeyDirectory { entries: Vec::new() };
        proof {
            assert(r@ =~= Seq::<(Seq<char>, u64)>::empty());
        }
        r
    }

    fn find(&self, key: &str) -> (r: Option<usize>)
        requires
            self.wf(),
        ensures
            r is None <==> !has_entry(self@, key@),
            r matches Some(i) ==> i < self@.len() && self@[i as int].0 == key@ && entry_position(
                self@,
                key@,
            ) == i,
    {
        let target = String::from_str(key);
        let mut i: usize = 0;
        while i < self.entries.len()
            invariant
                0 <= i <= self.entries@.len(),
                entry_keys_unique(self@),
                target@ == key@,
                forall|j: int| 0 <= j < i ==> self@[j].0 != key@,
            decreases self.entries@.len() - i,
        {
            if self.entries[i].0 == target {
                proof {
                    let p = entry_position(self@, key@);
                    assert(self@[i as int].0 == key@);
                    assert(has_entry(self@, key@));
                    assert(self@[p].0 == key@);
                }
                return Some(i);
            }
            i = i + 1;
        }
        None
    }

    /// The row of `key`, if it has one.
    pub fn get(&self, key: &str) -> (r: Option<u64>)
        requires
            self.wf(),
        ensures
            r == row_of(self@, key@),
    {
        match self.find(key) {
            None => None,
            Some(i) => Some(self.entries[i].1),
        }
    }

    /// Points `key` at `row`, returning the row it pointed at before.
    pub fn insert(&mut self, key: String, row: u64) -> (r: Option<u64>)
        requires
            old(self).wf(),
        ensures
            final(self).wf(),
            r == row_of(old(self)@, key@),
            row_of(final(self)@, key@) == Some(row),
            forall|k: Seq<char>| k != key@ ==> #[trigger] row_of(final(self)@, k) == row_of(old(self)@, k),
            has_entry(old(self)@, key@) ==> final(self)@.len() == old(self)@.len(),
            !has_entry(old(self)@, key@) ==> final(self)@ == old(self)@.push((key@, row)),
            final(self)@ == inserted(old(self)@, key@, row),
    {
        let ghost kv = key@;
        match self.find(key.as_str()) {
            Some(i) => {
                let prev = self.entries[i].1;
                self.entries.set(i, (key, row));
                proof {
                    assert(self@ =~= old(self)@.update(i as int, (kv, row)));
                    lemma_update_entry(old(self)@, i as int, row);
                }
                Some(prev)
            },
            None => {
                self.entries.push((key, row));
                proof {
                    assert(self@ =~= old(self)@.push((kv, row)));
                    lemma_push_entry(old(self)@, kv, row);
                }
                None
            },
        }
    }

    /// Drops `key`, returning the row it pointed at.
    pub fn remove(&mut self, key: &str) -> (r: Option<u64>)
        requires
            old(self).wf(),
        ensures
            final(self).wf(),
            r == row_of(old(self)@, key@),
            row_of(final(self)@, key@) is None,
            forall|k: Seq<char>| k != key@ ==> #[trigger] row_of(final(self)@, k) == row_of(old(self)@, k),
            !has_entry(old(self)@, key@) ==> final(self)@ == old(self)@,
            has_entry(old(self)@, key@) ==> final(self)@ == old(self)@.remove(
                entry_position(old(self)@, key@),
            ),
    {
        match self.find(key) {
            None => None,
            Some(i) => {
                let e = self.entries.remove(i);
                proof {
                    assert(self@ =~= old(self)@.remove(i as int));
                    lemma_remove_entry(old(self)@, i as int);
                }
                Some(e.1)
            },
        }
    }

    /// The keys, in insertion order.
    pub fn keys(&self) -> (r: Vec<String>)
        ensures
            r@.len() == self@.len(),
            forall|i: int| 0 <= i < r@.len() ==> #[trigger] r@[i]@ == self@[i].0,
    {
        let mut out: Vec<String> = Vec::new();
        let mut i: usize = 0;
        while i < self.entries.len()
            invariant
                0 <= i <= self.entries@.len(),
                out@.len() == i,
                forall|j: int| 0 <= j < i ==> #[trigger] out@[j]@ == self@[j].0,
            decreases self.entries@.len() - i,
        {
            out.push(copy_text(&self.entries[i].0));
            i = i + 1;
        }
        out
    }

    /// Number of keys.
    pub fn len(&self) -> (r: usize)
        ensures
            r == self@.len(),
    {
        self.entries.len()
    }

    /// Drops every key.
    pub fn clear(&mut self)
        ensures
            final(self).wf(),
            final(self)@ == Seq::<(Seq<char>, u64)>::empty(),
    {
        self.entries.clear();
        proof {
            assert(self@ =~= Seq::<(Seq<char>, u64)>::empty());
        }
    }

    /// The directory file: one `key<TAB>row\n` line per entry, in order.
    pub fn to_file_bytes(&self) -> (r: Vec<u8>)
        ensures
            r@ == directory_file(self@),
    {
        let mut out: Vec<u8> = Vec::new();
        let mut i: usize = 0;
        while i < self.entries.len()
            invariant
                0 <= i <= self.entries@.len(),
                out@ == directory_file(self@.subrange(0, i as int)),
            decreases self.entries@.len() - i,
        {
            let ghost before = out@;
            out.extend_from_slice(self.entries[i].0.as_str().as_bytes());
            out.push(9u8);
            write_u64(self.entries[i].1, &mut out);
            out.push(10u8);
            proof {
                let t = self@.subrange(0, i as int + 1);
                assert(t.drop_last() =~= self@.subrange(0, i as int));
                assert(t.last() == self@[i as int]);
                assert(out@ =~= before + entry_line(encode_utf8(self@[i as int].0), self@[i as int].1));
            }
            i = i + 1;
        }
        proof {
            assert(self@.subrange(0, i as int) =~= self@);
        }
        out
    }

    /// Reads a directory file. Lines that are blank or are not
    /// `key<TAB>row` with a non-empty UTF-8 key and a decimal row are
    /// skipped; a later line for a key replaces an earlier one.
    pub fn from_file_bytes(text: &[u8]) -> (r: Self)
        ensures
            r.wf(),
            r@ == loaded(Seq::<(Seq<char>, u64)>::empty(), text@, 0),
    {
        let mut dir = KeyDirectory::new();
        let n = text.len();
        let mut start: usize = 0;
        while start < n
            invariant
                0 <= start <= n,
                n == text@.len(),
                dir.wf(),
                loaded(Seq::<(Seq<char>, u64)>::empty(), text@, 0) == loaded(dir@, text@, start as int),
            decreases n - start,
        {
            let mut end: usize = start;
            while end < n && text[end] != 10u8
                invariant
                    start <= end <= n,
                    n == text@.len(),
                    forall|k: int| start <= k < end ==> text@[k] != 10u8,
                decreases n - end,
            {
                end = end + 1;
            }
            proof {
                lemma_next_byte(text@, start as int, end as int, 10u8);
            }
            let mut tab: usize = start;
            while tab < end && text[tab] != 9u8
                invariant
                    start <= tab <= end,
                    end <= n,
                    n == text@.len(),
                    forall|k: int| start <= k < tab ==> text@[k] != 9u8,
                decreases end - tab,
            {
                tab = tab + 1;
            }
            let ghost line = text@.subrange(start as int, end as int);
            proof {
                assert forall|k: int| 0 <= k < tab - start implies line[k] != 9u8 by {
                    assert(line[k] == text@[start + k]);
                }
                if tab < end {
                    assert(line[tab - start] == text@[tab as int]);
                }
                lemma_next_byte(line, 0, tab - start, 9u8);
            }
            let ghost before = dir@;
            if tab > start && tab < end {
                let key_bytes = vstd::slice::slice_subrange(text, start, tab);
                let row_bytes = vstd::slice::slice_subrange(text, tab + 1, end);
                proof {
                    assert(key_bytes@ =~= line.subrange(0, tab - start));
                    assert(row_bytes@ =~= line.subrange(tab - start + 1, line.len() as int));
                }
                match (crate::resp::utf8_text(key_bytes), parse_u64(row_bytes)) {
                    (Some(key), Some(row)) => {
                        dir.insert(key, row);
                    },
                    _ => {},
                }
            }
            proof {
                let d1 = match line_entry(line) {
                    Some((k, r)) => inserted(before, k, r),
                    None => before,
                };
                assert(dir@ == d1);
                if end < n {
                    assert(loaded(before, text@, start as int) == loaded(d1, text@, end + 1));
                } else {
                    assert(loaded(before, text@, start as int) == d1);
                }
            }
            start = if end < n {
                end + 1
            } else {
                n
            };
        }
        dir
    }

    /// Rebuilds a directory from scanned rows: each row whose bytes are JSON
    /// with a top-level `id` string maps that id to the row (a later row
    /// replaces an earlier one).
    pub fn rebuild(rows: &Vec<(u64, Vec<u8>)>) -> (r: Self)
        ensures
            r.wf(),
            forall|i: int|
                0 <= i < rows@.len() && json_id_of(rows@[i].1@) is Some ==> has_entry(
                    r@,
                    #[trigger] json_id_of(rows@[i].1@)->Some_0,
                ),
            forall|k: Seq<char>|
                has_entry(r@, k) ==> exists|i: int|
                    0 <= i < rows@.len() && json_id_of(#[trigger] rows@[i].1@) == Some(k)
                        && row_of(r@, k) == Some(rows@[i].0),
    {
        let mut dir = KeyDirectory::new();
        let mut i: usize = 0;
        while i < rows.len()
            invariant
                0 <= i <= rows@.len(),
                dir.wf(),
                forall|j: int|
                    0 <= j < i && json_id_of(rows@[j].1@) is Some ==> has_entry(
                        dir@,
                        #[trigger] json_id_of(rows@[j].1@)->Some_0,
                    ),
                forall|k: Seq<char>|
                    has_entry(dir@, k) ==> exists|j: int|
                        0 <= j < i && json_id_of(#[trigger] rows@[j].1@) == Some(k) && row_of(
                            dir@,
                            k,
                        ) == Some(rows@[j].0),
            decreases rows@.len() - i,
        {
            match json_string_field(rows[i].1.as_slice(), "id") {
                None => {},
                Some(id) => {
                    let ghost old_dir = dir@;
                    let ghost idv = id@;
                    dir.insert(id, rows[i].0);
                    proof {
                        assert forall|j: int|
                            0 <= j < i + 1 && json_id_of(rows@[j].1@) is Some implies has_entry(
                            dir@,
                            #[trigger] json_id_of(rows@[j].1@)->Some_0,
                        ) by {
                            let k = json_id_of(rows@[j].1@)->Some_0;
                            if k != idv {
                                assert(row_of(dir@, k) == row_of(old_dir, k));
                            } else {
                                assert(row_of(dir@, k) is Some);
                            }
                        }
                        assert forall|k: Seq<char>| has_entry(dir@, k) implies exists|j: int|
                            0 <= j < i + 1 && json_id_of(#[trigger] rows@[j].1@) == Some(k)
                                && row_of(dir@, k) == Some(rows@[j].0) by {
                            if k == idv {
                                assert(json_id_of(rows@[i as int].1@) == Some(k));
                            } else {
                                assert(row_of(dir@, k) == row_of(old_dir, k));
                                assert(has_entry(old_dir, k));
                            }
                        }
                    }
                },
            }
            i = i + 1;
        }
        dir
    }
}

proof fn lemma_update_entry(s: Seq<(Seq<char>, u64)>, i: int, row: u64)
    requires
        entry_keys_unique(s),
        0 <= i < s.len(),
    ensures
        entry_keys_unique(s.update(i, (s[i].0, row))),
        row_of(s.update(i, (s[i].0, row)), s[i].0) == Some(row),
        forall|k: Seq<char>| k != s[i].0 ==> #[trigger] row_of(s.update(i, (s[i].0, row)), k) == row_of(s, k),
{
    let t = s.update(i, (s[i].0, row));
    assert forall|a: int, b: int| 0 <= a < b < t.len() implies t[a].0 != t[b].0 by {
        assert(t[a].0 == s[a].0 && t[b].0 == s[b].0);
    }
    assert(has_entry(t, s[i].0)) by {
        assert(t[i].0 == s[i].0);
    }
    let p = entry_position(t, s[i].0);
    assert(p == i) by {
        assert(t[p].0 == s[i].0);
        assert(t[i].0 == s[i].0);
    }
    assert forall|k: Seq<char>| k != s[i].0 implies #[trigger] row_of(t, k) == row_of(s, k) by {
        if has_entry(s, k) {
            let q = entry_position(s, k);
            assert(t[q].0 == k);
            assert(has_entry(t, k));
            let q2 = entry_position(t, k);
            assert(t[q2].0 == k);
            assert(s[q2].0 == k);
            assert(q2 == q);
        }
        if has_entry(t, k) {
            let q2 = entry_position(t, k);
            assert(s[q2].0 == k);
            assert(has_entry(s, k));
        }
    }
}

proof fn lemma_push_entry(s: Seq<(Seq<char>, u64)>, k: Seq<char>, row: u64)
    requires
        entry_keys_unique(s),
        !has_entry(s, k),
    ensures
        entry_keys_unique(s.push((k, row))),
        row_of(s.push((k, row)), k) == Some(row),
        forall|k2: Seq<char>| k2 != k ==> #[trigger] row_of(s.push((k, row)), k2) == row_of(s, k2),
{
    let t = s.push((k, row));
    assert forall|a: int, b: int| 0 <= a < b < t.len() implies t[a].0 != t[b].0 by {
        if b == s.len() {
            assert(s[a].0 != k);
        }
    }
    assert(t[s.len() as int].0 == k);
    assert(has_entry(t, k));
    let p = entry_position(t, k);
    assert(p == s.len()) by {
        if p < s.len() {
            assert(s[p].0 == k);
        }
    }
    assert forall|k2: Seq<char>| k2 != k implies #[trigger] row_of(t, k2) == row_of(s, k2) by {
        if has_entry(s, k2) {
            let q = entry_position(s, k2);
            assert(t[q].0 == k2);
            assert(has_entry(t, k2));
            let q2 = entry_position(t, k2);
            assert(q2 < s.len());
            assert(s[q2].0 == k2);
        }
        if has_entry(t, k2) {
            let q2 = entry_position(t, k2);
            assert(q2 < s.len());
            assert(s[q2].0 == k2);
            assert(has_entry(s, k2));
        }
    }
}

proof fn lemma_remove_entry(s: Seq<(Seq<char>, u64)>, i: int)
    requires
        entry_keys_unique(s),
        0 <= i < s.len(),
    ensures
        entry_keys_unique(s.remove(i)),
        row_of(s.remove(i), s[i].0) is None,
        forall|k: Seq<char>| k != s[i].0 ==> #[trigger] row_of(s.remove(i), k) == row_of(s, k),
{
    let t = s.remove(i);
    assert forall|a: int, b: int| 0 <= a < b < t.len() implies t[a].0 != t[b].0 by {
        let oa = if a < i { a } else { a + 1 };
        let ob = if b < i { b } else { b + 1 };
        assert(t[a] == s[oa]);
        assert(t[b] == s[ob]);
    }
    assert(!has_entry(t, s[i].0)) by {
        if has_entry(t, s[i].0) {
            let q = entry_position(t, s[i].0);
            let oq = if q < i { q } else { q + 1 };
            assert(t[q] == s[oq]);
        }
    }
    assert forall|k: Seq<char>| k != s[i].0 implies #[trigger] row_of(t, k) == row_of(s, k) by {
        if has_entry(s, k) {
            let q = entry_position(s, k);
            let tq = if q < i { q } else { q - 1 };
            assert(t[tq] == s[q]);
            assert(has_entry(t, k));
            let q2 = entry_position(t, k);
            let oq2 = if q2 < i { q2 } else { q2 + 1 };
            assert(t[q2] == s[oq2]);
            assert(oq2 == q);
        }
        if has_entry(t, k) {
            let q2 = entry_position(t, k);
            let oq2 = if q2 < i { q2 } else { q2 + 1 };
            assert(t[q2] == s[oq2]);
            assert(has_entry(s, k));
        }
    }
}


/// Whether a key can be written to the directory file and read back: it is
/// non-empty and its bytes hold no tab and no newline.
pub open spec fn storable_key(k: Seq<char>) -> bool {
    &&& encode_utf8(k).len() > 0
    &&& forall|j: int| 0 <= j < encode_utf8(k).len() ==> #[trigger] encode_utf8(k)[j] != 9u8
        && encode_utf8(k)[j] != 10u8
}

/// The entries after pointing each key of `d` at its row in turn.
pub open spec fn inserted_all(acc: Seq<(Seq<char>, u64)>, d: Seq<(Seq<char>, u64)>) -> Seq<(Seq<char>, u64)>
    decreases d.len(),
{
    if d.len() == 0 {
        acc
    } else {
        inserted_all(inserted(acc, d[0].0, d[0].1), d.drop_first())
    }
}

proof fn lemma_directory_file_front(d: Seq<(Seq<char>, u64)>)
    requires
        d.len() > 0,
    ensures
        directory_file(d) == entry_line(encode_utf8(d[0].0), d[0].1) + directory_file(d.drop_first()),
    decreases d.len(),
{
    if d.len() == 1 {
        assert(directory_file(d.drop_last()) =~= Seq::<u8>::empty());
        assert(directory_file(d.drop_first()) =~= Seq::<u8>::empty());
        assert(d.last() == d[0]);
        assert(Seq::<u8>::empty() + entry_line(encode_utf8(d[0].0), d[0].1) =~= entry_line(
            encode_utf8(d[0].0),
            d[0].1,
        ) + Seq::<u8>::empty());
    } else {
        lemma_directory_file_front(d.drop_last());
        assert(d.drop_last().drop_first() =~= d.drop_first().drop_last());
        assert(d.drop_first().last() == d.last());
        assert(d.drop_last()[0] == d[0]);
        assert(directory_file(d) =~= entry_line(encode_utf8(d[0].0), d[0].1) + directory_file(
            d.drop_first(),
        ));
    }
}

proof fn lemma_u64_text(n: u64)
    ensures
        u64_of(nat_text(n as nat)) == Some(n as int),
        forall|j: int| 0 <= j < nat_text(n as nat).len() ==> is_digit(#[trigger] nat_text(n as nat)[j]),
{
    lemma_nat_text(n as nat);
    let t = nat_text(n as nat);
    assert(is_digit(t[0]));
}

/// Reading the line of one entry at `p`, followed by the rest of the file.
proof fn lemma_read_entry_line(t: Seq<u8>, p: int, k: Seq<char>, row: u64)
    requires
        0 <= p,
        storable_key(k),
        p + entry_line(encode_utf8(k), row).len() <= t.len(),
        t.subrange(p, p + entry_line(encode_utf8(k), row).len()) == entry_line(encode_utf8(k), row),
    ensures
        next_byte(t, p, 10u8) == p + entry_line(encode_utf8(k), row).len() - 1,
        line_entry(t.subrange(p, p + entry_line(encode_utf8(k), row).len() - 1)) == Some((k, row)),
{
    let kb = encode_utf8(k);
    let digits = nat_text(row as nat);
    let l = entry_line(kb, row);
    lemma_u64_text(row);
    encode_utf8_valid_utf8(k);
    encode_utf8_decode_utf8(k);
    let end = p + l.len() - 1;
    assert forall|j: int| 0 <= j < l.len() implies t[p + j] == #[trigger] l[j] by {
        assert(t.subrange(p, p + l.len())[j] == t[p + j]);
    }
    assert forall|j: int| p <= j < end implies t[j] != 10u8 by {
        let q = j - p;
        assert(t[p + q] == l[q]);
        if q < kb.len() {
            assert(l[q] == kb[q]);
        } else if q > kb.len() {
            assert(l[q] == digits[q - kb.len() - 1]);
        }
    }
    assert(t[p + (l.len() - 1)] == l[l.len() - 1]);
    lemma_next_byte(t, p, end, 10u8);
    let line = t.subrange(p, end);
    assert forall|j: int| 0 <= j < kb.len() implies line[j] != 9u8 by {
        assert(line[j] == t[p + j]);
        assert(t[p + j] == l[j]);
    }
    assert(line[kb.len() as int] == 9u8) by {
        assert(t[p + kb.len()] == l[kb.len() as int]);
    }
    lemma_next_byte(line, 0, kb.len() as int, 9u8);
    assert(line.subrange(0, kb.len() as int) =~= kb) by {
        assert forall|j: int| 0 <= j < kb.len() implies line.subrange(0, kb.len() as int)[j] == kb[j] by {
            assert(t[p + j] == l[j]);
        }
    }
    assert(line.subrange(kb.len() as int + 1, line.len() as int) =~= digits) by {
        assert forall|j: int| 0 <= j < digits.len() implies line.subrange(kb.len() as int + 1, line.len() as int)[j]
            == digits[j] by {
            assert(t[p + (kb.len() + 1 + j)] == l[kb.len() + 1 + j]);
        }
    }
}

proof fn lemma_loaded_file(acc: Seq<(Seq<char>, u64)>, t: Seq<u8>, p: int, d: Seq<(Seq<char>, u64)>)
    requires
        0 <= p <= t.len(),
        forall|i: int| 0 <= i < d.len() ==> storable_key(#[trigger] d[i].0),
        t.len() == p + directory_file(d).len(),
        t.subrange(p, t.len() as int) == directory_file(d),
    ensures
        loaded(acc, t, p) == inserted_all(acc, d),
    decreases d.len(),
{
    if d.len() == 0 {
        assert(directory_file(d) =~= Seq::<u8>::empty());
    } else {
        lemma_directory_file_front(d);
        let l = entry_line(encode_utf8(d[0].0), d[0].1);
        let rest = directory_file(d.drop_first());
        assert(t.subrange(p, p + l.len()) =~= l) by {
            assert forall|j: int| 0 <= j < l.len() implies t.subrange(p, p + l.len())[j] == l[j] by {
                assert(t.subrange(p, t.len() as int)[j] == directory_file(d)[j]);
            }
        }
        lemma_read_entry_line(t, p, d[0].0, d[0].1);
        assert(t.subrange(p + l.len(), t.len() as int) =~= rest) by {
            assert forall|j: int| 0 <= j < rest.len() implies t.subrange(p + l.len(), t.len() as int)[j] == rest[j] by {
                assert(t.subrange(p, t.len() as int)[l.len() + j] == directory_file(d)[l.len() + j]);
            }
        }
        assert forall|i: int| 0 <= i < d.drop_first().len() implies storable_key(#[trigger] d.drop_first()[i].0) by {
            assert(d.drop_first()[i] == d[i + 1]);
        }
        lemma_loaded_file(inserted(acc, d[0].0, d[0].1), t, p + l.len(), d.drop_first());
    }
}

proof fn lemma_inserted_all_fresh(acc: Seq<(Seq<char>, u64)>, d: Seq<(Seq<char>, u64)>)
    requires
        entry_keys_unique(d),
        forall|i: int| 0 <= i < d.len() ==> !has_entry(acc, #[trigger] d[i].0),
    ensures
        inserted_all(acc, d) == acc + d,
    decreases d.len(),
{
    if d.len() == 0 {
        assert(acc + d =~= acc);
    } else {
        let acc2 = acc.push(d[0]);
        let rest = d.drop_first();
        assert(inserted(acc, d[0].0, d[0].1) == acc2);
        assert forall|i: int, j: int| 0 <= i < j < rest.len() implies rest[i].0 != rest[j].0 by {
            assert(rest[i] == d[i + 1] && rest[j] == d[j + 1]);
        }
        assert forall|i: int| 0 <= i < rest.len() implies !has_entry(acc2, #[trigger] rest[i].0) by {
            assert(rest[i] == d[i + 1]);
            assert(!has_entry(acc, d[i + 1].0));
            if has_entry(acc2, rest[i].0) {
                let q = choose|q: int| 0 <= q < acc2.len() && acc2[q].0 == rest[i].0;
                if q < acc.len() {
                    assert(acc[q].0 == rest[i].0);
                } else {
                    assert(d[0].0 != d[i + 1].0);
                }
            }
        }
        lemma_inserted_all_fresh(acc2, rest);
        assert(acc2 + rest =~= acc + d);
    }
}

/// Saving a directory and reading the file back gives the same entries, in
/// the same order, when every key is non-empty and holds no tab or newline.
pub proof fn lemma_directory_round_trip(d: Seq<(Seq<char>, u64)>)
    requires
        entry_keys_unique(d),
        forall|i: int| 0 <= i < d.len() ==> storable_key(#[trigger] d[i].0),
    ensures
        loaded(Seq::<(Seq<char>, u64)>::empty(), directory_file(d), 0) == d,
{
    let t = directory_file(d);
    assert(t.subrange(0, t.len() as int) =~= t);
    lemma_loaded_file(Seq::<(Seq<char>, u64)>::empty(), t, 0, d);
    lemma_inserted_all_fresh(Seq::<(Seq<char>, u64)>::empty(), d);
    assert(Seq::<(Seq<char>, u64)>::empty() + d =~= d);
}

} // verus!
