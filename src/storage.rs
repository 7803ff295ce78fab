//! The append-only record store.
//!
//! The store keeps the image of its data file (header, then each record
//! followed by a newline) and its in-memory index from row id to the offset of
//! the record in that image. Whoever persists the store appends each record's
//! line to the data file as it is accepted, and at close rewrites the header
//! and the index file from `header_bytes` and `index_file`.

use vstd::prelude::*;
use vstd::bytes::*;
use vstd::string::*;

use crate::error::Error;
use crate::format::{
    create_header, data_magic, decode_index, encode_index, header_bytes, index_image,
    index_readable, index_storable, lemma_index_round_trip, newline_free, parse_header, slot_at,
    declared_count,
};

verus! {

/// Largest record, in bytes (1 MiB).
pub const MAX_VALUE_SIZE: usize = 1048576;

/// Largest data file, in bytes (1 GiB).
pub const MAX_DB_SIZE: u64 = 1073741824;

/// Largest number of rows: the data header stores the row count in 32 bits.
pub const MAX_ROWS: usize = 4294967295;

/// What a store holds: its data file image, its index and whether it is closed.
pub struct StoreModel {
    pub data: Seq<u8>,
    pub index: Seq<Option<u64>>,
    pub closed: bool,
}

/// Whether `r` is the record that starts at `off` in `data`: the bytes from
/// `off` up to, not including, the next newline.
pub open spec fn record_at(data: Seq<u8>, off: int, r: Seq<u8>) -> bool {
    &&& 0 <= off
    &&& off + r.len() < data.len()
    &&& data.subrange(off, off + r.len()) == r
    &&& data[off + r.len()] == 10u8
    &&& newline_free(r)
}

/// Whether `v` is stored at `off` in `data`, followed by a newline.
pub open spec fn stored_at(data: Seq<u8>, off: int, v: Seq<u8>) -> bool {
    &&& 0 <= off
    &&& off + v.len() < data.len()
    &&& data.subrange(off, off + v.len()) == v
    &&& data[off + v.len()] == 10u8
}

/// What stands stored in a data image stays there when bytes are appended.
pub proof fn lemma_stored_survives_append(data: Seq<u8>, off: int, v: Seq<u8>, extra: Seq<u8>)
    requires
        stored_at(data, off, v),
    ensures
        stored_at(data + extra, off, v),
{
    assert((data + extra).subrange(off, off + v.len()) =~= data.subrange(off, off + v.len()));
}

/// Whether a newline ends a record that starts at `off` in `data`.
pub open spec fn has_record(data: Seq<u8>, off: int) -> bool {
    0 <= off < data.len() && !newline_free(data.subrange(off, data.len() as int))
}

/// The offset of row `id`, or `None` when it is out of range or tombstoned.
pub open spec fn lookup(v: StoreModel, id: int) -> Option<u64> {
    if 0 <= id < v.index.len() {
        v.index[id]
    } else {
        None
    }
}

/// What reading row `id` of `v` yields: `Closed` on a closed store, `NotFound`
/// for an id out of range or tombstoned, the record at the row's offset, or
/// `Io` when no newline ends that record.
pub open spec fn read_outcome(v: StoreModel, id: int, r: Result<Vec<u8>, Error>) -> bool {
    if v.closed {
        r == Err::<Vec<u8>, Error>(Error::Closed)
    } else {
        match lookup(v, id) {
            None => r == Err::<Vec<u8>, Error>(Error::NotFound),
            Some(off) => if has_record(v.data, off as int) {
                r matches Ok(b) && record_at(v.data, off as int, b@)
            } else {
                r matches Err(e) && e is Io
            },
        }
    }
}

/// The live row ids of an index, in ascending order.
pub open spec fn live_ids(ix: Seq<Option<u64>>) -> Seq<int>
    decreases ix.len(),
{
    if ix.len() == 0 {
        seq![]
    } else if ix.last() is Some {
        live_ids(ix.drop_last()).push(ix.len() - 1)
    } else {
        live_ids(ix.drop_last())
    }
}

/// What a scan item for row `id` holds: the row id with the bytes a read of
/// that row yields, or the error the read fails with.
pub open spec fn scan_item(v: StoreModel, id: int, item: Result<(u64, Vec<u8>), Error>) -> bool {
    match item {
        Ok((i, b)) => i == id && read_outcome(v, id, Ok::<Vec<u8>, Error>(b)),
        Err(e) => read_outcome(v, id, Err::<Vec<u8>, Error>(e)),
    }
}

/// The store after `line` was accepted.
pub open spec fn appended(v: StoreModel, line: Seq<u8>) -> StoreModel {
    StoreModel {
        data: v.data + line + seq![10u8],
        index: v.index.push(Some(v.data.len() as u64)),
        closed: v.closed,
    }
}

/// The store after each of `lines` was accepted in turn.
pub open spec fn appended_all(v: StoreModel, lines: Seq<Seq<u8>>) -> StoreModel
    decreases lines.len(),
{
    if lines.len() == 0 {
        v
    } else {
        appended(appended_all(v, lines.drop_last()), lines.last())
    }
}

/// The data image once the row count in its header is rewritten.
pub open spec fn with_row_count(data: Seq<u8>, rows: u32) -> Seq<u8> {
    data.subrange(0, 12) + spec_u32_to_le_bytes(rows) + data.subrange(16, data.len() as int)
}

/// The store that opening the files written when `v` is closed gives.
pub open spec fn reopened(v: StoreModel) -> StoreModel {
    StoreModel {
        data: with_row_count(v.data, v.index.len() as u32),
        index: decoded_index(index_image(v.index)),
        closed: false,
    }
}

/// Whether every live offset points past the sixteen header bytes, where
/// records start.
pub open spec fn offsets_past_header(ix: Seq<Option<u64>>) -> bool {
    forall|i: int| 0 <= i < ix.len() && ix[i] is Some ==> ix[i]->Some_0 >= 16
}

/// The index as read back from an index file.
pub open spec fn decoded_index(bytes: Seq<u8>) -> Seq<Option<u64>> {
    Seq::new(declared_count(bytes) as nat, |i: int| slot_at(bytes, i))
}

/// Whether `data` opens with a valid data file header.
pub open spec fn header_valid(data: Seq<u8>) -> bool {
    data.len() >= 16 && data.subrange(0, 8) == data_magic()
}

/// The record store.
pub struct ToonStore {
    data: Vec<u8>,
    index: Vec<Option<u64>>,
    closed: bool,
}

impl View for ToonStore {
    type V = StoreModel;

    closed spec fn view(&self) -> StoreModel {
        StoreModel { data: self.data@, index: self.index@, closed: self.closed }
    }
}

impl ToonStore {
    /// The store's invariant: a valid header and an index that can be written back.
    pub closed spec fn wf(&self) -> bool {
        &&& header_valid(self.data@)
        &&& index_storable(self.index@)
        &&& offsets_past_header(self.index@)
    }

    /// A well-formed store has a valid header and an index whose live
    /// offsets point past the header and can be written back.
    pub proof fn lemma_wf(&self)
        requires
            self.wf(),
        ensures
            header_valid(self@.data),
            index_storable(self@.index),
            offsets_past_header(self@.index),
    {
    }

    /// Durability: closing this store and reopening it from the data image
    /// and the index file written at close gives every read the same result.
    pub proof fn lemma_reopen_reads_alike(&self)
        requires
            self.wf(),
        ensures
            header_valid(with_row_count(self@.data, self@.index.len() as u32)),
            index_readable(index_image(self@.index)),
            decoded_index(index_image(self@.index)) == self@.index,
            offsets_past_header(decoded_index(index_image(self@.index))),
            forall|id: int, r: Result<Vec<u8>, Error>|
                #[trigger] read_outcome(reopened(self@), id, r) == read_outcome(
                    StoreModel { closed: false, ..self@ },
                    id,
                    r,
                ),
    {
        lemma_durability(self@);
    }

    /// An empty store: the data image is the header of version 1 with no rows.
    pub fn create() -> (r: ToonStore)
        ensures
            r.wf(),
            r@.data == header_bytes(1, 0),
            r@.index == Seq::<Option<u64>>::empty(),
            !r@.closed,
    {
        let data = create_header(1, 0);
        proof {
            assert(data@.subrange(0, 8) =~= data_magic());
        }
        ToonStore { data, index: Vec::new(), closed: false }
    }

    /// Reopens a store from its data file and its index file.
    /// Fails with `Parse` on a bad data header or a bad or truncated index file.
    /// The index file's count is authoritative; the header's row count is not consulted.
    pub fn open(data: Vec<u8>, index_file: &[u8]) -> (r: Result<ToonStore, Error>)
        ensures
            r is Ok <==> header_valid(data@) && index_readable(index_file@) && offsets_past_header(
                decoded_index(index_file@),
            ),
            r is Err ==> r->Err_0 is Parse,
            r matches Ok(s) ==> {
                &&& s.wf()
                &&& s@.data == data@
                &&& s@.index == decoded_index(index_file@)
                &&& !s@.closed
            },
    {
        match parse_header(data.as_slice()) {
            Err(e) => {
                return Err(e);
            },
            Ok(_) => {},
        }
        match decode_index(index_file) {
            Err(e) => Err(e),
            Ok(index) => {
                proof {
                    assert(index@ =~= decoded_index(index_file@));
                    lemma_u32_max_count(index_file@);
                }
                let mut i: usize = 0;
                while i < index.len()
                    invariant
                        0 <= i <= index@.len(),
                        index@ == decoded_index(index_file@),
                        forall|j: int| 0 <= j < i && index@[j] is Some ==> index@[j]->Some_0 >= 16,
                    decreases index@.len() - i,
                {
                    match index[i] {
                        Some(off) => if off < 16 {
                            return Err(Error::Parse(String::from_str("Index offset inside the data header")));
                        },
                        None => {},
                    }
                    i = i + 1;
                }
                Ok(ToonStore { data, index, closed: false })
            },
        }
    }

    /// Appends a record and returns its row id.
    ///
    /// The record is stored as given; a record holding a newline is accepted
    /// too, but it then reads back only up to its first newline, because the
    /// data file separates records by newlines.
    pub fn put(&mut self, line: &[u8]) -> (r: Result<u64, Error>)
        requires
            old(self).wf(),
        ensures
            final(self).wf(),
            old(self)@.closed ==> r == Err::<u64, Error>(Error::Closed),
            !old(self)@.closed && line@.len() > MAX_VALUE_SIZE ==> r == Err::<u64, Error>(
                Error::ValueTooLarge(line@.len() as usize),
            ),
            !old(self)@.closed && line@.len() <= MAX_VALUE_SIZE && (old(self)@.data.len()
                + line@.len() + 1 > MAX_DB_SIZE || old(self)@.index.len() >= MAX_ROWS)
                ==> r == Err::<u64, Error>(Error::DatabaseFull(old(self)@.data.len() as u64)),
            r is Err ==> final(self)@ == old(self)@,
            r is Ok <==> !old(self)@.closed && line@.len() <= MAX_VALUE_SIZE && old(self)@.data.len()
                + line@.len() + 1 <= MAX_DB_SIZE && old(self)@.index.len() < MAX_ROWS,
            r matches Ok(id) ==> {
                &&& id == old(self)@.index.len()
                &&& final(self)@ == appended(old(self)@, line@)
            },
            final(self)@ == applied(old(self)@, StoreOp::Put(line@)),
    {
        if self.closed {
            return Err(Error::Closed);
        }
        if line.len() > MAX_VALUE_SIZE {
            return Err(Error::ValueTooLarge(line.len()));
        }
        let size = self.data.len() as u64;
        if size > MAX_DB_SIZE || line.len() as u64 + 1 > MAX_DB_SIZE - size || self.index.len()
            >= MAX_ROWS {
            return Err(Error::DatabaseFull(size));
        }
        let row_id = self.index.len() as u64;
        self.index.push(Some(size));
        self.data.extend_from_slice(line);
        self.data.push(10u8);
        proof {
            assert(self.data@ =~= old(self)@.data + line@ + seq![10u8]);
            assert(self.data@.subrange(0, 8) =~= old(self)@.data.subrange(0, 8));
        }
        Ok(row_id)
    }

    /// Reads the record of row `row_id`.
    /// Fails with `NotFound` when the id is out of range or tombstoned, and with
    /// `Io` when no newline ends the record in the data image.
    pub fn get(&self, row_id: u64) -> (r: Result<Vec<u8>, Error>)
        ensures
            read_outcome(self@, row_id as int, r),
    {
        if self.closed {
            return Err(Error::Closed);
        }
        if row_id >= self.index.len() as u64 {
            return Err(Error::NotFound);
        }
        let off = match self.index[row_id as usize] {
            Some(o) => o,
            None => {
                return Err(Error::NotFound);
            },
        };
        if off >= self.data.len() as u64 {
            proof {
                assert(!has_record(self@.data, off as int));
            }
            return Err(Error::Io(String::from_str("unexpected end of data file")));
        }
        let start = off as usize;
        let mut line: Vec<u8> = Vec::new();
        let mut i: usize = start;
        while i < self.data.len()
            invariant
                start <= i <= self.data@.len(),
                start == off,
                !self.closed,
                lookup(self@, row_id as int) == Some(off),
                line@ == self.data@.subrange(start as int, i as int),
                newline_free(line@),
            decreases self.data@.len() - i,
        {
            let b = self.data[i];
            if b == 10u8 {
                proof {
                    assert(has_record(self@.data, off as int)) by {
                        let tail = self.data@.subrange(start as int, self.data@.len() as int);
                        assert(tail[i - start] == 10u8);
                    }
                }
                return Ok(line);
            }
            line.push(b);
            proof {
                assert(line@ =~= self.data@.subrange(start as int, i as int + 1));
            }
            i = i + 1;
        }
        proof {
            assert(self.data@.subrange(start as int, self.data@.len() as int) =~= line@);
        }
        Err(Error::Io(String::from_str("unexpected end of data file")))
    }

    /// Reads every live row, in ascending row-id order.
    pub fn scan(&self) -> (r: Vec<Result<(u64, Vec<u8>), Error>>)
        ensures
            r@.len() == live_ids(self@.index).len(),
            forall|k: int|
                0 <= k < r@.len() ==> scan_item(self@, #[trigger] live_ids(self@.index)[k], r@[k]),
    {
        let mut out: Vec<Result<(u64, Vec<u8>), Error>> = Vec::new();
        let mut i: usize = 0;
        while i < self.index.len()
            invariant
                0 <= i <= self.index@.len(),
                out@.len() == live_ids(self.index@.subrange(0, i as int)).len(),
                forall|k: int|
                    0 <= k < out@.len() ==> scan_item(
                        self@,
                        #[trigger] live_ids(self.index@.subrange(0, i as int))[k],
                        out@[k],
                    ),
            decreases self.index@.len() - i,
        {
            proof {
                assert(self.index@.subrange(0, i as int + 1).drop_last() =~= self.index@.subrange(
                    0,
                    i as int,
                ));
            }
            if self.index[i].is_some() {
                let item = match self.get(i as u64) {
                    Ok(b) => Ok((i as u64, b)),
                    Err(e) => Err(e),
                };
                out.push(item);
            }
            i = i + 1;
        }
        proof {
            assert(self.index@.subrange(0, i as int) =~= self.index@);
        }
        out
    }

    /// Number of row-id slots, tombstones included.
    pub fn len(&self) -> (r: usize)
        ensures
            r == self@.index.len(),
    {
        self.index.len()
    }

    /// Whether no row was ever inserted.
    pub fn is_empty(&self) -> (r: bool)
        ensures
            r <==> self@.index.len() == 0,
    {
        self.index.len() == 0
    }

    /// Tombstones row `row_id`.
    /// Fails with `NotFound` when the id is out of range or already tombstoned.
    pub fn delete(&mut self, row_id: u64) -> (r: Result<(), Error>)
        requires
            old(self).wf(),
        ensures
            final(self).wf(),
            old(self)@.closed ==> r == Err::<(), Error>(Error::Closed),
            !old(self)@.closed && lookup(old(self)@, row_id as int) is None ==> r == Err::<
                (),
                Error,
            >(Error::NotFound),
            r is Ok <==> !old(self)@.closed && lookup(old(self)@, row_id as int) is Some,
            r is Err ==> final(self)@ == old(self)@,
            r is Ok ==> final(self)@ == (StoreModel {
                index: old(self)@.index.update(row_id as int, None),
                ..old(self)@
            }),
            final(self)@ == applied(old(self)@, StoreOp::Delete(row_id)),
    {
        if self.closed {
            return Err(Error::Closed);
        }
        if row_id >= self.index.len() as u64 {
            return Err(Error::NotFound);
        }
        if self.index[row_id as usize].is_none() {
            return Err(Error::NotFound);
        }
        self.index.set(row_id as usize, None);
        Ok(())
    }

    /// Writes the row count into the data header and marks the store closed.
    /// Closing a closed store does nothing.
    pub fn close(&mut self) -> (r: Result<(), Error>)
        requires
            old(self).wf(),
        ensures
            final(self).wf(),
            r is Ok,
            final(self)@.closed,
            final(self)@.index == old(self)@.index,
            old(self)@.closed ==> final(self)@ == old(self)@,
            !old(self)@.closed ==> final(self)@.data == with_row_count(
                old(self)@.data,
                old(self)@.index.len() as u32,
            ),
    {
        if self.closed {
            return Ok(());
        }
        let count = u32_to_le_bytes(self.index.len() as u32);
        proof {
            lemma_auto_spec_u32_to_from_le_bytes();
        }
        let mut k: usize = 0;
        while k < 4
            invariant
                0 <= k <= 4,
                count@ == spec_u32_to_le_bytes(old(self)@.index.len() as u32),
                count@.len() == 4,
                self.data@.len() == old(self)@.data.len(),
                self.data@.len() >= 16,
                self.index@ == old(self)@.index,
                !self.closed,
                forall|j: int|
                    0 <= j < self.data@.len() ==> #[trigger] self.data@[j] == if 12 <= j < 12 + k {
                        count@[j - 12]
                    } else {
                        old(self)@.data[j]
                    },
            decreases 4 - k,
        {
            self.data.set(12 + k, count[k]);
            k = k + 1;
        }
        self.closed = true;
        proof {
            assert(self.data@ =~= with_row_count(old(self)@.data, old(self)@.index.len() as u32));
            assert(self.data@.subrange(0, 8) =~= old(self)@.data.subrange(0, 8));
        }
        Ok(())
    }

    /// The sixteen header bytes of the data file as they stand.
    pub fn header_bytes(&self) -> (r: Vec<u8>)
        requires
            self.wf(),
        ensures
            r@ == self@.data.subrange(0, 16),
    {
        let mut out: Vec<u8> = Vec::new();
        let mut i: usize = 0;
        while i < 16
            invariant
                0 <= i <= 16,
                self.data@.len() >= 16,
                out@ == self.data@.subrange(0, i as int),
            decreases 16 - i,
        {
            out.push(self.data[i]);
            proof {
                assert(out@ =~= self.data@.subrange(0, i as int + 1));
            }
            i = i + 1;
        }
        out
    }

    /// The sixteen header bytes with the current number of rows, as `close`
    /// would write them; writing them early keeps the file's header in step
    /// with its index.
    pub fn current_header(&self) -> (r: Vec<u8>)
        requires
            self.wf(),
        ensures
            r@ == with_row_count(self@.data, self@.index.len() as u32).subrange(0, 16),
    {
        let count = u32_to_le_bytes(self.index.len() as u32);
        let mut out: Vec<u8> = Vec::new();
        let mut i: usize = 0;
        while i < 12
            invariant
                0 <= i <= 12,
                self.data@.len() >= 16,
                out@ == self.data@.subrange(0, i as int),
            decreases 12 - i,
        {
            out.push(self.data[i]);
            proof {
                assert(out@ =~= self.data@.subrange(0, i as int + 1));
            }
            i = i + 1;
        }
        out.extend_from_slice(count.as_slice());
        proof {
            lemma_auto_spec_u32_to_from_le_bytes();
            assert(out@ =~= with_row_count(self@.data, self@.index.len() as u32).subrange(0, 16));
        }
        out
    }

    /// The content of the index file for the current index.
    pub fn index_file(&self) -> (r: Vec<u8>)
        requires
            self.wf(),
        ensures
            r@ == index_image(self@.index),
    {
        encode_index(&self.index)
    }

    /// The data file image.
    pub fn data_image(&self) -> (r: &Vec<u8>)
        ensures
            r@ == self@.data,
    {
        &self.data
    }
}

/// The record at an offset is unique: the bytes up to the first newline.
pub proof fn lemma_record_unique(data: Seq<u8>, off: int, r1: Seq<u8>, r2: Seq<u8>)
    requires
        record_at(data, off, r1),
        record_at(data, off, r2),
    ensures
        r1 == r2,
{
    if r1.len() < r2.len() {
        assert(data.subrange(off, off + r2.len())[r1.len() as int] == data[off + r1.len()]);
        assert(r2[r1.len() as int] == 10u8);
    } else if r2.len() < r1.len() {
        assert(data.subrange(off, off + r1.len())[r2.len() as int] == data[off + r2.len()]);
        assert(r1[r2.len() as int] == 10u8);
    } else {
        assert(r1 =~= r2);
    }
}

/// Every live row id appears among the live ids.
pub proof fn lemma_live_ids_complete(ix: Seq<Option<u64>>, id: int)
    requires
        0 <= id < ix.len(),
        ix[id] is Some,
    ensures
        exists|k: int| 0 <= k < live_ids(ix).len() && live_ids(ix)[k] == id,
    decreases ix.len(),
{
    let init = ix.drop_last();
    if id == ix.len() - 1 {
        let n = live_ids(init).len() as int;
        assert(live_ids(ix)[n] == id);
    } else {
        lemma_live_ids_complete(init, id);
        let k = choose|k: int| 0 <= k < live_ids(init).len() && live_ids(init)[k] == id;
        if ix.last() is Some {
            assert(live_ids(ix)[k] == id);
        } else {
            assert(live_ids(ix)[k] == id);
        }
    }
}

/// A record stays readable, with the same bytes, when bytes are appended to
/// the data image after it.
pub proof fn lemma_record_survives_append(data: Seq<u8>, off: int, r: Seq<u8>, extra: Seq<u8>)
    requires
        record_at(data, off, r),
    ensures
        record_at(data + extra, off, r),
{
    assert((data + extra).subrange(off, off + r.len()) =~= data.subrange(off, off + r.len()));
}

/// Putting `lines` in turn gives one new slot per line, dense from the old
/// length; earlier slots and earlier data are unchanged.
pub proof fn lemma_puts_are_dense(v: StoreModel, lines: Seq<Seq<u8>>)
    requires
        appended_all(v, lines).data.len() <= MAX_DB_SIZE,
    ensures
        appended_all(v, lines).index.len() == v.index.len() + lines.len(),
        appended_all(v, lines).data.len() >= v.data.len(),
        appended_all(v, lines).data.subrange(0, v.data.len() as int) == v.data,
        appended_all(v, lines).closed == v.closed,
        forall|i: int| 0 <= i < v.index.len() ==> #[trigger] appended_all(v, lines).index[i] == v.index[i],
    decreases lines.len(),
{
    if lines.len() > 0 {
        let init = lines.drop_last();
        let p = appended_all(v, init);
        let w = appended_all(v, lines);
        assert(w.data.len() == p.data.len() + lines.last().len() + 1);
        lemma_puts_are_dense(v, init);
        assert(w.data.subrange(0, v.data.len() as int) =~= p.data.subrange(0, v.data.len() as int));
    }
}

/// After putting `lines` in turn, the slot of the `k`-th line is live and
/// reads back that line, provided it holds no newline.
pub proof fn lemma_put_reads_back(v: StoreModel, lines: Seq<Seq<u8>>, k: int)
    requires
        0 <= k < lines.len(),
        newline_free(lines[k]),
        appended_all(v, lines).data.len() <= MAX_DB_SIZE,
    ensures
        lookup(appended_all(v, lines), v.index.len() + k) is Some,
        record_at(
            appended_all(v, lines).data,
            lookup(appended_all(v, lines), v.index.len() + k)->Some_0 as int,
            lines[k],
        ),
    decreases lines.len(),
{
    let init = lines.drop_last();
    let p = appended_all(v, init);
    let w = appended_all(v, lines);
    let line = lines.last();
    assert(w.data.len() == p.data.len() + line.len() + 1);
    lemma_puts_are_dense(v, init);
    assert(w.index == p.index.push(Some(p.data.len() as u64)));
    if k < init.len() {
        assert(init[k] == lines[k]);
        lemma_put_reads_back(v, init, k);
        assert(w.index[v.index.len() + k] == p.index[v.index.len() + k]);
        let off = lookup(p, v.index.len() + k)->Some_0 as int;
        lemma_record_survives_append(p.data, off, init[k], line + seq![10u8]);
        assert(p.data + line + seq![10u8] =~= p.data + (line + seq![10u8]));
    } else {
        assert(w.index[v.index.len() + k] == Some(p.data.len() as u64));
        assert(w.data.subrange(p.data.len() as int, (p.data.len() + line.len()) as int) =~= line);
    }
}

/// One operation on a store.
pub enum StoreOp {
    Put(Seq<u8>),
    Delete(u64),
}

/// Whether `put` accepts `line` on `v` (see `ToonStore::put`).
pub open spec fn put_accepted(v: StoreModel, line: Seq<u8>) -> bool {
    &&& !v.closed
    &&& line.len() <= MAX_VALUE_SIZE
    &&& v.data.len() + line.len() + 1 <= MAX_DB_SIZE
    &&& v.index.len() < MAX_ROWS
}

/// Whether `delete` accepts row `id` on `v` (see `ToonStore::delete`).
pub open spec fn delete_accepted(v: StoreModel, id: u64) -> bool {
    !v.closed && lookup(v, id as int) is Some
}

/// The store after one operation; a refused operation changes nothing.
pub open spec fn applied(v: StoreModel, op: StoreOp) -> StoreModel {
    match op {
        StoreOp::Put(line) => if put_accepted(v, line) {
            appended(v, line)
        } else {
            v
        },
        StoreOp::Delete(id) => if delete_accepted(v, id) {
            StoreModel { index: v.index.update(id as int, None), ..v }
        } else {
            v
        },
    }
}

/// The store after each of `ops` in turn.
pub open spec fn applied_all(v: StoreModel, ops: Seq<StoreOp>) -> StoreModel
    decreases ops.len(),
{
    if ops.len() == 0 {
        v
    } else {
        applied(applied_all(v, ops.drop_last()), ops.last())
    }
}

/// How many of `ops` are puts that the store accepts.
pub open spec fn accepted_puts(v: StoreModel, ops: Seq<StoreOp>) -> nat
    decreases ops.len(),
{
    if ops.len() == 0 {
        0
    } else {
        accepted_puts(v, ops.drop_last()) + if ops.last() matches StoreOp::Put(line) && put_accepted(
            applied_all(v, ops.drop_last()),
            line,
        ) {
            1nat
        } else {
            0nat
        }
    }
}

/// Density: after any mix of puts and deletes, the number of row slots is
/// the starting number plus the accepted puts (deletes only tombstone), and
/// every slot that was live and not deleted keeps its offset.
pub proof fn lemma_density(v: StoreModel, ops: Seq<StoreOp>)
    ensures
        applied_all(v, ops).index.len() == v.index.len() + accepted_puts(v, ops),
        forall|i: int|
            0 <= i < v.index.len() && #[trigger] applied_all(v, ops).index[i] is Some ==> applied_all(v, ops).index[i]
                == v.index[i],
    decreases ops.len(),
{
    if ops.len() > 0 {
        lemma_density(v, ops.drop_last());
        let p = applied_all(v, ops.drop_last());
        let w = applied_all(v, ops);
        assert forall|i: int| 0 <= i < v.index.len() && #[trigger] w.index[i] is Some implies w.index[i] == v.index[i] by {
            assert(i < p.index.len());
            match ops.last() {
                StoreOp::Put(line) => {
                    if put_accepted(p, line) {
                        assert(w.index[i] == p.index[i]);
                    }
                },
                StoreOp::Delete(id) => {
                    if delete_accepted(p, id) && i != id {
                        assert(w.index[i] == p.index[i]);
                    }
                },
            }
        }
    }
}

/// Closing and reopening keeps every row: the index file written at close
/// reads back as the same index, the header stays valid, and every read on
/// the reopened store yields what it yielded before the close, provided every
/// live offset points past the header.
pub proof fn lemma_durability(v: StoreModel)
    requires
        header_valid(v.data),
        index_storable(v.index),
        offsets_past_header(v.index),
    ensures
        header_valid(with_row_count(v.data, v.index.len() as u32)),
        index_readable(index_image(v.index)),
        decoded_index(index_image(v.index)) == v.index,
        offsets_past_header(decoded_index(index_image(v.index))),
        forall|id: int, r: Result<Vec<u8>, Error>|
            read_outcome(
                StoreModel {
                    data: with_row_count(v.data, v.index.len() as u32),
                    index: decoded_index(index_image(v.index)),
                    closed: false,
                },
                id,
                r,
            ) == read_outcome(StoreModel { closed: false, ..v }, id, r),
{
    lemma_auto_spec_u32_to_from_le_bytes();
    lemma_index_round_trip(v.index);
    let d = with_row_count(v.data, v.index.len() as u32);
    let ixf = index_image(v.index);
    assert(d.subrange(0, 8) =~= v.data.subrange(0, 8));
    assert(decoded_index(ixf) =~= v.index);
    assert forall|off: int| 16 <= off <= v.data.len() implies #[trigger] d.subrange(off, d.len() as int)
        == v.data.subrange(off, v.data.len() as int) by {
        assert(d.subrange(off, d.len() as int) =~= v.data.subrange(off, v.data.len() as int));
    }
    assert forall|id: int, r: Result<Vec<u8>, Error>|
        read_outcome(StoreModel { data: d, index: decoded_index(ixf), closed: false }, id, r)
            == read_outcome(StoreModel { closed: false, ..v }, id, r) by {
        let a = StoreModel { data: d, index: decoded_index(ixf), closed: false };
        let b = StoreModel { closed: false, ..v };
        if lookup(b, id) is Some {
            let off = lookup(b, id)->Some_0 as int;
            if off <= v.data.len() {
                assert(d.subrange(off, d.len() as int) == v.data.subrange(off, v.data.len() as int));
            }
            if let Ok(bytes) = r {
                let n = bytes@.len();
                if off + n < d.len() {
                    assert(d.subrange(off, off + n) =~= v.data.subrange(off, off + n));
                    assert(d[off + n] == v.data[off + n]);
                }
            }
        }
    }
}

proof fn lemma_u32_max_count(bytes: Seq<u8>)
    requires
        bytes.len() >= 12,
    ensures
        declared_count(bytes) <= u32::MAX,
{
}

} // verus!
