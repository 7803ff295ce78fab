//! On-disk layout of the data file header, the index file and record lines.

use vstd::prelude::*;
use vstd::bytes::*;
use vstd::slice::*;
use vstd::string::*;

use crate::error::Error;

verus! {

/// Magic bytes that open every data file: `TOON001\n`.
pub fn toon_magic() -> (r: Vec<u8>)
    ensures
        r@ == data_magic(),
{
    vec![84u8, 79u8, 79u8, 78u8, 48u8, 48u8, 49u8, 10u8]
}

/// Magic bytes that open every index file: `TOONIDX1`.
pub fn toon_idx_magic() -> (r: Vec<u8>)
    ensures
        r@ == index_magic(),
{
    vec![84u8, 79u8, 79u8, 78u8, 73u8, 68u8, 88u8, 49u8]
}

/// The data file's magic as a sequence.
pub open spec fn data_magic() -> Seq<u8> {
    seq![84u8, 79u8, 79u8, 78u8, 48u8, 48u8, 49u8, 10u8]
}

/// The index file's magic as a sequence.
pub open spec fn index_magic() -> Seq<u8> {
    seq![84u8, 79u8, 79u8, 78u8, 73u8, 68u8, 88u8, 49u8]
}

/// Fixed-size header at the start of the data file.
#[derive(Debug, Clone, Copy, PartialEq, Eq, Structural)]
pub struct ToonHeader {
    /// File format version.
    pub version: u32,
    /// Number of rows recorded at the last close.
    pub row_count: u32,
}

/// The sixteen header bytes for a version and a row count.
pub open spec fn header_bytes(version: u32, row_count: u32) -> Seq<u8> {
    data_magic() + spec_u32_to_le_bytes(version) + spec_u32_to_le_bytes(row_count)
}

/// Parses the data file header from the first sixteen bytes of `input`.
pub fn parse_header(input: &[u8]) -> (r: Result<ToonHeader, Error>)
    ensures
        r is Ok <==> (input@.len() >= 16 && input@.subrange(0, 8) == data_magic()),
        r is Err ==> r->Err_0 is Parse,
        r is Ok ==> r->Ok_0 == (ToonHeader {
            version: spec_u32_from_le_bytes(input@.subrange(8, 12)),
            row_count: spec_u32_from_le_bytes(input@.subrange(12, 16)),
        }),
{
    if input.len() < 16 {
        return Err(Error::Parse(String::from_str("Input too short for header")));
    }
    let magic = toon_magic();
    let mut i: usize = 0;
    while i < 8
        invariant
            0 <= i <= 8,
            magic@ == data_magic(),
            input@.len() >= 16,
            forall|j: int| 0 <= j < i ==> input@[j] == data_magic()[j],
        decreases 8 - i,
    {
        if input[i] != magic[i] {
            return Err(Error::Parse(String::from_str("Invalid TOON magic header")));
        }
        i = i + 1;
    }
    assert(input@.subrange(0, 8) =~= data_magic());
    let version = u32_from_le_bytes(slice_subrange(input, 8, 12));
    let row_count = u32_from_le_bytes(slice_subrange(input, 12, 16));
    Ok(ToonHeader { version, row_count })
}

/// Builds the sixteen header bytes of a data file.
pub fn create_header(version: u32, row_count: u32) -> (r: Vec<u8>)
    ensures
        r@ == header_bytes(version, row_count),
        r@.len() == 16,
{
    let mut header: Vec<u8> = Vec::with_capacity(16);
    header.extend_from_slice(toon_magic().as_slice());
    header.extend_from_slice(u32_to_le_bytes(version).as_slice());
    header.extend_from_slice(u32_to_le_bytes(row_count).as_slice());
    header
}

/// Whether `s` holds no newline byte.
pub open spec fn newline_free(s: Seq<u8>) -> bool {
    forall|i: int| 0 <= i < s.len() ==> s[i] != 10u8
}

/// Splits `input` at its first newline: the line before it and the rest after it.
/// Returns `None` when `input` holds no newline.
pub fn parse_line(input: &[u8]) -> (r: Option<(&[u8], &[u8])>)
    ensures
        r is None <==> newline_free(input@),
        r matches Some((rest, line)) ==> {
            &&& newline_free(line@)
            &&& input@ == line@ + seq![10u8] + rest@
        },
{
    let mut i: usize = 0;
    while i < input.len()
        invariant
            0 <= i <= input@.len(),
            newline_free(input@.subrange(0, i as int)),
        decreases input@.len() - i,
    {
        if input[i] == 10u8 {
            let line = slice_subrange(input, 0, i);
            let rest = slice_subrange(input, i + 1, input.len());
            assert(input@ =~= line@ + seq![10u8] + rest@);
            return Some((rest, line));
        }
        assert(input@.subrange(0, i as int + 1) =~= input@.subrange(0, i as int).push(input@[i as int]));
        i = i + 1;
    }
    assert(input@.subrange(0, i as int) =~= input@);
    None
}


/// The value an index slot holds on disk: the offset, or 0 for a tombstone.
pub open spec fn slot_value(o: Option<u64>) -> u64 {
    match o {
        Some(v) => v,
        None => 0,
    }
}

/// The index slot that an on-disk value stands for.
pub open spec fn slot_of(v: u64) -> Option<u64> {
    if v == 0 {
        None
    } else {
        Some(v)
    }
}

/// The offset slots of an index file, eight little-endian bytes each.
pub open spec fn index_entries(ix: Seq<Option<u64>>) -> Seq<u8>
    decreases ix.len(),
{
    if ix.len() == 0 {
        seq![]
    } else {
        index_entries(ix.drop_last()) + spec_u64_to_le_bytes(slot_value(ix.last()))
    }
}

/// The full content of the index file for an in-memory index.
pub open spec fn index_image(ix: Seq<Option<u64>>) -> Seq<u8> {
    index_magic() + spec_u32_to_le_bytes(ix.len() as u32) + index_entries(ix)
}

/// The entry count that an index file declares.
pub open spec fn declared_count(bytes: Seq<u8>) -> int {
    spec_u32_from_le_bytes(bytes.subrange(8, 12)) as int
}

/// Whether `bytes` opens with the index magic and holds every slot it declares.
pub open spec fn index_readable(bytes: Seq<u8>) -> bool {
    &&& bytes.len() >= 12
    &&& bytes.subrange(0, 8) == index_magic()
    &&& bytes.len() >= 12 + 8 * declared_count(bytes)
}

/// Slot `i` as read from an index file.
pub open spec fn slot_at(bytes: Seq<u8>, i: int) -> Option<u64> {
    slot_of(spec_u64_from_le_bytes(bytes.subrange(12 + 8 * i, 20 + 8 * i)))
}

/// Whether every slot that `ix` holds can be written and read back.
pub open spec fn index_storable(ix: Seq<Option<u64>>) -> bool {
    &&& ix.len() <= u32::MAX
    &&& forall|i: int| 0 <= i < ix.len() ==> ix[i] != Some(0u64)
}

proof fn lemma_index_entries(ix: Seq<Option<u64>>)
    ensures
        index_entries(ix).len() == 8 * ix.len(),
        forall|i: int|
            0 <= i < ix.len() ==> #[trigger] index_entries(ix).subrange(8 * i, 8 * i + 8)
                == spec_u64_to_le_bytes(slot_value(ix[i])),
    decreases ix.len(),
{
    lemma_auto_spec_u64_to_from_le_bytes();
    if ix.len() > 0 {
        let init = ix.drop_last();
        lemma_index_entries(init);
        let e = index_entries(ix);
        assert forall|i: int| 0 <= i < ix.len() implies #[trigger] e.subrange(8 * i, 8 * i + 8)
            == spec_u64_to_le_bytes(slot_value(ix[i])) by {
            if i < init.len() {
                assert(e.subrange(8 * i, 8 * i + 8) =~= index_entries(init).subrange(8 * i, 8 * i + 8));
            } else {
                assert(e.subrange(8 * i, 8 * i + 8) =~= spec_u64_to_le_bytes(slot_value(ix.last())));
            }
        }
    }
}

/// Reading back the image of a storable index gives the same index.
pub proof fn lemma_index_round_trip(ix: Seq<Option<u64>>)
    requires
        index_storable(ix),
    ensures
        index_readable(index_image(ix)),
        declared_count(index_image(ix)) == ix.len(),
        forall|i: int| 0 <= i < ix.len() ==> slot_at(index_image(ix), i) == ix[i],
{
    lemma_auto_spec_u32_to_from_le_bytes();
    lemma_auto_spec_u64_to_from_le_bytes();
    lemma_index_entries(ix);
    let b = index_image(ix);
    assert(b.subrange(0, 8) =~= index_magic());
    assert(b.subrange(8, 12) =~= spec_u32_to_le_bytes(ix.len() as u32));
    assert forall|i: int| 0 <= i < ix.len() implies slot_at(b, i) == ix[i] by {
        assert(b.subrange(12 + 8 * i, 20 + 8 * i) =~= index_entries(ix).subrange(8 * i, 8 * i + 8));
    }
}

/// Builds the index file for an in-memory index (0 marks a tombstone).
pub fn encode_index(ix: &Vec<Option<u64>>) -> (r: Vec<u8>)
    requires
        ix@.len() <= u32::MAX,
    ensures
        r@ == index_image(ix@),
{
    let mut out = toon_idx_magic();
    out.extend_from_slice(u32_to_le_bytes(ix.len() as u32).as_slice());
    let mut i: usize = 0;
    while i < ix.len()
        invariant
            0 <= i <= ix@.len(),
            ix@.len() <= u32::MAX,
            out@ == index_magic() + spec_u32_to_le_bytes(ix@.len() as u32) + index_entries(
                ix@.subrange(0, i as int),
            ),
        decreases ix@.len() - i,
    {
        let v: u64 = match ix[i] {
            Some(o) => o,
            None => 0,
        };
        out.extend_from_slice(u64_to_le_bytes(v).as_slice());
        assert(ix@.subrange(0, i as int + 1).drop_last() =~= ix@.subrange(0, i as int));
        i = i + 1;
    }
    assert(ix@.subrange(0, i as int) =~= ix@);
    out
}

/// Reads an index file back into memory.
/// Fails with `Parse` on a wrong magic or a file shorter than its declared count.
pub fn decode_index(bytes: &[u8]) -> (r: Result<Vec<Option<u64>>, Error>)
    ensures
        r is Ok <==> index_readable(bytes@),
        r is Err ==> r->Err_0 is Parse,
        r matches Ok(ix) ==> {
            &&& ix@.len() == declared_count(bytes@)
            &&& forall|i: int| 0 <= i < ix@.len() ==> ix@[i] == slot_at(bytes@, i)
        },
{
    if bytes.len() < 12 {
        return Err(Error::Parse(String::from_str("Index file too short")));
    }
    let magic = toon_idx_magic();
    let mut i: usize = 0;
    while i < 8
        invariant
            0 <= i <= 8,
            bytes@.len() >= 12,
            magic@ == index_magic(),
            forall|j: int| 0 <= j < i ==> bytes@[j] == index_magic()[j],
        decreases 8 - i,
    {
        if bytes[i] != magic[i] {
            return Err(Error::Parse(String::from_str("Invalid index file magic")));
        }
        i = i + 1;
    }
    assert(bytes@.subrange(0, 8) =~= index_magic());
    let count = u32_from_le_bytes(slice_subrange(bytes, 8, 12));
    if (bytes.len() as u64) < 12 + 8 * (count as u64) {
        return Err(Error::Parse(String::from_str("Index file truncated")));
    }
    let mut ix: Vec<Option<u64>> = Vec::new();
    let n = bytes.len();
    let mut k: usize = 0;
    while k < count as usize
        invariant
            0 <= k <= count,
            n == bytes@.len(),
            count == declared_count(bytes@),
            index_readable(bytes@),
            ix@.len() == k,
            forall|j: int| 0 <= j < k ==> ix@[j] == slot_at(bytes@, j),
        decreases count - k,
    {
        assert(20 + 8 * k <= 12 + 8 * count) by (nonlinear_arith)
            requires
                k < count,
                12 + 8 * count <= n,
        ;
        let v = u64_from_le_bytes(slice_subrange(bytes, 12 + 8 * k, 20 + 8 * k));
        if v == 0 {
            ix.push(None);
        } else {
            ix.push(Some(v));
        }
        k = k + 1;
    }
    Ok(ix)
}

} // verus!
