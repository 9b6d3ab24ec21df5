//! The fixed-width binary format of table entries and index records.
//!
//! Every integer is written as eight little-endian bytes, a byte string as
//! its length followed by its bytes, and decoding refuses trailing bytes.
//! This keeps the size of an index record constant, so that the index file
//! can be searched by position.

use bincode::Options;
use vstd::prelude::*;

use crate::error::{Error, Result};

verus! {

#[verifier::external_type_specification]
#[verifier::external_body]
pub struct ExBincodeErrorKind(bincode::ErrorKind);

/// The size of one page of the cache and the unit of write-ahead log padding.
pub const PAGE_SIZE: usize = 4096;

/// The size in bytes of one encoded index record.
pub const INDEX_ENTRY_SIZE: u64 = 16;

/// The eight little-endian bytes of `n`.
pub open spec fn le_bytes(n: u64) -> Seq<u8> {
    seq![
        (n & 0xff) as u8,
        ((n >> 8u64) & 0xff) as u8,
        ((n >> 16u64) & 0xff) as u8,
        ((n >> 24u64) & 0xff) as u8,
        ((n >> 32u64) & 0xff) as u8,
        ((n >> 40u64) & 0xff) as u8,
        ((n >> 48u64) & 0xff) as u8,
        ((n >> 56u64) & 0xff) as u8,
    ]
}

/// A byte string preceded by its length.
pub open spec fn framed(b: Seq<u8>) -> Seq<u8> {
    le_bytes(b.len() as u64) + b
}

/// The encoding of an entry: its key, its value and its timestamp.
pub open spec fn entry_bytes(key: Seq<u8>, data: Seq<u8>, timestamp: i64) -> Seq<u8> {
    framed(key) + framed(data) + le_bytes(#[verifier::truncate] (timestamp as u64))
}

/// The encoding of an index record: where an entry starts in the data file,
/// and how many bytes it takes.
pub open spec fn offset_bytes(offset: u64, size: u64) -> Seq<u8> {
    le_bytes(offset) + le_bytes(size)
}

/// The number of bytes that `entry_bytes` produces.
pub open spec fn entry_size(key: Seq<u8>, data: Seq<u8>) -> int {
    24 + key.len() as int + data.len() as int
}

/// Different numbers have different encodings.
pub proof fn lemma_le_bytes_injective(a: u64, b: u64)
    requires
        le_bytes(a) == le_bytes(b),
    ensures
        a == b,
{
    assert(le_bytes(a)[0] == le_bytes(b)[0]);
    assert(le_bytes(a)[1] == le_bytes(b)[1]);
    assert(le_bytes(a)[2] == le_bytes(b)[2]);
    assert(le_bytes(a)[3] == le_bytes(b)[3]);
    assert(le_bytes(a)[4] == le_bytes(b)[4]);
    assert(le_bytes(a)[5] == le_bytes(b)[5]);
    assert(le_bytes(a)[6] == le_bytes(b)[6]);
    assert(le_bytes(a)[7] == le_bytes(b)[7]);
    assert(a == b) by (bit_vector)
        requires
            (a & 0xff) as u8 == (b & 0xff) as u8,
            ((a >> 8u64) & 0xff) as u8 == ((b >> 8u64) & 0xff) as u8,
            ((a >> 16u64) & 0xff) as u8 == ((b >> 16u64) & 0xff) as u8,
            ((a >> 24u64) & 0xff) as u8 == ((b >> 24u64) & 0xff) as u8,
            ((a >> 32u64) & 0xff) as u8 == ((b >> 32u64) & 0xff) as u8,
            ((a >> 40u64) & 0xff) as u8 == ((b >> 40u64) & 0xff) as u8,
            ((a >> 48u64) & 0xff) as u8 == ((b >> 48u64) & 0xff) as u8,
            ((a >> 56u64) & 0xff) as u8 == ((b >> 56u64) & 0xff) as u8,
    ;
}

/// An index record names one offset and one size.
pub proof fn lemma_offset_bytes_injective(o1: u64, s1: u64, o2: u64, s2: u64)
    requires
        offset_bytes(o1, s1) == offset_bytes(o2, s2),
    ensures
        o1 == o2,
        s1 == s2,
{
    let a = offset_bytes(o1, s1);
    let b = offset_bytes(o2, s2);
    assert(a.subrange(0, 8) =~= le_bytes(o1));
    assert(b.subrange(0, 8) =~= le_bytes(o2));
    assert(a.subrange(8, 16) =~= le_bytes(s1));
    assert(b.subrange(8, 16) =~= le_bytes(s2));
    lemma_le_bytes_injective(o1, o2);
    lemma_le_bytes_injective(s1, s2);
}

/// An encoding names one entry.
pub proof fn lemma_entry_bytes_injective(k1: Seq<u8>, d1: Seq<u8>, t1: i64, k2: Seq<u8>, d2: Seq<u8>, t2: i64)
    requires
        entry_bytes(k1, d1, t1) == entry_bytes(k2, d2, t2),
        k1.len() + d1.len() + 24 <= u64::MAX,
    ensures
        k1 == k2,
        d1 == d2,
        t1 == t2,
{
    let a = entry_bytes(k1, d1, t1);
    let b = entry_bytes(k2, d2, t2);
    assert(a.len() == k1.len() + d1.len() + 24);
    assert(b.len() == k2.len() + d2.len() + 24);
    assert(a.subrange(0, 8) =~= le_bytes(k1.len() as u64));
    assert(b.subrange(0, 8) =~= le_bytes(k2.len() as u64));
    lemma_le_bytes_injective(k1.len() as u64, k2.len() as u64);
    assert(k1.len() == k2.len());
    let n = k1.len() as int;
    assert(a.subrange(8, 8 + n) =~= k1);
    assert(b.subrange(8, 8 + n) =~= k2);
    assert(a.subrange(8 + n, 16 + n) =~= le_bytes(d1.len() as u64));
    assert(b.subrange(8 + n, 16 + n) =~= le_bytes(d2.len() as u64));
    lemma_le_bytes_injective(d1.len() as u64, d2.len() as u64);
    assert(d1.len() == d2.len());
    let m = d1.len() as int;
    assert(a.subrange(16 + n, 16 + n + m) =~= d1);
    assert(b.subrange(16 + n, 16 + n + m) =~= d2);
    let u1 = #[verifier::truncate] (t1 as u64);
    let u2 = #[verifier::truncate] (t2 as u64);
    assert(a.subrange(16 + n + m, 24 + n + m) =~= le_bytes(u1));
    assert(b.subrange(16 + n + m, 24 + n + m) =~= le_bytes(u2));
    lemma_le_bytes_injective(u1, u2);
    assert(t1 == t2) by (bit_vector)
        requires
            (#[verifier::truncate] (t1 as u64)) == (#[verifier::truncate] (t2 as u64)),
    ;
}

pub proof fn lemma_entry_bytes_len(key: Seq<u8>, data: Seq<u8>, timestamp: i64)
    ensures
        entry_bytes(key, data, timestamp).len() == entry_size(key, data),
{
}

pub proof fn lemma_offset_bytes_len(offset: u64, size: u64)
    ensures
        offset_bytes(offset, size).len() == INDEX_ENTRY_SIZE,
{
}

/// Relies on bincode's `Options::serialize` with fixed-width integers and
/// no size limit, which cannot fail on byte strings and integers: the
/// tuple is written as its three fields in order, each byte string as its
/// length in eight little-endian bytes and then its bytes.
#[verifier::external_body]
fn bincode_entry(key: &Vec<u8>, data: &Vec<u8>, timestamp: i64) -> (r: core::result::Result<
    Vec<u8>,
    Box<bincode::ErrorKind>,
>)
    ensures
        r is Ok,
        r matches Ok(b) ==> b@ == entry_bytes(key@, data@, timestamp),
{
    bincode::DefaultOptions::new().reject_trailing_bytes().with_fixint_encoding().serialize(
        &(key, data, timestamp),
    )
}

/// Encodes an entry.
pub fn encode_entry(key: &Vec<u8>, data: &Vec<u8>, timestamp: i64) -> (r: Result<Vec<u8>>)
    ensures
        r is Ok,
        r matches Ok(b) ==> b@ == entry_bytes(key@, data@, timestamp),
{
    match bincode_entry(key, data, timestamp) {
        Ok(b) => Ok(b),
        Err(_) => Err(Error::Serialization),
    }
}


/// The value stored under a key, with the time of the write.
#[derive(Debug, Clone, PartialEq, Eq)]
pub struct EntryValue {
    pub data: Vec<u8>,
    /// Nanoseconds since the Unix epoch.
    pub timestamp: i64,
}

/// A key with its value: the unit that tables and the log hold.
#[derive(Debug, Clone, PartialEq, Eq)]
pub struct Entry {
    pub key: Vec<u8>,
    pub value: EntryValue,
}

impl View for EntryValue {
    type V = (Seq<u8>, i64);

    open spec fn view(&self) -> (Seq<u8>, i64) {
        (self.data@, self.timestamp)
    }
}

/// The encoding of an entry value under a key.
pub open spec fn encoded(key: Seq<u8>, v: (Seq<u8>, i64)) -> Seq<u8> {
    entry_bytes(key, v.0, v.1)
}

/// Relies on `time::OffsetDateTime::now_utc`: the current wall-clock time in
/// nanoseconds since the Unix epoch. Nothing is known of the value.
#[verifier::external_body]
fn now_nanos() -> (r: i64) {
    time::OffsetDateTime::now_utc().unix_timestamp_nanos() as i64
}

impl EntryValue {
    /// A value stamped with the current time.
    pub fn new(data: Vec<u8>) -> (r: Self)
        ensures
            r.data@ == data@,
    {
        EntryValue { data, timestamp: now_nanos() }
    }
}

/// Relies on bincode's `Options::deserialize` with fixed-width integers and
/// trailing bytes refused: it succeeds exactly on the encodings of a
/// `(key, value, timestamp)` tuple, and gives back the tuple encoded.
#[verifier::external_body]
fn bincode_decode_entry(b: &[u8]) -> (r: core::result::Result<
    (Vec<u8>, Vec<u8>, i64),
    Box<bincode::ErrorKind>,
>)
    ensures
        r matches Ok(t) ==> b@ == entry_bytes(t.0@, t.1@, t.2),
        (exists|k: Seq<u8>, d: Seq<u8>, t: i64| b@ == #[trigger] entry_bytes(k, d, t)) ==> r is Ok,
{
    bincode::DefaultOptions::new().reject_trailing_bytes().with_fixint_encoding().deserialize(b)
}

/// Decodes an entry that fills `b` exactly.
pub fn decode_entry(b: &[u8]) -> (r: Result<Entry>)
    ensures
        r matches Ok(e) ==> b@ == encoded(e.key@, e.value@),
        r matches Err(e) ==> e == Error::Serialization,
        (exists|k: Seq<u8>, d: Seq<u8>, t: i64| b@ == #[trigger] entry_bytes(k, d, t)) ==> r is Ok,
{
    match bincode_decode_entry(b) {
        Ok((key, data, timestamp)) => Ok(Entry { key, value: EntryValue { data, timestamp } }),
        Err(_) => Err(Error::Serialization),
    }
}

/// Relies on bincode's `Options::deserialize_from` with fixed-width
/// integers, reading from a byte slice: on success the slice has been
/// advanced past one encoded tuple, whose bytes form a prefix of `b`, and
/// when `b` starts with the encoding of a tuple, that tuple is what comes
/// back. The second component is the number of bytes left unread.
#[verifier::external_body]
fn bincode_decode_entry_prefix(b: &[u8]) -> (r: core::result::Result<
    ((Vec<u8>, Vec<u8>, i64), usize),
    Box<bincode::ErrorKind>,
>)
    ensures
        r matches Ok(t) ==> t.1 <= b@.len() && b@.subrange(0, b@.len() - t.1) == entry_bytes(
            t.0.0@,
            t.0.1@,
            t.0.2,
        ),
        r is Err ==> forall|k: Seq<u8>, d: Seq<u8>, t: i64|
            !(#[trigger] entry_bytes(k, d, t).len() <= b@.len() && b@.subrange(0, entry_bytes(k, d, t).len() as int)
                == entry_bytes(k, d, t)),
        r matches Ok(x) ==> forall|k: Seq<u8>, d: Seq<u8>, t: i64|
            #[trigger] entry_bytes(k, d, t).len() <= b@.len() && b@.subrange(0, entry_bytes(k, d, t).len() as int)
                == entry_bytes(k, d, t) ==> x.0.0@ == k && x.0.1@ == d && x.0.2 == t,
{
    let mut rest = b;
    let t = bincode::DefaultOptions::new().reject_trailing_bytes().with_fixint_encoding()
        .deserialize_from(&mut rest)?;
    Ok((t, rest.len()))
}

/// Decodes the entry that starts `b`, and says how many bytes it took.
pub fn decode_entry_prefix(b: &[u8]) -> (r: Result<(Entry, usize)>)
    ensures
        r matches Ok(t) ==> t.1 <= b@.len() && b@.subrange(0, t.1 as int) == encoded(
            t.0.key@,
            t.0.value@,
        ),
        r matches Err(e) ==> e == Error::Serialization,
        forall|k: Seq<u8>, v: (Seq<u8>, i64)|
            #[trigger] encoded(k, v).len() <= b@.len() && b@.subrange(0, encoded(k, v).len() as int) == encoded(k, v)
                ==> (r matches Ok(x) && x.0.key@ == k && x.0.value@ == v),
{
    let r = bincode_decode_entry_prefix(b);
    assert forall|k: Seq<u8>, v: (Seq<u8>, i64)|
        #[trigger] encoded(k, v).len() <= b@.len() && b@.subrange(0, encoded(k, v).len() as int) == encoded(k, v)
            implies (r matches Ok(x) && x.0.0@ == k && x.0.1@ == v.0 && x.0.2 == v.1) by {
        assert(entry_bytes(k, v.0, v.1) == encoded(k, v));
    }
    match r {
        Ok(((key, data, timestamp), rest)) => {
            Ok((Entry { key, value: EntryValue { data, timestamp } }, b.len() - rest))
        },
        Err(_) => Err(Error::Serialization),
    }
}

/// Relies on bincode's `Options::serialize` with fixed-width integers and
/// no size limit, which cannot fail on integers: two `u64` values become sixteen little-endian bytes.
#[verifier::external_body]
fn bincode_offset(offset: u64, size: u64) -> (r: core::result::Result<
    Vec<u8>,
    Box<bincode::ErrorKind>,
>)
    ensures
        r is Ok,
        r matches Ok(b) ==> b@ == offset_bytes(offset, size),
{
    bincode::DefaultOptions::new().reject_trailing_bytes().with_fixint_encoding().serialize(
        &(offset, size),
    )
}

/// Encodes an index record.
pub fn encode_offset(offset: u64, size: u64) -> (r: Result<Vec<u8>>)
    ensures
        r is Ok,
        r matches Ok(b) ==> b@ == offset_bytes(offset, size),
{
    match bincode_offset(offset, size) {
        Ok(b) => Ok(b),
        Err(_) => Err(Error::Serialization),
    }
}

/// Relies on bincode's `Options::deserialize` with fixed-width integers and
/// trailing bytes refused: it succeeds exactly on sixteen bytes, and gives
/// back the two `u64` values they encode.
#[verifier::external_body]
fn bincode_decode_offset(b: &[u8]) -> (r: core::result::Result<
    (u64, u64),
    Box<bincode::ErrorKind>,
>)
    ensures
        r matches Ok(t) ==> b@ == offset_bytes(t.0, t.1),
        b@.len() == INDEX_ENTRY_SIZE ==> r is Ok,
{
    bincode::DefaultOptions::new().reject_trailing_bytes().with_fixint_encoding().deserialize(b)
}

/// Decodes an index record: the offset and size of one entry.
pub fn decode_offset(b: &[u8]) -> (r: Result<(u64, u64)>)
    ensures
        r matches Ok(t) ==> b@ == offset_bytes(t.0, t.1),
        r is Ok <==> b@.len() == INDEX_ENTRY_SIZE,
        r matches Err(e) ==> e == Error::Serialization,
{
    match bincode_decode_offset(b) {
        Ok(t) => {
            proof { lemma_offset_bytes_len(t.0, t.1); }
            Ok(t)
        },
        Err(_) => Err(Error::Serialization),
    }
}

} // verus!
