//! How sectors lie on disk: which worker owns a sector, under which name its
//! file stands, and what the file holds.

use crate::ascii::{ascii_chars, ascii_string};
use crate::domain::{empty_sector, zero_sector, SectorIdx, SectorVec, PAGE_SIZE};
use crate::endian::{be_value, lemma_be_value_u64, u64_be, u64_from_be_bytes, u64_to_be_bytes};
use vstd::prelude::*;
use vstd::slice::slice_subrange;

verus! {

/// Number of workers of a process, and of shards of its sectors.
pub const WORKERS_COUNT: u64 = 4;

/// Number of bytes before the data in the file of a sector: timestamp and
/// write rank.
pub const SECTOR_HEADER_SIZE: usize = 9;

/// The worker that owns the sector.
pub fn get_worker_id(idx: SectorIdx) -> (r: u64)
    ensures
        r == idx % WORKERS_COUNT,
        r < WORKERS_COUNT,
{
    idx % WORKERS_COUNT
}

/// The place of the sector among those of its worker.
pub fn get_sector_in_worker_id(idx: SectorIdx) -> (r: u64)
    ensures
        r == idx / WORKERS_COUNT,
{
    idx / WORKERS_COUNT
}

/// The decimal digits of `n`, in ASCII.
pub open spec fn decimal(n: nat) -> Seq<u8>
    decreases n,
{
    if n < 10 {
        seq![(48 + n) as u8]
    } else {
        decimal(n / 10).push((48 + n % 10) as u8)
    }
}

/// The number that decimal digits in ASCII stand for.
pub open spec fn decimal_value(digits: Seq<u8>) -> nat
    decreases digits.len(),
{
    if digits.len() == 0 {
        0
    } else {
        (decimal_value(digits.drop_last()) * 10 + (digits.last() - 48)) as nat
    }
}

/// Every byte is a decimal digit in ASCII.
pub open spec fn all_digits(digits: Seq<u8>) -> bool {
    forall|i: int| 0 <= i < digits.len() ==> 48 <= #[trigger] digits[i] <= 57
}

/// The decimal digits of a number are digits, at least one, and stand for
/// the number.
pub proof fn lemma_decimal(n: nat)
    ensures
        decimal(n).len() >= 1,
        all_digits(decimal(n)),
        decimal_value(decimal(n)) == n,
    decreases n,
{
    if n < 10 {
        let d = decimal(n);
        assert(d.drop_last().len() == 0);
        assert(decimal_value(d.drop_last()) == 0);
    } else {
        lemma_decimal(n / 10);
        let d = decimal(n);
        assert(d.drop_last() =~= decimal(n / 10));
    }
}

/// Writes the decimal digits of `n`.
pub fn decimal_digits(n: u64) -> (r: Vec<u8>)
    ensures
        r@ == decimal(n as nat),
    decreases n,
{
    if n < 10 {
        let mut r: Vec<u8> = Vec::new();
        r.push(48 + n as u8);
        assert(r@ =~= decimal(n as nat));
        r
    } else {
        let mut r = decimal_digits(n / 10);
        r.push(48 + (n % 10) as u8);
        r
    }
}

/// The name of the file of a sector: the worker that owns it, an underscore,
/// and its place among the sectors of that worker, both in decimal.
pub open spec fn sector_filename(idx: SectorIdx) -> Seq<u8> {
    decimal((idx % WORKERS_COUNT) as nat) + seq![95u8] + decimal((idx / WORKERS_COUNT) as nat)
}

/// The name of the file of a sector.
pub fn get_filename_from_idx(idx: SectorIdx) -> (r: String)
    ensures
        r@ == ascii_chars(sector_filename(idx)),
{
    let mut name = decimal_digits(get_worker_id(idx));
    name.push(95u8);
    let place = decimal_digits(get_sector_in_worker_id(idx));
    name.extend_from_slice(place.as_slice());
    proof {
        lemma_decimal((idx % WORKERS_COUNT) as nat);
        lemma_decimal((idx / WORKERS_COUNT) as nat);
        assert(name@ =~= sector_filename(idx));
    }
    ascii_string(name)
}

/// Where the first underscore stands in digits, an underscore and more
/// digits: behind the first digits.
proof fn lemma_underscore_place(a: Seq<u8>, b: Seq<u8>, c: Seq<u8>, d: Seq<u8>)
    requires
        all_digits(a),
        all_digits(c),
        a + seq![95u8] + b == c + seq![95u8] + d,
    ensures
        a == c,
        b == d,
{
    let l = a + seq![95u8] + b;
    let r = c + seq![95u8] + d;
    if a.len() < c.len() {
        assert(l[a.len() as int] == 95u8);
        assert(r[a.len() as int] == c[a.len() as int]);
    } else if c.len() < a.len() {
        assert(r[c.len() as int] == 95u8);
        assert(l[c.len() as int] == a[c.len() as int]);
    }
    assert(a =~= l.subrange(0, a.len() as int));
    assert(c =~= r.subrange(0, c.len() as int));
    assert(b =~= l.subrange(a.len() as int + 1, l.len() as int));
    assert(d =~= r.subrange(c.len() as int + 1, r.len() as int));
}

/// Different sectors lie in different files.
pub proof fn lemma_filename_injective(a: SectorIdx, b: SectorIdx)
    requires
        sector_filename(a) == sector_filename(b),
    ensures
        a == b,
{
    lemma_decimal((a % WORKERS_COUNT) as nat);
    lemma_decimal((a / WORKERS_COUNT) as nat);
    lemma_decimal((b % WORKERS_COUNT) as nat);
    lemma_decimal((b / WORKERS_COUNT) as nat);
    lemma_underscore_place(
        decimal((a % WORKERS_COUNT) as nat),
        decimal((a / WORKERS_COUNT) as nat),
        decimal((b % WORKERS_COUNT) as nat),
        decimal((b / WORKERS_COUNT) as nat),
    );
}

/// What the file of a sector holds: the timestamp in eight big-endian bytes,
/// the write rank, the data.
pub open spec fn sector_record(data: Seq<u8>, timestamp: u64, write_rank: u8) -> Seq<u8> {
    u64_be(timestamp) + seq![write_rank] + data
}

/// The timestamp and write rank in the file of a sector; `(0, 0)` where the
/// sector has no file.
pub open spec fn record_metadata(file: Option<Seq<u8>>) -> (u64, u8) {
    match file {
        Some(bytes) => (be_value(bytes.subrange(0, 8)) as u64, bytes[8]),
        None => (0, 0),
    }
}

/// The data in the file of a sector; zeros where the sector has no file.
pub open spec fn record_data(file: Option<Seq<u8>>) -> Seq<u8> {
    match file {
        Some(bytes) => bytes.skip(SECTOR_HEADER_SIZE as int),
        None => zero_sector(),
    }
}

/// The bytes to store for a sector with its timestamp and write rank.
pub fn encode_sector(sector: &(SectorVec, u64, u8)) -> (r: Vec<u8>)
    ensures
        r@ == sector_record(sector.0@, sector.1, sector.2),
{
    let mut r: Vec<u8> = Vec::new();
    r.extend_from_slice(u64_to_be_bytes(sector.1).as_slice());
    r.push(sector.2);
    r.extend_from_slice(sector.0.to_array());
    assert(r@ =~= sector_record(sector.0@, sector.1, sector.2));
    r
}

/// The timestamp and the write rank that the file of a sector holds, or
/// those of a sector that was never written where there is no file.
pub fn read_metadata(file: &Option<Vec<u8>>) -> (r: (u64, u8))
    requires
        file matches Some(bytes) ==> bytes@.len() >= SECTOR_HEADER_SIZE,
    ensures
        r == record_metadata(
            match file {
                Some(bytes) => Some(bytes@),
                None => None,
            },
        ),
{
    match file {
        Some(bytes) => (u64_from_be_bytes(bytes.as_slice(), 0), bytes[8]),
        None => (0, 0),
    }
}

/// The data that the file of a sector holds, or zeros where there is no
/// file.
pub fn read_data(file: &Option<Vec<u8>>) -> (r: SectorVec)
    requires
        file matches Some(bytes) ==> bytes@.len() >= SECTOR_HEADER_SIZE,
    ensures
        r@ == record_data(
            match file {
                Some(bytes) => Some(bytes@),
                None => None,
            },
        ),
{
    match file {
        Some(bytes) => {
            let mut data: Vec<u8> = Vec::new();
            data.extend_from_slice(slice_subrange(bytes.as_slice(), SECTOR_HEADER_SIZE, bytes.len()));
            assert(data@ =~= bytes@.skip(SECTOR_HEADER_SIZE as int));
            SectorVec(data)
        },
        None => empty_sector(),
    }
}

/// The file of a sector that was never written: what the first read of a
/// sector without a file may store for it.
pub fn blank_record() -> (r: Vec<u8>)
    ensures
        r@ == sector_record(zero_sector(), 0, 0),
        r@.len() == PAGE_SIZE + SECTOR_HEADER_SIZE,
{
    let blank = (empty_sector(), 0u64, 0u8);
    encode_sector(&blank)
}

/// What was stored for a sector is what is read from its file.
pub proof fn lemma_record_round_trip(data: Seq<u8>, timestamp: u64, write_rank: u8)
    ensures
        sector_record(data, timestamp, write_rank).len() == SECTOR_HEADER_SIZE + data.len(),
        record_metadata(Some(sector_record(data, timestamp, write_rank))) == (
            timestamp,
            write_rank,
        ),
        record_data(Some(sector_record(data, timestamp, write_rank))) == data,
{
    let file = sector_record(data, timestamp, write_rank);
    lemma_be_value_u64(timestamp);
    assert(file.subrange(0, 8) =~= u64_be(timestamp));
    assert(file.skip(SECTOR_HEADER_SIZE as int) =~= data);
}

/// A sector without a file reads as one that was never written, and so does
/// the file that may be stored for it at its first read.
pub proof fn lemma_blank_record()
    ensures
        record_metadata(None) == (0u64, 0u8),
        record_data(None) == zero_sector(),
        record_metadata(Some(sector_record(zero_sector(), 0, 0))) == (0u64, 0u8),
        record_data(Some(sector_record(zero_sector(), 0, 0))) == zero_sector(),
{
    lemma_record_round_trip(zero_sector(), 0, 0);
}

} // verus!
