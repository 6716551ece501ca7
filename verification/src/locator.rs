//! The unit locator table builder: one forward pass over the whole byte
//! stream that, for every unit, records where its header begins, where its
//! data begins, and how long its data is, then steps past the data padding
//! to the next unit.  The pass ends cleanly only at an end of stream seen
//! at a unit boundary; everything else is a stream-level error, surfaced
//! together with the records of the units already indexed.

use vstd::prelude::*;

use crate::errors::ErrorModel;
use crate::errors::ScanError;
use crate::header::HduType;
use crate::header::Header;
use crate::header::HeaderScan;
use crate::header::HeaderScanModel;
use crate::header::accumulate_header;
use crate::header::declared_len_model;
use crate::header::header_cards;
use crate::header::header_scan;
use crate::header::header_scan_rec;
use crate::header::unit_kind_model;
use crate::header::unit_name_model;

verus! {

/// Mathematical model of one unit record.
#[verifier::ext_equal]
pub struct RecordModel {
    pub header_block_offset: int,
    pub data_block_offset: int,
    pub data_byte_length: int,
    pub hdu_type: HduType,
    pub name: Option<Seq<u8>>,
}

/// One entry of the locator table: where a unit's header begins, where
/// its data begins, how many bytes the data declares, the unit's kind and
/// its optional name.  Created once during the pass and never mutated.
#[derive(Debug, Clone)]
pub struct UnitRecord {
    pub header_block_offset: usize,
    pub data_block_offset: usize,
    pub data_byte_length: u64,
    pub hdu_type: HduType,
    pub name: Option<Vec<u8>>,
}

impl View for UnitRecord {
    type V = RecordModel;

    open spec fn view(&self) -> RecordModel {
        RecordModel {
            header_block_offset: self.header_block_offset as int,
            data_block_offset: self.data_block_offset as int,
            data_byte_length: self.data_byte_length as int,
            hdu_type: self.hdu_type,
            name: match self.name {
                Some(v) => Some(v@),
                None => None,
            },
        }
    }
}

/// The ordered index of every unit in the stream, insertion order being
/// file order.  The terminal artifact of a scan.
#[derive(Debug)]
pub struct LocatorTable {
    pub units: Vec<UnitRecord>,
}

/// The models of a run of unit records.
pub open spec fn record_views(units: Seq<UnitRecord>) -> Seq<RecordModel> {
    units.map_values(|u: UnitRecord| u@)
}

impl View for LocatorTable {
    type V = Seq<RecordModel>;

    open spec fn view(&self) -> Seq<RecordModel> {
        record_views(self.units@)
    }
}

/// A failed scan: the error, together with the records of every unit
/// fully indexed before it.
#[derive(Debug)]
pub struct ScanFailure {
    pub error: ScanError,
    pub completed: LocatorTable,
}

/// `len` rounded up to a whole number of blocks.
pub open spec fn padded_len(len: int) -> int {
    ((len + 2879) / 2880) * 2880
}

/// Offset of the first incomplete block at or after `pos`: where the read
/// that cannot yield a full block starts.
pub open spec fn trunc_offset(data: Seq<u8>, pos: int) -> int {
    pos + 2880 * ((data.len() - pos) / 2880)
}

/// The record of the unit whose header begins at `pos` and spans
/// `nblocks` blocks holding `ncards` cards.
pub open spec fn record_model(data: Seq<u8>, pos: int, nblocks: int, ncards: int) -> RecordModel {
    let cards = header_cards(data, pos, ncards);
    RecordModel {
        header_block_offset: pos,
        data_block_offset: pos + 2880 * nblocks,
        data_byte_length: declared_len_model(cards),
        hdu_type: unit_kind_model(cards),
        name: unit_name_model(cards),
    }
}

/// Outcome of a scan: the records of every unit, or the first
/// stream-level error together with the records of the units before it.
pub enum ScanModel {
    Complete(Seq<RecordModel>),
    Failed(ErrorModel, Seq<RecordModel>),
}

/// A header occupies at least one block, and its blocks lie within the
/// data.
pub proof fn lemma_header_scan_found(data: Seq<u8>, h: int, k: int)
    requires
        header_scan_rec(data, h, k) is Found,
    ensures
        header_scan_rec(data, h, k) matches HeaderScanModel::Found { nblocks, ncards } && nblocks
            >= k + 1 && 36 * (nblocks - 1) < ncards <= 36 * nblocks && h + 2880 * nblocks
            <= data.len(),
    decreases data.len() - h - 2880 * k,
{
    let b = h + 2880 * k;
    if data.len() - b >= 2880 {
        match crate::header::find_end_cards(data, b, 0, 36) {
            Some(c) => {
                crate::header::lemma_find_end_cards_range(data, b, 0, 36);
            },
            None => {
                lemma_header_scan_found(data, h, k + 1);
            },
        }
    }
}

/// The declared data length of any header is never negative.
pub proof fn lemma_declared_len_nonneg(cards: Seq<crate::card::CardModel>)
    ensures
        declared_len_model(cards) >= 0,
{
    match crate::header::int_card_value(cards, crate::header::kw_naxis()) {
        Some(n) => {
            if 1 <= n <= 999 {
                lemma_dims_product_nonneg(cards, n);
                let e = crate::header::element_width(cards);
                let p = crate::header::dims_product(cards, n);
                assert(e >= 0);
                assert(e * p >= 0) by (nonlinear_arith)
                    requires
                        e >= 0,
                        p >= 0,
                ;
            }
        },
        None => {},
    }
}

proof fn lemma_dims_product_nonneg(cards: Seq<crate::card::CardModel>, n: int)
    ensures
        crate::header::dims_product(cards, n) >= 0,
    decreases n,
{
    if n > 0 {
        lemma_dims_product_nonneg(cards, n - 1);
        let a = crate::header::dims_product(cards, n - 1);
        let d = crate::header::dim_size(cards, n);
        assert(a * d >= 0) by (nonlinear_arith)
            requires
                a >= 0,
                d >= 0,
        ;
    }
}

/// A padded length is a whole number of blocks, at least as long as the
/// length it pads, and less than one block longer.
pub proof fn lemma_padded_len(len: int)
    requires
        len >= 0,
    ensures
        len <= padded_len(len) < len + 2880,
        padded_len(len) == 2880 * ((len + 2879) / 2880),
        padded_len(len) % 2880 == 0,
{
    vstd::arithmetic::div_mod::lemma_fundamental_div_mod(len + 2879, 2880);
    vstd::arithmetic::div_mod::lemma_mod_bound(len + 2879, 2880);
    let q = (len + 2879) / 2880;
    vstd::arithmetic::div_mod::lemma_fundamental_div_mod_converse(2880 * q, 2880, q, 0);
}

/// The whole scan, unit by unit, from offset `pos`: index one header,
/// step past its padded data region, and repeat until the end of the data
/// falls exactly at a unit boundary; a partial block anywhere, the data
/// ending inside a header or inside a declared data region, each end the
/// scan with the matching error, keeping the records already made.
pub open spec fn scan_from(data: Seq<u8>, pos: int) -> ScanModel
    decreases data.len() - pos,
    via scan_from_decreases
{
    if pos >= data.len() {
        ScanModel::Complete(Seq::empty())
    } else if data.len() - pos < 2880 {
        ScanModel::Failed(ErrorModel::Truncated { offset: pos }, Seq::empty())
    } else {
        match header_scan(data, pos) {
            HeaderScanModel::Unterminated => ScanModel::Failed(
                ErrorModel::Unterminated { offset: pos },
                Seq::empty(),
            ),
            HeaderScanModel::Truncated { offset } => ScanModel::Failed(
                ErrorModel::Truncated { offset },
                Seq::empty(),
            ),
            HeaderScanModel::Found { nblocks, ncards } => {
                let dlen = declared_len_model(header_cards(data, pos, ncards));
                let dpos = pos + 2880 * nblocks;
                let next = dpos + padded_len(dlen);
                if next > data.len() {
                    ScanModel::Failed(
                        ErrorModel::Truncated { offset: trunc_offset(data, dpos) },
                        Seq::empty(),
                    )
                } else {
                    let rec = record_model(data, pos, nblocks, ncards);
                    match scan_from(data, next) {
                        ScanModel::Complete(rs) => ScanModel::Complete(seq![rec] + rs),
                        ScanModel::Failed(e, rs) => ScanModel::Failed(e, seq![rec] + rs),
                    }
                }
            },
        }
    }
}

#[via_fn]
proof fn scan_from_decreases(data: Seq<u8>, pos: int) {
    if pos < data.len() && data.len() - pos >= 2880 {
        match header_scan(data, pos) {
            HeaderScanModel::Found { nblocks, ncards } => {
                lemma_header_scan_found(data, pos, 0);
                lemma_declared_len_nonneg(header_cards(data, pos, ncards));
                lemma_padded_len(declared_len_model(header_cards(data, pos, ncards)));
            },
            _ => {},
        }
    }
}

/// Records already made, carried in front of the rest of a scan.
pub open spec fn with_prefix(p: Seq<RecordModel>, m: ScanModel) -> ScanModel {
    match m {
        ScanModel::Complete(rs) => ScanModel::Complete(p + rs),
        ScanModel::Failed(e, rs) => ScanModel::Failed(e, p + rs),
    }
}

proof fn lemma_with_prefix_assoc(a: Seq<RecordModel>, b: Seq<RecordModel>, m: ScanModel)
    ensures
        with_prefix(a, with_prefix(b, m)) == with_prefix(a + b, m),
{
    match m {
        ScanModel::Complete(rs) => {
            assert(a + (b + rs) =~= (a + b) + rs);
        },
        ScanModel::Failed(e, rs) => {
            assert(a + (b + rs) =~= (a + b) + rs);
        },
    }
}

/// Scans a whole stream into its locator table: one record per unit in
/// file order, or the first stream-level error together with the records
/// of every unit indexed before it.
pub fn scan(data: &[u8]) -> (r: Result<LocatorTable, ScanFailure>)
    ensures
        match r {
            Ok(table) => scan_from(data@, 0) == ScanModel::Complete(table@),
            Err(f) => scan_from(data@, 0) matches ScanModel::Failed(e, rs) && e == f.error@ && rs
                == f.completed@,
        },
{
    let n = data.len();
    let mut units: Vec<UnitRecord> = Vec::new();
    let mut pos: usize = 0;
    proof {
        assert(record_views(units@) =~= Seq::<RecordModel>::empty());
        assert(with_prefix(record_views(units@), scan_from(data@, 0)) == scan_from(data@, 0)) by {
            match scan_from(data@, 0) {
                ScanModel::Complete(rs) => {
                    assert(record_views(units@) + rs =~= rs);
                },
                ScanModel::Failed(e, rs) => {
                    assert(record_views(units@) + rs =~= rs);
                },
            }
        }
    }
    while true
        invariant
            0 <= pos <= n == data@.len(),
            n <= usize::MAX,
            with_prefix(record_views(units@), scan_from(data@, pos as int)) == scan_from(data@, 0),
        decreases n - pos,
    {
        let ghost tv = record_views(units@);
        if pos == n {
            proof {
                assert(scan_from(data@, pos as int) == ScanModel::Complete(
                    Seq::<RecordModel>::empty(),
                ));
                assert(tv + Seq::<RecordModel>::empty() =~= tv);
            }
            return Ok(LocatorTable { units });
        }
        if n - pos < 2880 {
            let failure = ScanFailure {
                error: ScanError::TruncatedStream { offset: pos },
                completed: LocatorTable { units },
            };
            return Err(failure);
        }
        match accumulate_header(data, pos) {
            HeaderScan::Unterminated => {
                let failure = ScanFailure {
                    error: ScanError::UnterminatedHeader { offset: pos },
                    completed: LocatorTable { units },
                };
                return Err(failure);
            },
            HeaderScan::Truncated { offset } => {
                let failure = ScanFailure {
                    error: ScanError::TruncatedStream { offset },
                    completed: LocatorTable { units },
                };
                return Err(failure);
            },
            HeaderScan::Found { nblocks, header } => {
                let ghost ncards = header@.len() as int;
                proof {
                    lemma_header_scan_found(data@, pos as int, 0);
                }
                let dpos = pos + 2880 * nblocks;
                let avail = (n - dpos) / 2880;
                let ghost dlen_model = declared_len_model(
                    header_cards(data@, pos as int, ncards),
                );
                proof {
                    lemma_declared_len_nonneg(header_cards(data@, pos as int, ncards));
                    lemma_padded_len(dlen_model);
                    vstd::arithmetic::div_mod::lemma_fundamental_div_mod(
                        n as int - dpos,
                        2880,
                    );
                    vstd::arithmetic::div_mod::lemma_mod_bound(n as int - dpos, 2880);
                }
                let nb_data: u64;
                match header.declared_data_len() {
                    None => {
                        proof {
                            assert(dpos + padded_len(dlen_model) > n);
                        }
                        let failure = ScanFailure {
                            error: ScanError::TruncatedStream { offset: dpos + 2880 * avail },
                            completed: LocatorTable { units },
                        };
                        return Err(failure);
                    },
                    Some(dlen) => {
                        let q = dlen / 2880;
                        let rm = dlen % 2880;
                        nb_data = if rm != 0 {
                            q + 1
                        } else {
                            q
                        };
                        proof {
                            vstd::arithmetic::div_mod::lemma_fundamental_div_mod(
                                dlen as int,
                                2880,
                            );
                            vstd::arithmetic::div_mod::lemma_mod_bound(dlen as int, 2880);
                            if rm != 0 {
                                vstd::arithmetic::div_mod::lemma_fundamental_div_mod_converse(
                                    dlen as int + 2879,
                                    2880,
                                    q as int + 1,
                                    rm as int - 1,
                                );
                            } else {
                                vstd::arithmetic::div_mod::lemma_fundamental_div_mod_converse(
                                    dlen as int + 2879,
                                    2880,
                                    q as int,
                                    2879,
                                );
                            }
                            assert(padded_len(dlen_model) == 2880 * nb_data);
                        }
                        if nb_data > avail as u64 {
                            proof {
                                assert(dpos + padded_len(dlen_model) > n);
                            }
                            let failure = ScanFailure {
                                error: ScanError::TruncatedStream { offset: dpos + 2880 * avail },
                                completed: LocatorTable { units },
                            };
                            return Err(failure);
                        }
                        let skip = 2880 * (nb_data as usize);
                        let kind = header.unit_kind();
                        let name = header.unit_name();
                        let rec = UnitRecord {
                            header_block_offset: pos,
                            data_block_offset: dpos,
                            data_byte_length: dlen,
                            hdu_type: kind,
                            name,
                        };
                        let ghost recm = record_model(data@, pos as int, nblocks as int, ncards);
                        proof {
                            assert(rec@ =~= recm);
                        }
                        let ghost prev = units@;
                        units.push(rec);
                        let next = dpos + skip;
                        proof {
                            assert(scan_from(data@, pos as int) == with_prefix(
                                seq![recm],
                                scan_from(data@, next as int),
                            )) by {
                                match scan_from(data@, next as int) {
                                    ScanModel::Complete(rs) => {},
                                    ScanModel::Failed(e, rs) => {},
                                }
                            }
                            lemma_with_prefix_assoc(tv, seq![recm], scan_from(data@, next as int));
                            assert(record_views(units@) =~= tv + seq![recm]);
                        }
                        pos = next;
                    },
                }
            },
        }
    }
    proof {
        assert(false);
    }
    Err(
        ScanFailure {
            error: ScanError::TruncatedStream { offset: 0 },
            completed: LocatorTable { units: Vec::new() },
        },
    )
}

proof fn lemma_header_rec_terminates(data: Seq<u8>, h: int, k: int)
    requires
        0 <= data.len() - h - 2880 * k,
        (data.len() - h) % 2880 != 0,
    ensures
        !(header_scan_rec(data, h, k) is Unterminated),
    decreases data.len() - h - 2880 * k,
{
    let b = h + 2880 * k;
    if data.len() - b <= 0 {
        vstd::arithmetic::div_mod::lemma_fundamental_div_mod_converse(data.len() - h, 2880, k, 0);
        assert(false);
    } else if data.len() - b < 2880 {
    } else {
        match crate::header::find_end_cards(data, b, 0, 36) {
            Some(_) => {},
            None => {
                lemma_header_rec_terminates(data, h, k + 1);
            },
        }
    }
}

proof fn lemma_scan_partial_rec(data: Seq<u8>, pos: int)
    requires
        0 <= pos <= data.len(),
        pos % 2880 == 0,
        data.len() % 2880 != 0,
    ensures
        scan_from(data, pos) matches ScanModel::Failed(e, _) && e is Truncated,
    decreases data.len() - pos,
{
    vstd::arithmetic::div_mod::lemma_fundamental_div_mod(pos, 2880);
    let pq = pos / 2880;
    if pos >= data.len() {
        vstd::arithmetic::div_mod::lemma_fundamental_div_mod_converse(
            data.len() as int,
            2880,
            pq,
            0,
        );
        assert(false);
    } else if data.len() - pos < 2880 {
    } else {
        vstd::arithmetic::div_mod::lemma_fundamental_div_mod(data.len() - pos, 2880);
        vstd::arithmetic::div_mod::lemma_mod_bound(data.len() - pos, 2880);
        let q = (data.len() - pos) / 2880;
        let r = (data.len() - pos) % 2880;
        if r == 0 {
            vstd::arithmetic::div_mod::lemma_fundamental_div_mod_converse(
                data.len() as int,
                2880,
                q + pq,
                0,
            );
            assert(false);
        }
        lemma_header_rec_terminates(data, pos, 0);
        match header_scan(data, pos) {
            HeaderScanModel::Unterminated => {
                assert(false);
            },
            HeaderScanModel::Truncated { offset } => {},
            HeaderScanModel::Found { nblocks, ncards } => {
                let cards = header_cards(data, pos, ncards);
                let dlen = declared_len_model(cards);
                let dpos = pos + 2880 * nblocks;
                let next = dpos + padded_len(dlen);
                lemma_header_scan_found(data, pos, 0);
                lemma_declared_len_nonneg(cards);
                lemma_padded_len(dlen);
                if next <= data.len() {
                    let pdq = (dlen + 2879) / 2880;
                    vstd::arithmetic::div_mod::lemma_fundamental_div_mod_converse(
                        next,
                        2880,
                        pq + nblocks + pdq,
                        0,
                    );
                    lemma_scan_partial_rec(data, next);
                }
            },
        }
    }
}

/// Law: a stream ending with a partial final block — a byte count
/// strictly between zero and the block size past the last whole block —
/// always fails with the truncated-stream error; the records of units
/// fully indexed before it are still carried alongside the error.
pub proof fn lemma_partial_tail_truncates(data: Seq<u8>)
    requires
        data.len() % 2880 != 0,
    ensures
        scan_from(data, 0) matches ScanModel::Failed(e, _) && e is Truncated,
{
    lemma_scan_partial_rec(data, 0);
}

/// Reads back the full header of one indexed unit, for random access
/// through its record.
pub fn read_header(data: &[u8], record: &UnitRecord) -> (r: Result<Header, ScanError>)
    requires
        record.header_block_offset <= data@.len(),
    ensures
        match r {
            Ok(header) => header_scan(data@, record.header_block_offset as int)
                matches HeaderScanModel::Found { nblocks, ncards } && ncards == header@.len()
                && header@ == header_cards(data@, record.header_block_offset as int, ncards),
            Err(e) => match e {
                ScanError::TruncatedStream { offset } => header_scan(
                    data@,
                    record.header_block_offset as int,
                ) matches HeaderScanModel::Truncated { offset: o } && o == offset as int,
                ScanError::UnterminatedHeader { offset } => header_scan(
                    data@,
                    record.header_block_offset as int,
                ) is Unterminated && offset == record.header_block_offset,
            },
        },
{
    match accumulate_header(data, record.header_block_offset) {
        HeaderScan::Found { nblocks: _, header } => Ok(header),
        HeaderScan::Unterminated => Err(
            ScanError::UnterminatedHeader { offset: record.header_block_offset },
        ),
        HeaderScan::Truncated { offset } => Err(ScanError::TruncatedStream { offset }),
    }
}

} // verus!
