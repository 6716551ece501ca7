//! The header accumulator: consumes cards from consecutive blocks until
//! the terminator card is seen, producing the ordered card sequence of one
//! unit, and derives from it the unit's kind, its declared data length and
//! its optional name.
//!
//! A block holds thirty-six cards.  The terminator may fall anywhere in a
//! block; the rest of that block is padding, not further cards.  A header
//! may span any number of blocks.

use vstd::prelude::*;

use crate::card::CardModel;
use crate::card::HeaderCard;
use crate::card::card_model;
use crate::text::bytes_eq;
use crate::text::trim;
use crate::text::trim_bytes;
use crate::value::HeaderValueType;
use crate::value::ValueModel;

verus! {

/// Size of one block in bytes: thirty-six cards.
pub const BLOCK_SIZE: usize = 2880;

/// Number of cards in one block.
pub const CARDS_PER_BLOCK: usize = 36;

/// Greatest dimension count the format admits.
pub const MAX_DIMS: u64 = 999;

/// The terminator keyword `END`.
pub open spec fn kw_end() -> Seq<u8> {
    seq![69u8, 78u8, 68u8]
}

/// The primary-unit marker keyword `SIMPLE`.
pub open spec fn kw_simple() -> Seq<u8> {
    seq![83u8, 73u8, 77u8, 80u8, 76u8, 69u8]
}

/// The extension marker keyword `XTENSION`.
pub open spec fn kw_xtension() -> Seq<u8> {
    seq![88u8, 84u8, 69u8, 78u8, 83u8, 73u8, 79u8, 78u8]
}

/// The element-width keyword `BITPIX`, in bits.
pub open spec fn kw_bitpix() -> Seq<u8> {
    seq![66u8, 73u8, 84u8, 80u8, 73u8, 88u8]
}

/// The dimensionality-count keyword `NAXIS`.
pub open spec fn kw_naxis() -> Seq<u8> {
    seq![78u8, 65u8, 88u8, 73u8, 83u8]
}

/// The name-bearing keyword `EXTNAME`.
pub open spec fn kw_extname() -> Seq<u8> {
    seq![69u8, 88u8, 84u8, 78u8, 65u8, 77u8, 69u8]
}

/// The binary-table subtype value `BINTABLE`.
pub open spec fn val_bintable() -> Seq<u8> {
    seq![66u8, 73u8, 78u8, 84u8, 65u8, 66u8, 76u8, 69u8]
}

/// The ASCII-table subtype value `TABLE`.
pub open spec fn val_asciitable() -> Seq<u8> {
    seq![84u8, 65u8, 66u8, 76u8, 69u8]
}

/// The image subtype value `IMAGE`.
pub open spec fn val_image() -> Seq<u8> {
    seq![73u8, 77u8, 65u8, 71u8, 69u8]
}

/// The decode of the card at byte offset `off`; meaningful when a full
/// card lies within the data.
pub open spec fn card_at(data: Seq<u8>, off: int) -> CardModel
    recommends
        0 <= off,
        off + 80 <= data.len(),
{
    match card_model(data.subrange(off, off + 80)) {
        Some(c) => c,
        None => CardModel { keyword: Seq::empty(), value: ValueModel::Undefined, comment: None },
    }
}

/// Index of the first terminator card among cards `c` to `total` of the
/// card run that begins at `base`.
pub open spec fn find_end_cards(data: Seq<u8>, base: int, c: int, total: int) -> Option<int>
    decreases total - c,
{
    if c < 0 || c >= total {
        None
    } else if card_at(data, base + 80 * c).keyword == kw_end() {
        Some(c)
    } else {
        find_end_cards(data, base, c + 1, total)
    }
}

/// A found terminator index lies in the searched range.
pub proof fn lemma_find_end_cards_range(data: Seq<u8>, base: int, c: int, total: int)
    requires
        find_end_cards(data, base, c, total) is Some,
    ensures
        find_end_cards(data, base, c, total) matches Some(e) && c <= e < total,
    decreases total - c,
{
    if !(c < 0 || c >= total) {
        if card_at(data, base + 80 * c).keyword == kw_end() {
        } else {
            lemma_find_end_cards_range(data, base, c + 1, total);
        }
    }
}

/// Outcome of accumulating one header from consecutive blocks.
pub enum HeaderScanModel {
    /// The terminator was found: the header occupies `nblocks` full blocks
    /// and consists of the first `ncards` cards, terminator included.
    Found { nblocks: int, ncards: int },
    /// The stream ended cleanly at a block boundary while the accumulator
    /// still wanted cards.
    Unterminated,
    /// A partial block — more than zero but fewer than a full block of
    /// bytes — begins at `offset`.
    Truncated { offset: int },
}

/// Accumulation of the header that begins at offset `h`, with `k` blocks
/// already consumed: request block after block until a terminator card,
/// the end of the data, or a partial block.
pub open spec fn header_scan_rec(data: Seq<u8>, h: int, k: int) -> HeaderScanModel
    decreases data.len() - h - 2880 * k,
{
    let b = h + 2880 * k;
    if data.len() - b <= 0 {
        HeaderScanModel::Unterminated
    } else if data.len() - b < 2880 {
        HeaderScanModel::Truncated { offset: b }
    } else {
        match find_end_cards(data, b, 0, 36) {
            Some(c) => HeaderScanModel::Found { nblocks: k + 1, ncards: 36 * k + c + 1 },
            None => header_scan_rec(data, h, k + 1),
        }
    }
}

/// Accumulation of the header that begins at offset `h`.
pub open spec fn header_scan(data: Seq<u8>, h: int) -> HeaderScanModel {
    header_scan_rec(data, h, 0)
}

/// The first `ncards` cards of the card run that begins at `h`.
pub open spec fn header_cards(data: Seq<u8>, h: int, ncards: int) -> Seq<CardModel> {
    Seq::new(ncards as nat, |j: int| card_at(data, h + 80 * j))
}

/// The models of a run of decoded cards.
pub open spec fn card_views(cards: Seq<HeaderCard>) -> Seq<CardModel> {
    cards.map_values(|c: HeaderCard| c@)
}

/// The last card bearing `kw`: later duplicate keywords override earlier
/// ones.
pub open spec fn find_last_card(cards: Seq<CardModel>, kw: Seq<u8>) -> Option<CardModel>
    decreases cards.len(),
{
    if cards.len() == 0 {
        None
    } else if cards.last().keyword == kw {
        Some(cards.last())
    } else {
        find_last_card(cards.drop_last(), kw)
    }
}

/// The integer value of the last card bearing `kw`, when that card's
/// value is an integer.
pub open spec fn int_card_value(cards: Seq<CardModel>, kw: Seq<u8>) -> Option<int> {
    match find_last_card(cards, kw) {
        Some(c) => match c.value {
            ValueModel::Integer(n) => Some(n),
            _ => None,
        },
        None => None,
    }
}

/// The decimal digits of `i`, for dimension numbers up to 999.
pub open spec fn decimal_digits(i: int) -> Seq<u8> {
    if i < 10 {
        seq![(48 + i) as u8]
    } else if i < 100 {
        seq![(48 + i / 10) as u8, (48 + i % 10) as u8]
    } else {
        seq![(48 + i / 100) as u8, (48 + (i / 10) % 10) as u8, (48 + i % 10) as u8]
    }
}

/// The keyword naming the size of dimension `i`: `NAXIS` then the digits
/// of `i`.
pub open spec fn dim_keyword(i: int) -> Seq<u8> {
    kw_naxis() + decimal_digits(i)
}

/// The size of dimension `i`, taken as zero when absent, negative or not
/// an integer.
pub open spec fn dim_size(cards: Seq<CardModel>, i: int) -> int {
    match int_card_value(cards, dim_keyword(i)) {
        Some(v) => if v >= 0 {
            v
        } else {
            0
        },
        None => 0,
    }
}

/// The product of the sizes of dimensions 1 to `n`.
pub open spec fn dims_product(cards: Seq<CardModel>, n: int) -> int
    decreases n,
{
    if n <= 0 {
        1
    } else {
        dims_product(cards, n - 1) * dim_size(cards, n)
    }
}

/// The element byte width: the magnitude of the bit-width card's value,
/// in bytes; zero when absent or not an integer.
pub open spec fn element_width(cards: Seq<CardModel>) -> int {
    match int_card_value(cards, kw_bitpix()) {
        Some(b) => (if b >= 0 {
            b
        } else {
            -b
        }) / 8,
        None => 0,
    }
}

/// The data length a header declares: the product of its dimension sizes
/// times the element byte width, zero when the dimensionality is zero,
/// absent, or out of the format's range.
pub open spec fn declared_len_model(cards: Seq<CardModel>) -> int {
    match int_card_value(cards, kw_naxis()) {
        Some(n) => if 1 <= n <= 999 {
            element_width(cards) * dims_product(cards, n)
        } else {
            0
        },
        None => 0,
    }
}

/// The kind of one unit.
#[derive(Clone, Copy, Debug, PartialEq, Eq, Structural)]
pub enum HduType {
    /// A primary unit or an image extension.
    Image,
    /// A binary-table extension.
    BinTable,
    /// An ASCII-table extension.
    AsciiTable,
    /// A unit whose first keyword or declared subtype is not recognized;
    /// such a unit is still indexed.
    Unknown,
}

/// The kind an extension marker card declares through its subtype value.
pub open spec fn extension_kind(v: ValueModel) -> HduType {
    match v {
        ValueModel::Text(t) => if trim(t) == val_bintable() {
            HduType::BinTable
        } else if trim(t) == val_asciitable() {
            HduType::AsciiTable
        } else if trim(t) == val_image() {
            HduType::Image
        } else {
            HduType::Unknown
        },
        _ => HduType::Unknown,
    }
}

/// The kind of the unit a header describes, from its first keyword: the
/// primary marker, the extension marker with its declared subtype, or
/// Unknown — never a failure.
pub open spec fn unit_kind_model(cards: Seq<CardModel>) -> HduType {
    if cards.len() == 0 {
        HduType::Unknown
    } else if cards[0].keyword == kw_simple() {
        HduType::Image
    } else if cards[0].keyword == kw_xtension() {
        extension_kind(cards[0].value)
    } else {
        HduType::Unknown
    }
}

/// The unit's name: the trimmed text value of the last name-bearing card.
pub open spec fn unit_name_model(cards: Seq<CardModel>) -> Option<Seq<u8>> {
    match find_last_card(cards, kw_extname()) {
        Some(c) => match c.value {
            ValueModel::Text(t) => Some(trim(t)),
            _ => None,
        },
        None => None,
    }
}

/// A complete decoded header: the ordered cards of one unit, up to and
/// including the terminator card when one was present.
#[derive(Debug)]
pub struct Header {
    pub cards: Vec<HeaderCard>,
}

impl View for Header {
    type V = Seq<CardModel>;

    open spec fn view(&self) -> Seq<CardModel> {
        card_views(self.cards@)
    }
}

/// Whether `kw` is the terminator keyword.
fn is_end_keyword(kw: &Vec<u8>) -> (r: bool)
    ensures
        r == (kw@ == kw_end()),
{
    let r = kw.len() == 3 && kw[0] == 69 && kw[1] == 78 && kw[2] == 68;
    proof {
        if r {
            assert(kw@ =~= kw_end());
        }
        if kw@ == kw_end() {
            assert(kw@.len() == 3 && kw@[0] == 69 && kw@[1] == 78 && kw@[2] == 68);
        }
    }
    r
}

/// How many cards of one chunk belong to the header: every full card up
/// to and including the first terminator, or every full card when no
/// terminator occurs.
pub open spec fn chunk_ncards(chunk: Seq<u8>) -> int {
    let total = chunk.len() as int / 80;
    match find_end_cards(chunk, 0, 0, total) {
        Some(c) => c + 1,
        None => total,
    }
}

impl Header {
    /// Collects the cards of one chunk, stopping after the terminator
    /// card; a trailing fragment shorter than one card is ignored.
    pub fn from_chunk(chunk: &[u8]) -> (h: Header)
        ensures
            h@ == header_cards(chunk@, 0, chunk_ncards(chunk@)),
    {
        let total = chunk.len() / 80;
        let mut cards: Vec<HeaderCard> = Vec::new();
        let mut c: usize = 0;
        proof {
            assert(card_views(cards@) =~= header_cards(chunk@, 0, 0));
        }
        while c < total
            invariant
                0 <= c <= total == chunk@.len() / 80,
                chunk@.len() <= usize::MAX,
                card_views(cards@) == header_cards(chunk@, 0, c as int),
                cards@.len() == c,
                find_end_cards(chunk@, 0, 0, total as int) == find_end_cards(
                    chunk@,
                    0,
                    c as int,
                    total as int,
                ),
            decreases total - c,
        {
            proof {
                vstd::arithmetic::div_mod::lemma_fundamental_div_mod(chunk@.len() as int, 80);
                vstd::arithmetic::div_mod::lemma_mod_bound(chunk@.len() as int, 80);
                assert(80 * (total as int) <= chunk@.len());
            }
            let off = 80 * c;
            let slice = vstd::slice::slice_subrange(chunk, off, off + 80);
            let card = match HeaderCard::from_raw(slice) {
                Some(card) => card,
                None => {
                    proof {
                        assert(false);
                    }
                    HeaderCard { keyword: Vec::new(), value: HeaderValueType::Undefined, comment: None }
                },
            };
            proof {
                assert(card_at(chunk@, 0 + 80 * (c as int)) == card@);
            }
            let done = is_end_keyword(&card.keyword);
            let ghost prev = cards@;
            cards.push(card);
            proof {
                assert forall|j: int| 0 <= j < cards@.len() implies card_views(cards@)[j]
                    == header_cards(chunk@, 0, c as int + 1)[j] by {
                    assert(card_views(cards@)[j] == cards@[j]@);
                    if j < prev.len() {
                        assert(cards@[j] == prev[j]);
                        assert(card_views(prev)[j] == prev[j]@);
                        assert(card_views(prev)[j] == header_cards(chunk@, 0, c as int)[j]);
                    } else {
                        assert(cards@[j] == card);
                    }
                }
                assert(card_views(cards@) =~= header_cards(chunk@, 0, c as int + 1));
            }
            if done {
                proof {
                    assert(find_end_cards(chunk@, 0, c as int, total as int) == Some(c as int));
                }
                return Header { cards };
            }
            c += 1;
        }
        proof {
            assert(find_end_cards(chunk@, 0, total as int, total as int).is_none());
        }
        Header { cards }
    }
}

fn kw_simple_bytes() -> (v: Vec<u8>)
    ensures
        v@ == kw_simple(),
{
    let mut v: Vec<u8> = Vec::new();
    v.push(83);
    v.push(73);
    v.push(77);
    v.push(80);
    v.push(76);
    v.push(69);
    proof {
        assert(v@ =~= kw_simple());
    }
    v
}

fn kw_xtension_bytes() -> (v: Vec<u8>)
    ensures
        v@ == kw_xtension(),
{
    let mut v: Vec<u8> = Vec::new();
    v.push(88);
    v.push(84);
    v.push(69);
    v.push(78);
    v.push(83);
    v.push(73);
    v.push(79);
    v.push(78);
    proof {
        assert(v@ =~= kw_xtension());
    }
    v
}

fn kw_bitpix_bytes() -> (v: Vec<u8>)
    ensures
        v@ == kw_bitpix(),
{
    let mut v: Vec<u8> = Vec::new();
    v.push(66);
    v.push(73);
    v.push(84);
    v.push(80);
    v.push(73);
    v.push(88);
    proof {
        assert(v@ =~= kw_bitpix());
    }
    v
}

fn kw_naxis_bytes() -> (v: Vec<u8>)
    ensures
        v@ == kw_naxis(),
{
    let mut v: Vec<u8> = Vec::new();
    v.push(78);
    v.push(65);
    v.push(88);
    v.push(73);
    v.push(83);
    proof {
        assert(v@ =~= kw_naxis());
    }
    v
}

fn kw_extname_bytes() -> (v: Vec<u8>)
    ensures
        v@ == kw_extname(),
{
    let mut v: Vec<u8> = Vec::new();
    v.push(69);
    v.push(88);
    v.push(84);
    v.push(78);
    v.push(65);
    v.push(77);
    v.push(69);
    proof {
        assert(v@ =~= kw_extname());
    }
    v
}

fn val_bintable_bytes() -> (v: Vec<u8>)
    ensures
        v@ == val_bintable(),
{
    let mut v: Vec<u8> = Vec::new();
    v.push(66);
    v.push(73);
    v.push(78);
    v.push(84);
    v.push(65);
    v.push(66);
    v.push(76);
    v.push(69);
    proof {
        assert(v@ =~= val_bintable());
    }
    v
}

fn val_asciitable_bytes() -> (v: Vec<u8>)
    ensures
        v@ == val_asciitable(),
{
    let mut v: Vec<u8> = Vec::new();
    v.push(84);
    v.push(65);
    v.push(66);
    v.push(76);
    v.push(69);
    proof {
        assert(v@ =~= val_asciitable());
    }
    v
}

fn val_image_bytes() -> (v: Vec<u8>)
    ensures
        v@ == val_image(),
{
    let mut v: Vec<u8> = Vec::new();
    v.push(73);
    v.push(77);
    v.push(65);
    v.push(71);
    v.push(69);
    proof {
        assert(v@ =~= val_image());
    }
    v
}

/// The keyword naming the size of dimension `i`, as bytes.
fn dim_keyword_bytes(i: u64) -> (v: Vec<u8>)
    requires
        1 <= i <= 999,
    ensures
        v@ == dim_keyword(i as int),
{
    let mut v = kw_naxis_bytes();
    if i < 10 {
        v.push(48 + i as u8);
    } else if i < 100 {
        v.push(48 + (i / 10) as u8);
        v.push(48 + (i % 10) as u8);
    } else {
        v.push(48 + (i / 100) as u8);
        v.push(48 + ((i / 10) % 10) as u8);
        v.push(48 + (i % 10) as u8);
    }
    proof {
        assert(v@ =~= dim_keyword(i as int));
    }
    v
}

/// The integer value of the last card bearing `kw`, if that card's value
/// is an integer.
pub fn lookup_int(cards: &Vec<HeaderCard>, kw: &[u8]) -> (r: Option<i64>)
    ensures
        int_card_value(card_views(cards@), kw@) == match r {
            Some(v) => Some(v as int),
            None => None::<int>,
        },
{
    let ghost views = card_views(cards@);
    let mut i: usize = cards.len();
    proof {
        assert(views.take(i as int) =~= views);
    }
    while i > 0
        invariant
            0 <= i <= cards@.len(),
            views == card_views(cards@),
            views.len() == cards@.len(),
            find_last_card(views, kw@) == find_last_card(views.take(i as int), kw@),
        decreases i,
    {
        i -= 1;
        proof {
            assert(views[i as int] == cards@[i as int]@);
            assert(views.take(i as int + 1).drop_last() =~= views.take(i as int));
            assert(views.take(i as int + 1).last() == views[i as int]);
        }
        if bytes_eq(cards[i].keyword.as_slice(), kw) {
            proof {
                assert(find_last_card(views.take(i as int + 1), kw@) == Some(views[i as int]));
            }
            match &cards[i].value {
                HeaderValueType::Integer(n) => {
                    return Some(*n);
                },
                _ => {
                    return None;
                },
            }
        }
    }
    proof {
        assert(views.take(0).len() == 0);
    }
    None
}

proof fn lemma_dims_product_zero(cards: Seq<CardModel>, n: int, i: int)
    requires
        1 <= i <= n,
        dim_size(cards, i) == 0,
    ensures
        dims_product(cards, n) == 0,
    decreases n,
{
    if i < n {
        lemma_dims_product_zero(cards, n - 1, i);
    }
}

proof fn lemma_dims_product_mono(cards: Seq<CardModel>, m: int, n: int)
    requires
        0 <= m <= n,
        forall|j: int| m < j <= n ==> dim_size(cards, j) >= 1,
        dims_product(cards, m) >= 0,
    ensures
        dims_product(cards, n) >= dims_product(cards, m),
    decreases n - m,
{
    if m < n {
        lemma_dims_product_mono(cards, m, n - 1);
        let a = dims_product(cards, n - 1);
        let d = dim_size(cards, n);
        assert(a * d >= a) by (nonlinear_arith)
            requires
                a >= 0,
                d >= 1,
        ;
    }
}

impl Header {
    /// The kind of the unit this header describes, from its first
    /// keyword; an unrecognized shape yields Unknown, never a failure.
    pub fn unit_kind(&self) -> (k: HduType)
        ensures
            k == unit_kind_model(self@),
    {
        if self.cards.len() == 0 {
            return HduType::Unknown;
        }
        let first = &self.cards[0];
        proof {
            assert(self@[0] == self.cards@[0]@);
        }
        let simple = kw_simple_bytes();
        if bytes_eq(first.keyword.as_slice(), simple.as_slice()) {
            return HduType::Image;
        }
        let xtension = kw_xtension_bytes();
        if bytes_eq(first.keyword.as_slice(), xtension.as_slice()) {
            extension_kind_of(&first.value)
        } else {
            HduType::Unknown
        }
    }

    /// The unit's name: the trimmed text value of the last name-bearing
    /// card, if there is one.
    pub fn unit_name(&self) -> (r: Option<Vec<u8>>)
        ensures
            unit_name_model(self@) == match r {
                Some(v) => Some(v@),
                None => None::<Seq<u8>>,
            },
    {
        let ghost views = self@;
        let extname = kw_extname_bytes();
        let mut i: usize = self.cards.len();
        proof {
            assert(views.take(i as int) =~= views);
        }
        while i > 0
            invariant
                0 <= i <= self.cards@.len(),
                views == self@,
                extname@ == kw_extname(),
                views.len() == self.cards@.len(),
                find_last_card(views, kw_extname()) == find_last_card(
                    views.take(i as int),
                    kw_extname(),
                ),
            decreases i,
        {
            i -= 1;
            proof {
                assert(views[i as int] == self.cards@[i as int]@);
                assert(views.take(i as int + 1).drop_last() =~= views.take(i as int));
                assert(views.take(i as int + 1).last() == views[i as int]);
            }
            if bytes_eq(self.cards[i].keyword.as_slice(), extname.as_slice()) {
                proof {
                    assert(find_last_card(views.take(i as int + 1), kw_extname()) == Some(
                        views[i as int],
                    ));
                }
                match &self.cards[i].value {
                    HeaderValueType::Text(t) => {
                        let tt = trim_bytes(t.as_slice());
                        return Some(tt);
                    },
                    _ => {
                        return None;
                    },
                }
            }
        }
        proof {
            assert(views.take(0).len() == 0);
        }
        None
    }

    /// The data length this header declares, as its exact value: `None`
    /// only when that value exceeds `u64::MAX`.
    pub fn declared_data_len(&self) -> (r: Option<u64>)
        ensures
            match r {
                Some(v) => v as int == declared_len_model(self@),
                None => declared_len_model(self@) > u64::MAX,
            },
    {
        let ghost views = self@;
        let naxis_kw = kw_naxis_bytes();
        let n = match lookup_int(&self.cards, naxis_kw.as_slice()) {
            Some(n) => n,
            None => {
                return Some(0);
            },
        };
        if n < 1 || n > 999 {
            return Some(0);
        }
        let n_u = n as u64;
        let bitpix_kw = kw_bitpix_bytes();
        let ew: u64 = match lookup_int(&self.cards, bitpix_kw.as_slice()) {
            Some(b) => {
                let mag: u64 = if b == i64::MIN {
                    9223372036854775808
                } else if b < 0 {
                    (-b) as u64
                } else {
                    b as u64
                };
                mag / 8
            },
            None => 0,
        };
        proof {
            assert(ew as int == element_width(views));
        }
        if ew == 0 {
            proof {
                assert(element_width(views) * dims_product(views, n as int) == 0)
                    by (nonlinear_arith)
                    requires
                        element_width(views) == 0,
                ;
            }
            return Some(0);
        }
        let mut i: u64 = 1;
        while i <= n_u
            invariant
                1 <= i <= n_u + 1,
                1 <= n_u <= 999,
                n_u == n,
                views == self@,
                int_card_value(views, kw_naxis()) == Some(n as int),
                forall|j: int| 1 <= j < i ==> dim_size(views, j) >= 1,
            decreases n_u - i + 1,
        {
            let kwv = dim_keyword_bytes(i);
            let bad = match lookup_int(&self.cards, kwv.as_slice()) {
                Some(v) => v < 1,
                None => true,
            };
            if bad {
                proof {
                    assert(dim_size(views, i as int) == 0);
                    lemma_dims_product_zero(views, n as int, i as int);
                    assert(element_width(views) * dims_product(views, n as int) == 0)
                        by (nonlinear_arith)
                        requires
                            dims_product(views, n as int) == 0,
                    ;
                }
                return Some(0);
            }
            i += 1;
        }
        let mut prod: u64 = 1;
        let mut k: u64 = 1;
        proof {
            assert(dims_product(views, 0) == 1);
        }
        while k <= n_u
            invariant
                1 <= k <= n_u + 1,
                1 <= n_u <= 999,
                n_u == n,
                1 <= ew,
                ew as int == element_width(views),
                views == self@,
                int_card_value(views, kw_naxis()) == Some(n as int),
                forall|j: int| 1 <= j <= n_u ==> dim_size(views, j) >= 1,
                prod as int == dims_product(views, k - 1),
                prod >= 1,
            decreases n_u - k + 1,
        {
            let kwv = dim_keyword_bytes(k);
            let v = match lookup_int(&self.cards, kwv.as_slice()) {
                Some(v) => v,
                None => {
                    proof {
                        assert(dim_size(views, k as int) == 0);
                        assert(false);
                    }
                    0
                },
            };
            proof {
                assert(dim_size(views, k as int) == v);
            }
            match prod.checked_mul(v as u64) {
                Some(p) => {
                    proof {
                        assert(p as int == dims_product(views, k as int));
                        assert(p >= 1) by (nonlinear_arith)
                            requires
                                p as int == prod as int * (v as u64) as int,
                                prod >= 1,
                                v >= 1,
                                (v as u64) as int == v as int,
                        ;
                    }
                    prod = p;
                },
                None => {
                    proof {
                        let full = dims_product(views, k as int);
                        assert(full == dims_product(views, k - 1) * dim_size(views, k as int));
                        assert(full > u64::MAX);
                        lemma_dims_product_mono(views, k as int, n as int);
                        let e = element_width(views);
                        let pn = dims_product(views, n as int);
                        assert(e * pn >= pn) by (nonlinear_arith)
                            requires
                                e >= 1,
                                pn >= 0,
                        ;
                        assert(declared_len_model(views) > u64::MAX);
                    }
                    return None;
                },
            }
            k += 1;
        }
        proof {
            assert(prod as int == dims_product(views, n as int));
        }
        match ew.checked_mul(prod) {
            Some(total) => {
                proof {
                    assert(total as int == declared_len_model(views));
                }
                Some(total)
            },
            None => {
                proof {
                    assert(declared_len_model(views) > u64::MAX);
                }
                None
            },
        }
    }
}

/// Outcome of running the header accumulator, as executable data.
pub enum HeaderScan {
    /// The terminator was found after `nblocks` full blocks; `header`
    /// holds every card up to and including it.
    Found { nblocks: usize, header: Header },
    /// The data ended cleanly at a block boundary while the accumulator
    /// still wanted cards.
    Unterminated,
    /// A partial block begins at `offset`.
    Truncated { offset: usize },
}

/// Runs the header accumulator over the blocks that begin at `start`:
/// cards are collected block by block until the terminator card, whose
/// block's remaining card slots are padding; the end of the data while
/// accumulating, or a partial block, ends the run instead.
pub fn accumulate_header(data: &[u8], start: usize) -> (r: HeaderScan)
    requires
        start <= data@.len(),
    ensures
        match r {
            HeaderScan::Found { nblocks, header } => header_scan(data@, start as int)
                matches HeaderScanModel::Found { nblocks: nb, ncards: nc } && nb == nblocks as int
                && nc == header@.len() && header@ == header_cards(data@, start as int, nc)
                && nblocks >= 1,
            HeaderScan::Unterminated => header_scan(data@, start as int)
                is Unterminated,
            HeaderScan::Truncated { offset } => header_scan(data@, start as int)
                matches HeaderScanModel::Truncated { offset: o } && o == offset as int,
        },
{
    let n = data.len();
    let mut k: usize = 0;
    let mut cards: Vec<HeaderCard> = Vec::new();
    proof {
        assert(card_views(cards@) =~= header_cards(data@, start as int, 0));
    }
    while true
        invariant
            0 <= k,
            start + 2880 * k <= n == data@.len(),
            n <= usize::MAX,
            header_scan(data@, start as int) == header_scan_rec(data@, start as int, k as int),
            cards@.len() == 36 * k,
            card_views(cards@) == header_cards(data@, start as int, 36 * k as int),
        decreases n - start - 2880 * k,
    {
        let b = start + 2880 * k;
        let rem = n - b;
        if rem == 0 {
            return HeaderScan::Unterminated;
        }
        if rem < 2880 {
            return HeaderScan::Truncated { offset: b };
        }
        let mut c: usize = 0;
        while c < 36
            invariant
                0 <= c <= 36,
                b == start + 2880 * k,
                b + 2880 <= n == data@.len(),
                n <= usize::MAX,
                header_scan(data@, start as int) == header_scan_rec(data@, start as int, k as int),
                find_end_cards(data@, b as int, 0, 36) == find_end_cards(
                    data@,
                    b as int,
                    c as int,
                    36,
                ),
                cards@.len() == 36 * k + c,
                card_views(cards@) == header_cards(data@, start as int, 36 * k + c as int),
            decreases 36 - c,
        {
            let off = b + 80 * c;
            let slice = vstd::slice::slice_subrange(data, off, off + 80);
            let card = match HeaderCard::from_raw(slice) {
                Some(card) => card,
                None => {
                    proof {
                        assert(false);
                    }
                    HeaderCard {
                        keyword: Vec::new(),
                        value: HeaderValueType::Undefined,
                        comment: None,
                    }
                },
            };
            proof {
                assert(b as int + 80 * (c as int) == start as int + 80 * (36 * k + c as int))
                    by (nonlinear_arith)
                    requires
                        b == start + 2880 * k,
                ;
                assert(card_at(data@, b as int + 80 * (c as int)) == card@);
            }
            let done = is_end_keyword(&card.keyword);
            let ghost prev = cards@;
            cards.push(card);
            proof {
                assert forall|j: int| 0 <= j < cards@.len() implies card_views(cards@)[j]
                    == header_cards(data@, start as int, 36 * k + c as int + 1)[j] by {
                    assert(card_views(cards@)[j] == cards@[j]@);
                    if j < prev.len() {
                        assert(cards@[j] == prev[j]);
                        assert(card_views(prev)[j] == prev[j]@);
                        assert(card_views(prev)[j] == header_cards(
                            data@,
                            start as int,
                            36 * k + c as int,
                        )[j]);
                    } else {
                        assert(cards@[j] == card);
                    }
                }
                assert(card_views(cards@) =~= header_cards(
                    data@,
                    start as int,
                    36 * k + c as int + 1,
                ));
            }
            if done {
                proof {
                    assert(find_end_cards(data@, b as int, c as int, 36) == Some(c as int));
                }
                return HeaderScan::Found { nblocks: k + 1, header: Header { cards } };
            }
            c += 1;
        }
        proof {
            assert(find_end_cards(data@, b as int, 36, 36).is_none());
            assert(header_scan_rec(data@, start as int, k as int) == header_scan_rec(
                data@,
                start as int,
                k as int + 1,
            ));
        }
        k += 1;
    }
    proof {
        assert(false);
    }
    HeaderScan::Unterminated
}

/// Law: a header whose terminator card falls in its second block is
/// accumulated as one header of exactly two blocks, holding the cards of
/// both blocks in original order up to the terminator, so the next unit
/// begins right after the second block's boundary, not the first's.
pub proof fn lemma_two_block_header(data: Seq<u8>, h: int, c: int)
    requires
        0 <= h,
        h + 5760 <= data.len(),
        find_end_cards(data, h, 0, 36).is_none(),
        find_end_cards(data, h + 2880, 0, 36) == Some(c),
    ensures
        header_scan(data, h) matches HeaderScanModel::Found { nblocks, ncards } && nblocks == 2
            && ncards == 36 + c + 1,
{
    assert(header_scan_rec(data, h, 0) == header_scan_rec(data, h, 1));
    assert(header_scan_rec(data, h, 1) == (HeaderScanModel::Found {
        nblocks: 2,
        ncards: 36 + c + 1,
    }));
}

/// The kind an extension marker card declares through its subtype value.
fn extension_kind_of(value: &HeaderValueType) -> (k: HduType)
    ensures
        k == extension_kind(value@),
{
    match value {
        HeaderValueType::Text(t) => {
            let tt = trim_bytes(t.as_slice());
            let bintable = val_bintable_bytes();
            if bytes_eq(tt.as_slice(), bintable.as_slice()) {
                return HduType::BinTable;
            }
            let asciitable = val_asciitable_bytes();
            if bytes_eq(tt.as_slice(), asciitable.as_slice()) {
                return HduType::AsciiTable;
            }
            let image = val_image_bytes();
            if bytes_eq(tt.as_slice(), image.as_slice()) {
                return HduType::Image;
            }
            HduType::Unknown
        },
        _ => HduType::Unknown,
    }
}

/// What a peek at a chunk's first card tells about it: the unit kind it
/// marks when its keyword is the primary or extension marker, nothing
/// otherwise — a data block or a continuation block starts no unit.
pub open spec fn page_kind_model(chunk: Seq<u8>) -> Option<HduType> {
    if chunk.len() < 80 {
        None
    } else {
        let c = card_at(chunk, 0);
        if c.keyword == kw_simple() {
            Some(HduType::Image)
        } else if c.keyword == kw_xtension() {
            Some(extension_kind(c.value))
        } else {
            None
        }
    }
}

/// A peek at one block: whether its first card marks the start of a unit,
/// and of which kind.
#[derive(Debug)]
pub struct Page {
    pub hdu_type: Option<HduType>,
}

impl Page {
    /// Classifies a chunk by its first card alone.
    pub fn from_chunk(chunk: &[u8]) -> (p: Page)
        ensures
            p.hdu_type == page_kind_model(chunk@),
    {
        if chunk.len() < 80 {
            return Page { hdu_type: None };
        }
        let slice = vstd::slice::slice_subrange(chunk, 0, 80);
        let card = match HeaderCard::from_raw(slice) {
            Some(card) => card,
            None => {
                proof {
                    assert(false);
                }
                HeaderCard { keyword: Vec::new(), value: HeaderValueType::Undefined, comment: None }
            },
        };
        proof {
            assert(card_at(chunk@, 0) == card@);
        }
        let simple = kw_simple_bytes();
        if bytes_eq(card.keyword.as_slice(), simple.as_slice()) {
            return Page { hdu_type: Some(HduType::Image) };
        }
        let xtension = kw_xtension_bytes();
        if bytes_eq(card.keyword.as_slice(), xtension.as_slice()) {
            let k = extension_kind_of(&card.value);
            return Page { hdu_type: Some(k) };
        }
        Page { hdu_type: None }
    }
}

} // verus!
