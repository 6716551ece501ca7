//! The card tokenizer: decodes one fixed-width header card into a keyword,
//! a typed value and an optional comment.
//!
//! A card is eighty bytes: an eight-byte keyword field, then — when the
//! ninth column holds the separator `=` — a value substring and, after the
//! first `/` that does not fall inside a quoted text literal, a comment.
//! Cards without the separator still contribute their keyword (the
//! terminator card has this shape) and carry an undefined value.

use vstd::prelude::*;

use crate::text::is_ws;
use crate::text::trim;
use crate::text::trim_end;
use crate::text::trim_bytes;
use crate::value::HeaderValueType;
use crate::value::ValueModel;
use crate::value::infer;
use crate::value::infer_model;

verus! {

/// Width of one card in bytes.
pub const CARD_WIDTH: usize = 80;

/// Width of the keyword field at the front of a card.
pub const KEYWORD_WIDTH: usize = 8;

/// Mathematical model of one decoded card.
#[verifier::ext_equal]
pub struct CardModel {
    pub keyword: Seq<u8>,
    pub value: ValueModel,
    pub comment: Option<Seq<u8>>,
}

/// Position of the first `/` at or after `i` that is not inside a quoted
/// text literal, tracking quote state left to right.
pub open spec fn find_comment_sep(s: Seq<u8>, i: int, in_quote: bool) -> Option<int>
    decreases s.len() - i,
{
    if i < 0 || i >= s.len() {
        None
    } else if !in_quote && s[i] == 47 {
        Some(i)
    } else {
        find_comment_sep(s, i + 1, if s[i] == 39 {
            !in_quote
        } else {
            in_quote
        })
    }
}

/// What `HeaderCard::from_raw` decodes from a card slice: the trimmed
/// keyword field; then, if the separator column holds `=`, the inferred
/// value of the substring before the first unquoted `/` and the trimmed
/// comment after it, the whole remainder being the value substring when no
/// separator occurs.  A slice shorter than one card width decodes to
/// nothing; a card without `=` keeps its keyword and an undefined value.
pub open spec fn card_model(card: Seq<u8>) -> Option<CardModel> {
    if card.len() < 80 {
        None
    } else {
        let keyword = trim_end(card.subrange(0, 8));
        if card[8] != 61 {
            Some(CardModel { keyword, value: ValueModel::Undefined, comment: None })
        } else {
            let rest = card.subrange(9, card.len() as int);
            match find_comment_sep(rest, 0, false) {
                Some(p) => Some(
                    CardModel {
                        keyword,
                        value: infer_model(rest.take(p)),
                        comment: Some(trim(rest.skip(p + 1))),
                    },
                ),
                None => Some(CardModel { keyword, value: infer_model(rest), comment: None }),
            }
        }
    }
}

/// One decoded header card.
#[derive(Debug)]
pub struct HeaderCard {
    pub keyword: Vec<u8>,
    pub value: HeaderValueType,
    pub comment: Option<Vec<u8>>,
}

impl View for HeaderCard {
    type V = CardModel;

    open spec fn view(&self) -> CardModel {
        CardModel {
            keyword: self.keyword@,
            value: self.value@,
            comment: match self.comment {
                Some(c) => Some(c@),
                None => None,
            },
        }
    }
}

impl HeaderCard {
    /// Decodes one card slice.  Returns `None` only when the slice is
    /// shorter than one card width.
    pub fn from_raw(data: &[u8]) -> (r: Option<HeaderCard>)
        ensures
            match r {
                Some(c) => card_model(data@) == Some(c@),
                None => data@.len() < 80 && card_model(data@).is_none(),
            },
    {
        let n = data.len();
        if n < 80 {
            return None;
        }
        let kw_field = vstd::slice::slice_subrange(data, 0, 8);
        let keyword = crate::text::trim_end_bytes(kw_field);
        if data[8] != 61 {
            return Some(
                HeaderCard { keyword, value: HeaderValueType::Undefined, comment: None },
            );
        }
        let ghost rest = data@.subrange(9, n as int);
        let mut j: usize = 9;
        let mut in_quote = false;
        while j < n && !(!in_quote && data[j] == 47)
            invariant
                9 <= j <= n == data@.len(),
                rest == data@.subrange(9, n as int),
                find_comment_sep(rest, 0, false) == find_comment_sep(rest, j - 9, in_quote),
            decreases n - j,
        {
            proof {
                assert(rest[j - 9] == data@[j as int]);
            }
            in_quote = if data[j] == 39 {
                !in_quote
            } else {
                in_quote
            };
            j += 1;
        }
        if j < n {
            proof {
                assert(rest[j - 9] == data@[j as int]);
                assert(find_comment_sep(rest, 0, false) == Some(j - 9));
                assert(rest.take(j - 9) =~= data@.subrange(9, j as int));
                assert(rest.skip(j - 9 + 1) =~= data@.subrange(j + 1, n as int));
            }
            let value_field = vstd::slice::slice_subrange(data, 9, j);
            let comment_field = vstd::slice::slice_subrange(data, j + 1, n);
            let value = infer(value_field);
            let comment = trim_bytes(comment_field);
            Some(HeaderCard { keyword, value, comment: Some(comment) })
        } else {
            proof {
                assert(find_comment_sep(rest, 0, false).is_none());
                assert(rest =~= data@.subrange(9, n as int));
            }
            let value_field = vstd::slice::slice_subrange(data, 9, n);
            let value = infer(value_field);
            Some(HeaderCard { keyword, value, comment: None })
        }
    }

    /// Renders the keyword field of a card that carries a comment: the
    /// keyword padded with spaces to the keyword field width, then the
    /// separator.  A card without a comment renders as the empty string.
    pub fn to_string(&self) -> (r: String)
        ensures
            self.comment.is_none() ==> r@ == Seq::<char>::empty(),
            self.comment.is_some() && all_ascii(self.keyword@) ==> r@ == chars_of(
                pad_keyword(self.keyword@) + seq![61u8],
            ),
    {
        match &self.comment {
            None => {
                let r = String::from_str("");
                proof {
                    reveal_strlit("");
                    assert(r@ =~= Seq::<char>::empty());
                }
                r
            },
            Some(_) => {
                let mut bytes: Vec<u8> = Vec::new();
                let kn = self.keyword.len();
                let mut i: usize = 0;
                while i < kn
                    invariant
                        0 <= i <= kn == self.keyword@.len(),
                        bytes@ == self.keyword@.take(i as int),
                    decreases kn - i,
                {
                    let c = self.keyword[i];
                    bytes.push(c);
                    proof {
                        assert(bytes@ =~= self.keyword@.take(i + 1));
                    }
                    i += 1;
                }
                proof {
                    assert(bytes@ =~= self.keyword@);
                }
                while bytes.len() < 8
                    invariant
                        self.keyword@.len() <= bytes@.len(),
                        bytes@.len() <= 8 || bytes@ == self.keyword@,
                        bytes@.take(self.keyword@.len() as int) == self.keyword@,
                        forall|k: int| self.keyword@.len() <= k < bytes@.len() ==> bytes@[k] == 32,
                    decreases 8 - bytes@.len(),
                {
                    bytes.push(32);
                    proof {
                        assert(bytes@.take(self.keyword@.len() as int) =~= self.keyword@);
                    }
                }
                proof {
                    assert(bytes@ =~= pad_keyword(self.keyword@));
                }
                bytes.push(61);
                proof {
                    assert(bytes@ =~= pad_keyword(self.keyword@) + seq![61u8]);
                }
                bytes_to_string(&bytes)
            },
        }
    }
}

/// Every byte of `s` is in the ASCII range.
pub open spec fn all_ascii(s: Seq<u8>) -> bool {
    forall|i: int| 0 <= i < s.len() ==> s[i] < 128
}

/// The characters that a run of bytes reads as, one per byte.
pub open spec fn chars_of(s: Seq<u8>) -> Seq<char> {
    Seq::new(s.len(), |i: int| s[i] as char)
}

/// The keyword padded with spaces to the keyword field width; a longer
/// keyword is kept whole.
pub open spec fn pad_keyword(kw: Seq<u8>) -> Seq<u8> {
    if kw.len() >= 8 {
        kw
    } else {
        kw + Seq::new((8 - kw.len()) as nat, |i: int| 32u8)
    }
}

/// Relies on String::from_utf8_lossy: bytes that are valid UTF-8 — as all
/// ASCII bytes are — convert to the same characters, unchanged.
#[verifier::external_body]
fn bytes_to_string(bytes: &Vec<u8>) -> (r: String)
    ensures
        all_ascii(bytes@) ==> r@ == chars_of(bytes@),
{
    String::from_utf8_lossy(bytes.as_slice()).into_owned()
}

/// A well-formed card assembled from its three renderings at the defined
/// column positions: the padded keyword field, the separator, the value
/// substring, the comment separator, the comment.
pub open spec fn assemble_card(kw: Seq<u8>, val: Seq<u8>, com: Seq<u8>) -> Seq<u8> {
    pad_keyword(kw) + seq![61u8] + val + seq![47u8] + com
}

/// Quote state after scanning all of `s`, starting in state `q`.
pub open spec fn quote_state(s: Seq<u8>, q: bool) -> bool
    decreases s.len(),
{
    if s.len() == 0 {
        q
    } else {
        quote_state(s.drop_first(), if s[0] == 39 {
            !q
        } else {
            q
        })
    }
}

/// No `/` stands at an unquoted position of `s`, starting in state `q`.
pub open spec fn no_unquoted_sep(s: Seq<u8>, q: bool) -> bool
    decreases s.len(),
{
    if s.len() == 0 {
        true
    } else {
        (q || s[0] != 47) && no_unquoted_sep(s.drop_first(), if s[0] == 39 {
            !q
        } else {
            q
        })
    }
}

/// Two scans over equal suffixes find the separator at the same distance.
proof fn lemma_find_sep_shift(s: Seq<u8>, t: Seq<u8>, i: int, j: int, q: bool)
    requires
        0 <= i <= s.len(),
        0 <= j <= t.len(),
        s.len() - i == t.len() - j,
        forall|k: int| i <= k < s.len() ==> #[trigger] s[k] == t[k - i + j],
    ensures
        match (find_comment_sep(s, i, q), find_comment_sep(t, j, q)) {
            (Some(a), Some(b)) => a - i == b - j,
            (None, None) => true,
            _ => false,
        },
    decreases s.len() - i,
{
    if i < s.len() {
        assert(s[i] == t[j]);
        let q2 = if s[i] == 39 {
            !q
        } else {
            q
        };
        if !(!q && s[i] == 47) {
            lemma_find_sep_shift(s, t, i + 1, j + 1, q2);
        }
    }
}

/// Scanning `val + / + com` from the front finds the separator right
/// after `val`, provided `val` holds no unquoted separator and leaves the
/// quote state closed.
proof fn lemma_find_sep_concat(val: Seq<u8>, com: Seq<u8>, q: bool)
    requires
        no_unquoted_sep(val, q),
        quote_state(val, q) == false,
    ensures
        find_comment_sep(val + seq![47u8] + com, 0, q) == Some(val.len() as int),
    decreases val.len(),
{
    let s = val + seq![47u8] + com;
    if val.len() == 0 {
        assert(s[0] == 47);
        assert(!q);
    } else {
        assert(s[0] == val[0]);
        let q2 = if val[0] == 39 {
            !q
        } else {
            q
        };
        lemma_find_sep_concat(val.drop_first(), com, q2);
        let t = val.drop_first() + seq![47u8] + com;
        assert forall|k: int| 1 <= k < s.len() implies #[trigger] s[k] == t[k - 1] by {
            if k < val.len() {
                assert(s[k] == val[k]);
                assert(t[k - 1] == val.drop_first()[k - 1]);
            }
        }
        lemma_find_sep_shift(s, t, 1, 0, q2);
        assert(!(!q && s[0] == 47));
    }
}

/// Law: a well-formed card — padded keyword, separator, value substring
/// free of unquoted separators, comment — decomposes into exactly that
/// keyword, the inferred value of that substring, and that comment, so the
/// three renderings concatenate back to the original slice.
pub proof fn lemma_card_round_trip(kw: Seq<u8>, val: Seq<u8>, com: Seq<u8>)
    requires
        kw.len() <= 8,
        kw.len() > 0 ==> !is_ws(kw.last()),
        no_unquoted_sep(val, false),
        quote_state(val, false) == false,
        trim(com) == com,
        val.len() + com.len() >= 70,
    ensures
        card_model(assemble_card(kw, val, com)) matches Some(c) && c.keyword == kw && c.value
            == infer_model(val) && c.comment == Some(com),
{
    let s = assemble_card(kw, val, com);
    assert(pad_keyword(kw).len() == 8);
    assert(s.len() == 10 + val.len() + com.len());
    assert(s.subrange(0, 8) =~= pad_keyword(kw));
    if kw.len() < 8 {
        assert(forall|k: int| kw.len() <= k < 8 ==> pad_keyword(kw)[k] == 32);
        crate::text::lemma_trailing_ws_is(pad_keyword(kw), kw.len() as int);
    } else {
        crate::text::lemma_trailing_ws_is(pad_keyword(kw), kw.len() as int);
    }
    assert(trim_end(pad_keyword(kw)) =~= kw);
    assert(s[8] == 61);
    let rest = s.subrange(9, s.len() as int);
    assert(rest =~= val + seq![47u8] + com);
    lemma_find_sep_concat(val, com, false);
    assert(find_comment_sep(rest, 0, false) == Some(val.len() as int));
    assert(rest.take(val.len() as int) =~= val);
    assert(rest.skip(val.len() as int + 1) =~= com);
}

} // verus!
