//! Byte- and character-level text helpers shared by the card tokenizer and
//! the value inference engine: ASCII whitespace trimming and substring
//! search, each with a mathematical definition that the contracts of the
//! rest of the crate build on.

use vstd::prelude::*;

verus! {

/// ASCII whitespace as the header grammar understands it: space, tab,
/// line feed, carriage return.
pub open spec fn is_ws(b: u8) -> bool {
    b == 32 || b == 9 || b == 10 || b == 13
}

/// Number of whitespace bytes at the front of `s`.
pub open spec fn leading_ws(s: Seq<u8>) -> int
    decreases s.len(),
{
    if s.len() > 0 && is_ws(s[0]) {
        1 + leading_ws(s.drop_first())
    } else {
        0
    }
}

/// Number of whitespace bytes at the back of `s`.
pub open spec fn trailing_ws(s: Seq<u8>) -> int
    decreases s.len(),
{
    if s.len() > 0 && is_ws(s.last()) {
        1 + trailing_ws(s.drop_last())
    } else {
        0
    }
}

/// `s` with trailing whitespace removed.
pub open spec fn trim_end(s: Seq<u8>) -> Seq<u8> {
    s.take(s.len() - trailing_ws(s))
}

/// `s` with leading whitespace removed.
pub open spec fn trim_start(s: Seq<u8>) -> Seq<u8> {
    s.skip(leading_ws(s))
}

/// `s` with whitespace removed from both ends.
pub open spec fn trim(s: Seq<u8>) -> Seq<u8> {
    trim_end(trim_start(s))
}

pub proof fn lemma_leading_ws_is(s: Seq<u8>, i: int)
    requires
        0 <= i <= s.len(),
        forall|k: int| 0 <= k < i ==> is_ws(s[k]),
        i < s.len() ==> !is_ws(s[i]),
    ensures
        leading_ws(s) == i,
    decreases s.len(),
{
    if s.len() > 0 && is_ws(s[0]) {
        assert(i >= 1);
        lemma_leading_ws_is(s.drop_first(), i - 1);
    }
}

pub proof fn lemma_trailing_ws_is(s: Seq<u8>, j: int)
    requires
        0 <= j <= s.len(),
        forall|k: int| j <= k < s.len() ==> is_ws(s[k]),
        j > 0 ==> !is_ws(s[j - 1]),
    ensures
        trailing_ws(s) == s.len() - j,
    decreases s.len(),
{
    if s.len() > 0 && is_ws(s.last()) {
        assert(j < s.len());
        lemma_trailing_ws_is(s.drop_last(), j);
    }
}

/// A copy of `s` with ASCII whitespace removed from its back end.
pub fn trim_end_bytes(s: &[u8]) -> (r: Vec<u8>)
    ensures
        r@ == trim_end(s@),
{
    let n = s.len();
    let mut j: usize = n;
    while j > 0 && (s[j - 1] == 32 || s[j - 1] == 9 || s[j - 1] == 10 || s[j - 1] == 13)
        invariant
            0 <= j <= n == s@.len(),
            forall|k: int| j <= k < n ==> is_ws(s@[k]),
        decreases j,
    {
        j -= 1;
    }
    proof {
        lemma_trailing_ws_is(s@, j as int);
        assert(trim_end(s@) =~= s@.subrange(0, j as int));
    }
    let part = vstd::slice::slice_subrange(s, 0, j);
    vstd::slice::slice_to_vec(part)
}

/// A copy of `s` with ASCII whitespace removed from both ends.
pub fn trim_bytes(s: &[u8]) -> (r: Vec<u8>)
    ensures
        r@ == trim(s@),
{
    let n = s.len();
    let mut i: usize = 0;
    while i < n && (s[i] == 32 || s[i] == 9 || s[i] == 10 || s[i] == 13)
        invariant
            0 <= i <= n == s@.len(),
            forall|k: int| 0 <= k < i ==> is_ws(s@[k]),
        decreases n - i,
    {
        i += 1;
    }
    let mut j: usize = n;
    while j > i && (s[j - 1] == 32 || s[j - 1] == 9 || s[j - 1] == 10 || s[j - 1] == 13)
        invariant
            i <= j <= n == s@.len(),
            forall|k: int| 0 <= k < i ==> is_ws(s@[k]),
            i < n ==> !is_ws(s@[i as int]),
            forall|k: int| j <= k < n ==> is_ws(s@[k]),
        decreases j,
    {
        j -= 1;
    }
    proof {
        lemma_leading_ws_is(s@, i as int);
        let t = trim_start(s@);
        assert(t == s@.skip(i as int));
        lemma_trailing_ws_is(t, j - i);
        assert(trim(s@) =~= s@.subrange(i as int, j as int));
    }
    let part = vstd::slice::slice_subrange(s, i, j);
    vstd::slice::slice_to_vec(part)
}

/// Byte-for-byte equality of two slices.
pub fn bytes_eq(a: &[u8], b: &[u8]) -> (r: bool)
    ensures
        r == (a@ == b@),
{
    if a.len() != b.len() {
        proof {
            assert(a@ != b@);
        }
        return false;
    }
    let n = a.len();
    let mut i: usize = 0;
    while i < n
        invariant
            0 <= i <= n,
            n == a@.len() == b@.len(),
            forall|k: int| 0 <= k < i ==> a@[k] == b@[k],
        decreases n - i,
    {
        if a[i] != b[i] {
            proof {
                assert(a@ != b@);
            }
            return false;
        }
        i += 1;
    }
    proof {
        assert(a@ =~= b@);
    }
    true
}

/// `t` occurs as a contiguous run of characters somewhere in `s`.
pub open spec fn has_substring(s: Seq<char>, t: Seq<char>) -> bool {
    exists|i: int| 0 <= i && i + t.len() <= s.len() && #[trigger] s.subrange(i, i + t.len()) == t
}

/// Whether `test` occurs as a substring of `string`.
pub fn string_contains(string: &String, test: &str) -> (r: bool)
    ensures
        r == has_substring(string@, test@),
{
    let s = string.as_str();
    let n = s.unicode_len();
    let m = test.unicode_len();
    if m > n {
        proof {
            assert(!has_substring(string@, test@));
        }
        return false;
    }
    if m == 0 {
        proof {
            assert(string@.subrange(0, 0 + test@.len() as int) =~= test@);
        }
        return true;
    }
    let mut i: usize = 0;
    while i <= n - m
        invariant
            0 <= i <= n - m + 1,
            1 <= m <= n,
            n == string@.len(),
            m == test@.len(),
            s@ == string@,
            forall|p: int| 0 <= p < i ==> #[trigger] string@.subrange(p, p + m) != test@,
        decreases n - i,
    {
        let mut j: usize = 0;
        let mut all_match = true;
        while j < m
            invariant
                0 <= j <= m,
                i + m <= n,
                n == string@.len(),
                m == test@.len(),
                s@ == string@,
                all_match ==> forall|q: int| 0 <= q < j ==> string@[i + q] == test@[q],
                !all_match ==> string@.subrange(i as int, i + m) != test@,
            decreases m - j,
        {
            if s.get_char(i + j) != test.get_char(j) {
                proof {
                    assert(string@.subrange(i as int, i + m)[j as int] == string@[i + j]);
                }
                all_match = false;
                j = m;
            } else {
                j += 1;
            }
        }
        if all_match {
            proof {
                assert(string@.subrange(i as int, i + m) =~= test@);
            }
            return true;
        }
        i += 1;
    }
    proof {
        assert forall|p: int| 0 <= p && p + test@.len() <= string@.len() implies #[trigger] string@.subrange(
            p,
            p + test@.len(),
        ) != test@ by {
            assert(p < i);
        }
    }
    false
}

} // verus!
