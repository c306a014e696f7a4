//! Verified character-level helpers over `&str`: equality, prefix
//! stripping, splitting, and decimal parsing. Everything is specified
//! against the `Seq<char>` view of the text.

use vstd::prelude::*;

verus! {

/// Text equality, decided character by character.
pub fn str_eq(a: &str, b: &str) -> (r: bool)
    ensures
        r == (a@ == b@),
{
    let alen = a.unicode_len();
    let blen = b.unicode_len();
    if alen != blen {
        return false;
    }
    let mut i: usize = 0;
    while i < alen
        invariant
            alen == a@.len(),
            blen == b@.len(),
            alen == blen,
            i <= alen,
            forall|j: int| 0 <= j < i ==> a@[j] == b@[j],
        decreases alen - i,
    {
        if a.get_char(i) != b.get_char(i) {
            return false;
        }
        i += 1;
    }
    proof {
        assert(a@ =~= b@);
    }
    true
}

/// What remains of `s` after a prefix `p`, if `p` is indeed a prefix.
pub open spec fn strip_prefix_spec(s: Seq<char>, p: Seq<char>) -> Option<Seq<char>> {
    if p.is_prefix_of(s) {
        Some(s.skip(p.len() as int))
    } else {
        None
    }
}

/// Strip a prefix from a piece of text, as an owned copy of the remainder.
pub fn strip_prefix(s: &str, p: &str) -> (r: Option<String>)
    ensures
        match r {
            Some(rest) => strip_prefix_spec(s@, p@) == Some(rest@),
            None => strip_prefix_spec(s@, p@) is None,
        },
{
    let slen = s.unicode_len();
    let plen = p.unicode_len();
    if slen < plen {
        return None;
    }
    let mut i: usize = 0;
    while i < plen
        invariant
            slen == s@.len(),
            plen == p@.len(),
            plen <= slen,
            i <= plen,
            forall|j: int| 0 <= j < i ==> s@[j] == p@[j],
        decreases plen - i,
    {
        if s.get_char(i) != p.get_char(i) {
            proof {
                assert(!p@.is_prefix_of(s@)) by {
                    assert(s@.subrange(0, p@.len() as int)[i as int] != p@[i as int]);
                }
            }
            return None;
        }
        i += 1;
    }
    let rest = s.substring_char(plen, slen);
    proof {
        assert(p@.is_prefix_of(s@)) by {
            assert(s@.subrange(0, p@.len() as int) =~= p@);
        }
        assert(s@.subrange(plen as int, slen as int) =~= s@.skip(p@.len() as int));
    }
    Some(rest.to_owned())
}

/// The first position of a character in the text, if it occurs at all.
pub open spec fn first_index_of(s: Seq<char>, c: char) -> Option<int> {
    if exists|i: int| 0 <= i < s.len() && s[i] == c {
        let i = choose|i: int| 0 <= i < s.len() && s[i] == c && (forall|j: int|
            0 <= j < i ==> s[j] != c);
        Some(i)
    } else {
        None
    }
}

proof fn lemma_first_index_exists(s: Seq<char>, c: char, w: int)
    requires
        0 <= w < s.len(),
        s[w] == c,
    ensures
        exists|i: int|
            0 <= i < s.len() && s[i] == c && (forall|j: int| 0 <= j < i ==> s[j] != c),
    decreases w,
{
    if forall|j: int| 0 <= j < w ==> s[j] != c {
        assert(0 <= w < s.len() && s[w] == c && (forall|j: int| 0 <= j < w ==> s[j] != c));
    } else {
        let w2 = choose|j: int| 0 <= j < w && s[j] == c;
        lemma_first_index_exists(s, c, w2);
    }
}

/// Split the text at the first occurrence of `c`, dropping that occurrence,
/// like `str::split_once`.
pub open spec fn split_once_spec(s: Seq<char>, c: char) -> Option<(Seq<char>, Seq<char>)> {
    match first_index_of(s, c) {
        Some(i) => Some((s.take(i), s.skip(i + 1))),
        None => None,
    }
}

/// Split a piece of text at the first occurrence of a character into owned
/// halves; the separator itself is dropped.
pub fn split_once(s: &str, c: char) -> (r: Option<(String, String)>)
    ensures
        match r {
            Some(pair) => split_once_spec(s@, c) == Some((pair.0@, pair.1@)),
            None => split_once_spec(s@, c) is None,
        },
{
    let slen = s.unicode_len();
    let mut i: usize = 0;
    while i < slen
        invariant
            slen == s@.len(),
            i <= slen,
            forall|j: int| 0 <= j < i ==> s@[j] != c,
        decreases slen - i,
    {
        if s.get_char(i) == c {
            let left = s.substring_char(0, i).to_owned();
            let right = s.substring_char(i + 1, slen).to_owned();
            proof {
                lemma_first_index_exists(s@, c, i as int);
                let w = choose|w: int|
                    0 <= w < s@.len() && s@[w] == c && (forall|j: int| 0 <= j < w ==> s@[j] != c);
                assert(w == i as int);
                assert(s@.subrange(0, i as int) =~= s@.take(i as int));
                assert(s@.subrange(i as int + 1, slen as int) =~= s@.skip(i as int + 1));
            }
            return Some((left, right));
        }
        i += 1;
    }
    proof {
        if exists|w: int| 0 <= w < s@.len() && s@[w] == c {
            let w = choose|w: int| 0 <= w < s@.len() && s@[w] == c;
            assert(s@[w] != c);
        }
    }
    None
}

/// How often a character occurs in the text.
pub open spec fn count_char(s: Seq<char>, c: char) -> nat
    decreases s.len(),
{
    if s.len() == 0 {
        0
    } else {
        count_char(s.drop_last(), c) + (if s.last() == c {
            1nat
        } else {
            0nat
        })
    }
}

/// Whether a character occurs exactly once in a piece of text.
pub fn has_exactly_one(s: &str, c: char) -> (r: bool)
    ensures
        r == (count_char(s@, c) == 1),
{
    let slen = s.unicode_len();
    let mut seen: usize = 0;
    let mut i: usize = 0;
    proof {
        assert(s@.take(0) =~= Seq::<char>::empty());
    }
    while i < slen
        invariant
            slen == s@.len(),
            i <= slen,
            seen == count_char(s@.take(i as int), c),
            seen <= i,
        decreases slen - i,
    {
        proof {
            assert(s@.take(i as int + 1).drop_last() =~= s@.take(i as int));
            assert(s@.take(i as int + 1).last() == s@[i as int]);
        }
        if s.get_char(i) == c {
            seen += 1;
        }
        i += 1;
    }
    proof {
        assert(s@.take(slen as int) =~= s@);
    }
    seen == 1
}

/// A decimal digit.
pub open spec fn is_digit(c: char) -> bool {
    '0' <= c && c <= '9'
}

/// The numeric value of a decimal digit.
pub open spec fn digit_val(c: char) -> int {
    c as int - '0' as int
}

/// Whether the text consists of decimal digits only.
pub open spec fn all_digits(s: Seq<char>) -> bool {
    forall|i: int| 0 <= i < s.len() ==> is_digit(s[i])
}

/// The value of a digit string, most significant digit first.
pub open spec fn dec_val(s: Seq<char>) -> int
    decreases s.len(),
{
    if s.len() == 0 {
        0
    } else {
        dec_val(s.drop_last()) * 10 + digit_val(s.last())
    }
}

/// What a 32-bit signed decimal literal denotes: an optional sign, then at
/// least one digit, with the value inside the representable range.
pub open spec fn i32_from_str_spec(s: Seq<char>) -> Option<i32> {
    let neg = s.len() > 0 && s[0] == '-';
    let digits = if s.len() > 0 && (s[0] == '-' || s[0] == '+') {
        s.skip(1)
    } else {
        s
    };
    if digits.len() > 0 && all_digits(digits) {
        let v = if neg {
            -dec_val(digits)
        } else {
            dec_val(digits)
        };
        if i32::MIN <= v <= i32::MAX {
            Some(v as i32)
        } else {
            None
        }
    } else {
        None
    }
}

proof fn lemma_dec_val_nonneg(s: Seq<char>)
    requires
        all_digits(s),
    ensures
        dec_val(s) >= 0,
    decreases s.len(),
{
    if s.len() > 0 {
        assert(all_digits(s.drop_last()));
        lemma_dec_val_nonneg(s.drop_last());
    }
}

/// Appending digits never shrinks the value of a digit string.
proof fn lemma_dec_val_prefix_le(s: Seq<char>, k: int)
    requires
        all_digits(s),
        0 <= k <= s.len(),
    ensures
        dec_val(s.take(k)) <= dec_val(s),
    decreases s.len() - k,
{
    if k < s.len() {
        lemma_dec_val_prefix_le(s, k + 1);
        let t = s.take(k + 1);
        assert(t.drop_last() =~= s.take(k));
        assert(all_digits(s.take(k)));
        lemma_dec_val_nonneg(s.take(k));
        assert(dec_val(t) == dec_val(s.take(k)) * 10 + digit_val(t.last()));
    } else {
        assert(s.take(k) =~= s);
    }
}

/// Parse a 32-bit signed decimal integer, exactly as the standard decimal
/// form allows: an optional `+` or `-`, then one or more digits, rejected
/// when the value leaves the 32-bit range.
pub fn parse_i32(s: &str) -> (r: Option<i32>)
    ensures
        r == i32_from_str_spec(s@),
{
    let slen = s.unicode_len();
    if slen == 0 {
        return None;
    }
    let c0 = s.get_char(0);
    let neg = c0 == '-';
    let start: usize = if c0 == '-' || c0 == '+' {
        1
    } else {
        0
    };
    let ghost digits: Seq<char> = s@.skip(start as int);
    proof {
        assert(s@.skip(0) =~= s@);
    }
    if slen == start {
        return None;
    }
    let mut acc: u64 = 0;
    let mut i: usize = start;
    while i < slen
        invariant
            slen == s@.len(),
            start <= i <= slen,
            start <= 1,
            start < slen,
            (start == 1) == (s@[0] == '-' || s@[0] == '+'),
            digits == s@.skip(start as int),
            digits.len() > 0,
            acc == dec_val(s@.subrange(start as int, i as int)),
            acc <= 2147483648,
            all_digits(s@.subrange(start as int, i as int)),
        decreases slen - i,
    {
        let c = s.get_char(i);
        if !('0' <= c && c <= '9') {
            proof {
                assert(s@.skip(0) =~= s@);
                assert(digits[i - start] == c);
                assert(!all_digits(digits));
            }
            return None;
        }
        let d: u64 = (c as u32 - '0' as u32) as u64;
        acc = acc * 10 + d;
        proof {
            let pre = s@.subrange(start as int, i as int);
            let cur = s@.subrange(start as int, i as int + 1);
            assert(cur.drop_last() =~= pre);
            assert(cur.last() == c);
        }
        i += 1;
        if acc > 2147483648 {
            proof {
                assert(s@.skip(0) =~= s@);
                if all_digits(digits) {
                    assert(digits.take(i - start) =~= s@.subrange(start as int, i as int));
                    lemma_dec_val_prefix_le(digits, i - start);
                }
            }
            return None;
        }
    }
    proof {
        assert(s@.subrange(start as int, slen as int) =~= digits);
    }
    if neg {
        let v: i64 = -(acc as i64);
        Some(v as i32)
    } else {
        if acc > 2147483647 {
            return None;
        }
        Some(acc as i32)
    }
}

} // verus!
