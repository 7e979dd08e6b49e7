//! Integers read from decimal text, as `i64::from_str` and `u64::from_str`
//! read them: an optional sign, then one or more ASCII digits.
use vstd::prelude::*;
use vstd::utf8::encode_utf8;

verus! {

pub open spec fn is_digit(b: u8) -> bool {
    48 <= b <= 57
}

pub open spec fn all_digits(s: Seq<u8>) -> bool {
    forall|i: int| 0 <= i < s.len() ==> is_digit(#[trigger] s[i])
}

/// The value of a string of decimal digits.
pub open spec fn digits_value(s: Seq<u8>) -> nat
    decreases s.len(),
{
    if s.len() == 0 {
        0
    } else {
        (digits_value(s.drop_last()) * 10 + (s.last() - 48)) as nat
    }
}

/// The digits after an optional sign that `allow_minus` permits.
pub open spec fn unsigned_part(s: Seq<u8>, allow_minus: bool) -> Seq<u8> {
    if s.len() > 0 && (s[0] == 43 || (allow_minus && s[0] == 45)) {
        s.drop_first()
    } else {
        s
    }
}

pub open spec fn i64_text_value(s: Seq<u8>) -> Option<i64> {
    let d = unsigned_part(s, true);
    if d.len() == 0 || !all_digits(d) {
        None
    } else {
        let v: int = if s[0] == 45 { -digits_value(d) } else { digits_value(d) as int };
        if i64::MIN <= v <= i64::MAX {
            Some(v as i64)
        } else {
            None
        }
    }
}

pub open spec fn u64_text_value(s: Seq<u8>) -> Option<u64> {
    let d = unsigned_part(s, false);
    if d.len() == 0 || !all_digits(d) || digits_value(d) > u64::MAX {
        None
    } else {
        Some(digits_value(d) as u64)
    }
}

proof fn lemma_digits_prefix(s: Seq<u8>, k: int)
    requires
        0 <= k <= s.len(),
        all_digits(s),
    ensures
        digits_value(s) >= digits_value(s.subrange(0, k)),
    decreases s.len() - k,
{
    if k < s.len() {
        let t = s.subrange(0, k + 1);
        assert(t.drop_last() =~= s.subrange(0, k));
        assert(is_digit(t.last()));
        lemma_digits_prefix(s, k + 1);
    } else {
        assert(s.subrange(0, k) =~= s);
    }
}

const MAG_LIMIT: u128 = 0x1_0000_0000_0000_0000;

/// The value of the digits from `start` on, or `None` when there are none,
/// when one is not a digit, or when the value exceeds 2^64.
fn digits_from(b: &[u8], start: usize) -> (r: Option<u128>)
    requires
        start <= b@.len(),
    ensures
        ({
            let d = b@.subrange(start as int, b@.len() as int);
            &&& r is None <==> (d.len() == 0 || !all_digits(d) || digits_value(d) > MAG_LIMIT)
            &&& r matches Some(v) ==> v == digits_value(d)
        }),
{
    let ghost d = b@.subrange(start as int, b@.len() as int);
    let len = b.len();
    if start == len {
        return None;
    }
    let mut v: u128 = 0;
    let mut i: usize = start;
    proof {
        assert(d.subrange(0, 0) =~= Seq::<u8>::empty());
    }
    while i < len
        invariant
            start <= i <= len,
            len == b@.len(),
            d == b@.subrange(start as int, len as int),
            all_digits(d.subrange(0, i - start)),
            v == digits_value(d.subrange(0, i - start)),
            v <= MAG_LIMIT,
        decreases len - i,
    {
        let c = b[i];
        let ghost pre = d.subrange(0, i - start + 1);
        proof {
            assert(pre.drop_last() =~= d.subrange(0, i - start));
            assert(pre.last() == c);
        }
        if c < 48 || c > 57 {
            proof {
                assert(!is_digit(d[i - start]));
            }
            return None;
        }
        v = v * 10 + (c - 48) as u128;
        i = i + 1;
        proof {
            assert forall|k: int| 0 <= k < pre.len() implies is_digit(#[trigger] pre[k]) by {
                if k < pre.len() - 1 {
                    assert(pre[k] == d.subrange(0, i - start - 1)[k]);
                }
            }
        }
        if v > MAG_LIMIT {
            proof {
                if all_digits(d) {
                    lemma_digits_prefix(d, i - start);
                }
            }
            return None;
        }
    }
    proof {
        assert(d.subrange(0, len - start) =~= d);
    }
    Some(v)
}

/// Reads an `i64` from text.
pub fn parse_i64_text(s: &str) -> (r: Option<i64>)
    ensures
        r == i64_text_value(encode_utf8(s@)),
{
    let b = s.as_bytes();
    if b.len() == 0 {
        return None;
    }
    let negative = b[0] == 45;
    let start: usize = if b[0] == 43 || b[0] == 45 { 1 } else { 0 };
    proof {
        assert(unsigned_part(b@, true) =~= b@.subrange(start as int, b@.len() as int));
    }
    match digits_from(b, start) {
        None => None,
        Some(m) => {
            if negative {
                if m <= 0x8000_0000_0000_0000 {
                    Some((-(m as i128)) as i64)
                } else {
                    None
                }
            } else {
                if m <= 0x7fff_ffff_ffff_ffff {
                    Some(m as i64)
                } else {
                    None
                }
            }
        },
    }
}

/// Reads a `u64` from text.
pub fn parse_u64_text(s: &str) -> (r: Option<u64>)
    ensures
        r == u64_text_value(encode_utf8(s@)),
{
    let b = s.as_bytes();
    if b.len() == 0 {
        return None;
    }
    let start: usize = if b[0] == 43 { 1 } else { 0 };
    proof {
        assert(unsigned_part(b@, false) =~= b@.subrange(start as int, b@.len() as int));
    }
    match digits_from(b, start) {
        None => None,
        Some(m) => {
            if m <= 0xffff_ffff_ffff_ffff {
                Some(m as u64)
            } else {
                None
            }
        },
    }
}

} // verus!
