use vstd::prelude::*;

verus! {

/// `i` is the position of the last `b` in `s`.
pub open spec fn is_last_index(s: Seq<u8>, b: u8, i: int) -> bool {
    &&& 0 <= i < s.len()
    &&& s[i] == b
    &&& forall|j: int| i < j < s.len() ==> s[j] != b
}

/// The position of the last `b` in `s`, if `s` holds one.
pub open spec fn last_index(s: Seq<u8>, b: u8) -> Option<int> {
    if exists|i: int| is_last_index(s, b, i) {
        Some(choose|i: int| is_last_index(s, b, i))
    } else {
        None
    }
}

/// The position of the last `b` in `s`.
pub(crate) fn rfind_byte(s: &[u8], b: u8) -> (r: Option<usize>)
    ensures
        match r {
            Some(i) => i < s@.len() && last_index(s@, b) == Some(i as int),
            None => last_index(s@, b) is None,
        },
{
    let mut i: usize = s.len();
    while i > 0
        invariant
            i <= s@.len(),
            forall|j: int| i <= j < s@.len() ==> s@[j] != b,
        decreases i,
    {
        if s[i - 1] == b {
            proof {
                let k = choose|k: int| is_last_index(s@, b, k);
                assert(is_last_index(s@, b, i - 1));
                if k < i - 1 {
                    assert(s@[i - 1] != b);
                } else if k > i - 1 {
                    assert(s@[k] != b);
                }
            }
            return Some(i - 1);
        }
        i = i - 1;
    }
    None
}

/// `s` is a non-empty run of ASCII decimal digits.
pub open spec fn all_digits(s: Seq<u8>) -> bool {
    s.len() > 0 && forall|i: int| 0 <= i < s.len() ==> 48 <= #[trigger] s[i] <= 57
}

/// The number that the decimal digits `s` spell.
pub open spec fn digits_value(s: Seq<u8>) -> nat
    decreases s.len(),
{
    if s.len() == 0 {
        0
    } else {
        digits_value(s.drop_last()) * 10 + (s.last() - 48) as nat
    }
}

/// The decimal rendering of `n` reads back as `n`.
pub proof fn lemma_decimal_digits_value(n: nat)
    ensures
        all_digits(crate::git::objects::decimal(n)),
        digits_value(crate::git::objects::decimal(n)) == n,
    decreases n,
{
    let d = crate::git::objects::decimal(n);
    crate::git::objects::lemma_decimal_digits(n);
    assert(d.last() == ((n % 10) + 48) as u8);
    if n >= 10 {
        lemma_decimal_digits_value(n / 10);
        assert(d.drop_last() =~= crate::git::objects::decimal(n / 10));
        assert(n == (n / 10) * 10 + n % 10);
    } else {
        assert(d.drop_last() =~= Seq::<u8>::empty());
        assert(digits_value(d.drop_last()) == 0);
    }
}

proof fn lemma_digits_value_grows(s: Seq<u8>, i: int)
    requires
        0 <= i <= s.len(),
        forall|k: int| 0 <= k < s.len() ==> 48 <= #[trigger] s[k] <= 57,
    ensures
        digits_value(s.subrange(0, i)) <= digits_value(s),
    decreases s.len() - i,
{
    if i < s.len() {
        lemma_digits_value_grows(s, i + 1);
        assert(s.subrange(0, i + 1).drop_last() =~= s.subrange(0, i));
    } else {
        assert(s.subrange(0, i) =~= s);
    }
}

/// The number spelled by the digits `s`, where they are all digits and the
/// number is at most `limit`.
pub(crate) fn parse_number(s: &[u8], limit: u64) -> (r: Option<u64>)
    ensures
        r == if all_digits(s@) && digits_value(s@) <= limit {
            Some(digits_value(s@) as u64)
        } else {
            None::<u64>
        },
{
    if s.len() == 0 {
        return None;
    }
    let mut acc: u64 = 0;
    let mut i: usize = 0;
    assert(s@.subrange(0, 0) =~= Seq::<u8>::empty());
    while i < s.len()
        invariant
            i <= s@.len(),
            s@.len() > 0,
            acc == digits_value(s@.subrange(0, i as int)),
            acc <= limit,
            forall|k: int| 0 <= k < i ==> 48 <= #[trigger] s@[k] <= 57,
        decreases s@.len() - i,
    {
        let c = s[i];
        if c < 48 || c > 57 {
            return None;
        }
        let next: u128 = (acc as u128) * 10 + ((c - 48) as u128);
        assert(s@.subrange(0, i + 1).drop_last() =~= s@.subrange(0, i as int));
        if next > limit as u128 {
            proof {
                let j = i + 1;
                if all_digits(s@) {
                    lemma_digits_value_grows(s@, j as int);
                }
            }
            return None;
        }
        acc = next as u64;
        i = i + 1;
    }
    assert(s@.subrange(0, i as int) =~= s@);
    Some(acc)
}

/// A signed decimal integer: digits, with an optional leading `-`.
pub open spec fn signed_value(s: Seq<u8>) -> Option<int> {
    if s.len() > 0 && s[0] == 45u8 {
        if all_digits(s.drop_first()) {
            Some(-(digits_value(s.drop_first()) as int))
        } else {
            None
        }
    } else if all_digits(s) {
        Some(digits_value(s) as int)
    } else {
        None
    }
}

/// A time zone offset: `+` or `-`, then digits.
pub open spec fn offset_value(s: Seq<u8>) -> Option<int> {
    if s.len() > 0 && (s[0] == 43u8 || s[0] == 45u8) && all_digits(s.drop_first()) {
        if s[0] == 45u8 {
            Some(-(digits_value(s.drop_first()) as int))
        } else {
            Some(digits_value(s.drop_first()) as int)
        }
    } else {
        None
    }
}

/// Reads a timestamp, `None` where it is no integer or does not fit `i64`.
pub(crate) fn parse_timestamp(s: &[u8]) -> (r: Option<i64>)
    ensures
        r == match signed_value(s@) {
            Some(v) => if i64::MIN <= v <= i64::MAX {
                Some(v as i64)
            } else {
                None::<i64>
            },
            None => None::<i64>,
        },
{
    let total: usize = s.len();
    if total > 0 && s[0] == 45u8 {
        let digits = &s[1..total];
        assert(digits@ =~= s@.drop_first());
        match parse_number(digits, 9223372036854775808u64) {
            Some(v) => Some((0i128 - v as i128) as i64),
            None => None,
        }
    } else {
        match parse_number(s, 9223372036854775807u64) {
            Some(v) => Some(v as i64),
            None => None,
        }
    }
}

/// Reads a time zone offset, `None` where it is malformed or does not fit
/// `i32`.
pub(crate) fn parse_offset(s: &[u8]) -> (r: Option<i32>)
    ensures
        r == match offset_value(s@) {
            Some(v) => if i32::MIN <= v <= i32::MAX {
                Some(v as i32)
            } else {
                None::<i32>
            },
            None => None::<i32>,
        },
{
    let total: usize = s.len();
    if total == 0 || (s[0] != 43u8 && s[0] != 45u8) {
        return None;
    }
    let digits = &s[1..total];
    assert(digits@ =~= s@.drop_first());
    if s[0] == 45u8 {
        match parse_number(digits, 2147483648u64) {
            Some(v) => Some((0i64 - v as i64) as i32),
            None => None,
        }
    } else {
        match parse_number(digits, 2147483647u64) {
            Some(v) => Some(v as i32),
            None => None,
        }
    }
}

} // verus!

verus! {

/// The value of a lowercase hexadecimal digit byte.
pub open spec fn hex_val(b: u8) -> Option<nat> {
    if 48 <= b <= 57 {
        Some((b - 48) as nat)
    } else if 97 <= b <= 102 {
        Some((b - 87) as nat)
    } else {
        None
    }
}

/// The 20 bytes that 40 lowercase hexadecimal digits spell.
pub open spec fn hex_decode(s: Seq<u8>) -> Option<Seq<u8>> {
    if s.len() == 40 && forall|i: int| 0 <= i < 40 ==> (#[trigger] hex_val(s[i])) is Some {
        Some(
            Seq::new(
                20,
                |i: int| (hex_val(s[2 * i])->Some_0 * 16 + hex_val(s[2 * i + 1])->Some_0) as u8,
            ),
        )
    } else {
        None
    }
}

fn hex_nibble(b: u8) -> (r: Option<u8>)
    ensures
        match hex_val(b) {
            Some(v) => r == Some(v as u8) && v < 16,
            None => r is None,
        },
{
    if 48 <= b && b <= 57 {
        Some(b - 48)
    } else if 97 <= b && b <= 102 {
        Some(b - 87)
    } else {
        None
    }
}

/// Reads 40 lowercase hexadecimal digits as a hash.
pub(crate) fn hash_from_hex_bytes(s: &[u8]) -> (r: Option<crate::git::objects::Hash>)
    ensures
        match r {
            Some(h) => hex_decode(s@) == Some(h@),
            None => hex_decode(s@) is None,
        },
{
    if s.len() != 40 {
        return None;
    }
    let mut h: crate::git::objects::Hash = [0u8; 20];
    let mut i: usize = 0;
    while i < 20
        invariant
            i <= 20,
            s@.len() == 40,
            forall|k: int| 0 <= k < 2 * i ==> (#[trigger] hex_val(s@[k])) is Some,
            forall|k: int|
                0 <= k < i ==> #[trigger] h@[k] == (hex_val(s@[2 * k])->Some_0 * 16 + hex_val(
                    s@[2 * k + 1],
                )->Some_0) as u8,
        decreases 20 - i,
    {
        let hi = match hex_nibble(s[2 * i]) {
            Some(v) => v,
            None => return None,
        };
        let lo = match hex_nibble(s[2 * i + 1]) {
            Some(v) => v,
            None => return None,
        };
        h[i] = hi * 16 + lo;
        i = i + 1;
    }
    assert(h@ =~= hex_decode(s@)->Some_0);
    Some(h)
}

} // verus!
