//! Byte-level helpers of the wire grammar: terminator scanning and decimal
//! number text.

use vstd::prelude::*;
use crate::error::RedisError;

verus! {

pub const CR: u8 = 13;
pub const LF: u8 = 10;

/// Scan for the line terminator. `Ok(Some(i))` names the first index with a
/// carriage return directly followed by a line feed, with no stray terminator
/// byte before it; `Ok(None)` means the line is not complete yet; `Err` means
/// a stray terminator byte stands inside the line.
pub open spec fn scan_line(b: Seq<u8>) -> Result<Option<int>, RedisError>
    decreases b.len(),
{
    if b.len() == 0 {
        Ok(None)
    } else if b[0] == CR {
        if b.len() == 1 {
            Ok(None)
        } else if b[1] == LF {
            Ok(Some(0))
        } else {
            Err(RedisError::Decode)
        }
    } else if b[0] == LF {
        Err(RedisError::Decode)
    } else {
        match scan_line(b.drop_first()) {
            Ok(Some(i)) => Ok(Some(i + 1)),
            r => r,
        }
    }
}

/// What a successful scan means, position by position.
pub proof fn lemma_scan_line(b: Seq<u8>)
    ensures
        match scan_line(b) {
            Ok(Some(i)) => 0 <= i && i + 2 <= b.len() && b[i] == CR && b[i + 1] == LF
                && forall|k: int| 0 <= k < i ==> b[k] != CR && b[k] != LF,
            Ok(None) => true,
            Err(e) => e == RedisError::Decode,
        },
    decreases b.len(),
{
    if b.len() == 0 {
    } else if b[0] == CR {
    } else if b[0] == LF {
    } else {
        lemma_scan_line(b.drop_first());
        match scan_line(b) {
            Ok(Some(i)) => {
                assert(scan_line(b.drop_first()) == Ok::<Option<int>, RedisError>(Some(i - 1)));
                assert forall|k: int| 0 <= k < i implies b[k] != CR && b[k] != LF by {
                    if k > 0 {
                        assert(b.drop_first()[k - 1] == b[k]);
                    }
                }
            },
            _ => {},
        }
    }
}

/// A scan that found its terminator, or failed, keeps its answer when more
/// bytes arrive.
pub proof fn lemma_scan_line_mono(b: Seq<u8>, ext: Seq<u8>)
    ensures
        scan_line(b) matches Ok(Some(i)) ==> scan_line(b + ext) == Ok::<
            Option<int>,
            RedisError,
        >(Some(i)),
        scan_line(b) is Err ==> scan_line(b + ext) == scan_line(b),
    decreases b.len(),
{
    if b.len() == 0 {
    } else {
        assert((b + ext)[0] == b[0]);
        if b[0] == CR {
            if b.len() == 1 {
            } else {
                assert((b + ext)[1] == b[1]);
                assert((b + ext).len() > 1);
            }
        } else if b[0] == LF {
        } else {
            assert((b + ext).drop_first() =~= b.drop_first() + ext);
            lemma_scan_line_mono(b.drop_first(), ext);
        }
    }
}

/// Establishes the scan result from the position facts: a clean prefix and a
/// terminator pair at `i` decide the scan.
pub proof fn lemma_scan_line_found(b: Seq<u8>, i: int)
    requires
        0 <= i,
        i + 2 <= b.len(),
        b[i] == CR,
        b[i + 1] == LF,
        forall|k: int| 0 <= k < i ==> b[k] != CR && b[k] != LF,
    ensures
        scan_line(b) == Ok::<Option<int>, RedisError>(Some(i)),
    decreases i,
{
    if i > 0 {
        assert forall|k: int| 0 <= k < i - 1 implies b.drop_first()[k] != CR && b.drop_first()[k]
            != LF by {
            assert(b.drop_first()[k] == b[k + 1]);
        }
        assert(b.drop_first()[i - 1] == b[i]);
        assert(b.drop_first()[i] == b[i + 1]);
        lemma_scan_line_found(b.drop_first(), i - 1);
    }
}

/// Establishes an incomplete scan: no line feed anywhere, and a carriage
/// return at most as the very last byte.
pub proof fn lemma_scan_line_none(b: Seq<u8>)
    requires
        forall|k: int| 0 <= k < b.len() ==> b[k] != LF && (b[k] == CR ==> k == b.len() - 1),
    ensures
        scan_line(b) == Ok::<Option<int>, RedisError>(None),
    decreases b.len(),
{
    if b.len() > 0 && b[0] != CR && b[0] != LF {
        assert forall|k: int| 0 <= k < b.drop_first().len() implies b.drop_first()[k] != LF && (
        b.drop_first()[k] == CR ==> k == b.drop_first().len() - 1) by {
            assert(b.drop_first()[k] == b[k + 1]);
        }
        lemma_scan_line_none(b.drop_first());
    }
}

/// Establishes a failed scan: a clean prefix, then a stray terminator byte.
pub proof fn lemma_scan_line_err(b: Seq<u8>, i: int)
    requires
        0 <= i < b.len(),
        forall|k: int| 0 <= k < i ==> b[k] != CR && b[k] != LF,
        b[i] == LF || (b[i] == CR && i + 1 < b.len() && b[i + 1] != LF),
    ensures
        scan_line(b) == Err::<Option<int>, RedisError>(RedisError::Decode),
    decreases i,
{
    if i > 0 {
        assert forall|k: int| 0 <= k < i - 1 implies b.drop_first()[k] != CR && b.drop_first()[k]
            != LF by {
            assert(b.drop_first()[k] == b[k + 1]);
        }
        assert(b.drop_first()[i - 1] == b[i]);
        if b[i] == CR && i + 1 < b.len() {
            assert(b.drop_first()[i] == b[i + 1]);
        }
        lemma_scan_line_err(b.drop_first(), i - 1);
    }
}

/// How an executable scan result corresponds to the scan of a byte model.
pub open spec fn scan_matches(
    r: Result<Option<usize>, RedisError>,
    s: Result<Option<int>, RedisError>,
) -> bool {
    match (r, s) {
        (Ok(None), Ok(None)) => true,
        (Ok(Some(a)), Ok(Some(b))) => a as int == b,
        (Err(x), Err(y)) => x == y,
        _ => false,
    }
}

/// Find the line terminator in `buf` from `start` on. The returned index is
/// relative to `start`.
pub fn scan_line_exec(buf: &Vec<u8>, start: usize) -> (r: Result<Option<usize>, RedisError>)
    requires
        start <= buf@.len(),
    ensures
        scan_matches(r, scan_line(buf@.skip(start as int))),
{
    let ghost b = buf@.skip(start as int);
    let len: usize = buf.len();
    let mut j: usize = start;
    while j < len
        invariant
            start <= j <= len,
            len == buf@.len(),
            b == buf@.skip(start as int),
            forall|k: int| 0 <= k < j - start ==> b[k] != CR && b[k] != LF,
        decreases len - j,
    {
        let c = buf[j];
        proof {
            assert(b[j - start] == buf@[j as int]);
        }
        if c == CR {
            if j + 1 < len {
                proof {
                    assert(b[j + 1 - start] == buf@[j + 1 as int]);
                }
                if buf[j + 1] == LF {
                    proof {
                        lemma_scan_line_found(b, j - start);
                    }
                    return Ok(Some(j - start));
                } else {
                    proof {
                        lemma_scan_line_err(b, j - start);
                    }
                    return Err(RedisError::Decode);
                }
            } else {
                proof {
                    lemma_scan_line_none(b);
                }
                return Ok(None);
            }
        } else if c == LF {
            proof {
                lemma_scan_line_err(b, j - start);
            }
            return Err(RedisError::Decode);
        }
        j = j + 1;
    }
    proof {
        lemma_scan_line_none(b);
    }
    Ok(None)
}

/// Decimal digit.
pub open spec fn is_digit(c: u8) -> bool {
    48 <= c <= 57
}

/// All bytes are decimal digits.
pub open spec fn all_digits(s: Seq<u8>) -> bool {
    forall|i: int| 0 <= i < s.len() ==> is_digit(#[trigger] s[i])
}

/// The value of decimal digit text, most significant digit first.
pub open spec fn val_of(s: Seq<u8>) -> int
    decreases s.len(),
{
    if s.len() == 0 {
        0
    } else {
        val_of(s.drop_last()) * 10 + (s.last() - 48)
    }
}

/// The canonical decimal text of a natural number.
pub open spec fn dec_u(n: nat) -> Seq<u8>
    decreases n,
{
    if n < 10 {
        seq![(48 + n) as u8]
    } else {
        dec_u(n / 10).push((48 + n % 10) as u8)
    }
}

/// The canonical decimal text of an integer, with a leading minus sign when
/// negative.
pub open spec fn int_text(v: int) -> Seq<u8> {
    if v < 0 {
        seq![45u8] + dec_u((-v) as nat)
    } else {
        dec_u(v as nat)
    }
}

/// The integer named by signed decimal text, if the text is such.
pub open spec fn parse_int_text(s: Seq<u8>) -> Option<int> {
    if s.len() >= 2 && s[0] == 45 {
        if all_digits(s.drop_first()) {
            Some(-val_of(s.drop_first()))
        } else {
            None
        }
    } else if s.len() >= 1 && all_digits(s) {
        Some(val_of(s))
    } else {
        None
    }
}

/// The canonical decimal text of an integer reads back to it.
pub proof fn lemma_int_text_roundtrip(v: int)
    ensures
        parse_int_text(int_text(v)) == Some(v),
        int_text(v).len() >= 1,
        all_digits(int_text(v)) || int_text(v)[0] == 45,
        forall|k: int| 0 <= k < int_text(v).len() ==> int_text(v)[k] != CR && #[trigger] int_text(
            v,
        )[k] != LF,
{
    if v < 0 {
        lemma_dec_u((-v) as nat);
        let s = int_text(v);
        assert(s.drop_first() =~= dec_u((-v) as nat));
        assert(s[0] == 45);
        lemma_val_nonneg(dec_u((-v) as nat));
        assert(forall|k: int|
            0 <= k < dec_u((-v) as nat).len() ==> is_digit(#[trigger] dec_u((-v) as nat)[k]));
        assert forall|k: int| 0 <= k < s.len() implies s[k] != CR && #[trigger] s[k] != LF by {
            if k > 0 {
                assert(s[k] == dec_u((-v) as nat)[k - 1]);
            }
        }
    } else {
        lemma_dec_u(v as nat);
        assert(int_text(v) == dec_u(v as nat));
        assert(int_text(v)[0] != 45);
    }
}

pub proof fn lemma_val_nonneg(s: Seq<u8>)
    requires
        all_digits(s),
    ensures
        val_of(s) >= 0,
    decreases s.len(),
{
    if s.len() > 0 {
        assert(all_digits(s.drop_last()));
        lemma_val_nonneg(s.drop_last());
    }
}

/// The canonical decimal text is digits, nonempty, without a leading zero
/// (except for zero itself), and reads back to the number it was made from.
pub proof fn lemma_dec_u(n: nat)
    ensures
        all_digits(dec_u(n)),
        dec_u(n).len() >= 1,
        val_of(dec_u(n)) == n,
        n > 0 ==> dec_u(n)[0] != 48,
        n < 10 ==> dec_u(n).len() == 1,
    decreases n,
{
    if n < 10 {
        let s = dec_u(n);
        assert(s.len() == 1);
        assert(s.last() == (48 + n) as u8);
        assert(s.drop_last() =~= Seq::<u8>::empty());
        assert(val_of(s) == val_of(Seq::<u8>::empty()) * 10 + ((48 + n) as u8 - 48));
    } else {
        lemma_dec_u(n / 10);
        let s = dec_u(n / 10);
        let d = (48 + n % 10) as u8;
        assert(s.push(d).drop_last() =~= s);
        assert(s.push(d).last() == d);
        assert(val_of(s.push(d)) == val_of(s) * 10 + (d - 48));
        assert(val_of(s.push(d)) == (n / 10) * 10 + n % 10);
        assert((n / 10) * 10 + n % 10 == n) by (nonlinear_arith);
        assert(all_digits(s.push(d)));
        assert(s.push(d)[0] == s[0]);
    }
}

/// Appending digits never lowers the value.
pub proof fn lemma_val_take_mono(s: Seq<u8>, j: int)
    requires
        all_digits(s),
        0 <= j <= s.len(),
    ensures
        val_of(s) >= val_of(s.take(j)),
    decreases s.len() - j,
{
    if j < s.len() {
        assert(s.take(j + 1).drop_last() =~= s.take(j));
        assert(s.take(j + 1).last() == s[j]);
        assert(all_digits(s.take(j)));
        lemma_val_nonneg(s.take(j));
        assert(val_of(s.take(j + 1)) == val_of(s.take(j)) * 10 + (s[j] - 48));
        assert(val_of(s.take(j + 1)) >= val_of(s.take(j)));
        lemma_val_take_mono(s, j + 1);
        assert(s.take(s.len() as int) =~= s);
    } else {
        assert(s.take(j) =~= s);
    }
}

/// Result of reading decimal digit text whose value may not fit the machine.
pub enum DigitsVal {
    NotDigits,
    TooBig,
    Val(u64),
}

/// Read the decimal digit text standing in `buf` between `start` and `end`.
pub fn parse_u64_digits(buf: &Vec<u8>, start: usize, end: usize) -> (r: DigitsVal)
    requires
        start <= end <= buf@.len(),
    ensures
        ({
            let s = buf@.subrange(start as int, end as int);
            match r {
                DigitsVal::NotDigits => !(all_digits(s) && s.len() >= 1),
                DigitsVal::TooBig => all_digits(s) && s.len() >= 1 && val_of(s) > u64::MAX,
                DigitsVal::Val(v) => all_digits(s) && s.len() >= 1 && val_of(s) == v,
            }
        }),
{
    let ghost s = buf@.subrange(start as int, end as int);
    if start == end {
        return DigitsVal::NotDigits;
    }
    let mut acc: u64 = 0;
    let mut j: usize = start;
    while j < end
        invariant
            start <= j <= end <= buf@.len(),
            s == buf@.subrange(start as int, end as int),
            all_digits(s.take(j - start)),
            acc as int == val_of(s.take(j - start)),
        decreases end - j,
    {
        let c = buf[j];
        proof {
            assert(s[j - start] == buf@[j as int]);
        }
        if c < 48 || c > 57 {
            proof {
                assert(!is_digit(s[j - start]));
            }
            return DigitsVal::NotDigits;
        }
        let d = c - 48;
        proof {
            assert(s.take(j - start + 1).drop_last() =~= s.take(j - start));
            assert(s.take(j - start + 1).last() == s[j - start]);
        }
        if acc > (u64::MAX - d as u64) / 10 {
            // The value to come can only grow: the text is already too big,
            // provided the rest is digits at all.
            let mut k: usize = j + 1;
            proof {
                assert(val_of(s.take(j - start + 1)) == acc * 10 + d);
                assert(acc as int * 10 + d > u64::MAX) by (nonlinear_arith)
                    requires
                        acc as int > ((u64::MAX - d as u64) / 10) as int,
                        0 <= d <= 9,
                        acc <= u64::MAX,
                ;
                assert(all_digits(s.take(j - start + 1)));
            }
            while k < end
                invariant
                    j < k <= end <= buf@.len(),
                    start <= j,
                    s == buf@.subrange(start as int, end as int),
                    all_digits(s.take(k - start)),
                    val_of(s.take(j - start + 1)) > u64::MAX,
                    all_digits(s.take(j - start + 1)),
                decreases end - k,
            {
                let c2 = buf[k];
                proof {
                    assert(s[k - start] == buf@[k as int]);
                }
                if c2 < 48 || c2 > 57 {
                    proof {
                        assert(!is_digit(s[k - start]));
                    }
                    return DigitsVal::NotDigits;
                }
                proof {
                    assert(s.take(k - start + 1).drop_last() =~= s.take(k - start));
                    assert(forall|t: int|
                        0 <= t < k - start + 1 ==> s.take(k - start + 1)[t] == #[trigger] s[t]);
                }
                k = k + 1;
            }
            proof {
                assert(s.take(end - start) =~= s);
                lemma_val_take_mono(s, j - start + 1);
            }
            return DigitsVal::TooBig;
        }
        acc = acc * 10 + d as u64;
        j = j + 1;
    }
    proof {
        assert(s.take(end - start) =~= s);
    }
    DigitsVal::Val(acc)
}

/// Append the canonical decimal text of `n`.
pub fn push_dec_u(n: u64, dst: &mut Vec<u8>)
    ensures
        final(dst)@ == old(dst)@ + dec_u(n as nat),
    decreases n,
{
    if n < 10 {
        dst.push(48 + n as u8);
        assert(dst@ =~= old(dst)@ + dec_u(n as nat));
    } else {
        push_dec_u(n / 10, dst);
        dst.push(48 + (n % 10) as u8);
        assert(dst@ =~= old(dst)@ + dec_u(n as nat));
    }
}

/// Append the canonical decimal text of `v`, sign included.
pub fn push_int(v: i64, dst: &mut Vec<u8>)
    ensures
        final(dst)@ == old(dst)@ + int_text(v as int),
{
    if v < 0 {
        dst.push(45);
        let mag: u64 = ((-(v as i128)) as u64);
        assert(mag as int == -(v as int));
        push_dec_u(mag, dst);
        assert(dst@ =~= old(dst)@ + int_text(v as int));
    } else {
        push_dec_u(v as u64, dst);
    }
}

} // verus!
