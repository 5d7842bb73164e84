//! Log file naming: the fixed prefix `kv_store.log`, a dot, and a decimal
//! generation with no leading zeros. The store opens the file with the
//! largest generation and moves to the next generation on each compaction.

use vstd::prelude::*;

verus! {

/// The fixed file-name prefix, as bytes: `kv_store.log`.
pub open spec fn log_prefix() -> Seq<u8> {
    seq![107u8, 118u8, 95u8, 115u8, 116u8, 111u8, 114u8, 101u8, 46u8, 108u8, 111u8, 103u8]
}

/// Folds decimal digits onto `acc`; `None` on a non-digit or on overflow.
pub open spec fn parse_dec_digits(d: Seq<u8>, acc: u64) -> Option<u64>
    decreases d.len(),
{
    if d.len() == 0 {
        Some(acc)
    } else if !(48 <= d[0] <= 57) {
        None
    } else if acc * 10 + (d[0] - 48) > u64::MAX {
        None
    } else {
        parse_dec_digits(d.drop_first(), (acc * 10 + (d[0] - 48)) as u64)
    }
}

/// Parses a canonical decimal number: non-empty, digits only, no leading
/// zero unless the number is exactly `0`.
pub open spec fn parse_gen(d: Seq<u8>) -> Option<u64> {
    if d.len() == 0 {
        None
    } else if d.len() > 1 && d[0] == 48 {
        None
    } else {
        parse_dec_digits(d, 0)
    }
}

/// The generation a file name carries: `Some(n)` exactly for names of the
/// form `kv_store.log.<n>` with `n` canonical decimal.
pub open spec fn name_gen(s: Seq<u8>) -> Option<u64> {
    let p = log_prefix();
    if s.len() > p.len() + 1 && s.subrange(0, p.len() as int) == p && s[p.len() as int] == 46 {
        parse_gen(s.subrange(p.len() as int + 1, s.len() as int))
    } else {
        None
    }
}

/// The canonical decimal digits of `n`.
pub open spec fn dec_digits(n: u64) -> Seq<u8>
    decreases n,
{
    if n < 10 {
        seq![(48 + n) as u8]
    } else {
        dec_digits(n / 10) + seq![(48 + n % 10) as u8]
    }
}

/// The file name of generation `n`.
pub open spec fn log_name(n: u64) -> Seq<u8> {
    log_prefix() + seq![46u8] + dec_digits(n)
}

/// The canonical digits are non-empty, all digits, and never start with a
/// zero unless the number is zero.
pub proof fn lemma_dec_digits_shape(n: u64)
    ensures
        dec_digits(n).len() >= 1,
        n >= 1 ==> dec_digits(n)[0] != 48,
        n >= 10 ==> dec_digits(n).len() > 1,
        n < 10 ==> dec_digits(n).len() == 1,
    decreases n,
{
    if n >= 10 {
        lemma_dec_digits_shape(n / 10);
        assert(dec_digits(n)[0] == dec_digits(n / 10)[0]);
    }
}

/// Digit folding distributes over concatenation.
pub proof fn lemma_parse_digits_concat(d1: Seq<u8>, d2: Seq<u8>, acc: u64)
    ensures
        parse_dec_digits(d1 + d2, acc) == (match parse_dec_digits(d1, acc) {
            None => None::<u64>,
            Some(a) => parse_dec_digits(d2, a),
        }),
    decreases d1.len(),
{
    if d1.len() == 0 {
        assert(d1 + d2 =~= d2);
    } else {
        let whole = d1 + d2;
        assert(whole[0] == d1[0]);
        assert(whole.drop_first() =~= d1.drop_first() + d2);
        if 48 <= d1[0] <= 57 && acc * 10 + (d1[0] - 48) <= u64::MAX {
            lemma_parse_digits_concat(
                d1.drop_first(),
                d2,
                (acc * 10 + (d1[0] - 48)) as u64,
            );
        }
    }
}

/// Parsing inverts formatting.
pub proof fn lemma_parse_of_dec(n: u64)
    ensures
        parse_dec_digits(dec_digits(n), 0) == Some(n),
    decreases n,
{
    if n < 10 {
        let d = dec_digits(n);
        assert(d[0] == (48 + n) as u8);
        assert(d[0] as int == 48 + n);
        assert(48 <= d[0] <= 57);
        assert(d.drop_first() =~= Seq::<u8>::empty());
        assert(parse_dec_digits(d.drop_first(), (0 * 10 + (d[0] - 48)) as u64) == Some(n));
    } else {
        lemma_parse_of_dec(n / 10);
        lemma_parse_digits_concat(dec_digits(n / 10), seq![(48 + n % 10) as u8], 0);
        let last = seq![(48 + n % 10) as u8];
        assert(parse_dec_digits(last, n / 10) == Some(n)) by {
            vstd::arithmetic::div_mod::lemma_fundamental_div_mod(n as int, 10);
            assert(0 <= n % 10 < 10);
            assert(last[0] == (48 + n % 10) as u8);
            assert(last[0] as int == 48 + n % 10);
            assert(48 <= last[0] <= 57);
            assert((n / 10) * 10 + (last[0] - 48) == n);
            assert(last.drop_first() =~= Seq::<u8>::empty());
            assert(parse_dec_digits(last.drop_first(), ((n / 10) * 10 + (last[0] - 48)) as u64)
                == Some(n));
        }
    }
}

/// A formatted name parses back to its generation.
pub proof fn lemma_name_gen_round(n: u64)
    ensures
        name_gen(log_name(n)) == Some(n),
{
    let s = log_name(n);
    let p = log_prefix();
    lemma_dec_digits_shape(n);
    assert(s.subrange(0, p.len() as int) =~= p);
    assert(s[p.len() as int] == 46);
    assert(s.subrange(p.len() as int + 1, s.len() as int) =~= dec_digits(n));
    lemma_parse_of_dec(n);
    if dec_digits(n).len() > 1 {
        assert(n >= 10) by {
            if n < 10 {
                assert(dec_digits(n).len() == 1);
            }
        }
    }
}

/// The prefix, as a vector.
pub(crate) fn log_prefix_bytes() -> (r: Vec<u8>)
    ensures
        r@ == log_prefix(),
{
    let mut v: Vec<u8> = Vec::new();
    v.push(107u8);
    v.push(118u8);
    v.push(95u8);
    v.push(115u8);
    v.push(116u8);
    v.push(111u8);
    v.push(114u8);
    v.push(101u8);
    v.push(46u8);
    v.push(108u8);
    v.push(111u8);
    v.push(103u8);
    proof {
        assert(v@ =~= log_prefix());
    }
    v
}

/// Appends the canonical decimal digits of `n`.
fn push_digits(out: &mut Vec<u8>, n: u64)
    ensures
        final(out)@ == old(out)@ + dec_digits(n),
    decreases n,
{
    if n < 10 {
        out.push(48 + n as u8);
        assert(final(out)@ =~= old(out)@ + dec_digits(n));
    } else {
        push_digits(out, n / 10);
        out.push(48 + (n % 10) as u8);
        assert(final(out)@ =~= old(out)@ + dec_digits(n));
    }
}

/// The file name of generation `n`, as bytes.
pub fn log_file_name(n: u64) -> (r: Vec<u8>)
    ensures
        r@ == log_name(n),
        name_gen(r@) == Some(n),
{
    let mut out = log_prefix_bytes();
    out.push(46u8);
    push_digits(&mut out, n);
    proof {
        assert(out@ =~= log_name(n));
        lemma_name_gen_round(n);
    }
    out
}

/// Parses a file name: the generation it carries, if any.
pub fn parse_log_name(name: &Vec<u8>) -> (r: Option<u64>)
    ensures
        r == name_gen(name@),
{
    let len: usize = name.len();
    if len < 14 {
        return None;
    }
    let pref = log_prefix_bytes();
    let head = crate::codec::copy_range(name, 0, 12);
    if !crate::index::bytes_eq(head.as_slice(), pref.as_slice()) {
        return None;
    }
    if name[12] != 46 {
        return None;
    }
    let ghost digits = name@.subrange(13, len as int);
    if name[13] == 48 && len > 14 {
        proof {
            assert(digits[0] == 48 && digits.len() > 1);
        }
        return None;
    }
    let mut acc: u64 = 0;
    let mut i: usize = 13;
    while i < len
        invariant
            13 <= i <= len,
            len == name@.len(),
            digits == name@.subrange(13, len as int),
            parse_dec_digits(digits, 0) == parse_dec_digits(
                name@.subrange(i as int, len as int),
                acc,
            ),
        decreases len - i,
    {
        let ghost rem = name@.subrange(i as int, len as int);
        let b: u8 = name[i];
        assert(b == rem[0]);
        if b < 48 || b > 57 {
            return None;
        }
        let d: u64 = (b - 48) as u64;
        let stepped: Option<u64> = match acc.checked_mul(10) {
            Some(t) => t.checked_add(d),
            None => None,
        };
        match stepped {
            None => {
                proof {
                    assert(acc * 10 + (rem[0] - 48) > u64::MAX);
                }
                return None;
            },
            Some(v) => {
                acc = v;
            },
        }
        i = i + 1;
        proof {
            assert(rem.drop_first() =~= name@.subrange(i as int, len as int));
        }
    }
    proof {
        assert(name@.subrange(i as int, len as int) =~= Seq::<u8>::empty());
        assert(parse_dec_digits(digits, 0) == Some(acc));
        assert(name@.subrange(0, 12) =~= head@);
        assert(name_gen(name@) == Some(acc));
    }
    Some(acc)
}

} // verus!
