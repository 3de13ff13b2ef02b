use vstd::prelude::*;
use vstd::string::*;
use crate::digits::{
    is_digit_char, digit_char_val, val_of, pow10, padw,
    lemma_padw_basic, lemma_padw_unique, lemma_val_split, lemma_pow10_pos,
    char_digit_value, push_padded,
};
use crate::encoding::push_char;
use crate::Error;

verus! {

/// A decimal number kept losslessly: the value is
/// `(-1 if negative) * mantissa / 10^scale`. The scale records the number of
/// fraction digits, so trailing zeros in the fraction survive a round trip
/// ("1.50" stays "1.50").
#[derive(Clone, Copy, Debug, PartialEq, Eq, Structural)]
pub struct Decimal {
    pub negative: bool,
    pub mantissa: u64,
    pub scale: u32,
}

/// The scale a decimal can carry and still fit a token of the file format.
pub open spec fn dec_valid(d: Decimal) -> bool {
    d.scale <= 9999
}

/// The digit characters of `d`: the mantissa, zero-padded so that at least one
/// digit stands before the fraction point.
pub open spec fn dec_digits(d: Decimal) -> Seq<char> {
    padw(d.mantissa as nat, d.scale as nat + 1)
}

/// How many of `d`'s digits stand before the fraction point.
pub open spec fn dec_int_len(d: Decimal) -> int {
    dec_digits(d).len() - d.scale
}

/// The canonical text of a decimal: optional minus sign, integer digits
/// without redundant leading zeros, and, if the scale is positive, a point
/// followed by exactly `scale` fraction digits.
pub open spec fn spec_format_decimal(d: Decimal) -> Seq<char> {
    let ds = dec_digits(d);
    let body = if d.scale == 0 {
        ds
    } else {
        ds.take(dec_int_len(d)) + seq!['.'] + ds.skip(dec_int_len(d))
    };
    if d.negative {
        seq!['-'] + body
    } else {
        body
    }
}

/// Character-level shape of a formatted decimal: where the sign, the integer
/// digits, the point and the fraction digits stand.
pub proof fn lemma_decimal_shape(d: Decimal)
    ensures
        ({
            let s = spec_format_decimal(d);
            let sl: int = if d.negative { 1 } else { 0 };
            let il = dec_int_len(d);
            &&& il >= 1
            &&& s.len() == sl + il + (if d.scale == 0 { 0int } else { 1 + d.scale })
            &&& (d.negative ==> s[0] == '-')
            &&& (forall|i: int| sl <= i < sl + il ==> is_digit_char(#[trigger] s[i]))
            &&& (il >= 2 ==> s[sl] != '0')
            &&& (d.scale > 0 ==> s[sl + il] == '.')
            &&& (d.scale > 0 ==> forall|i: int| sl + il < i < s.len() ==> is_digit_char(#[trigger] s[i]))
            &&& dec_digits(d) == s.subrange(sl, sl + il)
                + (if d.scale > 0 { s.subrange(sl + il + 1, s.len() as int) } else { Seq::<char>::empty() })
            &&& d.mantissa == val_of(dec_digits(d))
        }),
{
    let s = spec_format_decimal(d);
    let sl: int = if d.negative { 1 } else { 0 };
    let ds = dec_digits(d);
    let il = dec_int_len(d);
    lemma_padw_basic(d.mantissa as nat, d.scale as nat + 1);
    assert(ds.len() >= d.scale + 1);
    assert(il >= 1);
    if d.scale == 0 {
        assert(forall|i: int| sl <= i < sl + il ==> s[i] == ds[i - sl]);
        if il >= 2 {
            assert(ds.len() > d.scale as nat + 1);
        }
        assert(ds =~= s.subrange(sl, sl + il) + Seq::<char>::empty());
    } else {
        let head = ds.take(il);
        let tail = ds.skip(il);
        assert(forall|i: int| sl <= i < sl + il ==> s[i] == head[i - sl]);
        assert(forall|i: int| 0 <= i < il ==> head[i] == ds[i]);
        assert(s[sl + il] == '.');
        assert(forall|i: int| sl + il < i < s.len() ==> s[i] == tail[i - sl - il - 1]);
        assert(forall|i: int| 0 <= i < tail.len() ==> is_digit_char(tail[i]));
        if il >= 2 {
            assert(ds.len() > d.scale as nat + 1);
            assert(s[sl] == ds[0]);
        }
        assert(s.subrange(sl, sl + il) =~= head);
        assert(s.subrange(sl + il + 1, s.len() as int) =~= tail);
        assert(ds =~= head + tail);
    }
}

/// Relates a formatted decimal to what a left-to-right scan of its text sees:
/// if the digits after the optional sign run exactly to position `j`, then
/// `j` is where the integer part ends, and every field of `d` is determined
/// by the text.
pub proof fn lemma_decimal_grammar(d: Decimal, s: Seq<char>, j: int)
    requires
        spec_format_decimal(d) == s,
        ({
            let sl: int = if s.len() > 0 && s[0] == '-' { 1 } else { 0 };
            &&& sl <= j <= s.len()
            &&& (forall|i: int| sl <= i < j ==> is_digit_char(#[trigger] s[i]))
            &&& (j == s.len() || !is_digit_char(s[j]))
        }),
    ensures
        ({
            let sl: int = if s.len() > 0 && s[0] == '-' { 1 } else { 0 };
            let frac = if d.scale > 0 { s.subrange(j + 1, s.len() as int) } else { Seq::<char>::empty() };
            &&& d.negative == (sl == 1)
            &&& j - sl == dec_int_len(d)
            &&& j > sl
            &&& (j - sl >= 2 ==> s[sl] != '0')
            &&& (d.scale == 0 ==> j == s.len())
            &&& (d.scale > 0 ==> j < s.len() && s[j] == '.' && s.len() == j + 1 + d.scale)
            &&& (d.scale > 0 ==> forall|i: int| j < i < s.len() ==> is_digit_char(#[trigger] s[i]))
            &&& dec_digits(d) == s.subrange(sl, j) + frac
            &&& d.mantissa == val_of(s.subrange(sl, j) + frac)
        }),
{
    lemma_decimal_shape(d);
    let sl_d: int = if d.negative { 1 } else { 0 };
    let il = dec_int_len(d);
    // the sign seen by the scan is the sign of d
    assert(s.len() > 0);
    if d.negative {
        assert(s[0] == '-');
    } else {
        assert(is_digit_char(s[0]));
        assert(s[0] != '-');
    }
    let sl: int = if s.len() > 0 && s[0] == '-' { 1 } else { 0 };
    assert(sl == sl_d);
    // the digit run ends exactly at the end of the integer part
    if j < sl + il {
        assert(is_digit_char(s[j]));
        assert(j < s.len());
        assert(false);
    }
    if j > sl + il {
        if d.scale == 0 {
            assert(s.len() == sl + il);
            assert(false);
        } else {
            assert(s[sl + il] == '.');
            assert(is_digit_char(s[sl + il]));
            assert(false);
        }
    }
    assert(j == sl + il);
}

/// Renders a decimal in its canonical text form.
#[verifier::loop_isolation(false)]
pub fn format_decimal(d: &Decimal) -> (r: String)
    requires
        dec_valid(*d),
    ensures
        r@ == spec_format_decimal(*d),
{
    let ghost ds = dec_digits(*d);
    proof {
        lemma_padw_basic(d.mantissa as nat, d.scale as nat + 1);
    }
    let mut digs = String::new();
    push_padded(d.mantissa, (d.scale as usize) + 1, &mut digs);
    assert(digs@ =~= ds);
    let total = digs.as_str().unicode_len();
    let mut out = String::new();
    if d.negative {
        push_char(&mut out, '-');
    }
    let ghost sign: Seq<char> = if d.negative { seq!['-'] } else { Seq::empty() };
    assert(out@ =~= sign);
    if d.scale == 0 {
        out.append(digs.as_str());
        assert(out@ =~= spec_format_decimal(*d));
        out
    } else {
        let cut = total - (d.scale as usize);
        let mut i: usize = 0;
        while i < cut
            invariant
                i <= cut,
                cut == dec_int_len(*d),
                total == ds.len(),
                digs@ == ds,
                out@ == sign + ds.take(i as int),
            decreases cut - i,
        {
            push_char(&mut out, digs.as_str().get_char(i));
            proof {
                assert(ds.take(i as int).push(ds[i as int]) =~= ds.take(i + 1int));
            }
            i = i + 1;
        }
        push_char(&mut out, '.');
        let mut k: usize = cut;
        while k < total
            invariant
                cut <= k <= total,
                cut == dec_int_len(*d),
                total == ds.len(),
                digs@ == ds,
                out@ == sign + ds.take(cut as int) + seq!['.'] + ds.subrange(cut as int, k as int),
            decreases total - k,
        {
            push_char(&mut out, digs.as_str().get_char(k));
            proof {
                assert(ds.subrange(cut as int, k as int).push(ds[k as int])
                    =~= ds.subrange(cut as int, k + 1int));
            }
            k = k + 1;
        }
        proof {
            assert(ds.subrange(cut as int, total as int) =~= ds.skip(cut as int));
            assert(out@ =~= spec_format_decimal(*d));
        }
        out
    }
}

/// What parsing a decimal yields: the unique representable decimal whose
/// canonical rendering is the text, or the parse-failure error.
pub open spec fn spec_parse_decimal(s: Seq<char>) -> Result<Decimal, Error> {
    if exists|d: Decimal| dec_valid(d) && spec_format_decimal(d) == s {
        Ok(choose|d: Decimal| dec_valid(d) && spec_format_decimal(d) == s)
    } else {
        Err(Error::InvalidNumber)
    }
}

/// Parses the canonical text of a decimal; the `forall` clause states that
/// parsing accepts exactly the formatted renderings, so decoding is a left
/// inverse of encoding for every representable decimal.
#[verifier::loop_isolation(false)]
#[verifier::rlimit(100)]
pub fn parse_decimal(s: &str) -> (r: Result<Decimal, Error>)
    ensures
        r == spec_parse_decimal(s@),
        r matches Ok(d) ==> dec_valid(d) && spec_format_decimal(d) == s@,
        forall|d: Decimal| dec_valid(d) && spec_format_decimal(d) == s@ ==> r == Ok::<Decimal, Error>(d),
        r matches Err(e) ==> e == Error::InvalidNumber,
{
    let n = s.unicode_len();
    let neg = n > 0 && s.get_char(0) == '-';
    let sl: usize = if neg { 1 } else { 0 };
    // find the end of the integer digit run
    let mut j: usize = sl;
    while j < n && char_digit_value(s.get_char(j)).is_some()
        invariant
            sl <= j <= n,
            n == s@.len(),
            sl == 1 <==> (s@.len() > 0 && s@[0] == '-'),
            forall|i: int| sl <= i < j ==> is_digit_char(#[trigger] s@[i]),
        decreases n - j,
    {
        j = j + 1;
    }
    if j == sl {
        proof {
            assert forall|d: Decimal| !(dec_valid(d) && spec_format_decimal(d) == s@) by {
                if spec_format_decimal(d) == s@ {
                    lemma_decimal_grammar(d, s@, j as int);
                }
            }
        }
        return Err(Error::InvalidNumber);
    }
    if j - sl >= 2 && s.get_char(sl) == '0' {
        proof {
            assert forall|d: Decimal| !(dec_valid(d) && spec_format_decimal(d) == s@) by {
                if spec_format_decimal(d) == s@ {
                    lemma_decimal_grammar(d, s@, j as int);
                }
            }
        }
        return Err(Error::InvalidNumber);
    }
    let has_frac = j < n;
    if has_frac {
        if s.get_char(j) != '.' {
            proof {
                assert forall|d: Decimal| !(dec_valid(d) && spec_format_decimal(d) == s@) by {
                    if spec_format_decimal(d) == s@ {
                        lemma_decimal_grammar(d, s@, j as int);
                    }
                }
            }
            return Err(Error::InvalidNumber);
        }
        if j + 1 == n {
            proof {
                assert forall|d: Decimal| !(dec_valid(d) && spec_format_decimal(d) == s@) by {
                    if spec_format_decimal(d) == s@ {
                        lemma_decimal_grammar(d, s@, j as int);
                    }
                }
            }
            return Err(Error::InvalidNumber);
        }
        // every character after the point must be a digit
        let mut k: usize = j + 1;
        while k < n
            invariant
                j + 1 <= k <= n,
                n == s@.len(),
                forall|i: int| j < i < k ==> is_digit_char(#[trigger] s@[i]),
            decreases n - k,
        {
            if char_digit_value(s.get_char(k)).is_none() {
                proof {
                    assert forall|d: Decimal| !(dec_valid(d) && spec_format_decimal(d) == s@) by {
                        if spec_format_decimal(d) == s@ {
                            lemma_decimal_grammar(d, s@, j as int);
                        }
                    }
                }
                return Err(Error::InvalidNumber);
            }
            k = k + 1;
        }
        if n - j - 1 > 9999 {
            proof {
                assert forall|d: Decimal| !(dec_valid(d) && spec_format_decimal(d) == s@) by {
                    if spec_format_decimal(d) == s@ {
                        lemma_decimal_grammar(d, s@, j as int);
                    }
                }
            }
            return Err(Error::InvalidNumber);
        }
    }
    parse_decimal_digits(s, sl, j, has_frac)
}

/// Accumulates the mantissa of a decimal whose text has already passed the
/// grammar scan, and assembles the result.
#[verifier::loop_isolation(false)]
#[verifier::rlimit(100)]
fn parse_decimal_digits(s: &str, sl: usize, j: usize, has_frac: bool) -> (r: Result<Decimal, Error>)
    requires
        sl <= 1,
        (sl == 1) <==> (s@.len() > 0 && s@[0] == '-'),
        sl < j <= s@.len(),
        forall|i: int| sl <= i < j ==> is_digit_char(#[trigger] s@[i]),
        j == s@.len() || !is_digit_char(s@[j as int]),
        j - sl >= 2 ==> s@[sl as int] != '0',
        has_frac <==> j < s@.len(),
        has_frac ==> s@[j as int] == '.' && j + 1 < s@.len() && s@.len() - j - 1 <= 9999,
        has_frac ==> forall|i: int| j < i < s@.len() ==> is_digit_char(#[trigger] s@[i]),
    ensures
        r matches Ok(d) ==> dec_valid(d) && spec_format_decimal(d) == s@,
        forall|d: Decimal| dec_valid(d) && spec_format_decimal(d) == s@ ==> r == Ok::<Decimal, Error>(d),
        r matches Err(e) ==> e == Error::InvalidNumber,
{
    let n = s.unicode_len();
    let neg = sl == 1;
    let ghost frac: Seq<char> = if has_frac { s@.subrange(j + 1, n as int) } else { Seq::<char>::empty() };
    let ghost dd: Seq<char> = s@.subrange(sl as int, j as int) + frac;
    let scale0: u32 = if has_frac { (n - j - 1) as u32 } else { 0 };
    let int_part = accumulate_digits(s, sl, j, 0, Ghost(Seq::<char>::empty()));
    let acc1 = match int_part {
        Some(v) => v,
        None => {
            proof {
                let p1 = Seq::<char>::empty() + s@.subrange(sl as int, j as int);
                assert(p1 =~= s@.subrange(sl as int, j as int));
                assert(dd.take(p1.len() as int) =~= p1);
                lemma_val_prefix_bound(dd, p1, u64::MAX as nat);
                lemma_no_huge_decimal(s@, j as int, p1);
            }
            return Err(Error::InvalidNumber);
        },
    };
    proof {
        assert(Seq::<char>::empty() + s@.subrange(sl as int, j as int) =~= s@.subrange(sl as int, j as int));
    }
    let acc: u64;
    if has_frac {
        let frac_part = accumulate_digits(s, j + 1, n, acc1, Ghost(s@.subrange(sl as int, j as int)));
        acc = match frac_part {
            Some(v) => v,
            None => {
                proof {
                    assert(dd.take(dd.len() as int) =~= dd);
                    lemma_no_huge_decimal(s@, j as int, dd);
                }
                return Err(Error::InvalidNumber);
            },
        };
    } else {
        acc = acc1;
        proof {
            assert(dd =~= s@.subrange(sl as int, j as int));
        }
    }
    let d0 = Decimal { negative: neg, mantissa: acc, scale: scale0 };
    proof {
        lemma_parse_assemble(s@, j as int, acc, scale0);
    }
    Ok(d0)
}

/// No representable decimal formats to a text whose mantissa digits already
/// exceed the largest mantissa within a prefix.
proof fn lemma_no_huge_decimal(s: Seq<char>, j: int, p1: Seq<char>)
    requires
        ({
            let sl: int = if s.len() > 0 && s[0] == '-' { 1 } else { 0 };
            let whole = s.subrange(sl, j)
                + (if j < s.len() { s.subrange(j + 1, s.len() as int) } else { Seq::<char>::empty() });
            &&& sl <= j <= s.len()
            &&& (forall|i: int| sl <= i < j ==> is_digit_char(#[trigger] s[i]))
            &&& (j == s.len() || !is_digit_char(s[j]))
            &&& p1.len() <= whole.len()
            &&& whole.take(p1.len() as int) == p1
            &&& val_of(p1) > u64::MAX
        }),
    ensures
        forall|d: Decimal| !(dec_valid(d) && spec_format_decimal(d) == s),
{
    let sl: int = if s.len() > 0 && s[0] == '-' { 1 } else { 0 };
    let whole = s.subrange(sl, j)
        + (if j < s.len() { s.subrange(j + 1, s.len() as int) } else { Seq::<char>::empty() });
    assert forall|d: Decimal| !(dec_valid(d) && spec_format_decimal(d) == s) by {
        if spec_format_decimal(d) == s {
            lemma_decimal_grammar(d, s, j);
            assert(d.scale > 0 ==> j < s.len());
            assert(d.scale == 0 ==> j == s.len());
            assert(d.mantissa == val_of(whole));
            lemma_val_prefix_bound(whole, p1, u64::MAX as nat);
        }
    }
}

/// Assembles the decimal a fully scanned text denotes, and shows it is the
/// only representable decimal whose rendering is that text.
proof fn lemma_parse_assemble(s: Seq<char>, j: int, acc: u64, scale0: u32)
    requires
        ({
            let sl: int = if s.len() > 0 && s[0] == '-' { 1 } else { 0 };
            &&& sl < j <= s.len()
            &&& (forall|i: int| sl <= i < j ==> is_digit_char(#[trigger] s[i]))
            &&& (j == s.len() || !is_digit_char(s[j]))
            &&& (j - sl >= 2 ==> s[sl] != '0')
            &&& (j < s.len() ==> s[j] == '.' && j + 1 < s.len()
                && (forall|i: int| j < i < s.len() ==> is_digit_char(#[trigger] s[i])))
            &&& scale0 == (if j < s.len() { s.len() - j - 1 } else { 0int })
            &&& scale0 <= 9999
            &&& acc == val_of(s.subrange(sl, j)
                + (if j < s.len() { s.subrange(j + 1, s.len() as int) } else { Seq::<char>::empty() }))
        }),
    ensures
        ({
            let sl: int = if s.len() > 0 && s[0] == '-' { 1 } else { 0 };
            let d0 = Decimal { negative: sl == 1, mantissa: acc, scale: scale0 };
            &&& dec_valid(d0)
            &&& spec_format_decimal(d0) == s
            &&& (forall|d: Decimal| dec_valid(d) && spec_format_decimal(d) == s ==> d == d0)
        }),
{
    let sl: int = if s.len() > 0 && s[0] == '-' { 1 } else { 0 };
    let frac: Seq<char> = if j < s.len() { s.subrange(j + 1, s.len() as int) } else { Seq::<char>::empty() };
    let dd = s.subrange(sl, j) + frac;
    let d0 = Decimal { negative: sl == 1, mantissa: acc, scale: scale0 };
    assert(dd.len() == j - sl + scale0);
    assert(forall|i: int| 0 <= i < dd.len() ==> is_digit_char(#[trigger] dd[i]));
    assert(dd.len() > scale0 + 1 ==> dd[0] != '0');
    lemma_padw_unique(dd, scale0 as nat + 1);
    assert(dec_digits(d0) == dd);
    let f = spec_format_decimal(d0);
    if j < s.len() {
        assert(dec_int_len(d0) == j - sl);
        assert(dec_digits(d0).take(j - sl) =~= s.subrange(sl, j));
        assert(dec_digits(d0).skip(j - sl) =~= frac);
        assert(f =~= s);
    } else {
        assert(f =~= s);
    }
    assert forall|d: Decimal| dec_valid(d) && spec_format_decimal(d) == s implies d == d0 by {
        lemma_decimal_grammar(d, s, j);
        assert(d.negative == (sl == 1));
        if j < s.len() {
            assert(d.scale > 0 || j == s.len());
            assert(d.scale == scale0);
        } else {
            assert(d.scale == 0);
        }
        assert(d.mantissa == acc);
    }
}

/// Folds the digits of `s[from..to)` onto an accumulator that already holds
/// the value of the ghost prefix; `None` exactly when the combined value
/// exceeds the largest mantissa.
#[verifier::loop_isolation(false)]
fn accumulate_digits(s: &str, from: usize, to: usize, acc0: u64, Ghost(pre): Ghost<Seq<char>>) -> (r: Option<u64>)
    requires
        from <= to <= s@.len(),
        forall|i: int| from <= i < to ==> is_digit_char(#[trigger] s@[i]),
        acc0 == val_of(pre),
    ensures
        r matches Some(v) ==> v == val_of(pre + s@.subrange(from as int, to as int)),
        r is None ==> val_of(pre + s@.subrange(from as int, to as int)) > u64::MAX,
{
    let mut acc: u64 = acc0;
    let mut i: usize = from;
    while i < to
        invariant
            from <= i <= to,
            acc == val_of(pre + s@.subrange(from as int, i as int)),
        decreases to - i,
    {
        let v = match char_digit_value(s.get_char(i)) {
            Some(v) => v,
            None => {
                proof { assert(false); }
                0
            },
        };
        let ghost p = pre + s@.subrange(from as int, i as int);
        let step = match acc.checked_mul(10) {
            Some(m) => m.checked_add(v as u64),
            None => None,
        };
        match step {
            Some(next) => {
                acc = next;
                proof {
                    assert(p.push(s@[i as int]) =~= pre + s@.subrange(from as int, i + 1int));
                    assert(val_of(p.push(s@[i as int])) == val_of(p) * 10 + digit_char_val(s@[i as int])) by {
                        assert(p.push(s@[i as int]).drop_last() =~= p);
                    }
                }
                i = i + 1;
            },
            None => {
                proof {
                    let p1 = p.push(s@[i as int]);
                    assert(val_of(p1) == val_of(p) * 10 + digit_char_val(s@[i as int])) by {
                        assert(p1.drop_last() =~= p);
                    }
                    assert(val_of(p1) > u64::MAX);
                    let whole = pre + s@.subrange(from as int, to as int);
                    assert(whole.take(p1.len() as int) =~= p1);
                    lemma_val_prefix_bound(whole, p1, u64::MAX as nat);
                }
                return None;
            },
        }
    }
    proof {
        assert(s@.subrange(from as int, i as int) =~= s@.subrange(from as int, to as int));
    }
    Some(acc)
}

/// If a prefix of a digit string already exceeds a bound, so does the whole
/// string.
pub proof fn lemma_val_prefix_bound(whole: Seq<char>, p: Seq<char>, bound: nat)
    requires
        p.len() <= whole.len(),
        whole.take(p.len() as int) == p,
        val_of(p) > bound,
    ensures
        val_of(whole) > bound,
{
    let rest = whole.skip(p.len() as int);
    assert(whole =~= p + rest);
    lemma_val_split(p, rest);
    lemma_pow10_pos(rest.len());
    assert(val_of(p) * pow10(rest.len()) >= val_of(p)) by (nonlinear_arith)
        requires pow10(rest.len()) >= 1,
    ;
}

} // verus!
