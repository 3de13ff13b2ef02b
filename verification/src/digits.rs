use vstd::prelude::*;
use crate::encoding::push_char;

verus! {

// Decimal digit strings: the mathematical model shared by the token length
// field, the integer and decimal primitives, the date fields and the header
// year. A digit string is a `Seq<char>` of ASCII digits; `val_of` gives its
// value and `padw` renders a value as digits, zero-padded to a minimum width.

pub open spec fn is_digit_char(c: char) -> bool {
    48 <= c as u32 && c as u32 <= 57
}

pub open spec fn digit_char_val(c: char) -> int {
    c as u32 - 48
}

pub open spec fn char_of_digit(d: int) -> char {
    if d == 0 { '0' }
    else if d == 1 { '1' }
    else if d == 2 { '2' }
    else if d == 3 { '3' }
    else if d == 4 { '4' }
    else if d == 5 { '5' }
    else if d == 6 { '6' }
    else if d == 7 { '7' }
    else if d == 8 { '8' }
    else { '9' }
}

pub open spec fn all_digits(s: Seq<char>) -> bool {
    forall|i: int| 0 <= i < s.len() ==> is_digit_char(#[trigger] s[i])
}

pub open spec fn val_of(s: Seq<char>) -> nat
    decreases s.len(),
{
    if s.len() == 0 {
        0
    } else {
        val_of(s.drop_last()) * 10 + (if is_digit_char(s.last()) { digit_char_val(s.last()) as nat } else { 0 })
    }
}

pub open spec fn pow10(e: nat) -> nat
    decreases e,
{
    if e == 0 { 1 } else { 10 * pow10((e - 1) as nat) }
}

/// The decimal rendering of `n`, zero-padded on the left to at least `w`
/// characters (at least one character in any case).
pub open spec fn padw(n: nat, w: nat) -> Seq<char>
    decreases w + n,
{
    if w <= 1 && n < 10 {
        seq![char_of_digit(n as int)]
    } else {
        padw(n / 10, if w <= 1 { 0 } else { (w - 1) as nat }).push(char_of_digit((n % 10) as int))
    }
}

pub proof fn lemma_char_digit_id(d: int)
    requires
        0 <= d <= 9,
    ensures
        is_digit_char(char_of_digit(d)),
        digit_char_val(char_of_digit(d)) == d,
{
}

pub proof fn lemma_digit_char_id(c: char)
    requires
        is_digit_char(c),
    ensures
        char_of_digit(digit_char_val(c)) == c,
{
    let x = char_of_digit(digit_char_val(c));
    assert(x as u32 == c as u32) by {
        if c as u32 == 48 { } else if c as u32 == 49 { } else if c as u32 == 50 { }
        else if c as u32 == 51 { } else if c as u32 == 52 { } else if c as u32 == 53 { }
        else if c as u32 == 54 { } else if c as u32 == 55 { } else if c as u32 == 56 { }
        else { assert(c as u32 == 57); }
    }
    vstd::utf8::char_u32_cast(c, c as u32);
    vstd::utf8::char_u32_cast(x, x as u32);
}

pub proof fn lemma_pow10_small()
    ensures
        pow10(0) == 1,
        pow10(1) == 10,
        pow10(2) == 100,
        pow10(3) == 1000,
        pow10(4) == 10000,
{
    assert(pow10(0) == 1);
    assert(pow10(1) == 10);
    assert(pow10(2) == 100);
    assert(pow10(3) == 1000);
    assert(pow10(4) == 10000);
}

pub proof fn lemma_pow10_pos(e: nat)
    ensures
        pow10(e) >= 1,
    decreases e,
{
    if e > 0 {
        lemma_pow10_pos((e - 1) as nat);
    }
}

pub proof fn lemma_val_bound(s: Seq<char>)
    ensures
        val_of(s) < pow10(s.len()),
    decreases s.len(),
{
    if s.len() == 0 {
    } else {
        lemma_val_bound(s.drop_last());
    }
}

pub proof fn lemma_val_single(c: char)
    ensures
        val_of(seq![c]) == if is_digit_char(c) { digit_char_val(c) } else { 0 },
{
    let s = seq![c];
    assert(s.last() == c);
    assert(s.drop_last() =~= Seq::<char>::empty());
    assert(val_of(Seq::<char>::empty()) == 0);
}

pub proof fn lemma_val_split(a: Seq<char>, b: Seq<char>)
    ensures
        val_of(a + b) == val_of(a) * pow10(b.len()) + val_of(b),
    decreases b.len(),
{
    if b.len() == 0 {
        assert(a + b =~= a);
        assert(val_of(b) == 0);
        assert(pow10(b.len()) == 1);
        assert(val_of(a) * 1 == val_of(a));
    } else {
        lemma_val_split(a, b.drop_last());
        assert((a + b).drop_last() =~= a + b.drop_last());
        assert((a + b).last() == b.last());
        lemma_pow10_pos((b.len() - 1) as nat);
        assert(val_of(b) == val_of(b.drop_last()) * 10
            + (if is_digit_char(b.last()) { digit_char_val(b.last()) as nat } else { 0 }));
        assert(val_of(a + b) == (val_of(a) * pow10((b.len() - 1) as nat) + val_of(b.drop_last())) * 10
            + (if is_digit_char(b.last()) { digit_char_val(b.last()) as nat } else { 0 }));
        assert(val_of(a) * pow10((b.len() - 1) as nat) * 10 == val_of(a) * pow10(b.len()))
            by (nonlinear_arith)
            requires pow10(b.len()) == 10 * pow10((b.len() - 1) as nat),
        ;
        assert((val_of(a) * pow10((b.len() - 1) as nat) + val_of(b.drop_last())) * 10
            == val_of(a) * pow10((b.len() - 1) as nat) * 10 + val_of(b.drop_last()) * 10)
            by (nonlinear_arith);
        assert(val_of(a + b) == val_of(a) * pow10(b.len()) + val_of(b));
    }
}

pub proof fn lemma_val_zero(s: Seq<char>)
    requires
        all_digits(s),
        val_of(s) == 0,
    ensures
        forall|i: int| 0 <= i < s.len() ==> s[i] == '0',
    decreases s.len(),
{
    if s.len() > 0 {
        assert(is_digit_char(s.last()));
        assert(digit_char_val(s.last()) == 0);
        lemma_digit_char_id(s.last());
        assert(s.last() == '0');
        assert(all_digits(s.drop_last())) by {
            assert(forall|i: int| 0 <= i < s.len() - 1 ==> s.drop_last()[i] == s[i]);
        }
        lemma_val_zero(s.drop_last());
        assert(forall|i: int| 0 <= i < s.len() - 1 ==> s[i] == s.drop_last()[i]);
    }
}

pub proof fn lemma_val_first(s: Seq<char>)
    requires
        all_digits(s),
        s.len() >= 1,
        s[0] != '0',
    ensures
        val_of(s) >= pow10((s.len() - 1) as nat),
    decreases s.len(),
{
    let a = s.take(1);
    let b = s.skip(1);
    assert(s =~= a + b);
    lemma_val_split(a, b);
    assert(a =~= seq![s[0]]);
    lemma_val_single(s[0]);
    assert(val_of(a) == digit_char_val(s[0]));
    assert(digit_char_val(s[0]) >= 1) by {
        lemma_digit_char_id(s[0]);
    }
    assert(val_of(a) * pow10(b.len()) >= pow10(b.len())) by (nonlinear_arith)
        requires val_of(a) >= 1,
    ;
}

pub proof fn lemma_padw_basic(n: nat, w: nat)
    ensures
        all_digits(padw(n, w)),
        val_of(padw(n, w)) == n,
        padw(n, w).len() >= 1,
        padw(n, w).len() >= w,
        n < pow10(w) && w >= 1 ==> padw(n, w).len() == w,
        padw(n, w).len() > w && padw(n, w).len() > 1 ==> padw(n, w)[0] != '0',
    decreases w + n,
{
    let p = padw(n, w);
    if w <= 1 && n < 10 {
        lemma_char_digit_id(n as int);
        lemma_val_single(char_of_digit(n as int));
        assert(p =~= seq![char_of_digit(n as int)]);
        if w >= 1 {
            lemma_pow10_pos((w - 1) as nat);
        }
    } else {
        let w2: nat = if w <= 1 { 0 } else { (w - 1) as nat };
        lemma_padw_basic(n / 10, w2);
        let q = padw(n / 10, w2);
        assert(p == q.push(char_of_digit((n % 10) as int)));
        lemma_char_digit_id((n % 10) as int);
        assert(p.drop_last() =~= q);
        assert(val_of(p) == val_of(q) * 10 + n % 10);
        assert(val_of(p) == (n / 10) * 10 + n % 10);
        assert(n == (n / 10) * 10 + n % 10) by (nonlinear_arith);
        assert(val_of(p) == n);
        assert(all_digits(p)) by {
            assert(forall|i: int| 0 <= i < q.len() ==> p[i] == q[i]);
        }
        // length claims
        if n < pow10(w) && w >= 1 {
            if w == 1 {
                // n >= 10 here, pow10(1) == 10: contradiction
                assert(pow10(0nat) == 1);
                assert(pow10(1nat) == 10);
                assert(false);
            } else {
                assert(pow10(w) == 10 * pow10(w2));
                assert(n / 10 < pow10(w2)) by (nonlinear_arith)
                    requires n < 10 * pow10(w2),
                ;
            }
        }
        if p.len() > w && p.len() > 1 {
            if q.len() > w2 && q.len() > 1 {
                assert(p[0] == q[0]);
            } else if q.len() == 1 {
                // q is a single digit: p.len() == 2 > w, so w <= 1, so n >= 10,
                // hence q == padw(n/10, w2) with n/10 >= 1, so q[0] != '0'.
                if w <= 1 {
                    assert(n >= 10);
                    assert(val_of(q) == n / 10 >= 1);
                    if q[0] == '0' {
                        assert(q =~= seq![q[0]]);
                        lemma_val_single(q[0]);
                        assert(val_of(q) == 0);
                        assert(false);
                    }
                } else {
                    // w >= 2 and p.len() == q.len() + 1 > w, so q.len() > w - 1 == w2,
                    // contradiction with q.len() == 1 unless w2 < 1, impossible.
                    assert(q.len() > w2);
                    assert(q.len() > 1 || w2 == 0);
                    assert(w2 >= 1);
                    assert(false);
                }
            } else {
                assert(q.len() >= w2 + 1 || q.len() <= w2);
                assert(q.len() <= w2);
                assert(false) by {
                    assert(q.len() >= w2);
                    assert(q.len() == w2);
                    assert(p.len() == w2 + 1);
                    assert(p.len() > w);
                    assert(w2 + 1 > w);
                    assert(w <= 1 ==> w2 == 0 && p.len() == 1);
                    assert(w >= 2 ==> w2 == w - 1 && p.len() == w);
                };
            }
        }
    }
}

pub proof fn lemma_padw_unique(s: Seq<char>, w: nat)
    requires
        all_digits(s),
        w >= 1,
        s.len() >= w,
        s.len() > w ==> s[0] != '0',
    ensures
        padw(val_of(s), w) == s,
    decreases s.len(),
{
    let n = val_of(s);
    if s.len() == 1 {
        assert(s =~= seq![s[0]]);
        lemma_val_single(s[0]);
        assert(s.last() == s[0]);
        assert(n == digit_char_val(s.last()));
        assert(n < 10);
        lemma_digit_char_id(s.last());
        assert(padw(n, w) =~= seq![char_of_digit(n as int)]);
        assert(s =~= seq![s[0]]);
        assert(s.last() == s[0]);
    } else {
        let s2 = s.drop_last();
        assert(all_digits(s2)) by {
            assert(forall|i: int| 0 <= i < s2.len() ==> s2[i] == s[i]);
        }
        assert(n == val_of(s2) * 10 + digit_char_val(s.last()));
        // not the single-digit base case of padw:
        if w <= 1 && n < 10 {
            // s.len() >= 2 > w, so s[0] != '0', so val_of(s) >= pow10(s.len()-1) >= 10
            lemma_val_first(s);
            lemma_pow10_pos((s.len() - 2) as nat);
            assert(pow10((s.len() - 1) as nat) == 10 * pow10((s.len() - 2) as nat));
            assert(false);
        }
        let w2: nat = if w <= 1 { 0 } else { (w - 1) as nat };
        let w2r: nat = if w <= 1 { 1 } else { (w - 1) as nat };
        assert(padw(n, w) == padw(n / 10, w2).push(char_of_digit((n % 10) as int)));
        assert(n % 10 == digit_char_val(s.last()) && n / 10 == val_of(s2)) by (nonlinear_arith)
            requires
                n == val_of(s2) * 10 + digit_char_val(s.last()),
                0 <= digit_char_val(s.last()) < 10,
        ;
        assert(0 <= digit_char_val(s.last()) < 10) by {
            assert(is_digit_char(s.last()));
        }
        // recurse on s2 with width w2r; padw(m, 0) == padw(m, 1) structurally
        assert(s2.len() >= w2r);
        assert(s2.len() > w2r ==> s2[0] != '0') by {
            if s2.len() > w2r {
                if w <= 1 {
                    assert(s.len() > w);
                } else {
                    assert(s.len() > w);
                }
                assert(s2[0] == s[0]);
            }
        }
        lemma_padw_unique(s2, w2r);
        assert(padw(val_of(s2), w2) == padw(val_of(s2), w2r)) by {
            lemma_padw_w0(val_of(s2));
        }
        lemma_digit_char_id(s.last());
        assert(padw(n, w) == s2.push(s.last()));
        assert(s2.push(s.last()) =~= s);
    }
}

/// Width 0 and width 1 render identically.
pub proof fn lemma_padw_w0(n: nat)
    ensures
        padw(n, 0) == padw(n, 1),
    decreases n,
{
    if n >= 10 {
        lemma_padw_w0(n / 10);
    }
}

// ---------------------------------------------------------------------------
// Executable digit helpers
// ---------------------------------------------------------------------------

pub fn digit_to_char(d: u8) -> (c: char)
    requires
        d < 10,
    ensures
        c == char_of_digit(d as int),
{
    if d == 0 { '0' }
    else if d == 1 { '1' }
    else if d == 2 { '2' }
    else if d == 3 { '3' }
    else if d == 4 { '4' }
    else if d == 5 { '5' }
    else if d == 6 { '6' }
    else if d == 7 { '7' }
    else if d == 8 { '8' }
    else { '9' }
}

pub fn char_digit_value(c: char) -> (r: Option<u8>)
    ensures
        r matches Some(v) ==> is_digit_char(c) && v == digit_char_val(c) && v < 10,
        r is None ==> !is_digit_char(c),
{
    let u = c as u32;
    if 48 <= u && u <= 57 {
        Some((u - 48) as u8)
    } else {
        None
    }
}

/// Appends the decimal rendering of `n`, zero-padded to at least `w` characters.
pub fn push_padded(n: u64, w: usize, out: &mut String)
    ensures
        final(out)@ == old(out)@ + padw(n as nat, w as nat),
    decreases w + n,
{
    if w <= 1 && n < 10 {
        push_char(out, digit_to_char(n as u8));
        assert(out@ =~= old(out)@ + padw(n as nat, w as nat));
    } else {
        let ghost prior = out@;
        let w2: usize = if w <= 1 { 0 } else { w - 1 };
        push_padded(n / 10, w2, out);
        push_char(out, digit_to_char((n % 10) as u8));
        proof {
            if w <= 1 {
                lemma_padw_w0((n / 10) as nat);
            }
            assert(out@ =~= prior + padw(n as nat, w as nat));
        }
    }
}

/// Reads a short fixed-width digit field out of `s`; `None` exactly when some
/// character in the range is not a digit.
#[verifier::loop_isolation(false)]
pub fn parse_fixed_digits(s: &str, from: usize, to: usize) -> (r: Option<u64>)
    requires
        from <= to <= s@.len(),
        to - from <= 4,
    ensures
        r matches Some(v) ==> v == val_of(s@.subrange(from as int, to as int))
            && (forall|i: int| from <= i < to ==> is_digit_char(#[trigger] s@[i])),
        r is None ==> !(forall|i: int| from <= i < to ==> is_digit_char(#[trigger] s@[i])),
{
    let mut acc: u64 = 0;
    let mut i: usize = from;
    while i < to
        invariant
            from <= i <= to,
            acc == val_of(s@.subrange(from as int, i as int)),
            acc < pow10((i - from) as nat),
            forall|k: int| from <= k < i ==> is_digit_char(#[trigger] s@[k]),
        decreases to - i,
    {
        let v = match char_digit_value(s.get_char(i)) {
            Some(v) => v,
            None => {
                return None;
            },
        };
        proof {
            let p = s@.subrange(from as int, i as int);
            assert(p.push(s@[i as int]) =~= s@.subrange(from as int, i + 1int));
            assert(val_of(p.push(s@[i as int])) == val_of(p) * 10 + digit_char_val(s@[i as int])) by {
                assert(p.push(s@[i as int]).drop_last() =~= p);
            }
            lemma_pow10_pos((i - from) as nat);
            assert(pow10((i + 1 - from) as nat) == 10 * pow10((i - from) as nat));
            assert(acc * 10 + v < 10 * pow10((i - from) as nat));
            lemma_pow10_small();
            assert(i - from <= 3);
            assert(pow10((i - from) as nat) <= 1000) by {
                if i - from == 0 { } else if i - from == 1 { } else if i - from == 2 { } else { assert(i - from == 3); }
            }
        }
        assert(acc <= 999);
        acc = acc * 10 + (v as u64);
        i = i + 1;
    }
    Some(acc)
}

/// The canonical text of an unsigned integer: its digits, with no redundant
/// leading zero.
pub open spec fn spec_format_integer(v: u64) -> Seq<char> {
    padw(v as nat, 1)
}

/// Renders an unsigned integer in its canonical text form.
pub fn format_integer(v: u64) -> (r: String)
    ensures
        r@ == spec_format_integer(v),
{
    let mut out = String::new();
    push_padded(v, 1, &mut out);
    proof {
        assert(out@ =~= spec_format_integer(v));
    }
    out
}

/// Parses the canonical text of an unsigned integer; the second `ensures`
/// clause states that parsing accepts exactly the formatted renderings.
#[verifier::loop_isolation(false)]
pub fn parse_integer(s: &str) -> (r: Result<u64, crate::Error>)
    ensures
        r matches Ok(v) ==> spec_format_integer(v) == s@,
        forall|v: u64| spec_format_integer(v) == s@ ==> r == Ok::<u64, crate::Error>(v),
        r matches Err(e) ==> e == crate::Error::InvalidNumber,
{
    let n = s.unicode_len();
    if n == 0 {
        proof {
            assert forall|v: u64| spec_format_integer(v) != s@ by {
                lemma_padw_basic(v as nat, 1);
            }
        }
        return Err(crate::Error::InvalidNumber);
    }
    if n >= 2 && s.get_char(0) == '0' {
        proof {
            assert forall|v: u64| spec_format_integer(v) != s@ by {
                lemma_padw_basic(v as nat, 1);
            }
        }
        return Err(crate::Error::InvalidNumber);
    }
    let mut acc: u64 = 0;
    let mut i: usize = 0;
    while i < n
        invariant
            0 <= i <= n,
            n == s@.len(),
            acc == val_of(s@.subrange(0, i as int)),
            forall|k: int| 0 <= k < i ==> is_digit_char(#[trigger] s@[k]),
        decreases n - i,
    {
        let v = match char_digit_value(s.get_char(i)) {
            Some(v) => v,
            None => {
                proof {
                    assert forall|v: u64| spec_format_integer(v) != s@ by {
                        lemma_padw_basic(v as nat, 1);
                    }
                }
                return Err(crate::Error::InvalidNumber);
            },
        };
        let ghost p = s@.subrange(0, i as int);
        let step = match acc.checked_mul(10) {
            Some(m) => m.checked_add(v as u64),
            None => None,
        };
        match step {
            Some(next) => {
                acc = next;
                proof {
                    assert(p.push(s@[i as int]) =~= s@.subrange(0, i + 1int));
                    assert(val_of(p.push(s@[i as int])) == val_of(p) * 10 + digit_char_val(s@[i as int])) by {
                        assert(p.push(s@[i as int]).drop_last() =~= p);
                    }
                }
                i = i + 1;
            },
            None => {
                proof {
                    let p1 = s@.subrange(0, i + 1int);
                    assert(p1.drop_last() =~= p);
                    assert(p1.last() == s@[i as int]);
                    assert(val_of(p1) == acc * 10 + digit_char_val(s@[i as int]));
                    assert(val_of(p1) > u64::MAX);
                    assert forall|v: u64| spec_format_integer(v) != s@ by {
                        lemma_padw_basic(v as nat, 1);
                        if spec_format_integer(v) == s@ {
                            let rest = s@.skip(i + 1);
                            assert(s@ =~= p1 + rest);
                            lemma_val_split(p1, rest);
                            lemma_pow10_pos(rest.len());
                            assert(val_of(p1) * pow10(rest.len()) >= val_of(p1)) by (nonlinear_arith)
                                requires pow10(rest.len()) >= 1,
                            ;
                        }
                    }
                }
                return Err(crate::Error::InvalidNumber);
            },
        }
    }
    proof {
        assert(s@.subrange(0, n as int) =~= s@);
        lemma_padw_unique(s@, 1);
        assert forall|v: u64| spec_format_integer(v) == s@
            implies Ok::<u64, crate::Error>(acc) == Ok::<u64, crate::Error>(v) by {
            lemma_padw_basic(v as nat, 1);
        }
    }
    Ok(acc)
}

} // verus!
