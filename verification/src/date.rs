use vstd::prelude::*;
use vstd::string::*;
use crate::digits::{
    is_digit_char, val_of, pow10, padw,
    lemma_padw_basic, lemma_padw_unique, lemma_val_bound, lemma_pow10_small,
    parse_fixed_digits, push_padded,
};
use crate::encoding::push_char;
use crate::Error;

verus! {

/// A calendar date as the format stores it: day, month and four-digit year.
#[derive(Clone, Copy, Debug, PartialEq, Eq, Structural)]
pub struct Date {
    pub day: u8,
    pub month: u8,
    pub year: u16,
}

/// The ranges the fixed `dd.mm.yyyy` pattern can hold.
pub open spec fn date_valid(dt: Date) -> bool {
    1 <= dt.day <= 31 && 1 <= dt.month <= 12 && dt.year <= 9999
}

/// The canonical text of a date: `dd.mm.yyyy`, each field zero-padded.
pub open spec fn spec_format_date(dt: Date) -> Seq<char> {
    padw(dt.day as nat, 2) + seq!['.'] + padw(dt.month as nat, 2) + seq!['.'] + padw(dt.year as nat, 4)
}

/// Character-level shape of a formatted valid date.
pub proof fn lemma_date_shape(dt: Date)
    requires
        date_valid(dt),
    ensures
        ({
            let f = spec_format_date(dt);
            &&& f.len() == 10
            &&& f.subrange(0, 2) == padw(dt.day as nat, 2)
            &&& f[2] == '.'
            &&& f.subrange(3, 5) == padw(dt.month as nat, 2)
            &&& f[5] == '.'
            &&& f.subrange(6, 10) == padw(dt.year as nat, 4)
            &&& val_of(f.subrange(0, 2)) == dt.day
            &&& val_of(f.subrange(3, 5)) == dt.month
            &&& val_of(f.subrange(6, 10)) == dt.year
            &&& (forall|i: int| 0 <= i < 10 && i != 2 && i != 5 ==> is_digit_char(#[trigger] f[i]))
        }),
{
    let f = spec_format_date(dt);
    lemma_padw_basic(dt.day as nat, 2);
    lemma_padw_basic(dt.month as nat, 2);
    lemma_padw_basic(dt.year as nat, 4);
    lemma_pow10_small();
    let pd = padw(dt.day as nat, 2);
    let pm = padw(dt.month as nat, 2);
    let py = padw(dt.year as nat, 4);
    assert(pd.len() == 2 && pm.len() == 2 && py.len() == 4);
    assert(f.subrange(0, 2) =~= pd);
    assert(f.subrange(3, 5) =~= pm);
    assert(f.subrange(6, 10) =~= py);
}

/// Renders a date in the fixed `dd.mm.yyyy` pattern.
pub fn format_date(dt: &Date) -> (r: String)
    ensures
        r@ == spec_format_date(*dt),
{
    let mut out = String::new();
    push_padded(dt.day as u64, 2, &mut out);
    push_char(&mut out, '.');
    push_padded(dt.month as u64, 2, &mut out);
    push_char(&mut out, '.');
    push_padded(dt.year as u64, 4, &mut out);
    proof {
        assert(out@ =~= spec_format_date(*dt));
    }
    out
}

/// What parsing a date yields: the unique valid date whose rendering is the
/// text, or the parse-failure error.
pub open spec fn spec_parse_date(s: Seq<char>) -> Result<Date, Error> {
    if exists|dt: Date| date_valid(dt) && spec_format_date(dt) == s {
        Ok(choose|dt: Date| date_valid(dt) && spec_format_date(dt) == s)
    } else {
        Err(Error::InvalidDate)
    }
}

/// Parses the fixed `dd.mm.yyyy` pattern; the `forall` clause states that
/// parsing accepts exactly the formatted renderings of valid dates.
#[verifier::loop_isolation(false)]
pub fn parse_date(s: &str) -> (r: Result<Date, Error>)
    ensures
        r == spec_parse_date(s@),
        r matches Ok(dt) ==> date_valid(dt) && spec_format_date(dt) == s@,
        forall|dt: Date| date_valid(dt) && spec_format_date(dt) == s@ ==> r == Ok::<Date, Error>(dt),
        r matches Err(e) ==> e == Error::InvalidDate,
{
    let n = s.unicode_len();
    if n != 10 {
        proof {
            assert forall|dt: Date| !(date_valid(dt) && spec_format_date(dt) == s@) by {
                if date_valid(dt) { lemma_date_shape(dt); }
            }
        }
        return Err(Error::InvalidDate);
    }
    if s.get_char(2) != '.' || s.get_char(5) != '.' {
        proof {
            assert forall|dt: Date| !(date_valid(dt) && spec_format_date(dt) == s@) by {
                if date_valid(dt) { lemma_date_shape(dt); }
            }
        }
        return Err(Error::InvalidDate);
    }
    let day_v = parse_fixed_digits(s, 0, 2);
    let month_v = parse_fixed_digits(s, 3, 5);
    let year_v = parse_fixed_digits(s, 6, 10);
    if day_v.is_none() || month_v.is_none() || year_v.is_none() {
        proof {
            assert forall|dt: Date| !(date_valid(dt) && spec_format_date(dt) == s@) by {
                if date_valid(dt) && spec_format_date(dt) == s@ {
                    lemma_date_shape(dt);
                    assert(is_digit_char(s@[0]) && is_digit_char(s@[1]));
                    assert(is_digit_char(s@[3]) && is_digit_char(s@[4]));
                    assert(is_digit_char(s@[6]) && is_digit_char(s@[7]));
                    assert(is_digit_char(s@[8]) && is_digit_char(s@[9]));
                }
            }
        }
        return Err(Error::InvalidDate);
    }
    let day64 = day_v.unwrap();
    let month64 = month_v.unwrap();
    let year64 = year_v.unwrap();
    proof {
        lemma_val_bound(s@.subrange(0, 2));
        lemma_val_bound(s@.subrange(3, 5));
        lemma_val_bound(s@.subrange(6, 10));
        lemma_pow10_small();
    }
    if day64 < 1 || day64 > 31 || month64 < 1 || month64 > 12 {
        proof {
            assert forall|dt: Date| !(date_valid(dt) && spec_format_date(dt) == s@) by {
                if date_valid(dt) && spec_format_date(dt) == s@ {
                    lemma_date_shape(dt);
                }
            }
        }
        return Err(Error::InvalidDate);
    }
    let dt0 = Date { day: day64 as u8, month: month64 as u8, year: year64 as u16 };
    proof {
        lemma_padw_unique(s@.subrange(0, 2), 2);
        lemma_padw_unique(s@.subrange(3, 5), 2);
        lemma_padw_unique(s@.subrange(6, 10), 4);
        assert(spec_format_date(dt0) =~= s@);
        assert forall|dt: Date| date_valid(dt) && spec_format_date(dt) == s@
            implies Ok::<Date, Error>(dt0) == Ok::<Date, Error>(dt) by {
            lemma_date_shape(dt);
            assert(dt.day == val_of(s@.subrange(0, 2)));
            assert(dt.month == val_of(s@.subrange(3, 5)));
            assert(dt.year == val_of(s@.subrange(6, 10)));
        }
    }
    Ok(dt0)
}

} // verus!
