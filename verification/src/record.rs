use vstd::prelude::*;
use vstd::string::*;
use crate::date::{Date, date_valid, spec_format_date};
use crate::decimal::{Decimal, dec_valid, spec_format_decimal};

verus! {

/// The record name that marks a foreign-income record in the file.
pub open spec fn foreign_income_name() -> Seq<char> {
    "@CurrencyIncome"@
}

/// The name token of the one record kind this codec models.
pub fn foreign_income_record_name() -> (r: &'static str)
    ensures
        r@ == foreign_income_name(),
{
    "@CurrencyIncome"
}

pub open spec fn is_name_char(c: char) -> bool {
    (48 <= c as u32 && c as u32 <= 57)
        || (65 <= c as u32 && c as u32 <= 90)
        || (97 <= c as u32 && c as u32 <= 122)
}

/// The record-name grammar: an `@` followed by one or more ASCII letters or
/// digits. Tokens of this shape separate records; every other token is data.
pub open spec fn spec_is_record_name(s: Seq<char>) -> bool {
    s.len() >= 2 && s[0] == '@' && (forall|i: int| 1 <= i < s.len() ==> is_name_char(#[trigger] s[i]))
}

/// Decides whether a token has record-name shape.
#[verifier::loop_isolation(false)]
pub fn is_record_name(s: &str) -> (r: bool)
    ensures
        r == spec_is_record_name(s@),
{
    let n = s.unicode_len();
    if n < 2 {
        return false;
    }
    if s.get_char(0) != '@' {
        return false;
    }
    let mut i: usize = 1;
    while i < n
        invariant
            1 <= i <= n,
            forall|k: int| 1 <= k < i ==> is_name_char(#[trigger] s@[k]),
        decreases n - i,
    {
        let u = s.get_char(i) as u32;
        if !((48 <= u && u <= 57) || (65 <= u && u <= 90) || (97 <= u && u <= 122)) {
            return false;
        }
        i = i + 1;
    }
    true
}

/// One foreign-income entry: the typed fields of a known record.
#[derive(Clone, Debug, PartialEq)]
pub struct ForeignIncome {
    pub description: String,
    pub date: Date,
    pub currency: String,
    pub currency_rate: Decimal,
    pub amount: Decimal,
    pub paid_tax: Decimal,
    pub local_amount: Decimal,
    pub local_paid_tax: Decimal,
}

/// The mathematical value of a foreign-income record.
pub struct ForeignIncomeV {
    pub description: Seq<char>,
    pub date: Date,
    pub currency: Seq<char>,
    pub currency_rate: Decimal,
    pub amount: Decimal,
    pub paid_tax: Decimal,
    pub local_amount: Decimal,
    pub local_paid_tax: Decimal,
}

impl View for ForeignIncome {
    type V = ForeignIncomeV;

    open spec fn view(&self) -> ForeignIncomeV {
        ForeignIncomeV {
            description: self.description@,
            date: self.date,
            currency: self.currency@,
            currency_rate: self.currency_rate,
            amount: self.amount,
            paid_tax: self.paid_tax,
            local_amount: self.local_amount,
            local_paid_tax: self.local_paid_tax,
        }
    }
}

/// The decimals of a foreign-income record fit the format, and its date fits
/// the date pattern.
pub open spec fn fi_valid(f: ForeignIncomeV) -> bool {
    &&& date_valid(f.date)
    &&& dec_valid(f.currency_rate)
    &&& dec_valid(f.amount)
    &&& dec_valid(f.paid_tax)
    &&& dec_valid(f.local_amount)
    &&& dec_valid(f.local_paid_tax)
}

/// The field tokens of a foreign-income record, in schema order.
pub open spec fn foreign_income_field_tokens(f: ForeignIncomeV) -> Seq<Seq<char>> {
    seq![
        f.description,
        spec_format_date(f.date),
        f.currency,
        spec_format_decimal(f.currency_rate),
        spec_format_decimal(f.amount),
        spec_format_decimal(f.paid_tax),
        spec_format_decimal(f.local_amount),
        spec_format_decimal(f.local_paid_tax),
    ]
}

/// A record the codec does not model: its name and every following data
/// token, kept verbatim.
#[derive(Clone, Debug, PartialEq)]
pub struct UnknownRecord {
    pub name: String,
    pub raw_tokens: Vec<String>,
}

pub struct UnknownRecordV {
    pub name: Seq<char>,
    pub raw_tokens: Seq<Seq<char>>,
}

impl View for UnknownRecord {
    type V = UnknownRecordV;

    open spec fn view(&self) -> UnknownRecordV {
        UnknownRecordV {
            name: self.name@,
            raw_tokens: self.raw_tokens@.map_values(|t: String| t@),
        }
    }
}

/// One record of a statement: a known foreign-income record or an opaque
/// unknown record.
#[derive(Clone, Debug, PartialEq)]
pub enum Record {
    ForeignIncome(ForeignIncome),
    Unknown(UnknownRecord),
}

pub enum RecordV {
    ForeignIncome(ForeignIncomeV),
    Unknown(UnknownRecordV),
}

impl View for Record {
    type V = RecordV;

    open spec fn view(&self) -> RecordV {
        match self {
            Record::ForeignIncome(f) => RecordV::ForeignIncome(f@),
            Record::Unknown(u) => RecordV::Unknown(u@),
        }
    }
}

pub open spec fn record_valid(r: RecordV) -> bool {
    match r {
        RecordV::ForeignIncome(f) => fi_valid(f),
        RecordV::Unknown(u) => true,
    }
}

/// The token sequence a record stands for in the file: its name token
/// followed by its data tokens.
pub open spec fn record_tokens(r: RecordV) -> Seq<Seq<char>> {
    match r {
        RecordV::ForeignIncome(f) => seq![foreign_income_name()] + foreign_income_field_tokens(f),
        RecordV::Unknown(u) => seq![u.name] + u.raw_tokens,
    }
}

impl ForeignIncome {
    /// A field-by-field copy with the same mathematical value.
    pub fn duplicate(&self) -> (r: ForeignIncome)
        ensures
            r@ == self@,
    {
        ForeignIncome {
            description: self.description.clone(),
            date: self.date,
            currency: self.currency.clone(),
            currency_rate: self.currency_rate,
            amount: self.amount,
            paid_tax: self.paid_tax,
            local_amount: self.local_amount,
            local_paid_tax: self.local_paid_tax,
        }
    }
}

// ---------------------------------------------------------------------------
// The byte form of tokens and records
// ---------------------------------------------------------------------------

/// The bytes of one token: a four-digit zero-padded length field followed by
/// the legacy-encoded text; `None` if the text does not encode or the encoded
/// form exceeds the length field's capacity.
pub open spec fn token_bytes(t: Seq<char>) -> Option<Seq<u8>> {
    match crate::encoding::encode_1251(t) {
        Some(payload) => if payload.len() <= 9999 {
            match crate::encoding::encode_1251(crate::digits::padw(payload.len() as nat, 4)) {
                Some(lf) => Some(lf + payload),
                None => None,
            }
        } else {
            None
        },
        None => None,
    }
}

/// Concatenation over optional byte strings; `None` swallows everything.
pub open spec fn combine_bytes(x: Option<Seq<u8>>, y: Option<Seq<u8>>) -> Option<Seq<u8>> {
    match (x, y) {
        (Some(a), Some(b)) => Some(a + b),
        _ => None,
    }
}

/// The bytes of a token sequence, in order.
pub open spec fn tokens_bytes(ts: Seq<Seq<char>>) -> Option<Seq<u8>>
    decreases ts.len(),
{
    if ts.len() == 0 {
        Some(Seq::<u8>::empty())
    } else {
        combine_bytes(token_bytes(ts[0]), tokens_bytes(ts.skip(1)))
    }
}

/// The bytes of one record: its name token followed by its data tokens.
pub open spec fn record_bytes(r: RecordV) -> Option<Seq<u8>> {
    tokens_bytes(record_tokens(r))
}

/// The bytes of a record sequence, in order.
pub open spec fn records_bytes(rs: Seq<RecordV>) -> Option<Seq<u8>>
    decreases rs.len(),
{
    if rs.len() == 0 {
        Some(Seq::<u8>::empty())
    } else {
        combine_bytes(record_bytes(rs[0]), records_bytes(rs.skip(1)))
    }
}

pub proof fn lemma_tokens_bytes_concat(a: Seq<Seq<char>>, b: Seq<Seq<char>>)
    ensures
        tokens_bytes(a + b) == combine_bytes(tokens_bytes(a), tokens_bytes(b)),
    decreases a.len(),
{
    if a.len() == 0 {
        assert(a + b =~= b);
        match tokens_bytes(b) {
            Some(r) => {
                assert(Seq::<u8>::empty() + r =~= r);
            },
            None => {},
        }
    } else {
        lemma_tokens_bytes_concat(a.skip(1), b);
        assert((a + b).skip(1) =~= a.skip(1) + b);
        assert((a + b)[0] == a[0]);
        match (token_bytes(a[0]), tokens_bytes(a.skip(1)), tokens_bytes(b)) {
            (Some(h), Some(m), Some(t)) => {
                assert((h + m) + t =~= h + (m + t));
            },
            _ => {},
        }
    }
}

pub proof fn lemma_tokens_bytes_push(ts: Seq<Seq<char>>, t: Seq<char>)
    ensures
        tokens_bytes(ts.push(t)) == combine_bytes(tokens_bytes(ts), token_bytes(t)),
{
    assert(ts.push(t) =~= ts + seq![t]);
    lemma_tokens_bytes_concat(ts, seq![t]);
    assert(seq![t].skip(1) =~= Seq::<Seq<char>>::empty());
    assert(seq![t][0] == t);
    assert(seq![t].len() == 1);
    assert(tokens_bytes(Seq::<Seq<char>>::empty()) == Some(Seq::<u8>::empty()));
    match token_bytes(t) {
        Some(h) => {
            assert(tokens_bytes(seq![t]) == combine_bytes(Some(h), Some(Seq::<u8>::empty())));
            assert(h + Seq::<u8>::empty() =~= h);
        },
        None => {},
    }
}

pub proof fn lemma_tokens_bytes_single(t: Seq<char>)
    ensures
        tokens_bytes(seq![t]) == token_bytes(t),
{
    assert(seq![t].skip(1) =~= Seq::<Seq<char>>::empty());
    assert(seq![t][0] == t);
    assert(seq![t].len() == 1);
    assert(tokens_bytes(Seq::<Seq<char>>::empty()) == Some(Seq::<u8>::empty()));
    match token_bytes(t) {
        Some(h) => {
            assert(tokens_bytes(seq![t]) == combine_bytes(Some(h), Some(Seq::<u8>::empty())));
            assert(h + Seq::<u8>::empty() =~= h);
        },
        None => {},
    }
}

/// A token sequence with an unencodable member has no byte form.
pub proof fn lemma_tokens_bytes_elem_none(ts: Seq<Seq<char>>, i: int)
    requires
        0 <= i < ts.len(),
        token_bytes(ts[i]) is None,
    ensures
        tokens_bytes(ts) is None,
    decreases ts.len(),
{
    if i > 0 {
        assert(ts.skip(1)[i - 1] == ts[i]);
        lemma_tokens_bytes_elem_none(ts.skip(1), i - 1);
    }
}

pub proof fn lemma_records_bytes_push(rs: Seq<RecordV>, r: RecordV)
    ensures
        records_bytes(rs.push(r)) == combine_bytes(records_bytes(rs), record_bytes(r)),
    decreases rs.len(),
{
    if rs.len() == 0 {
        assert(rs.push(r).skip(1) =~= Seq::<RecordV>::empty());
        assert(rs.push(r)[0] == r);
        assert(rs.push(r).len() == 1);
        assert(records_bytes(Seq::<RecordV>::empty()) == Some(Seq::<u8>::empty()));
        match record_bytes(r) {
            Some(h) => {
                assert(records_bytes(rs.push(r)) == combine_bytes(Some(h), Some(Seq::<u8>::empty())));
                assert(h + Seq::<u8>::empty() =~= h);
                assert(records_bytes(rs) == Some(Seq::<u8>::empty()));
                assert(Seq::<u8>::empty() + h =~= h);
            },
            None => {},
        }
    } else {
        lemma_records_bytes_push(rs.skip(1), r);
        assert(rs.push(r).skip(1) =~= rs.skip(1).push(r));
        assert(rs.push(r)[0] == rs[0]);
        match (record_bytes(rs[0]), records_bytes(rs.skip(1)), record_bytes(r)) {
            (Some(h), Some(m), Some(t)) => {
                assert((h + m) + t =~= h + (m + t));
            },
            _ => {},
        }
    }
}

} // verus!
