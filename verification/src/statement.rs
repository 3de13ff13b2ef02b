use vstd::prelude::*;
use crate::date::{Date, date_valid};
use crate::decimal::{Decimal, dec_valid};
use crate::record::{
    Record, RecordV, ForeignIncome, ForeignIncomeV,
    record_valid, record_bytes, records_bytes, combine_bytes,
    lemma_records_bytes_push,
};
use crate::digits::padw;
use crate::encoding::encode_1251;
use crate::Error;

verus! {

/// One tax declaration held in memory: where it came from, its format year,
/// and its records in file order.
#[derive(Clone, Debug, PartialEq)]
pub struct TaxStatement {
    pub path: String,
    pub year: u16,
    pub records: Vec<Record>,
}

pub struct TaxStatementV {
    pub path: Seq<char>,
    pub year: int,
    pub records: Seq<RecordV>,
}

impl View for TaxStatement {
    type V = TaxStatementV;

    open spec fn view(&self) -> TaxStatementV {
        TaxStatementV {
            path: self.path@,
            year: self.year as int,
            records: self.records@.map_values(|r: Record| r@),
        }
    }
}

impl TaxStatement {
    /// Every known record carries values the format can render.
    pub open spec fn wf(&self) -> bool {
        forall|i: int| 0 <= i < self@.records.len() ==> record_valid(#[trigger] self@.records[i])
    }
}

/// The fixed header text of a statement file: a tag, the format year, and a
/// version marker with its filler.
pub open spec fn spec_header_chars(year: int) -> Seq<char> {
    "DLSG            Decl"@ + padw(year as nat, 4) + "0102FFFFFFFFFFFFFFFFFFFFFFFFFFFFFFFF"@
}

/// The full byte image of a statement: the encoded header followed by every
/// record's bytes in order; `None` where some text cannot be encoded or a
/// token overflows the length field.
pub open spec fn statement_bytes(st: TaxStatementV) -> Option<Seq<u8>> {
    combine_bytes(encode_1251(spec_header_chars(st.year)), records_bytes(st.records))
}

/// The foreign-income records of a record sequence, in file order.
pub open spec fn foreign_incomes_of(rs: Seq<RecordV>) -> Seq<ForeignIncomeV>
    decreases rs.len(),
{
    if rs.len() == 0 {
        Seq::<ForeignIncomeV>::empty()
    } else {
        foreign_incomes_of(rs.drop_last()) + (match rs.last() {
            RecordV::ForeignIncome(f) => seq![f],
            RecordV::Unknown(u) => Seq::<ForeignIncomeV>::empty(),
        })
    }
}

impl TaxStatement {
    /// Copies of all foreign-income records, preserving file order.
    #[verifier::loop_isolation(false)]
    pub fn get_foreign_incomes(&self) -> (r: Vec<ForeignIncome>)
        ensures
            r@.map_values(|f: ForeignIncome| f@) == foreign_incomes_of(self@.records),
    {
        let mut out: Vec<ForeignIncome> = Vec::new();
        let mut i: usize = 0;
        while i < self.records.len()
            invariant
                i <= self.records.len(),
                out@.map_values(|f: ForeignIncome| f@) == foreign_incomes_of(self@.records.take(i as int)),
            decreases self.records.len() - i,
        {
            let ghost prior = out@.map_values(|f: ForeignIncome| f@);
            match &self.records[i] {
                Record::ForeignIncome(f) => {
                    out.push(f.duplicate());
                    proof {
                        assert(out@.map_values(|f: ForeignIncome| f@) =~= prior.push(self@.records[i as int]->ForeignIncome_0));
                    }
                },
                Record::Unknown(_) => {},
            }
            proof {
                assert(self@.records.take(i + 1int).drop_last() =~= self@.records.take(i as int));
                assert(self@.records.take(i + 1int).last() == self@.records[i as int]);
            }
            i = i + 1;
        }
        proof {
            assert(self@.records.take(self.records.len() as int) =~= self@.records);
        }
        out
    }

    /// Appends one foreign-income record with the given field values to the
    /// end of the statement; no existing record moves or changes.
    pub fn add_dividend(&mut self, description: String, date: Date, currency: String,
        currency_rate: Decimal, amount: Decimal, paid_tax: Decimal,
        local_amount: Decimal, local_paid_tax: Decimal) -> (r: Result<(), Error>)
        requires
            date_valid(date),
            dec_valid(currency_rate),
            dec_valid(amount),
            dec_valid(paid_tax),
            dec_valid(local_amount),
            dec_valid(local_paid_tax),
        ensures
            r is Ok,
            final(self)@.path == old(self)@.path,
            final(self)@.year == old(self)@.year,
            final(self)@.records == old(self)@.records.push(RecordV::ForeignIncome(ForeignIncomeV {
                description: description@,
                date: date,
                currency: currency@,
                currency_rate: currency_rate,
                amount: amount,
                paid_tax: paid_tax,
                local_amount: local_amount,
                local_paid_tax: local_paid_tax,
            })),
            old(self).wf() ==> final(self).wf(),
    {
        let record = ForeignIncome {
            description,
            date,
            currency,
            currency_rate,
            amount,
            paid_tax,
            local_amount,
            local_paid_tax,
        };
        self.records.push(Record::ForeignIncome(record));
        proof {
            assert(final(self)@.records =~= old(self)@.records.push(RecordV::ForeignIncome(ForeignIncomeV {
                description: description@,
                date: date,
                currency: currency@,
                currency_rate: currency_rate,
                amount: amount,
                paid_tax: paid_tax,
                local_amount: local_amount,
                local_paid_tax: local_paid_tax,
            })));
        }
        Ok(())
    }
}

/// Appending a record to a statement leaves every byte of the statement's
/// prior image unchanged as a prefix, and places the new record's bytes
/// directly after it.
pub proof fn lemma_append_preserves_prior_bytes(st: TaxStatementV, r: RecordV, b: Seq<u8>, rb: Seq<u8>)
    requires
        statement_bytes(st) == Some(b),
        record_bytes(r) == Some(rb),
    ensures
        statement_bytes(TaxStatementV { path: st.path, year: st.year, records: st.records.push(r) })
            == Some(b + rb),
{
    lemma_records_bytes_push(st.records, r);
    let h = encode_1251(spec_header_chars(st.year)).unwrap();
    let m = records_bytes(st.records).unwrap();
    assert((h + m) + rb =~= h + (m + rb));
}

} // verus!
