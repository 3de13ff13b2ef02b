use vstd::prelude::*;
use vstd::string::*;
use vstd::slice::slice_subrange;
use crate::date::parse_date;
use crate::decimal::parse_decimal;
use crate::digits::{
    is_digit_char, all_digits, val_of, padw,
    lemma_val_bound, lemma_pow10_small, lemma_padw_unique,
    parse_fixed_digits, push_padded,
};
use crate::encoding::{decode_1251, encode_1251, decode_win1251, encode_win1251};
use crate::record::{
    Record, ForeignIncome, ForeignIncomeV, UnknownRecord, UnknownRecordV, RecordV,
    foreign_income_record_name, foreign_income_name, is_record_name, spec_is_record_name,
    foreign_income_field_tokens, fi_valid, record_tokens, record_valid,
    token_bytes, tokens_bytes, record_bytes, records_bytes,
    lemma_tokens_bytes_concat, lemma_tokens_bytes_push, lemma_records_bytes_push,
};
use crate::statement::{TaxStatement, TaxStatementV, spec_header_chars, statement_bytes};
use crate::Error;

verus! {

/// The format year a path declares through its `.dc<digit>` extension.
pub open spec fn spec_path_year(path: Seq<char>) -> Option<int> {
    if path.len() >= 4 && path[path.len() - 4] == '.' && path[path.len() - 3] == 'd'
        && path[path.len() - 2] == 'c' && is_digit_char(path[path.len() - 1]) {
        Some(2010 + crate::digits::digit_char_val(path[path.len() - 1]))
    } else {
        None
    }
}

/// Reads the format year out of a statement path.
pub fn parse_path_year(path: &str) -> (r: Result<u16, Error>)
    ensures
        r matches Ok(y) ==> spec_path_year(path@) == Some(y as int) && 2010 <= y <= 2019,
        r matches Err(e) ==> e == Error::InvalidExtension && spec_path_year(path@) is None,
{
    let n = path.unicode_len();
    if n < 4 {
        return Err(Error::InvalidExtension);
    }
    if path.get_char(n - 4) != '.' || path.get_char(n - 3) != 'd' || path.get_char(n - 2) != 'c' {
        return Err(Error::InvalidExtension);
    }
    match crate::digits::char_digit_value(path.get_char(n - 1)) {
        Some(v) => Ok(2010 + (v as u16)),
        None => Err(Error::InvalidExtension),
    }
}

/// The header text for a format year.
pub fn get_header(year: u16) -> (r: String)
    ensures
        r@ == spec_header_chars(year as int),
{
    let mut out = String::from_str("DLSG            Decl");
    push_padded(year as u64, 4, &mut out);
    out.append("0102FFFFFFFFFFFFFFFFFFFFFFFFFFFFFFFF");
    proof {
        assert(out@ =~= spec_header_chars(year as int));
    }
    out
}

// ---------------------------------------------------------------------------
// The specification-level parse: what each reading function must return, for
// every input, including which error comes on which malformed input.
// ---------------------------------------------------------------------------

/// One token at position `p` of the byte image: a four-digit decimal length
/// field, then that many bytes of decodable text. On success, the token's
/// text and the position just after it.
pub open spec fn spec_read_token(b: Seq<u8>, p: int) -> Result<(Seq<char>, int), Error> {
    if p + 4 > b.len() {
        Err(Error::UnexpectedEof)
    } else {
        match decode_1251(b.subrange(p, p + 4)) {
            None => Err(Error::InvalidEncoding),
            Some(s4) => if !(s4.len() == 4 && all_digits(s4)) {
                Err(Error::MalformedLength)
            } else if p + 4 + val_of(s4) > b.len() {
                Err(Error::UnexpectedEof)
            } else {
                match decode_1251(b.subrange(p + 4, p + 4 + val_of(s4))) {
                    None => Err(Error::InvalidEncoding),
                    Some(t) => Ok((t, p + 4 + val_of(s4))),
                }
            },
        }
    }
}

pub proof fn lemma_spec_read_token_bounds(b: Seq<u8>, p: int)
    ensures
        spec_read_token(b, p) matches Ok(tp) ==> p + 4 <= tp.1 <= b.len(),
{
}

/// The eight field tokens of a foreign-income record from position `p`, each
/// parsed by its field's codec.
pub open spec fn spec_read_foreign_income(b: Seq<u8>, p: int) -> Result<(ForeignIncomeV, int), Error> {
    match spec_read_token(b, p) {
        Err(e) => Err(e),
        Ok((description, p1)) => match spec_read_token(b, p1) {
            Err(e) => Err(e),
            Ok((date_t, p2)) => match crate::date::spec_parse_date(date_t) {
                Err(e) => Err(e),
                Ok(date) => match spec_read_token(b, p2) {
                    Err(e) => Err(e),
                    Ok((currency, p3)) => match spec_read_token(b, p3) {
                        Err(e) => Err(e),
                        Ok((rate_t, p4)) => match crate::decimal::spec_parse_decimal(rate_t) {
                            Err(e) => Err(e),
                            Ok(currency_rate) => match spec_read_token(b, p4) {
                                Err(e) => Err(e),
                                Ok((amount_t, p5)) => match crate::decimal::spec_parse_decimal(amount_t) {
                                    Err(e) => Err(e),
                                    Ok(amount) => match spec_read_token(b, p5) {
                                        Err(e) => Err(e),
                                        Ok((paid_t, p6)) => match crate::decimal::spec_parse_decimal(paid_t) {
                                            Err(e) => Err(e),
                                            Ok(paid_tax) => match spec_read_token(b, p6) {
                                                Err(e) => Err(e),
                                                Ok((local_amount_t, p7)) => match crate::decimal::spec_parse_decimal(local_amount_t) {
                                                    Err(e) => Err(e),
                                                    Ok(local_amount) => match spec_read_token(b, p7) {
                                                        Err(e) => Err(e),
                                                        Ok((local_paid_t, p8)) => match crate::decimal::spec_parse_decimal(local_paid_t) {
                                                            Err(e) => Err(e),
                                                            Ok(local_paid_tax) => Ok((ForeignIncomeV {
                                                                description,
                                                                date,
                                                                currency,
                                                                currency_rate,
                                                                amount,
                                                                paid_tax,
                                                                local_amount,
                                                                local_paid_tax,
                                                            }, p8)),
                                                        },
                                                    },
                                                },
                                            },
                                        },
                                    },
                                },
                            },
                        },
                    },
                },
            },
        },
    }
}

pub proof fn lemma_spec_read_foreign_income_bounds(b: Seq<u8>, p: int)
    ensures
        spec_read_foreign_income(b, p) matches Ok(fp) ==> p < fp.1 <= b.len(),
{
}

/// The data tokens of an unknown record from position `p`: every token up to
/// the end of the input or the first token of record-name shape, which is
/// handed back separately as the next record's pre-read name.
pub open spec fn spec_read_unknown(b: Seq<u8>, p: int) -> Result<(Seq<Seq<char>>, Option<Seq<char>>, int), Error>
    decreases b.len() - p,
{
    if p >= b.len() {
        Ok((Seq::<Seq<char>>::empty(), None, p))
    } else {
        match spec_read_token(b, p) {
            Err(e) => Err(e),
            Ok((t, p2)) => if spec_is_record_name(t) {
                Ok((Seq::<Seq<char>>::empty(), Some(t), p2))
            } else {
                match spec_read_unknown(b, p2) {
                    Err(e) => Err(e),
                    Ok((ts, nn, p3)) => Ok((seq![t] + ts, nn, p3)),
                }
            },
        }
    }
}

pub proof fn lemma_spec_read_unknown_bounds(b: Seq<u8>, p: int)
    requires
        0 <= p <= b.len(),
    ensures
        spec_read_unknown(b, p) matches Ok(u) ==> ({
            &&& p <= u.2 <= b.len()
            &&& (u.1 matches Some(nm) ==> u.2 > p && spec_is_record_name(nm))
            &&& (u.1 is None ==> u.2 == b.len())
        }),
    decreases b.len() - p,
{
    if p < b.len() {
        lemma_spec_read_token_bounds(b, p);
        match spec_read_token(b, p) {
            Err(e) => {},
            Ok((t, p2)) => {
                if !spec_is_record_name(t) {
                    lemma_spec_read_unknown_bounds(b, p2);
                }
            },
        }
    }
}

/// The records of the file body from position `p`: a record-name token, then
/// that record's data, repeated until the input ends.
pub open spec fn spec_read_body(b: Seq<u8>, p: int) -> Result<Seq<RecordV>, Error>
    decreases b.len() - p, 1int,
{
    if p >= b.len() {
        Ok(Seq::<RecordV>::empty())
    } else {
        match spec_read_token(b, p) {
            Err(e) => Err(e),
            Ok((nm, p2)) => if !spec_is_record_name(nm) {
                Err(Error::InvalidRecordName)
            } else {
                spec_read_record(b, nm, p2)
            },
        }
    }
}

/// One record named `name` whose data starts at `p`, followed by the rest of
/// the body: a known name is dispatched to its reader; any other name
/// collects its tokens verbatim as an unknown record.
pub open spec fn spec_read_record(b: Seq<u8>, name: Seq<char>, p: int) -> Result<Seq<RecordV>, Error>
    decreases b.len() - p, 0int,
{
    if name == foreign_income_name() {
        match spec_read_foreign_income(b, p) {
            Err(e) => Err(e),
            Ok((f, p2)) => {
                proof {
                    lemma_spec_read_foreign_income_bounds(b, p);
                }
                match spec_read_body(b, p2) {
                    Err(e) => Err(e),
                    Ok(rest) => Ok(seq![RecordV::ForeignIncome(f)] + rest),
                }
            },
        }
    } else {
        match spec_read_unknown(b, p) {
            Err(e) => Err(e),
            Ok((raw, nn, p2)) => {
                let u = RecordV::Unknown(UnknownRecordV { name: name, raw_tokens: raw });
                match nn {
                    None => Ok(seq![u]),
                    Some(nm2) => {
                        proof {
                            lemma_spec_read_unknown_nn_bounds(b, p);
                        }
                        match spec_read_record(b, nm2, p2) {
                            Err(e) => Err(e),
                            Ok(rest) => Ok(seq![u] + rest),
                        }
                    },
                }
            },
        }
    }
}

/// When an unknown record's scan hands back a pre-read name, it has consumed
/// at least that name token; stated without a range bound on `p`, for the
/// termination of `spec_read_record`.
pub proof fn lemma_spec_read_unknown_nn_bounds(b: Seq<u8>, p: int)
    ensures
        spec_read_unknown(b, p) matches Ok(u) ==> ({
            &&& (u.1 is Some ==> p < u.2 <= b.len())
            &&& (u.1 is None ==> u.2 == b.len() || (p >= b.len() && u.2 == p))
        }),
    decreases b.len() - p,
{
    if p < b.len() {
        lemma_spec_read_token_bounds(b, p);
        match spec_read_token(b, p) {
            Err(e) => {},
            Ok((t, p2)) => {
                if !spec_is_record_name(t) {
                    lemma_spec_read_unknown_nn_bounds(b, p2);
                }
            },
        }
    }
}

/// A whole statement file: the year from the path's extension, the exact
/// header for that year, a non-empty record body reaching the end of the
/// input.
pub open spec fn spec_read_statement(path: Seq<char>, data: Seq<u8>) -> Result<TaxStatementV, Error> {
    match spec_path_year(path) {
        None => Err(Error::InvalidExtension),
        Some(y) => match encode_1251(spec_header_chars(y)) {
            None => Err(Error::HeaderMismatch),
            Some(hb) => if data.len() < hb.len() {
                Err(Error::UnexpectedEof)
            } else if data.take(hb.len() as int) != hb {
                Err(Error::HeaderMismatch)
            } else {
                match spec_read_body(data, hb.len() as int) {
                    Err(e) => Err(e),
                    Ok(rs) => if rs.len() == 0 {
                        Err(Error::EmptyStatement)
                    } else {
                        Ok(TaxStatementV { path: path, year: y, records: rs })
                    },
                }
            },
        },
    }
}

/// Reads a tax declaration out of a byte image: a forward-only cursor over
/// the file's bytes.
pub struct TaxStatementReader {
    data: Vec<u8>,
    pos: usize,
}

impl TaxStatementReader {
    /// The whole byte image being read.
    pub closed spec fn bytes(&self) -> Seq<u8> {
        self.data@
    }

    /// How many bytes have been consumed.
    pub closed spec fn position(&self) -> int {
        self.pos as int
    }

    pub open spec fn wf(&self) -> bool {
        self.position() <= self.bytes().len()
    }

    /// True when no bytes remain.
    pub fn at_eof(&self) -> (r: bool)
        requires
            self.wf(),
        ensures
            r == (self.position() == self.bytes().len()),
    {
        self.pos == self.data.len()
    }

    /// Reads `size` raw bytes and decodes them: the headers' primitive.
    fn read_raw(&mut self, size: usize) -> (r: Result<String, Error>)
        requires
            old(self).wf(),
        ensures
            final(self).bytes() == old(self).bytes(),
            final(self).wf(),
            r matches Ok(s) ==> ({
                &&& old(self).position() + size <= old(self).bytes().len()
                &&& final(self).position() == old(self).position() + size
                &&& s@.len() == size
                &&& decode_1251(old(self).bytes().subrange(old(self).position(), old(self).position() + size)) == Some(s@)
                &&& encode_1251(s@) == Some(old(self).bytes().subrange(old(self).position(), old(self).position() + size))
            }),
            r is Err ==> final(self).position() == old(self).position(),
            old(self).position() + size > old(self).bytes().len() ==> r == Err::<String, Error>(Error::UnexpectedEof),
            old(self).position() + size <= old(self).bytes().len() ==> r is Ok,
            r is Err ==> r == Err::<String, Error>(Error::UnexpectedEof),
    {
        if self.data.len() - self.pos < size {
            return Err(Error::UnexpectedEof);
        }
        let chunk = slice_subrange(self.data.as_slice(), self.pos, self.pos + size);
        match decode_win1251(chunk) {
            Some(s) => {
                self.pos = self.pos + size;
                Ok(s)
            },
            None => Err(Error::InvalidEncoding),
        }
    }

    /// Reads one token: a four-digit length field, then that many bytes of
    /// legacy-encoded text.
    pub fn read_data(&mut self) -> (r: Result<String, Error>)
        requires
            old(self).wf(),
        ensures
            final(self).bytes() == old(self).bytes(),
            final(self).wf(),
            r matches Ok(s) ==> ({
                &&& old(self).position() < final(self).position() <= old(self).bytes().len()
                &&& token_bytes(s@) == Some(old(self).bytes().subrange(old(self).position(), final(self).position()))
            }),
            r is Err ==> final(self).position() == old(self).position(),
            ({
                match spec_read_token(old(self).bytes(), old(self).position()) {
                    Ok(tp) => r matches Ok(s) && s@ == tp.0 && final(self).position() == tp.1,
                    Err(e) => r == Err::<String, Error>(e),
                }
            }),
    {
        let ghost p = old(self).position();
        let ghost b = old(self).bytes();
        let s4 = match self.read_raw(4) {
            Ok(s4) => s4,
            Err(e) => {
                return Err(e);
            },
        };
        let n64 = match parse_fixed_digits(s4.as_str(), 0, 4) {
            Some(v) => v,
            None => {
                self.pos = self.pos - 4;
                proof {
                    assert(s4@.subrange(0, 4) =~= s4@);
                }
                return Err(Error::MalformedLength);
            },
        };
        proof {
            assert(s4@.subrange(0, 4) =~= s4@);
            lemma_val_bound(s4@);
            lemma_pow10_small();
        }
        let n = n64 as usize;
        let payload = match self.read_raw(n) {
            Ok(t) => t,
            Err(e) => {
                self.pos = self.pos - 4;
                return Err(e);
            },
        };
        proof {
            lemma_padw_unique(s4@, 4);
            assert(padw(n as nat, 4) == s4@);
            assert(encode_1251(payload@).unwrap().len() == n);
            assert(b.subrange(p, p + 4) + b.subrange(p + 4, p + 4 + n) =~= b.subrange(p, p + 4 + n));
        }
        Ok(payload)
    }
}

/// Builds the byte image of a tax declaration.
pub struct TaxStatementWriter {
    out: Vec<u8>,
}

impl TaxStatementWriter {
    /// The bytes produced so far.
    pub closed spec fn written(&self) -> Seq<u8> {
        self.out@
    }

    /// Encodes text and appends it with no length field: the header's
    /// primitive.
    fn write_raw(&mut self, data: &str) -> (r: Result<(), Error>)
        ensures
            r is Ok <==> encode_1251(data@) is Some,
            r matches Ok(_) ==> final(self).written() == old(self).written() + encode_1251(data@).unwrap(),
            r is Err ==> final(self).written() == old(self).written()
                && r == Err::<(), Error>(Error::EncodingError),
    {
        match encode_win1251(data) {
            Some(bytes) => {
                self.out.extend_from_slice(bytes.as_slice());
                Ok(())
            },
            None => Err(Error::EncodingError),
        }
    }

    /// Writes one token: the four-digit length field, then the encoded text.
    pub fn write_data(&mut self, data: &str) -> (r: Result<(), Error>)
        ensures
            r is Ok <==> token_bytes(data@) is Some,
            r matches Ok(_) ==> final(self).written() == old(self).written() + token_bytes(data@).unwrap(),
            r matches Ok(_) ==> spec_read_token(final(self).written(), old(self).written().len() as int)
                == Ok::<(Seq<char>, int), Error>((data@, final(self).written().len() as int)),
            r is Err ==> final(self).written() == old(self).written(),
            encode_1251(data@) is None ==> r == Err::<(), Error>(Error::EncodingError),
            ({
                encode_1251(data@) matches Some(payload) && payload.len() > 9999
                    ==> r == Err::<(), Error>(Error::TokenTooLarge)
            }),
    {
        let encoded = match encode_win1251(data) {
            Some(b) => b,
            None => {
                return Err(Error::EncodingError);
            },
        };
        if encoded.len() > 9999 {
            return Err(Error::TokenTooLarge);
        }
        let mut lf = String::new();
        push_padded(encoded.len() as u64, 4, &mut lf);
        let lf_bytes = match encode_win1251(lf.as_str()) {
            Some(b) => b,
            None => {
                return Err(Error::EncodingError);
            },
        };
        self.out.extend_from_slice(lf_bytes.as_slice());
        self.out.extend_from_slice(encoded.as_slice());
        proof {
            assert(final(self).written() =~= old(self).written() + (lf_bytes@ + encoded@));
            // reading a token where this one was written yields the same text
            let w = final(self).written();
            let p = old(self).written().len() as int;
            crate::digits::lemma_padw_basic(encoded@.len() as nat, 4);
            crate::digits::lemma_pow10_small();
            assert(w.subrange(p, p + 4) =~= lf_bytes@);
            assert(val_of(lf@) == encoded@.len());
            assert(w.subrange(p + 4, p + 4 + val_of(lf@)) =~= encoded@);
            assert(p + 4 + val_of(lf@) == w.len());
        }
        Ok(())
    }

    /// Writes a list of tokens in order.
    #[verifier::loop_isolation(false)]
    fn write_tokens(&mut self, tokens: &Vec<String>) -> (r: Result<(), Error>)
        ensures
            r is Ok <==> tokens_bytes(tokens@.map_values(|t: String| t@)) is Some,
            r matches Ok(_) ==> final(self).written()
                == old(self).written() + tokens_bytes(tokens@.map_values(|t: String| t@)).unwrap(),
    {
        let ghost ts = tokens@.map_values(|t: String| t@);
        let mut i: usize = 0;
        while i < tokens.len()
            invariant
                i <= tokens.len(),
                tokens_bytes(ts.take(i as int)) is Some,
                self.written() == old(self).written() + tokens_bytes(ts.take(i as int)).unwrap(),
            decreases tokens.len() - i,
        {
            let ghost prefix = ts.take(i as int);
            match self.write_data(tokens[i].as_str()) {
                Ok(_) => {},
                Err(e) => {
                    proof {
                        crate::record::lemma_tokens_bytes_elem_none(ts, i as int);
                    }
                    return Err(e);
                },
            }
            proof {
                lemma_tokens_bytes_push(prefix, ts[i as int]);
                assert(prefix.push(ts[i as int]) =~= ts.take(i + 1int));
                assert(tokens_bytes(prefix).unwrap() + token_bytes(ts[i as int]).unwrap()
                    == self.written().skip(old(self).written().len() as int)) by {
                    assert(old(self).written() + (tokens_bytes(prefix).unwrap() + token_bytes(ts[i as int]).unwrap())
                        =~= (old(self).written() + tokens_bytes(prefix).unwrap()) + token_bytes(ts[i as int]).unwrap());
                    assert((old(self).written() + (tokens_bytes(prefix).unwrap() + token_bytes(ts[i as int]).unwrap()))
                        .skip(old(self).written().len() as int)
                        =~= tokens_bytes(prefix).unwrap() + token_bytes(ts[i as int]).unwrap());
                }
                assert(self.written() =~= old(self).written() + tokens_bytes(ts.take(i + 1int)).unwrap());
            }
            i = i + 1;
        }
        proof {
            assert(ts.take(tokens.len() as int) =~= ts);
        }
        Ok(())
    }
}

impl Record {
    /// Emits this record's tokens: the name token, then its data tokens.
    #[verifier::loop_isolation(false)]
    pub fn write(&self, writer: &mut TaxStatementWriter) -> (r: Result<(), Error>)
        requires
            record_valid(self@),
        ensures
            r is Ok <==> record_bytes(self@) is Some,
            r matches Ok(_) ==> final(writer).written() == old(writer).written() + record_bytes(self@).unwrap(),
    {
        let mut tokens: Vec<String> = Vec::new();
        match self {
            Record::ForeignIncome(f) => {
                tokens.push(String::from_str(foreign_income_record_name()));
                tokens.push(f.description.clone());
                tokens.push(crate::date::format_date(&f.date));
                tokens.push(f.currency.clone());
                tokens.push(crate::decimal::format_decimal(&f.currency_rate));
                tokens.push(crate::decimal::format_decimal(&f.amount));
                tokens.push(crate::decimal::format_decimal(&f.paid_tax));
                tokens.push(crate::decimal::format_decimal(&f.local_amount));
                tokens.push(crate::decimal::format_decimal(&f.local_paid_tax));
                proof {
                    assert(tokens@.map_values(|t: String| t@) =~= record_tokens(self@));
                }
            },
            Record::Unknown(u) => {
                tokens.push(u.name.clone());
                let mut k: usize = 0;
                while k < u.raw_tokens.len()
                    invariant
                        k <= u.raw_tokens.len(),
                        tokens@.map_values(|t: String| t@)
                            =~= seq![u@.name] + u@.raw_tokens.take(k as int),
                    decreases u.raw_tokens.len() - k,
                {
                    let ghost prior = tokens@.map_values(|t: String| t@);
                    tokens.push(u.raw_tokens[k].clone());
                    proof {
                        assert(tokens@.map_values(|t: String| t@) =~= prior.push(u@.raw_tokens[k as int]));
                        assert(prior.push(u@.raw_tokens[k as int])
                            =~= seq![u@.name] + u@.raw_tokens.take(k + 1int));
                    }
                    k = k + 1;
                }
                proof {
                    assert(u@.raw_tokens.take(u.raw_tokens.len() as int) =~= u@.raw_tokens);
                    assert(tokens@.map_values(|t: String| t@) =~= record_tokens(self@));
                }
            },
        }
        writer.write_tokens(&tokens)
    }
}

impl TaxStatementWriter {
    /// Serializes a whole statement: the header, then every record in order.
    /// Succeeds exactly when every piece of text encodes and every token fits
    /// the length field; the bytes returned are the statement's byte image.
    #[verifier::loop_isolation(false)]
    pub fn write(statement: &TaxStatement) -> (r: Result<Vec<u8>, Error>)
        requires
            statement.wf(),
        ensures
            r matches Ok(b) ==> statement_bytes(statement@) == Some(b@),
            r is Ok <==> statement_bytes(statement@) is Some,
    {
        let mut writer = TaxStatementWriter { out: Vec::new() };
        let header = get_header(statement.year);
        match writer.write_raw(header.as_str()) {
            Ok(_) => {},
            Err(e) => {
                return Err(e);
            },
        }
        let ghost hb = encode_1251(spec_header_chars(statement@.year)).unwrap();
        let ghost rsv = statement@.records;
        let mut i: usize = 0;
        while i < statement.records.len()
            invariant
                i <= statement.records.len(),
                records_bytes(rsv.take(i as int)) is Some,
                writer.written() == hb + records_bytes(rsv.take(i as int)).unwrap(),
            decreases statement.records.len() - i,
        {
            let ghost prefix = rsv.take(i as int);
            let ghost before = writer.written();
            match statement.records[i].write(&mut writer) {
                Ok(_) => {},
                Err(e) => {
                    proof {
                        lemma_records_bytes_elem_none_outer(rsv, i as int);
                    }
                    return Err(e);
                },
            }
            proof {
                lemma_records_bytes_push(prefix, rsv[i as int]);
                assert(prefix.push(rsv[i as int]) =~= rsv.take(i + 1int));
                assert(writer.written() =~= hb + records_bytes(rsv.take(i + 1int)).unwrap()) by {
                    assert((hb + records_bytes(prefix).unwrap()) + record_bytes(rsv[i as int]).unwrap()
                        =~= hb + (records_bytes(prefix).unwrap() + record_bytes(rsv[i as int]).unwrap()));
                }
            }
            i = i + 1;
        }
        proof {
            assert(rsv.take(statement.records.len() as int) =~= rsv);
        }
        Ok(writer.out)
    }
}

impl ForeignIncome {
    /// Reads the eight field tokens of a foreign-income record; the caller
    /// has already consumed the record's name token.
    #[verifier::rlimit(100)]
    pub fn read(reader: &mut TaxStatementReader) -> (r: Result<ForeignIncome, Error>)
        requires
            old(reader).wf(),
        ensures
            final(reader).bytes() == old(reader).bytes(),
            final(reader).wf(),
            r matches Ok(f) ==> ({
                &&& fi_valid(f@)
                &&& old(reader).position() < final(reader).position() <= old(reader).bytes().len()
                &&& tokens_bytes(foreign_income_field_tokens(f@))
                    == Some(old(reader).bytes().subrange(old(reader).position(), final(reader).position()))
            }),
            ({
                match spec_read_foreign_income(old(reader).bytes(), old(reader).position()) {
                    Ok(fp) => r matches Ok(f) && f@ == fp.0 && final(reader).position() == fp.1,
                    Err(e) => r == Err::<ForeignIncome, Error>(e),
                }
            }),
    {
        let ghost b = old(reader).bytes();
        let ghost p0 = old(reader).position();
        let description = reader.read_data()?;
        let ghost p1 = reader.position();
        let date_tok = reader.read_data()?;
        let date = parse_date(date_tok.as_str())?;
        let ghost p2 = reader.position();
        let currency = reader.read_data()?;
        let ghost p3 = reader.position();
        let rate_tok = reader.read_data()?;
        let currency_rate = parse_decimal(rate_tok.as_str())?;
        let ghost p4 = reader.position();
        let amount_tok = reader.read_data()?;
        let amount = parse_decimal(amount_tok.as_str())?;
        let ghost p5 = reader.position();
        let paid_tok = reader.read_data()?;
        let paid_tax = parse_decimal(paid_tok.as_str())?;
        let ghost p6 = reader.position();
        let local_amount_tok = reader.read_data()?;
        let local_amount = parse_decimal(local_amount_tok.as_str())?;
        let ghost p7 = reader.position();
        let local_paid_tok = reader.read_data()?;
        let local_paid_tax = parse_decimal(local_paid_tok.as_str())?;
        let ghost p8 = reader.position();
        let f = ForeignIncome {
            description, date, currency, currency_rate, amount, paid_tax, local_amount, local_paid_tax,
        };
        proof {
            let ts = foreign_income_field_tokens(f@);
            let t0 = f@.description;
            let t1 = crate::date::spec_format_date(f@.date);
            let t2 = f@.currency;
            let t3 = crate::decimal::spec_format_decimal(f@.currency_rate);
            let t4 = crate::decimal::spec_format_decimal(f@.amount);
            let t5 = crate::decimal::spec_format_decimal(f@.paid_tax);
            let t6 = crate::decimal::spec_format_decimal(f@.local_amount);
            let t7 = crate::decimal::spec_format_decimal(f@.local_paid_tax);
            crate::record::lemma_tokens_bytes_single(t0);
            lemma_tokens_bytes_push(seq![t0], t1);
            lemma_tokens_bytes_push(seq![t0, t1], t2);
            lemma_tokens_bytes_push(seq![t0, t1, t2], t3);
            lemma_tokens_bytes_push(seq![t0, t1, t2, t3], t4);
            lemma_tokens_bytes_push(seq![t0, t1, t2, t3, t4], t5);
            lemma_tokens_bytes_push(seq![t0, t1, t2, t3, t4, t5], t6);
            lemma_tokens_bytes_push(seq![t0, t1, t2, t3, t4, t5, t6], t7);
            assert(seq![t0].push(t1) =~= seq![t0, t1]);
            assert(seq![t0, t1].push(t2) =~= seq![t0, t1, t2]);
            assert(seq![t0, t1, t2].push(t3) =~= seq![t0, t1, t2, t3]);
            assert(seq![t0, t1, t2, t3].push(t4) =~= seq![t0, t1, t2, t3, t4]);
            assert(seq![t0, t1, t2, t3, t4].push(t5) =~= seq![t0, t1, t2, t3, t4, t5]);
            assert(seq![t0, t1, t2, t3, t4, t5].push(t6) =~= seq![t0, t1, t2, t3, t4, t5, t6]);
            assert(seq![t0, t1, t2, t3, t4, t5, t6].push(t7) =~= ts);
            assert(b.subrange(p0, p1) + b.subrange(p1, p2) =~= b.subrange(p0, p2));
            assert(b.subrange(p0, p2) + b.subrange(p2, p3) =~= b.subrange(p0, p3));
            assert(b.subrange(p0, p3) + b.subrange(p3, p4) =~= b.subrange(p0, p4));
            assert(b.subrange(p0, p4) + b.subrange(p4, p5) =~= b.subrange(p0, p5));
            assert(b.subrange(p0, p5) + b.subrange(p5, p6) =~= b.subrange(p0, p6));
            assert(b.subrange(p0, p6) + b.subrange(p6, p7) =~= b.subrange(p0, p7));
            assert(b.subrange(p0, p7) + b.subrange(p7, p8) =~= b.subrange(p0, p8));
        }
        Ok(f)
    }
}

impl UnknownRecord {
    /// Collects the data tokens of a record whose name is not in the dispatch
    /// table, stopping at the end of the stream or at the first token of
    /// record-name shape, which is returned separately as the pre-read name
    /// of the next record.
    #[verifier::loop_isolation(false)]
    pub fn read(reader: &mut TaxStatementReader, name: String) -> (r: Result<(UnknownRecord, Option<String>), Error>)
        requires
            old(reader).wf(),
        ensures
            final(reader).bytes() == old(reader).bytes(),
            final(reader).wf(),
            r matches Ok(pair) ==> ({
                let b = old(reader).bytes();
                let op = old(reader).position();
                let fp = final(reader).position();
                &&& pair.0@.name == name@
                &&& op <= fp <= b.len()
                &&& match pair.1 {
                    None => tokens_bytes(pair.0@.raw_tokens) == Some(b.subrange(op, fp)) && fp == b.len(),
                    Some(nm) => spec_is_record_name(nm@) && (exists|x: int|
                        op <= x < fp
                        && tokens_bytes(pair.0@.raw_tokens) == Some(b.subrange(op, x))
                        && token_bytes(nm@) == Some(b.subrange(x, fp))),
                }
            }),
            ({
                match spec_read_unknown(old(reader).bytes(), old(reader).position()) {
                    Ok(u3) => r matches Ok(pair) && pair.0@.raw_tokens == u3.0
                        && (match pair.1 {
                            Some(nm) => u3.1 == Some(nm@),
                            None => u3.1 is None,
                        })
                        && final(reader).position() == u3.2,
                    Err(e) => r == Err::<(UnknownRecord, Option<String>), Error>(e),
                }
            }),
    {
        let ghost b = old(reader).bytes();
        let ghost op = old(reader).position();
        let mut raw: Vec<String> = Vec::new();
        proof {
            assert(Seq::<Seq<char>>::empty() + raw@.map_values(|t: String| t@)
                =~= raw@.map_values(|t: String| t@));
        }
        loop
            invariant
                reader.wf(),
                reader.bytes() == b,
                op <= reader.position(),
                tokens_bytes(raw@.map_values(|t: String| t@))
                    == Some(b.subrange(op, reader.position())),
                ({
                    match spec_read_unknown(b, reader.position()) {
                        Ok(u3) => spec_read_unknown(b, op)
                            == Ok::<(Seq<Seq<char>>, Option<Seq<char>>, int), Error>((
                                raw@.map_values(|t: String| t@) + u3.0, u3.1, u3.2)),
                        Err(e) => spec_read_unknown(b, op)
                            == Err::<(Seq<Seq<char>>, Option<Seq<char>>, int), Error>(e),
                    }
                }),
            decreases b.len() - reader.position(),
        {
            if reader.at_eof() {
                let u = UnknownRecord { name, raw_tokens: raw };
                proof {
                    assert(raw@.map_values(|t: String| t@) + Seq::<Seq<char>>::empty()
                        =~= raw@.map_values(|t: String| t@));
                }
                return Ok((u, None));
            }
            let ghost x = reader.position();
            let tok = reader.read_data()?;
            if is_record_name(tok.as_str()) {
                let u = UnknownRecord { name, raw_tokens: raw };
                proof {
                    assert(op <= x < reader.position());
                    assert(raw@.map_values(|t: String| t@) + Seq::<Seq<char>>::empty()
                        =~= raw@.map_values(|t: String| t@));
                }
                return Ok((u, Some(tok)));
            }
            let ghost prior = raw@.map_values(|t: String| t@);
            raw.push(tok);
            proof {
                assert(raw@.map_values(|t: String| t@) =~= prior.push(raw@.last()@));
                lemma_tokens_bytes_push(prior, raw@.last()@);
                assert(b.subrange(op, x) + b.subrange(x, reader.position())
                    =~= b.subrange(op, reader.position()));
                match spec_read_unknown(b, reader.position()) {
                    Ok(u3) => {
                        assert(prior + (seq![raw@.last()@] + u3.0)
                            =~= raw@.map_values(|t: String| t@) + u3.0);
                    },
                    Err(e) => {},
                }
            }
        }
    }
}

/// One record's bytes extend the serialized image of the records before it.
proof fn lemma_record_bytes_step(b: Seq<u8>, p0: int, mark: int, pos_name: int, x: int,
    prior: Seq<RecordV>, rv: RecordV, name: Seq<char>, tail: Seq<Seq<char>>)
    requires
        0 <= p0 <= mark <= pos_name <= x <= b.len(),
        records_bytes(prior) == Some(b.subrange(p0, mark)),
        token_bytes(name) == Some(b.subrange(mark, pos_name)),
        tokens_bytes(tail) == Some(b.subrange(pos_name, x)),
        record_tokens(rv) == seq![name] + tail,
    ensures
        records_bytes(prior.push(rv)) == Some(b.subrange(p0, x)),
{
    crate::record::lemma_tokens_bytes_single(name);
    lemma_tokens_bytes_concat(seq![name], tail);
    assert(b.subrange(mark, pos_name) + b.subrange(pos_name, x) =~= b.subrange(mark, x));
    assert(record_bytes(rv) == Some(b.subrange(mark, x)));
    lemma_records_bytes_push(prior, rv);
    assert(b.subrange(p0, mark) + b.subrange(mark, x) =~= b.subrange(p0, x));
}

/// After a known record is parsed, the body parse continues after it.
proof fn lemma_continuation_foreign(b: Seq<u8>, p0: int, pos_name: int,
    prior: Seq<RecordV>, fv: ForeignIncomeV, fp1: int)
    requires
        ({
            match spec_read_record(b, foreign_income_name(), pos_name) {
                Ok(rest) => spec_read_body(b, p0) == Ok::<Seq<RecordV>, Error>(prior + rest),
                Err(e) => spec_read_body(b, p0) == Err::<Seq<RecordV>, Error>(e),
            }
        }),
        spec_read_foreign_income(b, pos_name) == Ok::<(ForeignIncomeV, int), Error>((fv, fp1)),
    ensures
        ({
            match spec_read_body(b, fp1) {
                Ok(rest) => spec_read_body(b, p0)
                    == Ok::<Seq<RecordV>, Error>(prior.push(RecordV::ForeignIncome(fv)) + rest),
                Err(e) => spec_read_body(b, p0) == Err::<Seq<RecordV>, Error>(e),
            }
        }),
{
    match spec_read_body(b, fp1) {
        Ok(rest) => {
            assert(prior + (seq![RecordV::ForeignIncome(fv)] + rest)
                =~= prior.push(RecordV::ForeignIncome(fv)) + rest);
        },
        Err(e) => {},
    }
}

/// After an unknown record's tokens are collected, the body parse either ends
/// at the end of the input or continues with the pre-read name.
proof fn lemma_continuation_unknown(b: Seq<u8>, p0: int, pos_name: int,
    prior: Seq<RecordV>, name: Seq<char>, raw: Seq<Seq<char>>, nn: Option<Seq<char>>, fp: int)
    requires
        name != foreign_income_name(),
        ({
            match spec_read_record(b, name, pos_name) {
                Ok(rest) => spec_read_body(b, p0) == Ok::<Seq<RecordV>, Error>(prior + rest),
                Err(e) => spec_read_body(b, p0) == Err::<Seq<RecordV>, Error>(e),
            }
        }),
        spec_read_unknown(b, pos_name)
            == Ok::<(Seq<Seq<char>>, Option<Seq<char>>, int), Error>((raw, nn, fp)),
    ensures
        ({
            let rv = RecordV::Unknown(UnknownRecordV { name: name, raw_tokens: raw });
            match nn {
                None => spec_read_body(b, p0) == Ok::<Seq<RecordV>, Error>(prior.push(rv)),
                Some(nm2) => (match spec_read_record(b, nm2, fp) {
                    Ok(rest) => spec_read_body(b, p0)
                        == Ok::<Seq<RecordV>, Error>(prior.push(rv) + rest),
                    Err(e) => spec_read_body(b, p0) == Err::<Seq<RecordV>, Error>(e),
                }),
            }
        }),
{
    let rv = RecordV::Unknown(UnknownRecordV { name: name, raw_tokens: raw });
    match nn {
        None => {
            assert(prior + seq![rv] =~= prior.push(rv));
        },
        Some(nm2) => {
            match spec_read_record(b, nm2, fp) {
                Ok(rest) => {
                    assert(prior + (seq![rv] + rest) =~= prior.push(rv) + rest);
                },
                Err(e) => {},
            }
        },
    }
}

impl TaxStatementReader {
    /// Parses a whole statement file: derives the year from the path's
    /// extension, checks the header byte for byte, then reads records until
    /// the bytes run out. On success the statement is exactly what the
    /// specification-level parse denotes, and it re-serializes to exactly the
    /// input bytes.
    #[verifier::rlimit(100)]
    pub fn read(path: &str, data: Vec<u8>) -> (r: Result<TaxStatement, Error>)
        ensures
            r matches Ok(st) ==> ({
                &&& st.wf()
                &&& statement_bytes(st@) == Some(data@)
                &&& st@.records.len() > 0
                &&& st@.path == path@
                &&& spec_path_year(path@) == Some(st@.year)
            }),
            spec_path_year(path@) is None ==> r == Err::<TaxStatement, Error>(Error::InvalidExtension),
            ({
                spec_path_year(path@) matches Some(y)
                    && encode_1251(spec_header_chars(y)) matches Some(hb)
                    && data@.len() >= hb.len() && data@.take(hb.len() as int) != hb
                    ==> r == Err::<TaxStatement, Error>(Error::HeaderMismatch)
            }),
            ({
                match spec_read_statement(path@, data@) {
                    Ok(stv) => r matches Ok(st) && st@ == stv,
                    Err(e) => r == Err::<TaxStatement, Error>(e),
                }
            }),
    {
        let ghost dbytes = data@;
        let year = match parse_path_year(path) {
            Ok(y) => y,
            Err(e) => {
                return Err(e);
            },
        };
        let header = get_header(year);
        let hb = match encode_win1251(header.as_str()) {
            Some(b) => b,
            None => {
                return Err(Error::HeaderMismatch);
            },
        };
        let ghost hlen = hb@.len() as int;
        let mut reader = TaxStatementReader { data, pos: 0 };
        let got = match reader.read_raw(hb.len()) {
            Ok(s) => s,
            Err(e) => {
                return Err(e);
            },
        };
        proof {
            assert(dbytes.take(hlen) =~= dbytes.subrange(0, hlen));
        }
        if got != header {
            return Err(Error::HeaderMismatch);
        }
        proof {
            assert(dbytes.subrange(0, hlen) == hb@);
        }
        let records = match Self::read_records(&mut reader) {
            Ok(rs) => rs,
            Err(e) => {
                return Err(e);
            },
        };
        if records.len() == 0 {
            return Err(Error::EmptyStatement);
        }
        let st = TaxStatement { path: String::from_str(path), year, records };
        proof {
            assert(dbytes.subrange(0, hlen) + dbytes.subrange(hlen, dbytes.len() as int)
                =~= dbytes);
        }
        Ok(st)
    }

    /// Reads the record list of the body, from the cursor to the end of the
    /// input: exactly what the specification-level body parse denotes, and
    /// its serialized image is exactly the remaining bytes.
    #[verifier::loop_isolation(false)]
    #[verifier::rlimit(100)]
    fn read_records(reader: &mut TaxStatementReader) -> (r: Result<Vec<Record>, Error>)
        requires
            old(reader).wf(),
        ensures
            final(reader).bytes() == old(reader).bytes(),
            final(reader).wf(),
            ({
                let b = old(reader).bytes();
                let p0 = old(reader).position();
                match spec_read_body(b, p0) {
                    Ok(rs) => r matches Ok(records) && ({
                        &&& records@.map_values(|r2: Record| r2@) == rs
                        &&& records_bytes(rs) == Some(b.subrange(p0, b.len() as int))
                        &&& final(reader).position() == b.len()
                        &&& forall|i: int| 0 <= i < records@.len()
                            ==> record_valid((#[trigger] records@[i])@)
                    }),
                    Err(e) => r == Err::<Vec<Record>, Error>(e),
                }
            }),
    {
        let ghost b = old(reader).bytes();
        let ghost p0 = old(reader).position();
        let mut records: Vec<Record> = Vec::new();
        let mut next_name: Option<String> = None;
        let ghost mut mark: int = reader.position();
        let fi_name = String::from_str(foreign_income_record_name());
        proof {
            match spec_read_body(b, p0) {
                Ok(rest) => {
                    assert(Seq::<RecordV>::empty() + rest =~= rest);
                },
                Err(e) => {},
            }
        }
        loop
            invariant
                reader.wf(),
                reader.bytes() == b,
                p0 <= mark <= reader.position() <= b.len(),
                records_bytes(records@.map_values(|r2: Record| r2@))
                    == Some(b.subrange(p0, mark)),
                forall|i: int| 0 <= i < records@.len()
                    ==> record_valid((#[trigger] records@[i])@),
                match next_name {
                    Some(nm) => mark < reader.position()
                        && token_bytes(nm@) == Some(b.subrange(mark, reader.position()))
                        && spec_is_record_name(nm@),
                    None => mark == reader.position(),
                },
                ({
                    let whole = spec_read_body(b, p0);
                    let rv0 = records@.map_values(|r2: Record| r2@);
                    match next_name {
                        None => (match spec_read_body(b, reader.position()) {
                            Ok(rest) => whole == Ok::<Seq<RecordV>, Error>(rv0 + rest),
                            Err(e) => whole == Err::<Seq<RecordV>, Error>(e),
                        }),
                        Some(nm) => (match spec_read_record(b, nm@, reader.position()) {
                            Ok(rest) => whole == Ok::<Seq<RecordV>, Error>(rv0 + rest),
                            Err(e) => whole == Err::<Seq<RecordV>, Error>(e),
                        }),
                    }
                }),
            decreases b.len() - mark,
        {
            let pending = next_name;
            next_name = None;
            let record_name = match pending {
                Some(nm) => nm,
                None => {
                    if reader.at_eof() {
                        proof {
                            let rv0 = records@.map_values(|r2: Record| r2@);
                            assert(spec_read_body(b, reader.position())
                                == Ok::<Seq<RecordV>, Error>(Seq::<RecordV>::empty()));
                            assert(rv0 + Seq::<RecordV>::empty() =~= rv0);
                            assert(spec_read_body(b, p0) == Ok::<Seq<RecordV>, Error>(rv0));
                        }
                        return Ok(records);
                    }
                    let tok = match reader.read_data() {
                        Ok(tk) => tk,
                        Err(e) => {
                            return Err(e);
                        },
                    };
                    if !is_record_name(tok.as_str()) {
                        return Err(Error::InvalidRecordName);
                    }
                    tok
                },
            };
            let ghost pos_name = reader.position();
            assert(token_bytes(record_name@) == Some(b.subrange(mark, pos_name)));
            proof {
                let rv0 = records@.map_values(|r2: Record| r2@);
                assert(match spec_read_record(b, record_name@, pos_name) {
                    Ok(rest) => spec_read_body(b, p0) == Ok::<Seq<RecordV>, Error>(rv0 + rest),
                    Err(e) => spec_read_body(b, p0) == Err::<Seq<RecordV>, Error>(e),
                });
            }
            if record_name == fi_name {
                let f = match ForeignIncome::read(&mut *reader) {
                    Ok(f) => f,
                    Err(e) => {
                        return Err(e);
                    },
                };
                let ghost prior = records@.map_values(|r2: Record| r2@);
                let ghost fv = f@;
                let ghost rv = RecordV::ForeignIncome(fv);
                records.push(Record::ForeignIncome(f));
                proof {
                    assert(records@.map_values(|r2: Record| r2@) =~= prior.push(rv));
                    assert(record_tokens(rv) =~= seq![foreign_income_name()]
                        + foreign_income_field_tokens(fv));
                    assert(record_name@ == foreign_income_name());
                    lemma_record_bytes_step(b, p0, mark, pos_name, reader.position(), prior, rv,
                        foreign_income_name(), foreign_income_field_tokens(fv));
                    assert(spec_read_foreign_income(b, pos_name)
                        == Ok::<(ForeignIncomeV, int), Error>((fv, reader.position())));
                    lemma_continuation_foreign(b, p0, pos_name, prior, fv, reader.position());
                    mark = reader.position();
                }
            } else {
                let pair = match UnknownRecord::read(&mut *reader, record_name) {
                    Ok(p) => p,
                    Err(e) => {
                        return Err(e);
                    },
                };
                let u = pair.0;
                next_name = pair.1;
                let ghost prior = records@.map_values(|r2: Record| r2@);
                let ghost uv = u@;
                let ghost rv = RecordV::Unknown(uv);
                let ghost nnv: Option<Seq<char>> = match &next_name {
                    Some(nm2) => Some(nm2@),
                    None => None,
                };
                records.push(Record::Unknown(u));
                proof {
                    assert(records@.map_values(|r2: Record| r2@) =~= prior.push(rv));
                    assert(record_tokens(rv) =~= seq![uv.name] + uv.raw_tokens);
                    assert(record_name@ != foreign_income_name());
                    assert(uv.name == record_name@);
                    assert(spec_read_unknown(b, pos_name)
                        == Ok::<(Seq<Seq<char>>, Option<Seq<char>>, int), Error>((
                            uv.raw_tokens, nnv, reader.position())));
                    lemma_continuation_unknown(b, p0, pos_name, prior, record_name@,
                        uv.raw_tokens, nnv, reader.position());
                }
                match &next_name {
                    Some(nm2) => {
                        proof {
                            let newmark: int = choose|x: int| pos_name <= x < reader.position()
                                && tokens_bytes(uv.raw_tokens) == Some(b.subrange(pos_name, x))
                                && token_bytes(nm2@) == Some(b.subrange(x, reader.position()));
                            lemma_record_bytes_step(b, p0, mark, pos_name, newmark, prior, rv,
                                record_name@, uv.raw_tokens);
                            mark = newmark;
                        }
                    },
                    None => {
                        proof {
                            let newmark: int = reader.position();
                            lemma_record_bytes_step(b, p0, mark, pos_name, newmark, prior, rv,
                                record_name@, uv.raw_tokens);
                            // the input is exhausted: the spec parse ends here too
                            assert(reader.position() == b.len());
                            assert(spec_read_body(b, reader.position())
                                == Ok::<Seq<RecordV>, Error>(Seq::<RecordV>::empty()));
                            assert(records@.map_values(|r2: Record| r2@) + Seq::<RecordV>::empty()
                                =~= records@.map_values(|r2: Record| r2@));
                            mark = newmark;
                        }
                    },
                }
            }
        }
    }
}

/// A record sequence with an unserializable member has no byte form.
proof fn lemma_records_bytes_elem_none_outer(rs: Seq<crate::record::RecordV>, i: int)
    requires
        0 <= i < rs.len(),
        record_bytes(rs[i]) is None,
    ensures
        records_bytes(rs) is None,
    decreases rs.len(),
{
    if i > 0 {
        assert(rs.skip(1)[i - 1] == rs[i]);
        lemma_records_bytes_elem_none_outer(rs.skip(1), i - 1);
    }
}

} // verus!
