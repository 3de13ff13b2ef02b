use tax_statement::Error;
use tax_statement::date::Date;
use tax_statement::decimal::Decimal;
use tax_statement::parser::{TaxStatementReader, TaxStatementWriter, get_header, parse_path_year};
use tax_statement::record::{ForeignIncome, Record, UnknownRecord};
use tax_statement::statement::TaxStatement;

fn encode(s: &str) -> Vec<u8> {
    let (b, _, err) = encoding_rs::WINDOWS_1251.encode(s);
    assert!(!err);
    b.into_owned()
}

fn token(s: &str) -> Vec<u8> {
    let payload = encode(s);
    let mut out = encode(&format!("{:04}", payload.len()));
    out.extend_from_slice(&payload);
    out
}

fn file_bytes(year: u16, tokens: &[&str]) -> Vec<u8> {
    let mut out = encode(&get_header(year));
    for t in tokens {
        out.extend_from_slice(&token(t));
    }
    out
}

fn dec(negative: bool, mantissa: u64, scale: u32) -> Decimal {
    Decimal { negative, mantissa, scale }
}

fn filled_tokens() -> Vec<&'static str> {
    vec![
        "@CurrencyIncome",
        "Дивиденд",
        "01.01.2018",
        "USD",
        "57.6002",
        "100",
        "10",
        "5760.02",
        "576",
    ]
}

#[test]
fn parse_empty() {
    let path = "testdata/empty.dc8";
    let data = file_bytes(2018, &["@Nalog", "0"]);
    let statement = TaxStatementReader::read(path, data.clone()).unwrap();
    assert_eq!(statement.year, 2018);
    assert_eq!(statement.records.len(), 1);
    assert!(statement.get_foreign_incomes().is_empty());
    let written = TaxStatementWriter::write(&statement).unwrap();
    assert_eq!(written, data);
}

#[test]
fn parse_filled() {
    let path = "testdata/filled.dc8";
    let data = file_bytes(2018, &filled_tokens());
    let statement = TaxStatementReader::read(path, data.clone()).unwrap();
    assert_eq!(statement.year, 2018);

    let incomes = statement.get_foreign_incomes();
    assert_eq!(incomes.len(), 1);
    let income = &incomes[0];
    assert_eq!(income.description, "Дивиденд");
    assert_eq!(income.date, Date { day: 1, month: 1, year: 2018 });
    assert_eq!(income.currency, "USD");
    assert_eq!(income.currency_rate, dec(false, 576002, 4));
    assert_eq!(income.amount, dec(false, 100, 0));
    assert_eq!(income.paid_tax, dec(false, 10, 0));
    assert_eq!(income.local_amount, dec(false, 576002, 2));
    assert_eq!(income.local_paid_tax, dec(false, 576, 0));

    // writing the unmodified statement reproduces the file byte for byte
    let written = TaxStatementWriter::write(&statement).unwrap();
    assert_eq!(written, data);

    // appending a dividend leaves every prior byte unchanged
    let mut statement = statement;
    statement
        .add_dividend(
            "Дивиденд".to_string(),
            Date { day: 1, month: 1, year: 2018 },
            "USD".to_string(),
            dec(false, 576002, 4),
            dec(false, 100, 0),
            dec(false, 10, 0),
            dec(false, 576002, 2),
            dec(false, 576, 0),
        )
        .unwrap();
    let appended = TaxStatementWriter::write(&statement).unwrap();
    assert_eq!(&appended[..data.len()], &data[..]);

    // and the appended record decodes back to the same field values
    let reread = TaxStatementReader::read(path, appended).unwrap();
    let incomes2 = reread.get_foreign_incomes();
    assert_eq!(incomes2.len(), 2);
    assert_eq!(incomes2[0], incomes2[1]);
    assert_eq!(incomes2[0], incomes[0]);
}

#[test]
fn parse_real() {
    let path = "testdata/statement.dc8";
    let mut tokens = vec!["@DeclInfo", "0", "ФИО", "12345"];
    tokens.extend(filled_tokens());
    tokens.extend(vec!["@Nalog", "13", "0.00"]);
    let data = file_bytes(2018, &tokens);
    let statement = TaxStatementReader::read(path, data.clone()).unwrap();
    assert_eq!(statement.year, 2018);
    assert_eq!(statement.records.len(), 3);
    assert!(matches!(statement.records[0], Record::Unknown(_)));
    assert!(matches!(statement.records[1], Record::ForeignIncome(_)));
    assert!(matches!(statement.records[2], Record::Unknown(_)));
    let written = TaxStatementWriter::write(&statement).unwrap();
    assert_eq!(written, data);
}

#[test]
fn unknown_record_passthrough() {
    let data = file_bytes(2015, &["@SomeFutureRecord", "data 1", "2", "x.y", "@Another", "z"]);
    let statement = TaxStatementReader::read("a.dc5", data.clone()).unwrap();
    assert_eq!(statement.records.len(), 2);
    match &statement.records[0] {
        Record::Unknown(u) => {
            assert_eq!(u.name, "@SomeFutureRecord");
            assert_eq!(u.raw_tokens, vec!["data 1", "2", "x.y"]);
        }
        _ => panic!("expected an unknown record"),
    }
    let written = TaxStatementWriter::write(&statement).unwrap();
    assert_eq!(written, data);
}

#[test]
fn header_mismatch() {
    let mut data = file_bytes(2018, &["@Nalog", "0"]);
    data[25] ^= 1; // one header byte off
    assert_eq!(
        TaxStatementReader::read("x.dc8", data),
        Err(Error::HeaderMismatch)
    );
    // header for the wrong year is a mismatch too
    let data = file_bytes(2017, &["@Nalog", "0"]);
    assert_eq!(
        TaxStatementReader::read("x.dc8", data),
        Err(Error::HeaderMismatch)
    );
}

#[test]
fn invalid_extension() {
    assert_eq!(
        TaxStatementReader::read("x.txt", Vec::new()),
        Err(Error::InvalidExtension)
    );
    assert_eq!(parse_path_year("file.dc8"), Ok(2018));
    assert_eq!(parse_path_year("file.dcx"), Err(Error::InvalidExtension));
    assert_eq!(parse_path_year("dc8"), Err(Error::InvalidExtension));
}

#[test]
fn truncated_header_rejected() {
    let mut data = file_bytes(2018, &["@Nalog", "0"]);
    data.truncate(30);
    assert_eq!(
        TaxStatementReader::read("x.dc8", data),
        Err(Error::UnexpectedEof)
    );
}

#[test]
fn extension_digit_selects_year() {
    for digit in 0..=9u16 {
        let year = 2010 + digit;
        let data = file_bytes(year, &["@Nalog", "0"]);
        let path = format!("x.dc{}", digit);
        let statement = TaxStatementReader::read(&path, data).unwrap();
        assert_eq!(statement.year, year);
    }
}

#[test]
fn empty_statement_rejected() {
    let data = file_bytes(2018, &[]);
    assert_eq!(
        TaxStatementReader::read("x.dc8", data),
        Err(Error::EmptyStatement)
    );
}

#[test]
fn invalid_record_name_rejected() {
    let data = file_bytes(2018, &["notaname"]);
    assert_eq!(
        TaxStatementReader::read("x.dc8", data),
        Err(Error::InvalidRecordName)
    );
}

#[test]
fn malformed_length_rejected() {
    let mut data = file_bytes(2018, &[]);
    data.extend_from_slice(b"12ab");
    assert_eq!(
        TaxStatementReader::read("x.dc8", data),
        Err(Error::MalformedLength)
    );
}

#[test]
fn truncated_token_rejected() {
    let mut data = file_bytes(2018, &[]);
    data.extend_from_slice(b"0010abc");
    assert_eq!(
        TaxStatementReader::read("x.dc8", data),
        Err(Error::UnexpectedEof)
    );
}

fn one_record_statement(description: &str) -> TaxStatement {
    TaxStatement {
        path: "x.dc8".to_string(),
        year: 2018,
        records: vec![Record::ForeignIncome(ForeignIncome {
            description: description.to_string(),
            date: Date { day: 1, month: 1, year: 2018 },
            currency: "USD".to_string(),
            currency_rate: dec(false, 1, 0),
            amount: dec(false, 1, 0),
            paid_tax: dec(false, 0, 0),
            local_amount: dec(false, 1, 0),
            local_paid_tax: dec(false, 0, 0),
        })],
    }
}

#[test]
fn write_rejects_unencodable_text() {
    let statement = one_record_statement("Дивиденд → доход");
    assert_eq!(TaxStatementWriter::write(&statement), Err(Error::EncodingError));
}

#[test]
fn write_rejects_oversized_token() {
    let statement = one_record_statement(&"x".repeat(10000));
    assert_eq!(TaxStatementWriter::write(&statement), Err(Error::TokenTooLarge));
}

#[test]
fn write_accepts_largest_token() {
    let statement = one_record_statement(&"x".repeat(9999));
    let written = TaxStatementWriter::write(&statement).unwrap();
    let reread = TaxStatementReader::read("x.dc8", written).unwrap();
    assert_eq!(reread.get_foreign_incomes()[0].description.len(), 9999);
}

#[test]
fn header_text() {
    assert_eq!(
        get_header(2018),
        "DLSG            Decl20180102FFFFFFFFFFFFFFFFFFFFFFFFFFFFFFFF"
    );
    assert_eq!(encode(&get_header(2018)).len(), 60);
}

#[test]
fn unknown_record_roundtrip_with_cyrillic_data() {
    let data = file_bytes(2013, &["@Person", "Иванов Иван", ""]);
    let statement = TaxStatementReader::read("x.dc3", data.clone()).unwrap();
    assert_eq!(statement.year, 2013);
    match &statement.records[0] {
        Record::Unknown(u) => {
            assert_eq!(u.raw_tokens, vec!["Иванов Иван", ""]);
        }
        _ => panic!("expected an unknown record"),
    }
    let written = TaxStatementWriter::write(&statement).unwrap();
    assert_eq!(written, data);
}

#[test]
fn unknown_record_struct_roundtrip() {
    let statement = TaxStatement {
        path: "x.dc8".to_string(),
        year: 2018,
        records: vec![Record::Unknown(UnknownRecord {
            name: "@Thing".to_string(),
            raw_tokens: vec!["a".to_string(), "@notlast".to_string()],
        })],
    };
    // a data token of record-name shape splits the record on re-read, but
    // the bytes still round-trip through the unknown mechanism
    let written = TaxStatementWriter::write(&statement).unwrap();
    let reread = TaxStatementReader::read("x.dc8", written.clone()).unwrap();
    assert_eq!(TaxStatementWriter::write(&reread).unwrap(), written);
}

#[test]
fn error_descriptions() {
    assert_eq!(
        Error::EmptyStatement.describe(),
        "the tax statement has no records"
    );
    assert_eq!(
        Error::InvalidExtension.describe(),
        "invalid tax statement file extension: *.dcX is expected"
    );
}
