use tax_statement::brokers::{
    Broker, BrokerConfig, BrokerError, BrokersConfig, Cash, CashAssets, Config, DepositCommission,
    StatementReader,
};
use tax_statement::date::Date;
use tax_statement::decimal::Decimal;

fn dec(mantissa: u64, scale: u32) -> Decimal {
    Decimal { negative: false, mantissa, scale }
}

fn config_with_bcs() -> Config {
    Config {
        brokers: Some(BrokersConfig {
            bcs: Some(BrokerConfig {
                deposit_commissions: vec![
                    DepositCommission { currency: "RUB".to_string(), fixed_amount: dec(150, 0) },
                    DepositCommission { currency: "USD".to_string(), fixed_amount: dec(5, 0) },
                ],
            }),
            interactive_brokers: None,
            open_broker: None,
        }),
    }
}

fn assets(currency: &str) -> CashAssets {
    CashAssets {
        date: Date { day: 1, month: 1, year: 2018 },
        cash: Cash::new(currency, dec(100, 0)),
    }
}

#[test]
fn deposit_commission_lookup() {
    let info = Broker::Bcs.get_info(&config_with_bcs()).unwrap();
    assert_eq!(info.get_deposit_commission(assets("RUB")), Ok(dec(150, 0)));
    assert_eq!(info.get_deposit_commission(assets("USD")), Ok(dec(5, 0)));
    assert_eq!(
        info.get_deposit_commission(assets("EUR")),
        Err(BrokerError::NoDepositCommission)
    );
}

#[test]
fn broker_info() {
    let info = Broker::Bcs.get_info(&config_with_bcs()).unwrap();
    assert!(info.allow_sparse_broker_statements);
    assert_eq!(info.name, "ООО «Компания БКС»");
    assert_eq!(
        Broker::InteractiveBrokers.get_info(&config_with_bcs()),
        Err(BrokerError::NoBrokerConfig)
    );
    assert_eq!(
        Broker::OpenBroker.get_info(&Config { brokers: None }),
        Err(BrokerError::NoBrokerConfig)
    );
}

#[test]
fn commission_specs() {
    let bcs = Broker::Bcs.get_commission_spec();
    assert_eq!(bcs.percent, Some(Decimal { negative: false, mantissa: 57, scale: 3 }));
    assert!(bcs.minimum.is_none());
    let ib = Broker::InteractiveBrokers.get_commission_spec();
    assert_eq!(ib.minimum.unwrap().currency, "USD");
    let ob = Broker::OpenBroker.get_commission_spec();
    assert_eq!(ob.minimum.unwrap().currency, "RUB");
}

#[test]
fn statement_reader() {
    let reader = StatementReader::new(&config_with_bcs()).unwrap();
    assert!(reader.is_statement("statement.xls"));
    assert!(!reader.is_statement("statement.csv"));
    assert!(!reader.is_statement("xls"));
    assert!(matches!(
        StatementReader::new(&Config { brokers: None }),
        Err(BrokerError::NoBrokerConfig)
    ));
}
