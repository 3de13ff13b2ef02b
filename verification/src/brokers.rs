use vstd::prelude::*;
use vstd::string::*;
use crate::decimal::Decimal;

verus! {

/// Failures of the broker-configuration layer.
#[derive(Clone, Copy, Debug, PartialEq, Eq, Structural)]
pub enum BrokerError {
    /// The configuration file has no section for the broker.
    NoBrokerConfig,
    /// The configuration has no deposit-commission entry for the currency.
    NoDepositCommission,
}

/// A money amount in a named currency.
#[derive(Clone, Debug, PartialEq)]
pub struct Cash {
    pub currency: String,
    pub amount: Decimal,
}

impl Cash {
    pub fn new(currency: &str, amount: Decimal) -> (r: Cash)
        ensures
            r.currency@ == currency@,
            r.amount == amount,
    {
        Cash { currency: String::from_str(currency), amount }
    }
}

/// A dated cash movement.
#[derive(Clone, Debug, PartialEq)]
pub struct CashAssets {
    pub date: crate::date::Date,
    pub cash: Cash,
}

#[derive(Clone, Copy, Debug, PartialEq, Eq, Structural)]
pub enum TradeType {
    Buy,
    Sell,
}

/// One broker's commission schedule, as far as the configuration models it.
#[derive(Clone, Debug, PartialEq)]
pub struct CommissionSpec {
    pub minimum: Option<Cash>,
    pub per_share: Option<Cash>,
    pub percent: Option<Decimal>,
    pub maximum_percent: Option<Decimal>,
    pub sell_fee_percent: Option<Decimal>,
    pub sell_fee_per_share: Option<Cash>,
}

/// A deposit-commission entry of the configuration: a fixed amount per
/// currency.
#[derive(Clone, Debug, PartialEq)]
pub struct DepositCommission {
    pub currency: String,
    pub fixed_amount: Decimal,
}

impl View for DepositCommission {
    type V = (Seq<char>, Decimal);

    open spec fn view(&self) -> (Seq<char>, Decimal) {
        (self.currency@, self.fixed_amount)
    }
}

/// One broker's section of the configuration file.
#[derive(Clone, Debug, PartialEq)]
pub struct BrokerConfig {
    pub deposit_commissions: Vec<DepositCommission>,
}

impl BrokerConfig {
    /// The deposit-commission table is keyed by currency: no currency occurs
    /// twice, so the first match of a lookup is the only match.
    pub open spec fn wf(&self) -> bool {
        let m = self.deposit_commissions@.map_values(|d: DepositCommission| d@);
        forall|i: int, j: int| 0 <= i < j < m.len() ==> (#[trigger] m[i]).0 != (#[trigger] m[j]).0
    }
}

/// The brokers' part of the configuration file.
#[derive(Clone, Debug, PartialEq)]
pub struct BrokersConfig {
    pub bcs: Option<BrokerConfig>,
    pub interactive_brokers: Option<BrokerConfig>,
    pub open_broker: Option<BrokerConfig>,
}

/// The configuration the application hands in.
#[derive(Clone, Debug, PartialEq)]
pub struct Config {
    pub brokers: Option<BrokersConfig>,
}

/// The brokers the system knows.
#[derive(Clone, Copy, Debug, PartialEq, Eq, Structural)]
pub enum Broker {
    Bcs,
    InteractiveBrokers,
    OpenBroker,
}

/// The broker's section of a configuration, if it is present.
pub open spec fn spec_broker_config(b: Broker, config: Config) -> Option<BrokerConfig> {
    match config.brokers {
        Some(brokers) => match b {
            Broker::Bcs => brokers.bcs,
            Broker::InteractiveBrokers => brokers.interactive_brokers,
            Broker::OpenBroker => brokers.open_broker,
        },
        None => None,
    }
}

impl BrokerConfig {
    /// An entry-by-entry copy with the same mathematical value.
    #[verifier::loop_isolation(false)]
    pub fn duplicate(&self) -> (r: BrokerConfig)
        ensures
            r.deposit_commissions@.map_values(|d: DepositCommission| d@)
                == self.deposit_commissions@.map_values(|d: DepositCommission| d@),
            self.wf() ==> r.wf(),
    {
        let mut entries: Vec<DepositCommission> = Vec::new();
        let mut i: usize = 0;
        while i < self.deposit_commissions.len()
            invariant
                i <= self.deposit_commissions.len(),
                entries@.map_values(|d: DepositCommission| d@)
                    == self.deposit_commissions@.map_values(|d: DepositCommission| d@).take(i as int),
            decreases self.deposit_commissions.len() - i,
        {
            let ghost prior = entries@.map_values(|d: DepositCommission| d@);
            let e = &self.deposit_commissions[i];
            entries.push(DepositCommission {
                currency: e.currency.clone(),
                fixed_amount: e.fixed_amount,
            });
            proof {
                assert(entries@.map_values(|d: DepositCommission| d@)
                    =~= prior.push(self.deposit_commissions@[i as int]@));
                assert(prior.push(self.deposit_commissions@[i as int]@)
                    =~= self.deposit_commissions@.map_values(|d: DepositCommission| d@).take(i + 1int));
            }
            i = i + 1;
        }
        proof {
            assert(self.deposit_commissions@.map_values(|d: DepositCommission| d@)
                .take(self.deposit_commissions.len() as int)
                =~= self.deposit_commissions@.map_values(|d: DepositCommission| d@));
        }
        BrokerConfig { deposit_commissions: entries }
    }
}

/// The display name of each broker.
pub open spec fn spec_broker_name(b: Broker) -> Seq<char> {
    match b {
        Broker::Bcs => "ООО «Компания БКС»"@,
        Broker::InteractiveBrokers => "Interactive Brokers LLC"@,
        Broker::OpenBroker => "АО «Открытие Брокер»"@,
    }
}

/// The exact built-in commission schedule of each broker, field by field.
pub open spec fn commission_spec_matches(b: Broker, r: CommissionSpec) -> bool {
    match b {
        Broker::Bcs => {
            &&& r.minimum is None
            &&& r.per_share is None
            &&& r.percent == Some(Decimal { negative: false, mantissa: 57, scale: 3 })
            &&& r.maximum_percent is None
            &&& r.sell_fee_percent is None
            &&& r.sell_fee_per_share is None
        },
        Broker::InteractiveBrokers => {
            &&& r.minimum matches Some(m) && m.currency@ == "USD"@
                && m.amount == Decimal { negative: false, mantissa: 1, scale: 0 }
            &&& r.per_share matches Some(p) && p.currency@ == "USD"@
                && p.amount == Decimal { negative: false, mantissa: 5, scale: 3 }
            &&& r.percent is None
            &&& r.maximum_percent == Some(Decimal { negative: false, mantissa: 1, scale: 0 })
            &&& r.sell_fee_percent == Some(Decimal { negative: false, mantissa: 13, scale: 4 })
            &&& r.sell_fee_per_share matches Some(f) && f.currency@ == "USD"@
                && f.amount == Decimal { negative: false, mantissa: 119, scale: 6 }
        },
        Broker::OpenBroker => {
            &&& r.minimum matches Some(m) && m.currency@ == "RUB"@
                && m.amount == Decimal { negative: false, mantissa: 4, scale: 2 }
            &&& r.per_share is None
            &&& r.percent == Some(Decimal { negative: false, mantissa: 57, scale: 3 })
            &&& r.maximum_percent is None
            &&& r.sell_fee_percent is None
            &&& r.sell_fee_per_share is None
        },
    }
}

impl Broker {
    /// The broker's display name.
    pub fn get_name(self) -> (r: &'static str)
        ensures
            r@ == spec_broker_name(self),
    {
        match self {
            Broker::Bcs => "ООО «Компания БКС»",
            Broker::InteractiveBrokers => "Interactive Brokers LLC",
            Broker::OpenBroker => "АО «Открытие Брокер»",
        }
    }

    /// This broker's section of the configuration; an error when the
    /// configuration has none.
    pub fn get_config(self, config: &Config) -> (r: Result<BrokerConfig, BrokerError>)
        ensures
            r is Ok <==> spec_broker_config(self, *config) is Some,
            r matches Ok(c) ==> c.deposit_commissions@.map_values(|d: DepositCommission| d@)
                == spec_broker_config(self, *config).unwrap()
                    .deposit_commissions@.map_values(|d: DepositCommission| d@),
            ({
                r matches Ok(c) ==> (spec_broker_config(self, *config).unwrap().wf() ==> c.wf())
            }),
            r matches Err(e) ==> e == BrokerError::NoBrokerConfig,
    {
        match &config.brokers {
            Some(brokers) => {
                let section = match self {
                    Broker::Bcs => &brokers.bcs,
                    Broker::InteractiveBrokers => &brokers.interactive_brokers,
                    Broker::OpenBroker => &brokers.open_broker,
                };
                match section {
                    Some(c) => Ok(c.duplicate()),
                    None => Err(BrokerError::NoBrokerConfig),
                }
            },
            None => Err(BrokerError::NoBrokerConfig),
        }
    }

    /// The built-in commission schedule of the broker.
    pub fn get_commission_spec(self) -> (r: CommissionSpec)
        ensures
            commission_spec_matches(self, r),
    {
        match self {
            // BCS has tiered commissions that are not modelled here, so an
            // average percentage stands in.
            Broker::Bcs => CommissionSpec {
                minimum: None,
                per_share: None,
                percent: Some(Decimal { negative: false, mantissa: 57, scale: 3 }),
                maximum_percent: None,
                sell_fee_percent: None,
                sell_fee_per_share: None,
            },
            Broker::InteractiveBrokers => CommissionSpec {
                minimum: Some(Cash::new("USD", Decimal { negative: false, mantissa: 1, scale: 0 })),
                per_share: Some(Cash::new("USD", Decimal { negative: false, mantissa: 5, scale: 3 })),
                percent: None,
                maximum_percent: Some(Decimal { negative: false, mantissa: 1, scale: 0 }),
                // stock selling fee and the regulatory trading activity fee
                sell_fee_percent: Some(Decimal { negative: false, mantissa: 13, scale: 4 }),
                sell_fee_per_share: Some(Cash::new("USD", Decimal { negative: false, mantissa: 119, scale: 6 })),
            },
            Broker::OpenBroker => CommissionSpec {
                minimum: Some(Cash::new("RUB", Decimal { negative: false, mantissa: 4, scale: 2 })),
                per_share: None,
                percent: Some(Decimal { negative: false, mantissa: 57, scale: 3 }),
                maximum_percent: None,
                sell_fee_percent: None,
                sell_fee_per_share: None,
            },
        }
    }

    /// Assembles everything the statement readers need to know of a broker.
    pub fn get_info(self, config: &Config) -> (r: Result<BrokerInfo, BrokerError>)
        ensures
            r is Ok <==> spec_broker_config(self, *config) is Some,
            r matches Ok(info) ==> ({
                &&& info.allow_sparse_broker_statements == (self is Bcs)
                &&& info.name@ == spec_broker_name(self)
                &&& commission_spec_matches(self, info.commission_spec)
                &&& info.config.deposit_commissions@.map_values(|d: DepositCommission| d@)
                    == spec_broker_config(self, *config).unwrap()
                        .deposit_commissions@.map_values(|d: DepositCommission| d@)
                &&& (spec_broker_config(self, *config).unwrap().wf() ==> info.config.wf())
            }),
            r matches Err(e) ==> e == BrokerError::NoBrokerConfig,
    {
        let config = self.get_config(config)?;
        Ok(BrokerInfo {
            name: self.get_name(),
            config,
            commission_spec: self.get_commission_spec(),
            allow_sparse_broker_statements: matches!(self, Broker::Bcs),
        })
    }
}

/// First-match lookup of a currency in a deposit-commission table.
pub open spec fn spec_deposit_lookup(entries: Seq<(Seq<char>, Decimal)>, currency: Seq<char>) -> Option<Decimal>
    decreases entries.len(),
{
    if entries.len() == 0 {
        None
    } else if entries[0].0 == currency {
        Some(entries[0].1)
    } else {
        spec_deposit_lookup(entries.skip(1), currency)
    }
}

/// Everything the statement readers need to know of a broker.
#[derive(Clone, Debug, PartialEq)]
pub struct BrokerInfo {
    pub name: &'static str,
    pub config: BrokerConfig,
    pub commission_spec: CommissionSpec,
    pub allow_sparse_broker_statements: bool,
}

impl BrokerInfo {
    /// The fixed commission the broker takes for a deposit in the given
    /// currency; an error when the configuration lists none for it.
    #[verifier::loop_isolation(false)]
    pub fn get_deposit_commission(&self, assets: CashAssets) -> (r: Result<Decimal, BrokerError>)
        ensures
            ({
                let entries = self.config.deposit_commissions@.map_values(|d: DepositCommission| d@);
                match spec_deposit_lookup(entries, assets.cash.currency@) {
                    Some(d) => r == Ok::<Decimal, BrokerError>(d),
                    None => r == Err::<Decimal, BrokerError>(BrokerError::NoDepositCommission),
                }
            }),
    {
        let ghost entries = self.config.deposit_commissions@.map_values(|d: DepositCommission| d@);
        let currency = &assets.cash.currency;
        proof {
            assert(entries.skip(0) =~= entries);
        }
        let mut i: usize = 0;
        while i < self.config.deposit_commissions.len()
            invariant
                i <= self.config.deposit_commissions.len(),
                spec_deposit_lookup(entries, assets.cash.currency@)
                    == spec_deposit_lookup(entries.skip(i as int), assets.cash.currency@),
            decreases self.config.deposit_commissions.len() - i,
        {
            let e = &self.config.deposit_commissions[i];
            proof {
                assert(entries.skip(i as int)[0] == entries[i as int]);
            }
            if e.currency == *currency {
                return Ok(e.fixed_amount);
            }
            proof {
                assert(entries.skip(i as int).skip(1) =~= entries.skip(i + 1int));
            }
            i = i + 1;
        }
        proof {
            assert(entries.skip(self.config.deposit_commissions.len() as int).len() == 0);
        }
        Err(BrokerError::NoDepositCommission)
    }
}

/// Reads broker statements of one brokerage; construction fixes the broker
/// and pulls its configuration.
pub struct StatementReader {
    broker_info: BrokerInfo,
}

impl StatementReader {
    /// The broker data the reader was built with.
    pub closed spec fn info(&self) -> BrokerInfo {
        self.broker_info
    }

    pub fn new(config: &Config) -> (r: Result<StatementReader, BrokerError>)
        ensures
            r is Ok <==> spec_broker_config(Broker::Bcs, *config) is Some,
            r matches Ok(s) ==> ({
                &&& s.info().allow_sparse_broker_statements
                &&& s.info().name@ == spec_broker_name(Broker::Bcs)
                &&& commission_spec_matches(Broker::Bcs, s.info().commission_spec)
                &&& s.info().config.deposit_commissions@.map_values(|d: DepositCommission| d@)
                    == spec_broker_config(Broker::Bcs, *config).unwrap()
                        .deposit_commissions@.map_values(|d: DepositCommission| d@)
                &&& (spec_broker_config(Broker::Bcs, *config).unwrap().wf() ==> s.info().config.wf())
            }),
            r matches Err(e) ==> e == BrokerError::NoBrokerConfig,
    {
        Ok(StatementReader {
            broker_info: Broker::Bcs.get_info(config)?,
        })
    }

    /// Whether a path looks like a statement file of this brokerage.
    pub fn is_statement(&self, path: &str) -> (r: bool)
        ensures
            r == (path@.len() >= 4 && path@[path@.len() - 4] == '.' && path@[path@.len() - 3] == 'x'
                && path@[path@.len() - 2] == 'l' && path@[path@.len() - 1] == 's'),
    {
        let n = path.unicode_len();
        if n < 4 {
            return false;
        }
        path.get_char(n - 4) == '.' && path.get_char(n - 3) == 'x'
            && path.get_char(n - 2) == 'l' && path.get_char(n - 1) == 's'
    }
}

} // verus!
