//! Orders, trading pairs and trades.
use super::decimal::Decimal;
use vstd::prelude::*;
use vstd::string::*;

verus! {

/// Nanoseconds since the Unix epoch.
pub type Timestamp = u128;

#[derive(Debug, Clone, Copy, PartialEq, Eq, Structural)]
pub enum OrderSide {
    Bid,
    Ask,
}

#[derive(Debug, Clone, Copy, PartialEq, Eq, Structural)]
pub enum OrderType {
    GTC,  // Good Till Cancelled
    IOC,  // Immediate Or Cancel
    FOK,  // Fill Or Kill
}

#[derive(Debug, Clone)]
pub struct Order {
    pub id: String,
    pub trading_pair: TradingPair,
    pub side: OrderSide,
    pub price: Option<Decimal>,  // None for market orders
    pub size: Decimal,
    pub filled_size: Decimal,
    pub order_type: OrderType,
    pub timestamp: Timestamp,
}

#[derive(Debug, PartialEq, Eq, Hash, Clone)]
pub struct TradingPair {
    pub base: String,
    pub quote: String,
}

/// What identifies a trading pair: the characters of its two symbols.
pub struct TradingPairView {
    pub base: Seq<char>,
    pub quote: Seq<char>,
}

impl View for TradingPair {
    type V = TradingPairView;

    open spec fn view(&self) -> TradingPairView {
        TradingPairView { base: self.base@, quote: self.quote@ }
    }
}

/// `SystemTime::now`, as nanoseconds since the Unix epoch (0 for a clock set
/// before the epoch).  Nothing is stated of the value: it is whatever the
/// clock reads.
#[verifier::external_body]
pub(crate) fn current_time() -> (t: Timestamp) {
    match std::time::SystemTime::now().duration_since(std::time::UNIX_EPOCH) {
        Ok(d) => d.as_nanos(),
        Err(_) => 0,
    }
}

impl Order {
    /// An order is filled once its filled size reaches its size.
    pub open spec fn is_filled_spec(self) -> bool {
        self.filled_size.value() >= self.size.value()
    }

    /// `size - filled_size`, as the decimal subtraction computes it.
    pub open spec fn remaining_spec(self) -> Decimal {
        self.size.sub_spec(self.filled_size)
    }

    /// The same order with another filled size.
    pub open spec fn with_filled(self, filled: Decimal) -> Order {
        Order { filled_size: filled, ..self }
    }

    pub fn new_limit(
        id: String,
        trading_pair: TradingPair,
        side: OrderSide,
        price: Decimal,
        size: Decimal,
        order_type: OrderType,
    ) -> (r: Self)
        ensures
            r.id == id,
            r.trading_pair == trading_pair,
            r.side == side,
            r.price == Some(price),
            r.size == size,
            r.filled_size == Decimal::zero_spec(),
            r.order_type == order_type,
    {
        Order {
            id,
            trading_pair,
            side,
            price: Some(price),
            size,
            filled_size: Decimal::zero(),
            order_type,
            timestamp: current_time(),
        }
    }

    pub fn new_market(id: String, trading_pair: TradingPair, side: OrderSide, size: Decimal) -> (r: Self)
        ensures
            r.id == id,
            r.trading_pair == trading_pair,
            r.side == side,
            r.price == None::<Decimal>,
            r.size == size,
            r.filled_size == Decimal::zero_spec(),
            r.order_type == OrderType::IOC,
    {
        Order {
            id,
            trading_pair,
            side,
            price: None,
            size,
            filled_size: Decimal::zero(),
            order_type: OrderType::IOC,
            timestamp: current_time(),
        }
    }

    pub fn is_filled(&self) -> (r: bool)
        ensures
            r == self.is_filled_spec(),
    {
        self.filled_size.ge(&self.size)
    }

    pub fn remaining_size(&self) -> (r: Decimal)
        requires
            super::decimal::within_max(self.size.value() - self.filled_size.value()),
        ensures
            r == self.remaining_spec(),
            r.scale_of() <= super::decimal::max_nat(self.size.scale_of(), self.filled_size.scale_of()),
            super::decimal::fits_at(
                self.size.value() - self.filled_size.value(),
                super::decimal::max_nat(self.size.scale_of(), self.filled_size.scale_of()),
            ) ==> r.value() == self.size.value() - self.filled_size.value(),
    {
        self.size.sub(self.filled_size)
    }

    /// A field-by-field copy of the order.
    pub fn duplicate(&self) -> (r: Order)
        ensures
            r == *self,
    {
        Order {
            id: self.id.clone(),
            trading_pair: self.trading_pair.duplicate(),
            side: self.side,
            price: self.price,
            size: self.size,
            filled_size: self.filled_size,
            order_type: self.order_type,
            timestamp: self.timestamp,
        }
    }
}

impl TradingPair {
    pub fn new(base: &str, quote: &str) -> (r: Self)
        ensures
            r.base@ == base@,
            r.quote@ == quote@,
    {
        TradingPair { base: String::from_str(base), quote: String::from_str(quote) }
    }

    /// The text of the pair: its base symbol, an underscore, its quote symbol.
    pub open spec fn text(self) -> Seq<char> {
        self.base@ + seq!['_'] + self.quote@
    }

    /// `BASE_QUOTE`.
    pub fn to_string(&self) -> (r: String)
        ensures
            r@ == self.text(),
    {
        let mut s = self.base.clone();
        s.append("_");
        s.append(self.quote.as_str());
        proof {
            reveal_strlit("_");
        }
        s
    }

    /// Whether two pairs name the same symbols.
    pub fn same_as(&self, other: &TradingPair) -> (r: bool)
        ensures
            r == (self@ == other@),
    {
        self.base == other.base && self.quote == other.quote
    }

    /// A field-by-field copy of the pair.
    pub fn duplicate(&self) -> (r: TradingPair)
        ensures
            r == *self,
    {
        TradingPair { base: self.base.clone(), quote: self.quote.clone() }
    }
}

#[derive(Debug, Clone)]
pub struct Trade {
    pub id: String,
    pub trading_pair: TradingPair,
    pub price: Decimal,
    pub size: Decimal,
    pub maker_order_id: String,
    pub taker_order_id: String,
    pub timestamp: Timestamp,
}

/// `Uuid::new_v4` in its hyphenated text form.  Nothing is stated of the text:
/// it is drawn at random.
#[verifier::external_body]
fn fresh_trade_id() -> (id: String) {
    uuid::Uuid::new_v4().to_string()
}

impl Trade {
    /// Everything of a trade but its random id and its time.
    pub open spec fn describes(self, pair: TradingPair, price: Decimal, size: Decimal, maker_order_id: String, taker_order_id: String) -> bool {
        &&& self.trading_pair == pair
        &&& self.price == price
        &&& self.size == size
        &&& self.maker_order_id == maker_order_id
        &&& self.taker_order_id == taker_order_id
    }

    pub fn new(
        trading_pair: TradingPair,
        price: Decimal,
        size: Decimal,
        maker_order_id: String,
        taker_order_id: String,
    ) -> (r: Self)
        ensures
            r.describes(trading_pair, price, size, maker_order_id, taker_order_id),
    {
        Trade {
            id: fresh_trade_id(),
            trading_pair,
            price,
            size,
            maker_order_id,
            taker_order_id,
            timestamp: current_time(),
        }
    }

    /// A field-by-field copy of the trade.
    pub fn duplicate(&self) -> (r: Trade)
        ensures
            r == *self,
    {
        Trade {
            id: self.id.clone(),
            trading_pair: self.trading_pair.duplicate(),
            price: self.price,
            size: self.size,
            maker_order_id: self.maker_order_id.clone(),
            taker_order_id: self.taker_order_id.clone(),
            timestamp: self.timestamp,
        }
    }
}

} // verus!
