//! The errors of the matching engine and their messages.
use vstd::prelude::*;
use vstd::string::*;

verus! {

#[derive(Debug)]
pub enum MatchingEngineError {
    OrderbookNotFound(String),
    InsufficientLiquidity,
    InvalidOrderSize,
    InvalidOrderPrice,
    InvalidOrderType(String),
    InvalidOrderCancellation(String),
    OrderNotFound(String),
    OrderAlreadyFilled,
    TradingPairNotFound(String),
    InternalError(String),
}

pub type MatchingEngineResult<T> = Result<T, MatchingEngineError>;

/// `prefix` followed by `detail`.
fn join(prefix: &str, detail: &String) -> (r: String)
    ensures
        r@ == prefix@ + detail@,
{
    let mut s = String::from_str(prefix);
    s.append(detail.as_str());
    s
}

impl MatchingEngineError {
    /// The human-readable message of the error.
    pub open spec fn message_spec(&self) -> Seq<char> {
        match self {
            MatchingEngineError::OrderbookNotFound(pair) => "Orderbook not found for trading pair: "@
                + pair@,
            MatchingEngineError::InsufficientLiquidity => "Insufficient liquidity to fill order"@,
            MatchingEngineError::InvalidOrderSize => "Invalid order size"@,
            MatchingEngineError::InvalidOrderPrice => "Invalid order price"@,
            MatchingEngineError::InvalidOrderType(msg) => "Invalid order type: "@ + msg@,
            MatchingEngineError::InvalidOrderCancellation(msg) => "Invalid order cancellation: "@
                + msg@,
            MatchingEngineError::OrderNotFound(id) => "Order not found: "@ + id@,
            MatchingEngineError::OrderAlreadyFilled => "Order is already filled"@,
            MatchingEngineError::TradingPairNotFound(pair) => "Trading pair not found: "@ + pair@,
            MatchingEngineError::InternalError(msg) => "Internal error: "@ + msg@,
        }
    }

    /// The text that the error displays.
    pub fn message(&self) -> (r: String)
        ensures
            r@ == self.message_spec(),
    {
        match self {
            MatchingEngineError::OrderbookNotFound(pair) => join(
                "Orderbook not found for trading pair: ",
                pair,
            ),
            MatchingEngineError::InsufficientLiquidity => String::from_str(
                "Insufficient liquidity to fill order",
            ),
            MatchingEngineError::InvalidOrderSize => String::from_str("Invalid order size"),
            MatchingEngineError::InvalidOrderPrice => String::from_str("Invalid order price"),
            MatchingEngineError::InvalidOrderType(msg) => join("Invalid order type: ", msg),
            MatchingEngineError::InvalidOrderCancellation(msg) => join(
                "Invalid order cancellation: ",
                msg,
            ),
            MatchingEngineError::OrderNotFound(id) => join("Order not found: ", id),
            MatchingEngineError::OrderAlreadyFilled => String::from_str("Order is already filled"),
            MatchingEngineError::TradingPairNotFound(pair) => join("Trading pair not found: ", pair),
            MatchingEngineError::InternalError(msg) => join("Internal error: ", msg),
        }
    }
}

} // verus!
