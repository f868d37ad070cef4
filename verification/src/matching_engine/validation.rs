//! Validation of new orders and of cancellations.
use super::decimal::Decimal;
use super::errors::{MatchingEngineError, MatchingEngineResult};
use super::types::{Order, OrderType};
use vstd::prelude::*;
use vstd::string::*;

verus! {

pub struct OrderValidator;

/// The outcome of validating a new order, without the messages.
pub enum Verdict {
    Valid,
    BadSize,
    BadPrice,
    NeedsLimitPrice,
}

/// How a new order fares: a size that is not positive is refused first, then
/// a limit price that is not positive, then a GTC or FOK order without a price.
pub open spec fn new_order_verdict(order: Order) -> Verdict {
    if order.size.value() <= 0 {
        Verdict::BadSize
    } else if order.price matches Some(p) && p.value() <= 0 {
        Verdict::BadPrice
    } else if order.price is None && (order.order_type == OrderType::GTC || order.order_type
        == OrderType::FOK) {
        Verdict::NeedsLimitPrice
    } else {
        Verdict::Valid
    }
}

/// The message that explains why an order type needs a limit price.
pub open spec fn needs_price_message(t: OrderType) -> Seq<char> {
    if t == OrderType::GTC {
        "GTC orders must be limit orders"@
    } else {
        "FOK orders must be limit orders"@
    }
}

/// `r` is the result that validation gives for `order`.
pub open spec fn validation_result(order: Order, r: MatchingEngineResult<()>) -> bool {
    match new_order_verdict(order) {
        Verdict::Valid => r is Ok,
        Verdict::BadSize => r matches Err(MatchingEngineError::InvalidOrderSize),
        Verdict::BadPrice => r matches Err(MatchingEngineError::InvalidOrderPrice),
        Verdict::NeedsLimitPrice => r matches Err(MatchingEngineError::InvalidOrderType(msg))
            && msg@ == needs_price_message(order.order_type),
    }
}

/// What a new order must satisfy to be accepted: a positive size, a positive
/// limit price when it has one, and a limit price when it is GTC or FOK.
pub open spec fn order_acceptable(order: Order) -> bool {
    &&& order.size.value() > 0
    &&& order.price is Some ==> order.price->Some_0.value() > 0
    &&& (order.order_type == OrderType::GTC || order.order_type == OrderType::FOK) ==> order.price is Some
}

/// Validation accepts exactly the acceptable orders.  A size that is not
/// positive is refused with `InvalidOrderSize`, whatever else the order holds;
/// a positive size with a limit price that is not positive is refused with
/// `InvalidOrderPrice`; a GTC or FOK order with a positive size and no price is
/// refused with `InvalidOrderType`.
pub proof fn lemma_validation(order: Order, r: MatchingEngineResult<()>)
    requires
        validation_result(order, r),
    ensures
        r is Ok <==> order_acceptable(order),
        order.size.value() <= 0 ==> (r matches Err(MatchingEngineError::InvalidOrderSize)),
        order.size.value() > 0 && order.price is Some && order.price->Some_0.value() <= 0 ==> (r matches Err(
            MatchingEngineError::InvalidOrderPrice,
        )),
        order.size.value() > 0 && order.price is None && (order.order_type == OrderType::GTC || order.order_type
            == OrderType::FOK) ==> (r matches Err(MatchingEngineError::InvalidOrderType(_))),
{
}

impl OrderValidator {
    pub fn validate_new_order(order: &Order) -> (r: MatchingEngineResult<()>)
        ensures
            validation_result(*order, r),
            r is Ok <==> order_acceptable(*order),
            order.size.value() <= 0 ==> (r matches Err(MatchingEngineError::InvalidOrderSize)),
    {
        let zero = Decimal::zero();
        proof {
            Decimal::lemma_zero();
        }
        // Validate size
        if order.size.le(&zero) {
            return Err(MatchingEngineError::InvalidOrderSize);
        }
        // Validate price for limit orders
        if let Some(price) = order.price {
            if price.le(&zero) {
                return Err(MatchingEngineError::InvalidOrderPrice);
            }
        }
        // Validate order type specific rules
        match order.order_type {
            OrderType::GTC => Self::validate_gtc_order(order),
            OrderType::IOC => Self::validate_ioc_order(order),
            OrderType::FOK => Self::validate_fok_order(order),
        }
    }

    fn validate_gtc_order(order: &Order) -> (r: MatchingEngineResult<()>)
        ensures
            order.price is Some ==> r is Ok,
            order.price is None ==> (r matches Err(MatchingEngineError::InvalidOrderType(msg))
                && msg@ == "GTC orders must be limit orders"@),
    {
        // GTC orders must have a price (limit orders only)
        if order.price.is_none() {
            return Err(
                MatchingEngineError::InvalidOrderType(
                    String::from_str("GTC orders must be limit orders"),
                ),
            );
        }
        Ok(())
    }

    fn validate_ioc_order(_order: &Order) -> (r: MatchingEngineResult<()>)
        ensures
            r is Ok,
    {
        // IOC orders can be either market or limit
        Ok(())
    }

    fn validate_fok_order(order: &Order) -> (r: MatchingEngineResult<()>)
        ensures
            order.price is Some ==> r is Ok,
            order.price is None ==> (r matches Err(MatchingEngineError::InvalidOrderType(msg))
                && msg@ == "FOK orders must be limit orders"@),
    {
        // FOK orders must have a price (limit orders only)
        if order.price.is_none() {
            return Err(
                MatchingEngineError::InvalidOrderType(
                    String::from_str("FOK orders must be limit orders"),
                ),
            );
        }
        Ok(())
    }

    /// Only a GTC order that is not yet filled can be cancelled.
    pub fn validate_order_cancellation(order: &Order, is_filled: bool) -> (r: MatchingEngineResult<()>)
        ensures
            is_filled ==> r matches Err(MatchingEngineError::OrderAlreadyFilled),
            !is_filled && order.order_type == OrderType::GTC ==> r is Ok,
            !is_filled && order.order_type != OrderType::GTC ==> (r matches Err(
                MatchingEngineError::InvalidOrderCancellation(msg),
            ) && msg@ == "Only GTC orders can be cancelled"@),
    {
        if is_filled {
            return Err(MatchingEngineError::OrderAlreadyFilled);
        }
        match order.order_type {
            OrderType::GTC => Ok(()),
            _ => Err(
                MatchingEngineError::InvalidOrderCancellation(
                    String::from_str("Only GTC orders can be cancelled"),
                ),
            ),
        }
    }
}

} // verus!
