//! Records exchanged with users and kept per account.
use vstd::prelude::*;
use vstd::string::*;
use crate::portfolio::Portfolio;
use crate::text::{has_prefix, starts_with, text_eq};

verus! {

/// What a signed session token carries: the user it was issued to and its expiry.
pub struct Claims {
    pub sub: String,
    pub exp: usize,
}

pub struct RegisterUser {
    pub username: String,
    pub password: String,
}

pub struct LoginUser {
    pub username: String,
    pub password: String,
}

pub struct User {
    pub user_id: String,
    pub username: String,
    pub password: String,
}

/// How an order may be matched.
#[derive(Clone, Copy, Debug, PartialEq, Eq, Structural)]
pub enum OrderType {
    Limit,
    Market,
    Stop,
}

pub open spec fn order_type_name(t: OrderType) -> Seq<char> {
    match t {
        OrderType::Limit => seq!['l', 'i', 'm', 'i', 't'],
        OrderType::Market => seq!['m', 'a', 'r', 'k', 'e', 't'],
        OrderType::Stop => seq!['s', 't', 'o', 'p'],
    }
}

/// The code under which the ledger contract knows each order type.
pub open spec fn ledger_code(t: OrderType) -> u8 {
    match t {
        OrderType::Limit => 0,
        OrderType::Market => 1,
        OrderType::Stop => 2,
    }
}

impl OrderType {
    pub fn as_str(&self) -> (r: &'static str)
        ensures
            r@ == order_type_name(*self),
    {
        proof {
            reveal_strlit("limit");
            reveal_strlit("market");
            reveal_strlit("stop");
        }
        match self {
            OrderType::Limit => "limit",
            OrderType::Market => "market",
            OrderType::Stop => "stop",
        }
    }

    pub fn from_str(s: &str) -> (r: Option<OrderType>)
        ensures
            r matches Some(t) ==> order_type_name(t) == s@,
            r is None ==> forall|t: OrderType| order_type_name(t) != s@,
    {
        proof {
            reveal_strlit("limit");
            reveal_strlit("market");
            reveal_strlit("stop");
        }
        if text_eq(s, "limit") {
            Some(OrderType::Limit)
        } else if text_eq(s, "market") {
            Some(OrderType::Market)
        } else if text_eq(s, "stop") {
            Some(OrderType::Stop)
        } else {
            proof {
                assert forall|t: OrderType| order_type_name(t) != s@ by {
                    match t {
                        OrderType::Limit => assert(order_type_name(t) =~= "limit"@),
                        OrderType::Market => assert(order_type_name(t) =~= "market"@),
                        OrderType::Stop => assert(order_type_name(t) =~= "stop"@),
                    }
                }
            }
            None
        }
    }

    /// The numeric code passed to the ledger contract when an order is placed.
    pub fn contract_code(&self) -> (r: u8)
        ensures
            r == ledger_code(*self),
    {
        match self {
            OrderType::Limit => 0,
            OrderType::Market => 1,
            OrderType::Stop => 2,
        }
    }
}

/// An order as recorded in a user's history.
pub struct Order {
    pub order_id: String,
    pub user_id: String,
    pub symbol: String,
    pub quantity: u32,
    pub price: u32,
    pub order_type: String,
}

pub struct OrderRequest {
    pub symbol: String,
    pub quantity: u32,
    pub price: u32,
    pub order_type: OrderType,
}

/// Whether a request describes an order that may be placed: a positive
/// quantity, a positive price unless it is a market order, and a symbol.
pub open spec fn request_ok(request: OrderRequest) -> bool {
    &&& request.quantity > 0
    &&& (request.order_type != OrderType::Market ==> request.price > 0)
    &&& request.symbol@.len() > 0
}

/// Checks a request before it is sent on; see `request_ok`.
pub fn validate_request(request: &OrderRequest) -> (r: bool)
    ensures
        r == request_ok(*request),
{
    let needs_price = match request.order_type {
        OrderType::Market => false,
        _ => true,
    };
    request.quantity > 0 && (!needs_price || request.price > 0) && request.symbol.as_str().unicode_len() > 0
}

/// The record kept of an order placed on the ledger for `user_id`.
pub fn order_record(order_id: String, user_id: String, request: &OrderRequest) -> (r: Order)
    ensures
        r.order_id == order_id,
        r.user_id == user_id,
        r.symbol == request.symbol,
        r.quantity == request.quantity,
        r.price == request.price,
        r.order_type@ == order_type_name(request.order_type),
{
    Order {
        order_id,
        user_id,
        symbol: request.symbol.clone(),
        quantity: request.quantity,
        price: request.price,
        order_type: request.order_type.as_str().to_owned(),
    }
}

/// Links an order to the ledger transaction that carried it.
pub struct Transaction {
    pub order_id: String,
    pub transaction_id: String,
}

/// Everything kept for one account.
pub struct UserState {
    pub user_id: String,
    pub username: String,
    pub password: String,
    pub orders: Vec<Order>,
    pub transactions: Vec<Transaction>,
    pub portfolio: Portfolio,
}

pub struct InitializeUserRequest {
    pub username: String,
    pub password: String,
    pub portfolio: Portfolio,
}

pub open spec fn bearer_prefix() -> Seq<char> {
    seq!['B', 'e', 'a', 'r', 'e', 'r', ' ']
}

/// The token of an authorization header: every leading `"Bearer "` is removed.
pub open spec fn strip_bearer(s: Seq<char>) -> Seq<char>
    decreases s.len(),
{
    if has_prefix(s, bearer_prefix()) {
        strip_bearer(s.subrange(bearer_prefix().len() as int, s.len() as int))
    } else {
        s
    }
}

pub fn bearer_token(header: &str) -> (r: String)
    ensures
        r@ == strip_bearer(header@),
{
    proof {
        reveal_strlit("Bearer ");
    }
    let mut rest: &str = header;
    while starts_with(rest, "Bearer ")
        invariant
            strip_bearer(rest@) == strip_bearer(header@),
            "Bearer "@ == bearer_prefix(),
        decreases rest@.len(),
    {
        let n = rest.unicode_len();
        rest = rest.substring_char(7, n);
    }
    rest.to_owned()
}

/// The state of a freshly registered account: no orders, no transactions,
/// and the given empty portfolio.
pub fn new_user_state(user_id: String, username: String, password_hash: String, portfolio: Portfolio) -> (r:
    UserState)
    ensures
        r.user_id == user_id,
        r.username == username,
        r.password == password_hash,
        r.orders@.len() == 0,
        r.transactions@.len() == 0,
        r.portfolio == portfolio,
{
    UserState {
        user_id,
        username,
        password: password_hash,
        orders: Vec::new(),
        transactions: Vec::new(),
        portfolio,
    }
}

/// Records in a user's state an order that the ledger accepted, together with
/// the transaction that carried it.
pub fn record_placed_order(state: &mut UserState, order: Order, transaction_id: String)
    ensures
        final(state).orders@ == old(state).orders@.push(order),
        final(state).transactions@.len() == old(state).transactions@.len() + 1,
        final(state).transactions@.drop_last() == old(state).transactions@,
        final(state).transactions@.last().order_id == order.order_id,
        final(state).transactions@.last().transaction_id == transaction_id,
        final(state).user_id == old(state).user_id,
        final(state).username == old(state).username,
        final(state).password == old(state).password,
        final(state).portfolio == old(state).portfolio,
{
    let t = Transaction { order_id: order.order_id.clone(), transaction_id };
    state.orders.push(order);
    state.transactions.push(t);
    assert(state.transactions@.drop_last() =~= old(state).transactions@);
}

} // verus!
