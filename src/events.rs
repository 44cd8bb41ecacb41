//! Decoding of the ledger's order-matched log entries.
//!
//! A log entry's data is the ABI encoding of eleven values: the two order ids,
//! the symbol, quantity and price, then address, user id and order id of the
//! buyer and of the seller. A malformed entry is an error, never a panic.
use vstd::prelude::*;
use crate::book::MatchedTrade;

verus! {

/// The kinds of ABI value the order-matched event is made of.
#[derive(Clone, Copy, Debug, PartialEq, Eq, Structural)]
pub enum AbiKind {
    /// A 256-bit unsigned integer.
    Uint,
    /// A 20-byte account address.
    Address,
    /// A string.
    Text,
}

/// A decoded ABI value.
pub enum AbiToken {
    /// A 256-bit unsigned integer as four 64-bit limbs, least significant first.
    Uint([u64; 4]),
    Address(Vec<u8>),
    Text(String),
    /// A value of a kind the event does not use.
    Other,
}

/// A 256-bit unsigned integer as four 64-bit limbs, least significant first.
pub struct Uint256 {
    pub limbs: [u64; 4],
}

/// The ledger's event for one matched pair of orders.
pub struct OrderMatchedEvent {
    pub buy_order_id: Uint256,
    pub sell_order_id: Uint256,
    pub symbol: String,
    pub quantity: Uint256,
    pub price: Uint256,
    pub buyer: Vec<u8>,
    pub buyer_user_id: String,
    pub buyer_order_id: String,
    pub seller: Vec<u8>,
    pub seller_user_id: String,
    pub seller_order_id: String,
}

#[derive(Clone, Copy, Debug, PartialEq, Eq, Structural)]
pub enum DecodeError {
    /// The data is not a valid encoding of the event's values.
    Malformed,
    /// The values are not those of the event, in number or in kind.
    UnexpectedShape,
}

#[derive(Clone, Copy, Debug, PartialEq, Eq, Structural)]
pub enum ValidationError {
    /// An order id does not fit in 64 bits, or a quantity or price in 32.
    OutOfRange,
    /// The quantity is zero.
    ZeroQuantity,
}

#[verifier::external_type_specification]
#[verifier::external_body]
pub struct ExAbiError(ethabi::Error);

/// The values that `data` decodes to as ABI values of the given kinds, if
/// it is a valid encoding of them.
pub uninterp spec fn abi_decoding(kinds: Seq<AbiKind>, data: Seq<u8>) -> Option<Seq<AbiToken>>;

pub open spec fn token_is(t: AbiToken, k: AbiKind) -> bool {
    match k {
        AbiKind::Uint => t is Uint,
        AbiKind::Address => t is Address && t->Address_0@.len() == 20,
        AbiKind::Text => t is Text,
    }
}

/// Relies on `ethabi::decode`: it decodes `data` as values of the given
/// kinds (uint256, address, string), one token per kind and each of its kind,
/// or fails; it does not panic on these kinds.
#[verifier::external_body]
fn abi_decode(kinds: &Vec<AbiKind>, data: &Vec<u8>) -> (r: Result<Vec<AbiToken>, ethabi::Error>)
    ensures
        r matches Ok(v) ==> abi_decoding(kinds@, data@) == Some(v@) && v@.len() == kinds@.len() && (forall|
            i: int,
        | 0 <= i < v@.len() ==> token_is(#[trigger] v@[i], kinds@[i])),
        r is Err ==> abi_decoding(kinds@, data@) is None,
{
    let types: Vec<ethabi::ParamType> = kinds.iter().map(|k| match k {
        AbiKind::Uint => ethabi::ParamType::Uint(256),
        AbiKind::Address => ethabi::ParamType::Address,
        AbiKind::Text => ethabi::ParamType::String,
    }).collect();
    let tokens = ethabi::decode(&types, data)?;
    Ok(tokens.into_iter().map(|t| match t {
        ethabi::Token::Uint(u) => AbiToken::Uint(u.0),
        ethabi::Token::Address(a) => AbiToken::Address(a.0.to_vec()),
        ethabi::Token::String(s) => AbiToken::Text(s),
        _ => AbiToken::Other,
    }).collect())
}

pub open spec fn event_schema() -> Seq<AbiKind> {
    seq![
        AbiKind::Uint,
        AbiKind::Uint,
        AbiKind::Text,
        AbiKind::Uint,
        AbiKind::Uint,
        AbiKind::Address,
        AbiKind::Text,
        AbiKind::Text,
        AbiKind::Address,
        AbiKind::Text,
        AbiKind::Text,
    ]
}

/// The kinds of the event's values, in order.
pub fn event_kinds() -> (r: Vec<AbiKind>)
    ensures
        r@ == event_schema(),
{
    let r = vec![
        AbiKind::Uint,
        AbiKind::Uint,
        AbiKind::Text,
        AbiKind::Uint,
        AbiKind::Uint,
        AbiKind::Address,
        AbiKind::Text,
        AbiKind::Text,
        AbiKind::Address,
        AbiKind::Text,
        AbiKind::Text,
    ];
    assert(r@ =~= event_schema());
    r
}

pub open spec fn shaped(tokens: Seq<AbiToken>) -> bool {
    tokens.len() == 11 && forall|i: int| 0 <= i < 11 ==> token_is(#[trigger] tokens[i], event_schema()[i])
}

/// Whether `e` holds the values `tokens`, in the event's order.
pub open spec fn event_holds(e: OrderMatchedEvent, tokens: Seq<AbiToken>) -> bool {
    &&& e.buy_order_id.limbs == tokens[0]->Uint_0
    &&& e.sell_order_id.limbs == tokens[1]->Uint_0
    &&& e.symbol == tokens[2]->Text_0
    &&& e.quantity.limbs == tokens[3]->Uint_0
    &&& e.price.limbs == tokens[4]->Uint_0
    &&& e.buyer@ == tokens[5]->Address_0@
    &&& e.buyer_user_id == tokens[6]->Text_0
    &&& e.buyer_order_id == tokens[7]->Text_0
    &&& e.seller@ == tokens[8]->Address_0@
    &&& e.seller_user_id == tokens[9]->Text_0
    &&& e.seller_order_id == tokens[10]->Text_0
}

fn take_uint(t: &AbiToken) -> (r: Option<Uint256>)
    ensures
        r is Some <==> t is Uint,
        r matches Some(u) ==> u.limbs == t->Uint_0,
{
    match t {
        AbiToken::Uint(l) => Some(Uint256 { limbs: *l }),
        _ => None,
    }
}

fn take_text(t: &AbiToken) -> (r: Option<String>)
    ensures
        r is Some <==> t is Text,
        r matches Some(s) ==> s == t->Text_0,
{
    match t {
        AbiToken::Text(s) => Some(s.clone()),
        _ => None,
    }
}

fn take_address(t: &AbiToken) -> (r: Option<Vec<u8>>)
    ensures
        r is Some <==> t is Address && t->Address_0@.len() == 20,
        r matches Some(a) ==> a@ == t->Address_0@,
{
    match t {
        AbiToken::Address(a) => {
            if a.len() != 20 {
                return None;
            }
            let mut out: Vec<u8> = Vec::new();
            let mut i: usize = 0;
            while i < a.len()
                invariant
                    i <= a@.len(),
                    out@ == a@.subrange(0, i as int),
                decreases a@.len() - i,
            {
                out.push(a[i]);
                i = i + 1;
                assert(out@ =~= a@.subrange(0, i as int));
            }
            assert(a@.subrange(0, a@.len() as int) =~= a@);
            Some(out)
        },
        _ => None,
    }
}

/// Builds the event from its decoded values; fails when they are not the
/// event's eleven values of the expected kinds.
pub fn event_from_tokens(tokens: &Vec<AbiToken>) -> (r: Result<OrderMatchedEvent, DecodeError>)
    ensures
        r is Ok <==> shaped(tokens@),
        r matches Ok(e) ==> event_holds(e, tokens@),
        r matches Err(x) ==> x == DecodeError::UnexpectedShape,
{
    if tokens.len() != 11 {
        return Err(DecodeError::UnexpectedShape);
    }
    let ghost s = event_schema();
    let ghost tk = tokens@;
    let r = match (
        take_uint(&tokens[0]),
        take_uint(&tokens[1]),
        take_text(&tokens[2]),
        take_uint(&tokens[3]),
        take_uint(&tokens[4]),
        take_address(&tokens[5]),
        take_text(&tokens[6]),
        take_text(&tokens[7]),
        take_address(&tokens[8]),
        take_text(&tokens[9]),
        take_text(&tokens[10]),
    ) {
        (
            Some(buy_order_id),
            Some(sell_order_id),
            Some(symbol),
            Some(quantity),
            Some(price),
            Some(buyer),
            Some(buyer_user_id),
            Some(buyer_order_id),
            Some(seller),
            Some(seller_user_id),
            Some(seller_order_id),
        ) => Ok(
            OrderMatchedEvent {
                buy_order_id,
                sell_order_id,
                symbol,
                quantity,
                price,
                buyer,
                buyer_user_id,
                buyer_order_id,
                seller,
                seller_user_id,
                seller_order_id,
            },
        ),
        _ => Err(DecodeError::UnexpectedShape),
    };
    proof {
        if shaped(tk) {
            assert(token_is(tk[0], s[0]));
            assert(token_is(tk[1], s[1]));
            assert(token_is(tk[2], s[2]));
            assert(token_is(tk[3], s[3]));
            assert(token_is(tk[4], s[4]));
            assert(token_is(tk[5], s[5]));
            assert(token_is(tk[6], s[6]));
            assert(token_is(tk[7], s[7]));
            assert(token_is(tk[8], s[8]));
            assert(token_is(tk[9], s[9]));
            assert(token_is(tk[10], s[10]));
        }
        if r is Ok {
            assert forall|i: int| 0 <= i < 11 implies token_is(#[trigger] tk[i], s[i]) by {
                if i == 0 {
                } else if i == 1 {
                } else if i == 2 {
                } else if i == 3 {
                } else if i == 4 {
                } else if i == 5 {
                } else if i == 6 {
                } else if i == 7 {
                } else if i == 8 {
                } else if i == 9 {
                } else {
                }
            }
        }
    }
    r
}

/// Decodes the data of an order-matched log entry.
pub fn parse_log(data: &Vec<u8>) -> (r: Result<OrderMatchedEvent, DecodeError>)
    ensures
        r is Err <==> abi_decoding(event_schema(), data@) is None,
        r matches Err(x) ==> x == DecodeError::Malformed,
        r matches Ok(e) ==> event_holds(e, abi_decoding(event_schema(), data@)->Some_0),
{
    let kinds = event_kinds();
    match abi_decode(&kinds, data) {
        Ok(tokens) => match event_from_tokens(&tokens) {
            Ok(e) => Ok(e),
            Err(_) => Err(DecodeError::Malformed),
        },
        Err(_) => Err(DecodeError::Malformed),
    }
}

/// The value of a 256-bit integer.
pub open spec fn uint_value(u: Uint256) -> int {
    u.limbs[0] + u.limbs[1] * 0x1_0000_0000_0000_0000 + u.limbs[2] * 0x1_0000_0000_0000_0000_0000_0000_0000_0000
        + u.limbs[3] * 0x1_0000_0000_0000_0000_0000_0000_0000_0000_0000_0000_0000_0000
}

pub open spec fn fits_u64(u: Uint256) -> bool {
    u.limbs[1] == 0 && u.limbs[2] == 0 && u.limbs[3] == 0
}

pub open spec fn fits_u32(u: Uint256) -> bool {
    fits_u64(u) && u.limbs[0] <= u32::MAX
}

impl Uint256 {
    /// The value, where it fits in 64 bits.
    pub fn to_u64(&self) -> (r: Option<u64>)
        ensures
            r is Some <==> fits_u64(*self),
            r matches Some(v) ==> v == uint_value(*self),
    {
        if self.limbs[1] == 0 && self.limbs[2] == 0 && self.limbs[3] == 0 {
            Some(self.limbs[0])
        } else {
            None
        }
    }

    pub fn from_u64(v: u64) -> (r: Uint256)
        ensures
            uint_value(r) == v,
            fits_u64(r),
    {
        Uint256 { limbs: [v, 0, 0, 0] }
    }
}

/// Whether the event's numbers fit the trade's fields.
pub open spec fn event_in_range(e: OrderMatchedEvent) -> bool {
    fits_u64(e.buy_order_id) && fits_u64(e.sell_order_id) && fits_u32(e.quantity) && fits_u32(e.price)
}

impl OrderMatchedEvent {
    /// The matched trade this event reports, with the parties' user ids.
    pub fn to_trade(&self) -> (r: Result<MatchedTrade, ValidationError>)
        ensures
            r matches Err(ValidationError::OutOfRange) <==> !event_in_range(*self),
            r matches Err(ValidationError::ZeroQuantity) <==> event_in_range(*self) && uint_value(self.quantity)
                == 0,
            r matches Ok(t) ==> {
                &&& event_in_range(*self)
                &&& t.quantity > 0
                &&& t.buy_order_id == uint_value(self.buy_order_id)
                &&& t.sell_order_id == uint_value(self.sell_order_id)
                &&& t.quantity == uint_value(self.quantity)
                &&& t.price == uint_value(self.price)
                &&& t.symbol == self.symbol
                &&& t.buyer_id == self.buyer_user_id
                &&& t.seller_id == self.seller_user_id
            },
    {
        let buy = self.buy_order_id.to_u64();
        let sell = self.sell_order_id.to_u64();
        let quantity = self.quantity.to_u64();
        let price = self.price.to_u64();
        match (buy, sell, quantity, price) {
            (Some(b), Some(s), Some(q), Some(p)) => {
                if q > u32::MAX as u64 || p > u32::MAX as u64 {
                    return Err(ValidationError::OutOfRange);
                }
                if q == 0 {
                    return Err(ValidationError::ZeroQuantity);
                }
                Ok(
                    MatchedTrade {
                        buy_order_id: b,
                        sell_order_id: s,
                        symbol: self.symbol.clone(),
                        quantity: q as u32,
                        price: p as u32,
                        buyer_id: self.buyer_user_id.clone(),
                        seller_id: self.seller_user_id.clone(),
                    },
                )
            },
            _ => Err(ValidationError::OutOfRange),
        }
    }
}

} // verus!
