use ethabi::ethereum_types::{H160, U256};
use ethabi::Token;
use trade_engine::events::{
    event_from_tokens, event_kinds, parse_log, AbiKind, AbiToken, DecodeError, OrderMatchedEvent, Uint256,
    ValidationError,
};

fn encoded(buy: u64, sell: u64, qty: U256, price: U256) -> Vec<u8> {
    ethabi::encode(&[
        Token::Uint(U256::from(buy)),
        Token::Uint(U256::from(sell)),
        Token::String("ACME".to_string()),
        Token::Uint(qty),
        Token::Uint(price),
        Token::Address(H160::repeat_byte(0x11)),
        Token::String("bob".to_string()),
        Token::String("ob-1".to_string()),
        Token::Address(H160::repeat_byte(0x22)),
        Token::String("sue".to_string()),
        Token::String("os-1".to_string()),
    ])
}

#[test]
fn decodes_an_order_matched_entry() {
    let data = encoded(7, 9, U256::from(10u64), U256::from(5u64));
    let e = parse_log(&data).unwrap();
    assert_eq!(e.buy_order_id.limbs, [7, 0, 0, 0]);
    assert_eq!(e.sell_order_id.limbs, [9, 0, 0, 0]);
    assert_eq!(e.symbol, "ACME");
    assert_eq!(e.quantity.limbs, [10, 0, 0, 0]);
    assert_eq!(e.price.limbs, [5, 0, 0, 0]);
    assert_eq!(e.buyer, vec![0x11u8; 20]);
    assert_eq!(e.buyer_user_id, "bob");
    assert_eq!(e.buyer_order_id, "ob-1");
    assert_eq!(e.seller, vec![0x22u8; 20]);
    assert_eq!(e.seller_user_id, "sue");
    assert_eq!(e.seller_order_id, "os-1");
    let t = e.to_trade().unwrap();
    assert_eq!(t.buy_order_id, 7);
    assert_eq!(t.sell_order_id, 9);
    assert_eq!(t.quantity, 10);
    assert_eq!(t.price, 5);
    assert_eq!(t.symbol, "ACME");
    assert_eq!(t.buyer_id, "bob");
    assert_eq!(t.seller_id, "sue");
}

#[test]
fn large_words_keep_all_limbs() {
    let big = U256::from(3u64) << 64;
    let data = encoded(1, 2, big, U256::from(5u64));
    let e = parse_log(&data).unwrap();
    assert_eq!(e.quantity.limbs, [0, 3, 0, 0]);
    assert_eq!(e.to_trade().err(), Some(ValidationError::OutOfRange));
}

#[test]
fn malformed_data_is_an_error() {
    assert_eq!(parse_log(&vec![]).err(), Some(DecodeError::Malformed));
    assert_eq!(parse_log(&vec![0u8; 40]).err(), Some(DecodeError::Malformed));
    let mut data = encoded(1, 2, U256::from(1u64), U256::from(1u64));
    data.truncate(data.len() - 64);
    assert_eq!(parse_log(&data).err(), Some(DecodeError::Malformed));
}

#[test]
fn kinds_of_the_event() {
    let k = event_kinds();
    assert_eq!(k.len(), 11);
    assert_eq!(k[0], AbiKind::Uint);
    assert_eq!(k[2], AbiKind::Text);
    assert_eq!(k[5], AbiKind::Address);
    assert_eq!(k[10], AbiKind::Text);
}

fn text(s: &str) -> AbiToken {
    AbiToken::Text(s.to_string())
}

fn word(v: u64) -> AbiToken {
    AbiToken::Uint([v, 0, 0, 0])
}

fn tokens() -> Vec<AbiToken> {
    vec![
        word(1),
        word(2),
        text("ACME"),
        word(3),
        word(4),
        AbiToken::Address(vec![1; 20]),
        text("b"),
        text("bo"),
        AbiToken::Address(vec![2; 20]),
        text("s"),
        text("so"),
    ]
}

#[test]
fn tokens_of_the_right_shape_make_an_event() {
    let e = event_from_tokens(&tokens()).unwrap();
    assert_eq!(e.quantity.limbs[0], 3);
    assert_eq!(e.seller, vec![2u8; 20]);
    assert_eq!(e.seller_order_id, "so");
}

#[test]
fn tokens_of_another_shape_are_rejected() {
    let mut t = tokens();
    t.pop();
    assert_eq!(event_from_tokens(&t).err(), Some(DecodeError::UnexpectedShape));
    let mut t = tokens();
    t[2] = word(5);
    assert_eq!(event_from_tokens(&t).err(), Some(DecodeError::UnexpectedShape));
    let mut t = tokens();
    t[5] = AbiToken::Address(vec![1; 19]);
    assert_eq!(event_from_tokens(&t).err(), Some(DecodeError::UnexpectedShape));
    let mut t = tokens();
    t[0] = AbiToken::Other;
    assert_eq!(event_from_tokens(&t).err(), Some(DecodeError::UnexpectedShape));
}

fn event(qty: Uint256, price: Uint256, buy: Uint256) -> OrderMatchedEvent {
    OrderMatchedEvent {
        buy_order_id: buy,
        sell_order_id: Uint256::from_u64(2),
        symbol: "ACME".to_string(),
        quantity: qty,
        price,
        buyer: vec![0; 20],
        buyer_user_id: "b".to_string(),
        buyer_order_id: "bo".to_string(),
        seller: vec![0; 20],
        seller_user_id: "s".to_string(),
        seller_order_id: "so".to_string(),
    }
}

#[test]
fn trade_fields_must_fit() {
    let e = event(Uint256::from_u64(1 << 32), Uint256::from_u64(1), Uint256::from_u64(1));
    assert_eq!(e.to_trade().err(), Some(ValidationError::OutOfRange));
    let e = event(Uint256::from_u64(1), Uint256::from_u64(u32::MAX as u64 + 1), Uint256::from_u64(1));
    assert_eq!(e.to_trade().err(), Some(ValidationError::OutOfRange));
    let e = event(Uint256::from_u64(1), Uint256::from_u64(1), Uint256 { limbs: [1, 0, 0, 1] });
    assert_eq!(e.to_trade().err(), Some(ValidationError::OutOfRange));
    let e = event(Uint256::from_u64(0), Uint256::from_u64(1), Uint256::from_u64(1));
    assert_eq!(e.to_trade().err(), Some(ValidationError::ZeroQuantity));
    let e = event(Uint256::from_u64(u32::MAX as u64), Uint256::from_u64(u32::MAX as u64), Uint256::from_u64(u64::MAX));
    let t = e.to_trade().unwrap();
    assert_eq!(t.quantity, u32::MAX);
    assert_eq!(t.buy_order_id, u64::MAX);
}

#[test]
fn word_values() {
    assert_eq!(Uint256::from_u64(42).to_u64(), Some(42));
    assert_eq!(Uint256 { limbs: [0, 1, 0, 0] }.to_u64(), None);
}
