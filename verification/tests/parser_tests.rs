use std::str::FromStr;

use legion::{parse_order, OrderParseError, OrderType, Side};

#[test]
fn parse_market_command() {
    let order = parse_order("1,2,market,bid,5").unwrap();
    assert!(matches!(
        order,
        OrderType::Market { id: 1, user_id: 2, side: Side::Bid, qty: 5 }
    ));
}

#[test]
fn parse_limit_command() {
    let order = OrderType::from_str("10,3,limit,ASK,7,400").unwrap();
    assert!(matches!(
        order,
        OrderType::Limit { id: 10, user_id: 3, side: Side::Ask, qty: 7, price: 400 }
    ));
}

#[test]
fn parse_ioc_command() {
    let order = parse_order("11,4,ioc,Bid,2,398").unwrap();
    assert!(matches!(
        order,
        OrderType::IOC { id: 11, user_id: 4, side: Side::Bid, qty: 2, price: 398 }
    ));
}

#[test]
fn parse_fok_command() {
    let order = parse_order("12,5,fok,Ask,9,401").unwrap();
    assert!(matches!(
        order,
        OrderType::FOK { id: 12, user_id: 5, side: Side::Ask, qty: 9, price: 401 }
    ));
}

#[test]
fn parse_cancel_command() {
    let order = parse_order("99,cancel").unwrap();
    assert!(matches!(order, OrderType::Cancel { id: 99 }));
}

#[test]
fn parse_all_side_spellings() {
    for (text, side) in [
        ("bid", Side::Bid),
        ("BID", Side::Bid),
        ("Bid", Side::Bid),
        ("ask", Side::Ask),
        ("ASK", Side::Ask),
        ("Ask", Side::Ask),
    ] {
        let line = format!("1,1,market,{},5", text);
        match parse_order(&line).unwrap() {
            OrderType::Market { side: parsed, .. } => assert_eq!(parsed, side),
            other => panic!("unexpected command: {:?}", other),
        }
    }
}

#[test]
fn parse_rejects_field_counts() {
    assert_eq!(parse_order(""), Err(OrderParseError::InvalidFieldSize));
    assert_eq!(parse_order("123"), Err(OrderParseError::InvalidFieldSize));
    assert_eq!(parse_order("1,2"), Err(OrderParseError::InvalidFieldSize));
    assert_eq!(parse_order("1,2,market,bid"), Err(OrderParseError::InvalidFieldSize));
    assert_eq!(parse_order("1,2,limit,bid,5"), Err(OrderParseError::InvalidFieldSize));
}

#[test]
fn parse_rejects_unknown_kind() {
    assert_eq!(parse_order("1,2,stop,bid,5"), Err(OrderParseError::InvalidOrderType));
}

#[test]
fn parse_rejects_bad_integers() {
    assert_eq!(parse_order("x,2,market,bid,5"), Err(OrderParseError::InvalidInteger));
    assert_eq!(parse_order("1,2,market,bid,5x"), Err(OrderParseError::InvalidInteger));
    assert_eq!(parse_order("1,2,market,bid,"), Err(OrderParseError::InvalidInteger));
    // One past u64::MAX overflows; u64::MAX itself is accepted.
    assert_eq!(
        parse_order("1,2,market,bid,18446744073709551616"),
        Err(OrderParseError::InvalidInteger)
    );
    match parse_order("1,2,market,bid,18446744073709551615").unwrap() {
        OrderType::Market { qty, .. } => assert_eq!(qty, u64::MAX),
        other => panic!("unexpected command: {:?}", other),
    }
    assert_eq!(parse_order("bad,cancel"), Err(OrderParseError::InvalidInteger));
}

#[test]
fn parse_rejects_bad_side() {
    assert_eq!(parse_order("1,2,market,buy,5"), Err(OrderParseError::InvalidSide));
    assert_eq!(parse_order("1,2,limit,bId,5,10"), Err(OrderParseError::InvalidSide));
}

#[test]
fn parse_ignores_extra_fields() {
    let order = parse_order("1,2,market,bid,5,999,extra").unwrap();
    assert!(matches!(
        order,
        OrderType::Market { id: 1, user_id: 2, side: Side::Bid, qty: 5 }
    ));
}
