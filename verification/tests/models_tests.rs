use legion::{OrderParseError, OrderType, Side};

#[test]
fn side_negation() {
    assert_eq!(!Side::Ask, Side::Bid);
    assert_eq!(!Side::Bid, Side::Ask);
}

#[test]
fn side_default_and_opposite() {
    assert_eq!(Side::default(), Side::Bid);
    assert_eq!(Side::Bid.opposite(), Side::Ask);
    assert_eq!(Side::Ask.opposite(), Side::Bid);
}

#[test]
fn order_type_get_id() {
    assert_eq!(OrderType::Market { id: 7, user_id: 1, side: Side::Bid, qty: 5 }.get_id(), 7);
    assert_eq!(
        OrderType::Limit { id: 8, user_id: 1, side: Side::Ask, qty: 5, price: 10 }.get_id(),
        8
    );
    assert_eq!(OrderType::IOC { id: 9, user_id: 1, side: Side::Bid, qty: 5, price: 10 }.get_id(), 9);
    assert_eq!(
        OrderType::FOK { id: 10, user_id: 1, side: Side::Ask, qty: 5, price: 10 }.get_id(),
        10
    );
    assert_eq!(OrderType::Cancel { id: 11 }.get_id(), 11);
}

#[test]
fn order_type_get_type() {
    assert_eq!(OrderType::Market { id: 1, user_id: 1, side: Side::Bid, qty: 5 }.get_type(), "market");
    assert_eq!(
        OrderType::Limit { id: 2, user_id: 1, side: Side::Ask, qty: 5, price: 10 }.get_type(),
        "limit"
    );
    assert_eq!(
        OrderType::IOC { id: 3, user_id: 1, side: Side::Bid, qty: 5, price: 10 }.get_type(),
        "ioc"
    );
    assert_eq!(
        OrderType::FOK { id: 4, user_id: 1, side: Side::Ask, qty: 5, price: 10 }.get_type(),
        "fok"
    );
    assert_eq!(OrderType::Cancel { id: 5 }.get_type(), "cancel");
}

#[test]
fn parse_error_messages() {
    assert_eq!(
        OrderParseError::InvalidFieldSize.message(),
        "Invalid fields count for order type"
    );
    assert_eq!(OrderParseError::InvalidOrderType.message(), "Invalid order type");
    assert_eq!(OrderParseError::InvalidInteger.message(), "Invalid Integer");
    assert_eq!(OrderParseError::InvalidSide.message(), "Invalid Side");
}
