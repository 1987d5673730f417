use rust_kart::dddmf::{
    create_email_address, create_order_line_qty, create_string50, send_password_reset,
    VerifiedEmail,
};

#[test]
fn string50_counts_code_points() {
    assert_eq!(create_string50("hello".to_string()).unwrap().as_str(), "hello");
    assert!(create_string50("a".repeat(50)).is_some());
    assert!(create_string50("a".repeat(51)).is_none());
    assert!(create_string50("ñ".repeat(50)).is_some());
    assert!(create_string50("ñ".repeat(51)).is_none());
    assert_eq!(create_string50(String::new()).unwrap().as_str(), "");
}

#[test]
fn order_line_quantities_are_one_to_ninety_nine() {
    assert!(create_order_line_qty(0).is_none());
    assert_eq!(create_order_line_qty(1).unwrap().value(), 1);
    assert_eq!(create_order_line_qty(99).unwrap().value(), 99);
    assert!(create_order_line_qty(100).is_none());
    assert!(create_order_line_qty(u32::MAX).is_none());
}

#[test]
fn email_addresses_need_an_at_sign() {
    assert!(create_email_address("ab".to_string()).is_none());
    let email = create_email_address("a@b".to_string()).unwrap();
    send_password_reset(&VerifiedEmail(email));
}
