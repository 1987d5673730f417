//! Domain types that can only hold valid values: each is made by a function
//! that checks the constraint and returns `None` when it does not hold.
use vstd::prelude::*;
use crate::text::{contains_char, chars_of};

verus! {

/// A string of at most 50 code points.
pub struct String50(String);

impl String50 {
    /// The text held.
    pub closed spec fn view(&self) -> Seq<char> {
        self.0@
    }

    /// The text held.
    pub fn as_str(&self) -> (r: &str)
        ensures
            r@ == self.view(),
    {
        self.0.as_str()
    }
}

/// An order line's quantity: from 1 to 99.
pub struct OrderLineQty(u32);

impl OrderLineQty {
    /// The quantity held.
    pub closed spec fn view(&self) -> u32 {
        self.0
    }

    /// The quantity held.
    pub fn value(&self) -> (r: u32)
        ensures
            r == self.view(),
            1 <= r < 100,
    {
        proof {
            use_type_invariant(self);
        }
        self.0
    }

    #[verifier::type_invariant]
    spec fn in_range(self) -> bool {
        1 <= self.0 < 100
    }
}

/// An email address: a string with an `@`.
pub struct EmailAddress(String);

impl EmailAddress {
    /// The address held.
    pub closed spec fn view(&self) -> Seq<char> {
        self.0@
    }
}

/// An email address that has been verified.
pub struct VerifiedEmail(pub EmailAddress);

/// Make a `String50`: `s` if it holds at most 50 code points.
pub fn create_string50(s: String) -> (r: Option<String50>)
    ensures
        s@.len() <= 50 ==> (r matches Some(v) && v.view() == s@),
        s@.len() > 50 ==> r is None,
{
    if chars_of(s.as_str()).len() <= 50 {
        Some(String50(s))
    } else {
        None
    }
}

/// Make an `OrderLineQty`: `qty` if it is from 1 to 99.
pub fn create_order_line_qty(qty: u32) -> (r: Option<OrderLineQty>)
    ensures
        1 <= qty < 100 ==> (r matches Some(v) && v.view() == qty),
        !(1 <= qty < 100) ==> r is None,
{
    if 1 <= qty && qty < 100 {
        Some(OrderLineQty(qty))
    } else {
        None
    }
}

/// Make an `EmailAddress`: `s` if it holds an `@`.
pub fn create_email_address(s: String) -> (r: Option<EmailAddress>)
    ensures
        s@.contains('@') ==> (r matches Some(v) && v.view() == s@),
        !s@.contains('@') ==> r is None,
{
    if contains_char(&chars_of(s.as_str()), '@') {
        Some(EmailAddress(s))
    } else {
        None
    }
}

/// Send a password reset to a verified address; no validation is needed, so
/// no error can occur.
pub fn send_password_reset(_email: &VerifiedEmail) {
}

} // verus!
