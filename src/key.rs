//! What a key type supplies: an equality that holds exactly when two keys
//! have the same view.
use vstd::prelude::*;

verus! {

/// A key type whose `key_eq` tells keys apart by their views.
pub trait TableKey: View {
    fn key_eq(&self, other: &Self) -> (r: bool)
        ensures
            r == (self@ == other@),
    ;
}

/// Relies on `<str as PartialEq>::eq`: two strings are equal exactly when
/// their characters are.
#[verifier::external_body]
fn str_eq(a: &str, b: &str) -> (r: bool)
    ensures
        r == (a@ == b@),
{
    a == b
}

impl TableKey for String {
    fn key_eq(&self, other: &Self) -> (r: bool) {
        *self == *other
    }
}

impl<'a> TableKey for &'a str {
    fn key_eq(&self, other: &Self) -> (r: bool) {
        str_eq(*self, *other)
    }
}

impl TableKey for u32 {
    fn key_eq(&self, other: &Self) -> (r: bool) {
        *self == *other
    }
}

impl TableKey for u64 {
    fn key_eq(&self, other: &Self) -> (r: bool) {
        *self == *other
    }
}

impl TableKey for usize {
    fn key_eq(&self, other: &Self) -> (r: bool) {
        *self == *other
    }
}

impl TableKey for i32 {
    fn key_eq(&self, other: &Self) -> (r: bool) {
        *self == *other
    }
}

impl TableKey for i64 {
    fn key_eq(&self, other: &Self) -> (r: bool) {
        *self == *other
    }
}

} // verus!
