//! The byte cursor: a bounds-checked, forward-only byte supply.
//!
//! The cursor is `arbitrary::Unstructured`, taken on trust.  Its remaining
//! contents are named by the spec function [`cursor_data`]; the wrappers
//! below state, over that name, what the cursor operations do, exactly as
//! the crate's source shows.

use vstd::prelude::*;

verus! {

#[verifier::external_type_specification]
#[verifier::external_body]
pub struct ExUnstructured<'a>(arbitrary::Unstructured<'a>);

/// The bytes that remain to be read from the cursor.
pub uninterp spec fn cursor_data(u: arbitrary::Unstructured) -> Seq<u8>;

/// Relies on `arbitrary::Unstructured::new`: it stores the given slice as
/// the data that later reads consume.
#[verifier::external_body]
pub fn cursor_new<'a>(data: &'a [u8]) -> (u: arbitrary::Unstructured<'a>)
    ensures
        cursor_data(u) == data@,
{
    arbitrary::Unstructured::new(data)
}

/// Relies on `arbitrary::Unstructured::len`: it returns the number of
/// remaining bytes.
#[verifier::external_body]
pub fn cursor_len(u: &arbitrary::Unstructured) -> (n: usize)
    ensures
        n == cursor_data(*u).len(),
{
    u.len()
}

/// Relies on `arbitrary::Unstructured::bytes`: with at least `n` bytes
/// remaining it hands out the first `n` and advances past them.
#[verifier::external_body]
pub fn cursor_take(u: &mut arbitrary::Unstructured, n: usize) -> (r: Vec<u8>)
    requires
        n <= cursor_data(*old(u)).len(),
    ensures
        r@ == cursor_data(*old(u)).take(n as int),
        cursor_data(*final(u)) == cursor_data(*old(u)).skip(n as int),
{
    match u.bytes(n) {
        Ok(s) => s.to_vec(),
        Err(_) => Vec::new(),
    }
}

} // verus!
