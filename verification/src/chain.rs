//! The active chain is kept in a `nonempty::NonEmpty<Header>`, the structure
//! the surrounding system exchanges chains in. Verified code reaches it only
//! through the wrappers below; `ne_seq` names what a value of it holds.
use vstd::prelude::*;

use crate::header::Header;

verus! {

#[verifier::external_type_specification]
#[verifier::external_body]
#[verifier::reject_recursive_types(T)]
pub struct ExNonEmpty<T>(nonempty::NonEmpty<T>);

/// The ordered contents of a non-empty list of headers.
pub uninterp spec fn ne_seq(c: nonempty::NonEmpty<Header>) -> Seq<Header>;

/// Relies on `nonempty::NonEmpty::new`: a list holding exactly the one element.
#[verifier::external_body]
pub(crate) fn ne_new(h: Header) -> (c: nonempty::NonEmpty<Header>)
    ensures
        ne_seq(c) == seq![h],
{
    nonempty::NonEmpty::new(h)
}

/// Relies on `nonempty::NonEmpty::from_vec`: `None` exactly on an empty
/// vector, else a list holding the vector's elements in order.
#[verifier::external_body]
pub(crate) fn ne_from_vec(v: Vec<Header>) -> (r: Option<nonempty::NonEmpty<Header>>)
    ensures
        match r {
            Some(c) => v@.len() >= 1 && ne_seq(c) == v@,
            None => v@.len() == 0,
        },
{
    nonempty::NonEmpty::from_vec(v)
}

/// Relies on `nonempty::NonEmpty::len`: the element count, at least one.
#[verifier::external_body]
pub(crate) fn ne_len(c: &nonempty::NonEmpty<Header>) -> (n: usize)
    ensures
        n == ne_seq(*c).len() && n >= 1,
{
    c.len()
}

/// Relies on `nonempty::NonEmpty::last`: the final element.
#[verifier::external_body]
pub(crate) fn ne_last(c: &nonempty::NonEmpty<Header>) -> (h: Header)
    ensures
        h == ne_seq(*c).last(),
{
    *c.last()
}

/// Relies on `nonempty::NonEmpty::get`: the element at `i`, `None` past the
/// end.
#[verifier::external_body]
pub(crate) fn ne_get(c: &nonempty::NonEmpty<Header>, i: usize) -> (r: Option<Header>)
    ensures
        match r {
            Some(h) => i < ne_seq(*c).len() && h == ne_seq(*c)[i as int],
            None => i >= ne_seq(*c).len(),
        },
{
    c.get(i).copied()
}

/// Relies on `nonempty::NonEmpty::iter`: the elements in order.
#[verifier::external_body]
pub(crate) fn ne_to_vec(c: &nonempty::NonEmpty<Header>) -> (v: Vec<Header>)
    ensures
        v@ == ne_seq(*c),
{
    c.iter().copied().collect()
}

} // verus!
