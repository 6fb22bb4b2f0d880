//! The flattened-attribute field adapter: a markup decoder may hand a
//! field's content over either as an already-typed value or as the residual
//! attribute string. The adapter keeps a typed value verbatim and routes a
//! string through the type's [`FromXmlStr`] grammar.

use vstd::prelude::*;
use crate::scalar::{FromXmlStr, ScalarError};

verus! {

/// The two shapes a field's content can arrive in, tried in this order by
/// the underlying decoder: the typed interpretation first, then the
/// residual string.
pub enum TypedOrText<T> {
    /// The decoder already produced a typed value.
    Typed(T),
    /// Only the raw attribute text is available.
    Text(String),
}

/// Decode one flattened attribute field: an already-typed value is returned
/// verbatim; a residual string goes through the type's attribute grammar,
/// whose result (success or error) is propagated.
pub fn flattened_xml_attr<T: FromXmlStr>(v: TypedOrText<T>) -> (r: Result<T, ScalarError>)
    ensures
        match v {
            TypedOrText::Typed(t) => r == Ok::<T, ScalarError>(t),
            TypedOrText::Text(s) => match r {
                Ok(x) => T::from_xml_str_spec(s@) == Some(x),
                Err(_) => T::from_xml_str_spec(s@) is None,
            },
        },
{
    match v {
        TypedOrText::Typed(t) => Ok(t),
        TypedOrText::Text(s) => T::from_str(s.as_str()),
    }
}

} // verus!
