//! What the verifier is told about the `either` crate.
//!
//! The header keeps its copyright block in an `either::Either`, whose two
//! variants stand for the two variants of the format. The type is declared
//! with its variants, so verified code builds and matches on it directly. The
//! contracts of the two conversions below are taken on trust: the verifier
//! does not read their bodies.

use vstd::prelude::*;
use either::Either;

verus! {

/// `either::Either`: a value of one of two types, `Left(L)` or `Right(R)`.
/// Nothing is claimed of it: the verifier reads the two variants from the
/// crate itself.
#[verifier::external_type_specification]
#[verifier::reject_recursive_types(L)]
#[verifier::reject_recursive_types(R)]
pub struct ExEither<L, R>(Either<L, R>);

/// `Either::left`: the value of a `Left`, and nothing for a `Right`.
pub assume_specification<L, R>[ Either::<L, R>::left ](e: Either<L, R>) -> (r: Option<L>)
    ensures
        r == match e {
            Either::Left(l) => Some(l),
            Either::Right(_) => None::<L>,
        },
;

/// `Either::right`: the value of a `Right`, and nothing for a `Left`.
pub assume_specification<L, R>[ Either::<L, R>::right ](e: Either<L, R>) -> (r: Option<R>)
    ensures
        r == match e {
            Either::Left(_) => None::<R>,
            Either::Right(v) => Some(v),
        },
;

} // verus!
