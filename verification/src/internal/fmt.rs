//! What the `Debug` impls of the generators write through.
use vstd::prelude::*;

verus! {

/// The formatter that `Debug` impls write to.
#[verifier::external_type_specification]
#[verifier::external_body]
pub struct ExFormatter<'a>(core::fmt::Formatter<'a>);

/// The error that a formatter reports.
#[verifier::external_type_specification]
#[verifier::external_body]
pub struct ExFmtError(core::fmt::Error);

/// `Formatter::write_str` writes a string to the formatter or reports an
/// error. Nothing is claimed of the outcome.
pub assume_specification<'a>[ core::fmt::Formatter::<'a>::write_str ](
    f: &mut core::fmt::Formatter<'a>,
    data: &str,
) -> core::fmt::Result;

} // verus!
