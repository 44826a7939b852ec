//! Dimensional algebra on physical units.
//!
//! A unit is a product of prefixed unit identifiers with rational
//! exponents. The library brings units into canonical form, compares them
//! up to canonical form, writes them in base units, converts quantities
//! between compatible units, and simplifies compound units.
//!
//! Units and exponents are computed exactly. The magnitudes of quantities
//! are kept as terms over double-precision literals, which the caller
//! evaluates: the library itself holds no floating-point number.
//!
//! - [`arithmetic`]: exact rational exponents, on top of `num_rational`.
//! - [`prefix`], [`number`]: prefixes, and scalars as terms.
//! - [`unit`], [`units`]: the types of units, their models and views, the
//!   operations that need no comparison, and a few units of everyday use.
//! - [`order`], [`key`], [`product`], [`canonical`], [`equality`]: sort
//!   keys, canonical forms, base units and equality.
//! - [`quantity`], [`simplify`]: conversion and simplification.
//! - [`format`], [`decorator`]: units as text, and the names of units.
//! - [`limits`]: tests of validity and weight for callers without proofs.
//! - [`laws`], [`theory`], [`idempotence`]: what holds of all of this, and
//!   why.

pub mod arithmetic;
pub mod canonical;
pub mod decorator;
pub mod equality;
pub mod format;
pub mod idempotence;
pub mod key;
pub mod laws;
pub mod limits;
pub mod number;
pub mod order;
pub mod prefix;
pub mod product;
pub mod quantity;
pub mod simplify;
pub mod theory;
pub mod unit;
pub mod units;
