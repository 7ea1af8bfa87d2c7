//! Verified decoder and evaluator for a bit-level packet transmission,
//! together with the verified puzzle solvers that accompany it.
//!
//! The heart of the crate is the packet pipeline: `hex` turns a hexadecimal
//! string into bytes, `bits` reads unsigned fields of arbitrary width from
//! those bytes, `varint` decodes the continuation-bit literal encoding,
//! `packet` parses the recursive packet grammar and evaluates the resulting
//! expression tree, and `transmission` answers the two queries asked of a
//! whole transmission line.
//!
//! The remaining modules are the other solvers of the collection, each
//! verified against its own specification, with `parse`, `paths` and
//! `sorting` as shared helpers.

pub mod basins;
pub mod bingo;
pub mod bits;
pub mod caves;
pub mod crabs;
pub mod diagnostic;
pub mod dive;
pub mod hex;
pub mod lanternfish;
pub mod octopus;
pub mod origami;
pub mod packet;
pub mod parse;
pub mod paths;
pub mod polymer;
pub mod segments;
pub mod sonar;
pub mod sorting;
pub mod syntax;
pub mod transmission;
pub mod varint;
pub mod vents;
