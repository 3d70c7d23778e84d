//! Length-preserving repair of near-JSON text.
//!
//! Some JSON producers emit the bare tokens `NaN`, `Infinity` and `-Infinity`,
//! and integer literals too large for any 64-bit integer type.  None of these
//! is accepted by a strict JSON parser.  This crate rewrites each such token in
//! place into `0` followed by spaces, so that every other byte keeps both its
//! value and its offset.
//!
//! [`translate_slice`] rewrites a complete buffer.  A buffer that grows while
//! it is read is rewritten piece by piece with [`translate_slice_impl`] and
//! closed with [`finish_slice`].  Input that arrives in separate chunks goes
//! through a [`StreamTranslator`].  All of them are driven by [`transition`],
//! one step of the scanner, and all are proved to compute what `model`
//! defines; `laws` states what follows for every input.

pub mod buffer;
pub mod engine;
pub mod laws;
pub mod lemmas;
pub mod model;
pub mod state;
pub mod stream;

pub use buffer::{finish_slice, translate_slice, translate_slice_impl};
pub use engine::transition;
pub use model::Literal;
pub use state::State;
pub use stream::StreamTranslator;
