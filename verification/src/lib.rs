//! A font that evolves.
//!
//! Users are shown glyphs and type what they read; the time they take is the
//! score of the glyph. Each glyph competes with randomly mutated variants of
//! itself, and a font moves from one generation to the next.
//!
//! This library is the engine behind that: the records and their wire form
//! (`bytes`, `util`, `id`, `glyph`, `font`, `active_test`, `test_session`,
//! `user`), the typed tables that hold them (`database`), and the
//! coordinator that adds fonts, hands out tests, records times and takes a
//! font to its next generation (`state`). `laws` states what holds of the
//! coordinator's operations one after the other.
//!
//! Everything is verified but what other crates do. Their part is stated in
//! the contracts of a few small functions, each of which names the function
//! that it calls: the store in `database`, the random source in `glyph`, the
//! words of a foreign error in `error`, and the character of a code point in
//! `util`. The contracts of the store speak of a table with one handle. That
//! is how the tables are: a store is opened by one `Database`, which opens
//! each table once.
//!
//! Times and angles are floating-point numbers in the stored data. The
//! library holds their bit patterns and compares times by them; arithmetic
//! on angles is handed in by the caller.

pub mod active_test;
pub mod bytes;
pub mod database;
pub mod error;
pub mod font;
pub mod glyph;
pub mod glyph_svg;
pub mod id;
pub mod laws;
pub mod state;
pub mod test_session;
pub mod user;
pub mod util;
