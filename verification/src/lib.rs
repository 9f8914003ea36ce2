//! Tools for the save files of a game.
//!
//! The heart of the crate is a decoder for the binary format in which early
//! versions of the game kept their saves: [`reader`] reads the framing,
//! [`decoder`] reads values, [`names`] keeps the names of an object's fields
//! while it is read, and [`value`] holds what comes out. [`encoding`],
//! [`failures`] and [`truncation`] state what the decoder does on every input
//! of a given shape, and prove it.
//!
//! Around it stand the rules of three tools: [`converter`] turns a binary save
//! into the JSON form of a save, [`organiser`] tidies the lists of a save, and
//! [`outfits`] keeps and puts on outfits. [`utils`] names the files that they
//! work on, [`text`] orders names, and [`wardrobe`] lists the parts of an
//! outfit. None of them touches a file: whoever calls reads and writes.

pub mod converter;
pub mod decoder;
pub mod encoding;
pub mod failures;
pub mod names;
pub mod organiser;
pub mod outfits;
pub mod reader;
pub mod text;
pub mod truncation;
pub mod utils;
pub mod value;
pub mod wardrobe;
