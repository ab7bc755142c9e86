pub mod almanac;
pub mod calibration;
pub mod capped;
pub mod cubes;
pub mod digits;
pub mod lex;
pub mod pieces;
pub mod schematic;
pub mod scratchcards;
pub mod text;
