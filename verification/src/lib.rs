pub mod bounds;
pub mod cfg;
pub mod decode;
pub mod driver;
pub mod operators;
pub mod parallel;
pub mod parse;
pub mod population;
pub mod random;
pub mod render;
pub mod schedule;
pub mod selection;
