//! Decoding of rhythm-chart documents into typed charts, with the integer side of their
//! curve geometry and the tempo track that plays them.
pub mod beatmap;
pub mod curve;
pub mod fields;
pub mod laws;
pub mod lists;
pub mod number;
pub mod osu;
pub mod scanner;
pub mod sections;
pub mod text;
pub mod timing;
