//! Approximate-join engine: matches rows of two key columns under fuzzy
//! string metrics, numeric tolerance or interval overlap, and intersects
//! the surviving row pairs across several key pairs.

pub mod types;
pub mod strutil;
pub mod edit;
pub mod qgram;
pub mod group;
pub mod matcher;
pub mod difference;
pub mod interval;
pub mod survivor;
pub mod join;
pub mod options;
