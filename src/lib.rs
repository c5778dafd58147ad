//! An interactive multi-language reading aid: sentence segmentation, a
//! cursor over (sentence, language) positions, command interpretation and a
//! per-file progress ledger.

pub mod text;
pub mod segment;
pub mod number;
pub mod ledger;
pub mod session;
pub mod reader;
