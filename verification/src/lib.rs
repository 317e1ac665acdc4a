//! Auxein core: the exactly specified parts of the engine.
//!
//! Material accounting is exact integer arithmetic, budgets are exact
//! decimals, and persisted state is JSON read through a checked schema whose
//! real-valued checks are decided exactly on the number texts.  Each of those
//! pieces is stated and proved here, with the law that the document shape of
//! a saved state reads back to the same state.
pub mod types;
pub mod text;
pub mod material;
pub mod digits;
pub mod decimal;
pub mod number;
pub mod json;
pub mod emit;
pub mod fields;
pub mod ratio;
pub mod growth;
pub mod contraction;
pub mod budget_text;
pub mod rounding;
pub mod state;
pub mod persistence;
pub mod presentation;
pub mod report;
pub mod json_laws;
