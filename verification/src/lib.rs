//! The chart of the nuclides: the decay families, the nuclide table and its
//! index, decay chains, search, the cursor that walks the chart, and the
//! text the views are built from.

pub mod text;
pub mod decay;
pub mod nuclide;
pub mod table;
pub mod app;
pub mod search;
pub mod record;
pub mod views;
pub mod export;
pub mod ask;
