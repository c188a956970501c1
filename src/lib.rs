//! Discard advisor for a 14-tile set-collection game: tile multisets and
//! their meld decomposition weight, an exact expectation search over discards
//! and draws, Monte-Carlo playouts and an upper-confidence tree search.
pub mod tile;
pub mod search;
pub mod uct;
pub mod playout;
pub mod runs;
pub mod selection;
pub mod reorder;
