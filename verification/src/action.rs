//! Moves and the reasons for which a move is turned down.

use vstd::prelude::*;

verus! {

/// The five kinds of move.
#[derive(Debug, Clone, Copy, PartialEq, Eq, Hash, Structural)]
pub enum ActionType {
    ColToFoundation,
    FreecellToFoundation,
    ColToFreecell,
    FreecellToCol,
    ColToCol,
}

/// A move. `source` and `dest` index cascades or freecells as the kind says;
/// a move to a foundation carries the suit's position in `dest`, which is
/// implied by the card and never read back. `pile_size` is the number of
/// cards moved, one for every kind but `ColToCol`.
#[derive(Clone, Copy, Debug, PartialEq, Eq, Hash, Structural)]
pub struct Action {
    pub action_type: ActionType,
    pub source: usize,
    pub dest: usize,
    pub pile_size: usize,
}

/// Why a move cannot be applied. Where several reasons hold, the first in
/// this order is reported.
#[derive(Clone, Copy, Debug, PartialEq, Eq, Hash, Structural)]
pub enum MoveError {
    /// The source or the destination names no cascade or freecell.
    NoSuchSlot,
    /// The pile is empty, or holds more than one card in a move that touches
    /// a freecell or a foundation.
    BadPileSize,
    /// The source holds fewer cards than the move takes.
    SourceTooShort,
    /// The destination cannot accept the cards.
    Refused,
}

/// Why a deal cannot be played. Where several reasons hold, the first in
/// this order is reported.
#[derive(Clone, Copy, Debug, PartialEq, Eq, Hash, Structural)]
pub enum DealError {
    /// The deal does not hold exactly 52 cards.
    WrongCount,
    /// A card has a rank outside 1 to 13.
    InvalidCard,
    /// A card occurs twice.
    Duplicate,
}

} // verus!
