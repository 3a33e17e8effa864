//! What kind of move the player made on the board, as the notation needs it.

use vstd::prelude::*;

verus! {

/// The kinds of pieces.
#[derive(Debug, Clone, Copy, PartialEq, Eq, Structural)]
pub enum Role {
    Pawn,
    Knight,
    Bishop,
    Rook,
    Queen,
    King,
}

/// The kinds of moves that are written down in different ways.
#[derive(Debug, Clone, Copy, PartialEq, Eq, Structural)]
pub enum MoveKind {
    /// A pawn takes a pawn in passing.
    EnPassant,
    /// The king castles; the move is given as its step towards the rook.
    Castle,
    /// Any other move.
    Normal,
}

/// The number of king steps between two squares, given by their indices from
/// a1 = 0 along the ranks to h8 = 63.
pub open spec fn king_steps(from: int, to: int) -> int {
    let files = if from % 8 >= to % 8 { from % 8 - to % 8 } else { to % 8 - from % 8 };
    let ranks = if from / 8 >= to / 8 { from / 8 - to / 8 } else { to / 8 - from / 8 };
    if files >= ranks { files } else { ranks }
}

/// The kind of the move of a piece of kind `role` from `from` to `to`. A
/// pawn that changes its file without taking a piece on the square it goes
/// to takes in passing; a king that goes further than one step castles.
pub open spec fn kind_of(role: Role, capture: bool, from: int, to: int) -> MoveKind {
    if role == Role::Pawn && !capture && from % 8 != to % 8 {
        MoveKind::EnPassant
    } else if role == Role::King && king_steps(from, to) > 1 {
        MoveKind::Castle
    } else {
        MoveKind::Normal
    }
}

/// The number of king steps between two squares.
pub fn distance(from: u8, to: u8) -> (steps: u8)
    requires
        from < 64,
        to < 64,
    ensures
        steps == king_steps(from as int, to as int),
{
    let (ff, tf) = (from % 8, to % 8);
    let (fr, tr) = (from / 8, to / 8);
    let files = if ff >= tf { ff - tf } else { tf - ff };
    let ranks = if fr >= tr { fr - tr } else { tr - fr };
    if files >= ranks { files } else { ranks }
}

/// The kind of a move; `capture` says whether a piece stands on `to`.
pub fn move_kind(role: Role, capture: bool, from: u8, to: u8) -> (kind: MoveKind)
    requires
        from < 64,
        to < 64,
    ensures
        kind == kind_of(role, capture, from as int, to as int),
{
    if role == Role::Pawn && !capture && from % 8 != to % 8 {
        MoveKind::EnPassant
    } else if role == Role::King && distance(from, to) > 1 {
        MoveKind::Castle
    } else {
        MoveKind::Normal
    }
}

/// The rank of the square that a pawn can be taken on in passing, given the
/// rank of the pawn itself, where a position names the pawn's square in its
/// place: the sixth rank for a pawn on the fifth, the third for one on the
/// fourth. Ranks count from 0; any other rank is left as it is.
pub fn en_passant_rank(rank: u8) -> (fixed: u8)
    ensures
        fixed == if rank == 4 { 5u8 } else if rank == 3 { 2u8 } else { rank },
{
    if rank == 4 {
        5
    } else if rank == 3 {
        2
    } else {
        rank
    }
}

} // verus!
