//! The geometry of the board on the screen: where a square is drawn, which
//! square a point belongs to, and which piece a click in the promotion picker
//! chooses.

use vstd::prelude::*;

verus! {

/// Where the pointer is while a piece is dragged.
#[derive(Debug, Clone, Copy)]
pub struct DragContext {
    pub current_x: i32,
    pub current_y: i32,
}

/// The pieces that a pawn can be promoted to.
#[derive(Debug, Clone, Copy, PartialEq, Eq, Structural)]
pub enum Promotion {
    Queen,
    Rook,
    Bishop,
    Knight,
}

/// The row and the column of the screen, counted from the top left, at which
/// the square of rank `rank` and file `file` is drawn. White sits at the
/// bottom unless the board is flipped; a flipped board is mirrored left to
/// right instead.
pub open spec fn drawn_at(flipped: bool, rank: int, file: int) -> (int, int) {
    if flipped {
        (rank, 7 - file)
    } else {
        (7 - rank, file)
    }
}

/// The rank and file of the square that is drawn in the row `row` and the
/// column `column`, if there is one.
pub open spec fn square_drawn(flipped: bool, column: int, row: int) -> Option<(int, int)> {
    if 0 <= column <= 7 && 0 <= row <= 7 {
        if flipped {
            Some((row, 7 - column))
        } else {
            Some((7 - row, column))
        }
    } else {
        None
    }
}

/// The piece that a click on the square (`square_file`, `square_rank`)
/// chooses while the picker is open for a pawn on (`promotion_file`,
/// `promotion_rank`). The picker stands in the file beside the pawn, towards
/// the middle of the board, and runs from the pawn's rank into the board:
/// queen, rook, bishop, knight. A click in that file on any other rank
/// chooses the queen; a click in another file chooses nothing.
pub open spec fn picked(
    promotion_file: int,
    promotion_rank: int,
    square_file: int,
    square_rank: int,
) -> Option<Promotion> {
    let file_offset: int = if promotion_file == 7 { -1 } else { 1 };
    let rank_offset: int = if promotion_rank == 0 { -1 } else { 1 };
    if square_file != promotion_file + file_offset {
        None
    } else if square_rank == promotion_rank - rank_offset {
        Some(Promotion::Rook)
    } else if square_rank == promotion_rank - rank_offset * 2 {
        Some(Promotion::Bishop)
    } else if square_rank == promotion_rank - rank_offset * 3 {
        Some(Promotion::Knight)
    } else {
        Some(Promotion::Queen)
    }
}

/// The row and column at which a square is drawn.
pub fn rank_and_file(flipped: bool, rank: u32, file: u32) -> (at: (u32, u32))
    requires
        rank <= 7,
        file <= 7,
    ensures
        (at.0 as int, at.1 as int) == drawn_at(flipped, rank as int, file as int),
{
    if flipped {
        (rank, 7 - file)
    } else {
        (7 - rank, file)
    }
}

/// The rank and file of the square drawn in a row and column of the screen.
pub fn get_square(flipped: bool, column: i32, row: i32) -> (square: Option<(u32, u32)>)
    ensures
        match square_drawn(flipped, column as int, row as int) {
            Some((rank, file)) => square == Some((rank as u32, file as u32)),
            None => square is None,
        },
{
    if column < 0 || column > 7 || row < 0 || row > 7 {
        return None;
    }
    let column = column as u32;
    let row = row as u32;
    if flipped {
        Some((row, 7 - column))
    } else {
        Some((7 - row, column))
    }
}

/// A square is found again where it is drawn.
pub proof fn law_square_found_where_drawn(flipped: bool, rank: int, file: int)
    requires
        0 <= rank <= 7,
        0 <= file <= 7,
    ensures
        square_drawn(flipped, drawn_at(flipped, rank, file).1, drawn_at(flipped, rank, file).0)
            == Some((rank, file)),
{
}

/// The piece that a click chooses in the promotion picker.
pub fn promotion_choice(
    promotion_file: u32,
    promotion_rank: u32,
    square_file: u32,
    square_rank: u32,
) -> (piece: Option<Promotion>)
    requires
        promotion_file <= 7,
        promotion_rank <= 7,
        square_file <= 7,
        square_rank <= 7,
    ensures
        piece == picked(
            promotion_file as int,
            promotion_rank as int,
            square_file as int,
            square_rank as int,
        ),
{
    let file_offset: i32 = if promotion_file == 7 { -1 } else { 1 };
    let rank_offset: i32 = if promotion_rank == 0 { -1 } else { 1 };
    let promotion_file = promotion_file as i32;
    let promotion_rank = promotion_rank as i32;
    let square_file = square_file as i32;
    let square_rank = square_rank as i32;
    if square_file != promotion_file + file_offset {
        None
    } else if square_rank == promotion_rank - rank_offset {
        Some(Promotion::Rook)
    } else if square_rank == promotion_rank - rank_offset * 2 {
        Some(Promotion::Bishop)
    } else if square_rank == promotion_rank - rank_offset * 3 {
        Some(Promotion::Knight)
    } else {
        Some(Promotion::Queen)
    }
}

/// Whether a move to the rank `rank` promotes: it does for a pawn that
/// reaches the first or the last rank.
pub fn promotes(pawn: bool, rank: u32) -> (promotion: bool)
    ensures
        promotion == (pawn && (rank == 0 || rank == 7)),
{
    pawn && (rank == 0 || rank == 7)
}

/// Whether the selected square of file `file` and rank `rank` is shown in the
/// dark colour: it is where file and rank are both even or both odd.
pub fn selected_is_dark(file: u32, rank: u32) -> (dark: bool)
    ensures
        dark == (file % 2 == rank % 2),
{
    file % 2 == rank % 2
}

impl DragContext {
    /// The top left corner of the sprite of the dragged piece: the pointer
    /// holds the sprite, a square of side `square_size`, by its middle.
    pub fn sprite_origin(&self, square_size: u32) -> (origin: (i32, i32))
        requires
            self.current_x - square_size / 2 >= i32::MIN,
            self.current_y - square_size / 2 >= i32::MIN,
        ensures
            origin.0 == self.current_x - square_size / 2,
            origin.1 == self.current_y - square_size / 2,
    {
        let half = (square_size / 2) as i32;
        (self.current_x - half, self.current_y - half)
    }
}

} // verus!
