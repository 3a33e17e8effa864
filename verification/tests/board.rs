use chess_driller::board::get_square;
use chess_driller::board::promotes;
use chess_driller::board::promotion_choice;
use chess_driller::board::rank_and_file;
use chess_driller::board::selected_is_dark;
use chess_driller::board::DragContext;
use chess_driller::board::Promotion;
use chess_driller::config::archive_months;
use chess_driller::config::pgn_archive_url;
use chess_driller::config::Config;
use chess_driller::game::distance;
use chess_driller::game::en_passant_rank;
use chess_driller::game::move_kind;
use chess_driller::game::MoveKind;
use chess_driller::game::Role;

#[test]
fn white_sits_at_the_bottom_unless_flipped() {
    // a1: rank 0, file 0.
    assert_eq!(rank_and_file(false, 0, 0), (7, 0));
    assert_eq!(rank_and_file(true, 0, 0), (0, 7));
    // h8: rank 7, file 7.
    assert_eq!(rank_and_file(false, 7, 7), (0, 7));
    assert_eq!(rank_and_file(true, 7, 7), (7, 0));
    assert_eq!(rank_and_file(false, 1, 4), (6, 4));
    assert_eq!(rank_and_file(true, 1, 4), (1, 3));
}

#[test]
fn square_is_found_where_it_is_drawn() {
    for flipped in [false, true] {
        for rank in 0..8 {
            for file in 0..8 {
                let (row, column) = rank_and_file(flipped, rank, file);
                assert_eq!(get_square(flipped, column as i32, row as i32), Some((rank, file)));
            }
        }
    }
}

#[test]
fn no_square_outside_the_board() {
    assert_eq!(get_square(false, 0, 7), Some((0, 0)));
    assert_eq!(get_square(true, 0, 7), Some((7, 7)));
    assert_eq!(get_square(false, -1, 0), None);
    assert_eq!(get_square(false, 8, 0), None);
    assert_eq!(get_square(true, 0, -1), None);
    assert_eq!(get_square(true, 0, 8), None);
    assert_eq!(get_square(false, i32::MIN, i32::MAX), None);
}

#[test]
fn picker_runs_from_the_pawn_into_the_board() {
    // White promotes on e8: the picker stands in the f-file, from the 8th rank down.
    assert_eq!(promotion_choice(4, 7, 5, 7), Some(Promotion::Queen));
    assert_eq!(promotion_choice(4, 7, 5, 6), Some(Promotion::Rook));
    assert_eq!(promotion_choice(4, 7, 5, 5), Some(Promotion::Bishop));
    assert_eq!(promotion_choice(4, 7, 5, 4), Some(Promotion::Knight));
    assert_eq!(promotion_choice(4, 7, 5, 3), Some(Promotion::Queen));
    assert_eq!(promotion_choice(4, 7, 4, 7), None);
    assert_eq!(promotion_choice(4, 7, 3, 7), None);
    // Black promotes on h1: the picker stands in the g-file, from the 1st rank up.
    assert_eq!(promotion_choice(7, 0, 6, 0), Some(Promotion::Queen));
    assert_eq!(promotion_choice(7, 0, 6, 1), Some(Promotion::Rook));
    assert_eq!(promotion_choice(7, 0, 6, 2), Some(Promotion::Bishop));
    assert_eq!(promotion_choice(7, 0, 6, 3), Some(Promotion::Knight));
    assert_eq!(promotion_choice(7, 0, 7, 0), None);
}

#[test]
fn pawn_promotes_on_the_outer_ranks() {
    assert!(promotes(true, 0));
    assert!(promotes(true, 7));
    assert!(!promotes(true, 6));
    assert!(!promotes(false, 7));
}

#[test]
fn a1_is_dark() {
    assert!(selected_is_dark(0, 0));
    assert!(!selected_is_dark(0, 1));
    assert!(!selected_is_dark(7, 0));
    assert!(selected_is_dark(7, 7));
}

#[test]
fn dragged_sprite_is_held_by_its_middle() {
    let drag = DragContext { current_x: 100, current_y: 30 };
    assert_eq!(drag.sprite_origin(75), (63, -7));
    assert_eq!(drag.sprite_origin(0), (100, 30));
}

#[test]
fn king_steps_between_squares() {
    // a2 to b5, as the rules of the board count it.
    assert_eq!(distance(8, 33), 3);
    assert_eq!(distance(4, 6), 2);
    assert_eq!(distance(0, 63), 7);
    assert_eq!(distance(7, 56), 7);
    assert_eq!(distance(20, 20), 0);
}

#[test]
fn kinds_of_moves() {
    // e5 takes d6 in passing: no piece on d6.
    assert_eq!(move_kind(Role::Pawn, false, 36, 43), MoveKind::EnPassant);
    assert_eq!(move_kind(Role::Pawn, true, 36, 43), MoveKind::Normal);
    assert_eq!(move_kind(Role::Pawn, false, 12, 28), MoveKind::Normal);
    // e1 to g1 and e1 to h1 castle, e1 to f1 does not.
    assert_eq!(move_kind(Role::King, false, 4, 6), MoveKind::Castle);
    assert_eq!(move_kind(Role::King, true, 4, 7), MoveKind::Castle);
    assert_eq!(move_kind(Role::King, false, 4, 5), MoveKind::Normal);
    assert_eq!(move_kind(Role::Queen, false, 3, 59), MoveKind::Normal);
    assert_eq!(move_kind(Role::Bishop, false, 2, 47), MoveKind::Normal);
}

#[test]
fn en_passant_square_lies_behind_the_pawn() {
    assert_eq!(en_passant_rank(4), 5);
    assert_eq!(en_passant_rank(3), 2);
    assert_eq!(en_passant_rank(5), 5);
    assert_eq!(en_passant_rank(2), 2);
    assert_eq!(en_passant_rank(0), 0);
}

#[test]
fn archive_address_ends_with_pgn() {
    let base = b"https://api.chess.com/pub/player/me/games/2023/01";
    assert_eq!(pgn_archive_url(base), [&base[..], b"/pgn"].concat());
    let slash = b"https://api.chess.com/pub/player/me/games/2023/01/";
    assert_eq!(pgn_archive_url(slash), [&slash[..], b"pgn"].concat());
    let pgn = b"https://api.chess.com/pub/player/me/games/2023/01/pgn";
    assert_eq!(pgn_archive_url(pgn), pgn.to_vec());
    assert_eq!(pgn_archive_url(b""), b"/pgn".to_vec());
    assert_eq!(pgn_archive_url(b"pgn"), b"pgn/pgn".to_vec());
    assert_eq!(pgn_archive_url(b"/"), b"/pgn".to_vec());
}

#[test]
fn months_since_a_month() {
    assert_eq!(archive_months(2023, 11, 2024, 2), vec![(2023, 11), (2023, 12), (2024, 1), (2024, 2)]);
    assert_eq!(archive_months(2024, 2, 2024, 2), vec![(2024, 2)]);
    assert_eq!(archive_months(2024, 3, 2024, 2), vec![]);
    assert_eq!(archive_months(2025, 1, 2024, 12), vec![]);
    assert_eq!(archive_months(2021, 12, 2023, 1).len(), 1 + 12 + 1);
    assert_eq!(archive_months(65535, 12, 65535, 12), vec![(65535, 12)]);
}

#[test]
fn configuration_holds_the_usernames() {
    assert!(Config::default().chess_com().is_empty());
    let config = Config::new(vec!["me".to_string(), "myself".to_string()]);
    assert_eq!(config.chess_com(), &vec!["me".to_string(), "myself".to_string()]);
    assert_eq!(config.clone().chess_com().len(), 2);
}
