use jigsaw_puzzle::board::{Board, BoardError, MERGE_TOLERANCE};
use jigsaw_puzzle::descriptor::PieceDescriptor;

/// Descriptors of a `columns` x `rows` grid of 100-pixel pieces cut from an
/// image centred on the origin.
fn grid(columns: usize, rows: usize) -> Vec<PieceDescriptor> {
    let width = (columns * 100) as i64;
    let height = (rows * 100) as i64;
    (0..columns * rows)
        .map(|i| {
            let x = ((i % columns) * 100) as u32;
            let y = ((i / columns) * 100) as u32;
            PieceDescriptor {
                index: i,
                column: i % columns,
                row: i / columns,
                top_left_x: x,
                top_left_y: y,
                crop_width: 100,
                crop_height: 100,
                anchor_x: x as i64 - width / 2,
                anchor_y: height / 2 - y as i64,
            }
        })
        .collect()
}

/// Moves every piece far apart so that nothing is aligned.
fn scatter(b: &mut Board) {
    for i in 0..b.len() {
        b.set_position(i, (i as i64) * 1000, 5000).unwrap();
    }
}

/// Installs an image on every piece, as the crop jobs would.
fn ready(b: &mut Board) {
    for i in 0..b.len() {
        b.install_texture(i, i as u64).unwrap();
    }
}

#[test]
fn piece_without_image_cannot_be_picked_up() {
    let mut b = Board::from_descriptors(&grid(2, 1));
    assert_eq!(b.toggle_drag(0), Err(BoardError::NotReady));
    assert!(!b.piece(0).dragging);
    b.install_texture(0, 9).unwrap();
    assert_eq!(b.toggle_drag(0), Ok(()));
    assert!(b.piece(0).dragging);
}

#[test]
fn new_board_places_pieces_at_their_anchors() {
    let b = Board::from_descriptors(&grid(3, 2));
    assert_eq!(b.len(), 6);
    let p = b.piece(4);
    assert_eq!((p.x, p.y, p.layer), (-50, 0, 4));
    assert!(!p.dragging && !p.selected && p.group.is_none() && p.texture.is_none());
}

#[test]
fn install_texture_twice_is_refused_and_keeps_the_first() {
    let mut b = Board::from_descriptors(&grid(2, 1));
    assert_eq!(b.install_texture(1, 77), Ok(()));
    assert_eq!(b.install_texture(1, 88), Err(BoardError::DuplicateInstallation));
    assert_eq!(b.piece(1).texture, Some(77));
    assert_eq!(b.install_texture(5, 1), Err(BoardError::InvalidPieceIndex));
}

#[test]
fn set_position_out_of_range_is_refused() {
    let mut b = Board::from_descriptors(&grid(2, 1));
    assert_eq!(b.set_position(2, 0, 0), Err(BoardError::InvalidPieceIndex));
    assert_eq!(b.set_position(0, 7, -9), Ok(()));
    assert_eq!((b.piece(0).x, b.piece(0).y), (7, -9));
}

#[test]
fn adjacent_pieces_moved_into_place_form_a_group_and_a_stranger_does_not_join() {
    let mut b = Board::from_descriptors(&grid(3, 2));
    scatter(&mut b);
    // piece (0,0) is index 0; piece (1,0) is index 1: 100 pixels to its right.
    let a = b.piece(0);
    b.set_position(1, a.x + 100 + 3, a.y - 2).unwrap();
    assert!(b.evaluate_merge(1, 0));
    assert_eq!(b.piece(0).group, Some(0));
    assert_eq!(b.piece(1).group, Some(0));
    // piece (2,1), index 5, is adjacent to neither; put it right next to them.
    b.set_position(5, a.x + 200, a.y).unwrap();
    assert!(!b.evaluate_join(5, 1));
    assert!(!b.evaluate_join(5, 0));
    b.settle(5);
    assert_eq!(b.piece(5).group, None);
    let members = (0..6).filter(|&i| b.piece(i).group == Some(0)).count();
    assert_eq!(members, 2);
}

#[test]
fn merge_requires_adjacency_freedom_and_alignment() {
    let mut b = Board::from_descriptors(&grid(3, 2));
    scatter(&mut b);
    let a = b.piece(0);
    // Exactly at the tolerance.
    b.set_position(1, a.x + 100 + MERGE_TOLERANCE, a.y - MERGE_TOLERANCE).unwrap();
    // Not adjacent: index 2 is two columns away.
    b.set_position(2, a.x + 200, a.y).unwrap();
    assert!(!b.evaluate_merge(0, 2));
    assert!(!b.evaluate_merge(0, 0));
    assert!(!b.evaluate_merge(0, 9));
    // One past the tolerance.
    b.set_position(3, a.x, a.y - 100 - MERGE_TOLERANCE - 1).unwrap();
    assert!(!b.evaluate_merge(0, 3));
    assert!(b.evaluate_merge(0, 1));
    // Both are grouped now: no second merge, even where aligned.
    b.set_position(3, a.x, a.y - 100).unwrap();
    assert!(!b.evaluate_merge(0, 3));
    assert!(!b.evaluate_merge(0, 1));
    // But the free neighbour can join.
    assert!(b.evaluate_join(3, 0));
    assert_eq!(b.piece(3).group, Some(0));
}

#[test]
fn dragging_a_three_piece_group_moves_exactly_its_members() {
    let mut b = Board::from_descriptors(&grid(3, 2));
    // At their anchors every neighbour is aligned.
    assert!(b.evaluate_merge(0, 1));
    assert!(b.evaluate_join(2, 1));
    let before: Vec<(i64, i64)> = (0..6).map(|i| (b.piece(i).x, b.piece(i).y)).collect();
    ready(&mut b);
    b.toggle_drag(1).unwrap();
    assert!((0..3).all(|i| b.piece(i).dragging));
    assert!((3..6).all(|i| !b.piece(i).dragging));
    assert!(b.move_dragged(40, -25));
    for i in 0..6 {
        let p = b.piece(i);
        if i < 3 {
            assert_eq!((p.x, p.y), (before[i].0 + 40, before[i].1 - 25));
        } else {
            assert_eq!((p.x, p.y), before[i]);
        }
    }
    b.toggle_drag(2).unwrap();
    assert!((0..6).all(|i| !b.piece(i).dragging));
}

#[test]
fn toggling_a_second_piece_releases_the_first() {
    let mut b = Board::from_descriptors(&grid(2, 2));
    ready(&mut b);
    b.toggle_drag(0).unwrap();
    b.toggle_drag(3).unwrap();
    assert!(!b.piece(0).dragging);
    assert!(b.piece(3).dragging);
    assert_eq!(b.toggle_drag(4), Err(BoardError::InvalidPieceIndex));
}

#[test]
fn move_that_overflows_moves_nothing() {
    let mut b = Board::from_descriptors(&grid(2, 1));
    b.set_position(0, i64::MAX - 1, 0).unwrap();
    ready(&mut b);
    b.toggle_drag(0).unwrap();
    assert!(!b.move_dragged(5, 0));
    assert_eq!(b.piece(0).x, i64::MAX - 1);
}

#[test]
fn hint_on_free_two_by_two_is_an_adjacent_pair_then_none_after_grouping() {
    let mut b = Board::from_descriptors(&grid(2, 2));
    assert_eq!(b.find_hint_pair(), Some((0, 1)));
    assert_eq!(b.select_hint(), Some((0, 1)));
    assert!(b.piece(0).selected && b.piece(1).selected);
    assert!(!b.piece(2).selected && !b.piece(3).selected);
    // Group 0 with 1 and 2 with 3: no free piece is left.
    assert!(b.evaluate_merge(0, 1));
    assert!(b.evaluate_merge(2, 3));
    assert_eq!(b.find_hint_pair(), None);
    assert_eq!(b.select_hint(), None);
    assert!((0..4).all(|i| !b.piece(i).selected));
}

#[test]
fn hint_skips_to_the_next_free_adjacent_pair() {
    let mut b = Board::from_descriptors(&grid(3, 1));
    assert!(b.evaluate_merge(0, 1));
    // Piece 2 is free but its only neighbour is grouped.
    assert_eq!(b.find_hint_pair(), None);
    let mut b = Board::from_descriptors(&grid(2, 2));
    assert!(b.evaluate_merge(0, 1));
    assert_eq!(b.find_hint_pair(), Some((2, 3)));
}

#[test]
fn settling_a_piece_between_two_neighbours_locks_all_three() {
    let mut b = Board::from_descriptors(&grid(3, 1));
    // Pieces 0 and 2 stay at their anchors; piece 1 comes back between them.
    b.set_position(1, 900, 900).unwrap();
    b.settle(1);
    assert!((0..3).all(|i| b.piece(i).group.is_none()));
    b.set_position(1, -48, 49).unwrap();
    b.settle(1);
    let g = b.piece(1).group;
    assert!(g.is_some());
    assert!((0..3).all(|i| b.piece(i).group == g));
}

#[test]
fn a_piece_without_image_in_a_carried_group_is_inert() {
    let mut b = Board::from_descriptors(&grid(2, 1));
    b.install_texture(0, 0).unwrap();
    b.toggle_drag(0).unwrap();
    // Piece 1 has no image; it still locks on where it lies.
    assert!(b.evaluate_merge(0, 1));
    assert!(b.piece(1).dragging);
    assert_eq!(b.toggle_drag(1), Err(BoardError::NotReady));
    assert!(b.piece(0).dragging && b.piece(1).dragging);
    // The member with an image puts the group down.
    b.toggle_drag(0).unwrap();
    assert!(!b.piece(0).dragging && !b.piece(1).dragging);
}
