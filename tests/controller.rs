use jigsaw_puzzle::board::{Board, BoardError};
use jigsaw_puzzle::controller::{
    command_for_key, command_for_keys, random_position, AdjustScale, Command, Controller, Key, ToggleBackgroundHint,
    TogglePuzzleHint, MAX_SCALE, MIN_SCALE,
};
use jigsaw_puzzle::descriptor::PieceDescriptor;

fn grid(columns: usize, rows: usize) -> Vec<PieceDescriptor> {
    let width = (columns * 100) as i64;
    let height = (rows * 100) as i64;
    (0..columns * rows)
        .map(|i| {
            let x = ((i % columns) * 100) as u32;
            let y = ((i / columns) * 100) as u32;
            PieceDescriptor {
                index: i,
                column: i % columns,
                row: i / columns,
                top_left_x: x,
                top_left_y: y,
                crop_width: 100,
                crop_height: 100,
                anchor_x: x as i64 - width / 2,
                anchor_y: height / 2 - y as i64,
            }
        })
        .collect()
}

#[test]
fn zoom_is_clamped_to_its_bounds() {
    let mut c = Controller::new();
    assert_eq!(c.scale, 100);
    c.adjust_scale(AdjustScale(10));
    assert_eq!(c.scale, 110);
    c.adjust_scale(AdjustScale(1000));
    assert_eq!(c.scale, MAX_SCALE);
    c.adjust_scale(AdjustScale(-1000));
    assert_eq!(c.scale, MIN_SCALE);
    c.adjust_scale(AdjustScale(i64::MIN));
    assert_eq!(c.scale, MIN_SCALE);
}

#[test]
fn keys_map_to_commands() {
    assert_eq!(command_for_key(Key::PageUp), Some(Command::Zoom(AdjustScale(10))));
    assert_eq!(command_for_key(Key::PageDown), Some(Command::Zoom(AdjustScale(-10))));
    assert_eq!(command_for_key(Key::Space), Some(Command::Background(ToggleBackgroundHint)));
    assert_eq!(command_for_key(Key::H), Some(Command::Hint(TogglePuzzleHint)));
    assert_eq!(command_for_key(Key::Other), None);
}

#[test]
fn keys_of_one_tick_give_one_command_by_priority() {
    assert_eq!(command_for_keys(&vec![Key::H, Key::PageDown]), Some(Command::Zoom(AdjustScale(-10))));
    assert_eq!(command_for_keys(&vec![Key::H, Key::Space, Key::PageUp]), Some(Command::Zoom(AdjustScale(10))));
    assert_eq!(command_for_keys(&vec![Key::Other, Key::H]), Some(Command::Hint(TogglePuzzleHint)));
    assert_eq!(command_for_keys(&vec![Key::Other]), None);
    assert_eq!(command_for_keys(&vec![]), None);
}

#[test]
fn background_toggle_flips() {
    let mut c = Controller::new();
    c.toggle_background(ToggleBackgroundHint);
    assert!(c.background_visible);
    c.toggle_background(ToggleBackgroundHint);
    assert!(!c.background_visible);
}

#[test]
fn carried_piece_keeps_the_pointer_offset_and_locks_on_when_aligned() {
    let mut b = Board::from_descriptors(&grid(2, 1));
    let mut c = Controller::new();
    b.set_position(1, 500, 500).unwrap();
    assert_eq!(c.click(&mut b, 1, 507, 496), Err(BoardError::NotReady));
    assert!(c.grab.is_none());
    b.install_texture(0, 0).unwrap();
    b.install_texture(1, 1).unwrap();
    // Pointer grabs piece 1 at 7 pixels right of and 4 below its origin.
    c.click(&mut b, 1, 507, 496).unwrap();
    assert!(b.piece(1).dragging);
    // Piece 0 sits at (-100, 50): piece 1 belongs at (0, 50).
    assert!(c.pointer_moved(&mut b, 9, 44));
    assert_eq!((b.piece(1).x, b.piece(1).y), (2, 48));
    assert_eq!((b.piece(0).x, b.piece(0).y), (-100, 50));
    assert_eq!(b.piece(0).group, Some(0));
    assert_eq!(b.piece(1).group, Some(0));
    // The new group is carried as one.
    assert!(b.piece(0).dragging);
    c.click(&mut b, 1, 9, 44).unwrap();
    assert!(c.grab.is_none());
    assert!(!c.pointer_moved(&mut b, 0, 0));
}

#[test]
fn puzzle_hint_selects_a_pair() {
    let mut b = Board::from_descriptors(&grid(2, 1));
    let c = Controller::new();
    assert_eq!(c.toggle_puzzle_hint(&mut b, TogglePuzzleHint), Some((0, 1)));
    assert!(b.piece(0).selected && b.piece(1).selected);
}

#[test]
fn random_position_stays_inside_the_window() {
    let d = grid(2, 1)[0];
    for _ in 0..50 {
        let (x, y) = random_position(&d, 400, 300).unwrap();
        assert!((-300..300).contains(&x));
        assert!((-200..200).contains(&y));
    }
    assert_eq!(random_position(&d, 100, 300), None);
}
