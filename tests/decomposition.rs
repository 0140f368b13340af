use jigsaw_puzzle::descriptor::{is_grid_adjacent, DecompositionError, JigsawPuzzleGenerator, PieceDescriptor};
use jigsaw_puzzle::pipeline::{prepare_crop, CropFailure};

fn generator(width: u32, height: u32, columns: usize, rows: usize) -> JigsawPuzzleGenerator {
    let pixels = vec![0u8; 4 * width as usize * height as usize];
    JigsawPuzzleGenerator { width, height, pixels, columns, rows }
}

fn cell(index: usize, column: usize, row: usize) -> PieceDescriptor {
    PieceDescriptor {
        index,
        column,
        row,
        top_left_x: 0,
        top_left_y: 0,
        crop_width: 10,
        crop_height: 10,
        anchor_x: 0,
        anchor_y: 0,
    }
}

#[test]
fn decompose_three_by_two_yields_six_indexed_descriptors() {
    let store = generator(300, 200, 3, 2).decompose().unwrap();
    assert_eq!(store.columns, 3);
    assert_eq!(store.rows, 2);
    assert_eq!(store.descriptors.len(), 6);
    for (i, d) in store.descriptors.iter().enumerate() {
        assert_eq!(d.index, i);
        assert_eq!(d.column, i % 3);
        assert_eq!(d.row, i / 3);
    }
    assert_eq!(store.image_width, 300);
    assert_eq!(store.image_height, 200);
}

#[test]
fn decompose_anchor_of_first_piece_is_image_top_left() {
    let store = generator(300, 200, 3, 2).decompose().unwrap();
    let d = store.descriptors[0];
    assert_eq!((d.top_left_x, d.top_left_y), (0, 0));
    assert_eq!((d.anchor_x, d.anchor_y), (-150, 100));
    for d in store.descriptors.iter() {
        assert_eq!(d.anchor_x, d.top_left_x as i64 - 150);
        assert_eq!(d.anchor_y, 100 - d.top_left_y as i64);
    }
}

#[test]
fn decompose_single_piece_grid_is_rejected() {
    let r = generator(100, 100, 1, 1).decompose();
    assert_eq!(r.err(), Some(DecompositionError::TooFewPieces));
}

#[test]
fn decompose_empty_grid_is_rejected() {
    assert_eq!(generator(100, 100, 0, 4).decompose().err(), Some(DecompositionError::TooFewPieces));
    assert_eq!(generator(100, 100, 4, 0).decompose().err(), Some(DecompositionError::TooFewPieces));
}

#[test]
fn decompose_nine_by_six_yields_fifty_four() {
    let store = generator(900, 600, 9, 6).decompose().unwrap();
    assert_eq!(store.descriptors.len(), 54);
    assert!((0..54).all(|i| store.descriptors[i].index == i && store.crop_fits(i)));
}

#[test]
fn decompose_short_pixel_buffer_is_unreadable() {
    let mut g = generator(30, 20, 3, 2);
    g.pixels.pop();
    assert_eq!(g.decompose().err(), Some(DecompositionError::ImageUnreadable));
}

#[test]
fn decompose_grid_finer_than_the_image_is_refused() {
    assert_eq!(generator(3, 10, 500, 1).decompose().err(), Some(DecompositionError::GridTooFine));
    assert_eq!(generator(300, 10, 101, 1).decompose().err(), Some(DecompositionError::GridTooFine));
    assert_eq!(generator(300, 1, 2, 2).decompose().err(), Some(DecompositionError::GridTooFine));
    assert!(generator(300, 2, 100, 2).decompose().is_ok());
}

#[test]
fn decompose_two_by_one_is_accepted() {
    let store = generator(200, 100, 2, 1).decompose().unwrap();
    assert_eq!(store.descriptors.len(), 2);
}

#[test]
fn crop_of_generated_pieces_fits_the_image() {
    let store = generator(300, 200, 3, 2).decompose().unwrap();
    for i in 0..6 {
        assert!(store.crop_fits(i));
        assert_eq!(prepare_crop(&store, i), Ok(store.descriptors[i]));
    }
}

#[test]
fn crop_outside_the_image_fails_for_that_piece_only() {
    let mut store = generator(300, 200, 3, 2).decompose().unwrap();
    store.descriptors[2].crop_width = 1000;
    assert_eq!(prepare_crop(&store, 2), Err(CropFailure { index: 2 }));
    assert!(prepare_crop(&store, 1).is_ok());
}

#[test]
fn grid_adjacency_is_one_step_on_one_axis() {
    assert!(is_grid_adjacent(&cell(0, 0, 0), &cell(1, 1, 0)));
    assert!(is_grid_adjacent(&cell(0, 0, 0), &cell(3, 0, 1)));
    assert!(!is_grid_adjacent(&cell(0, 0, 0), &cell(4, 1, 1)));
    assert!(!is_grid_adjacent(&cell(0, 0, 0), &cell(2, 2, 0)));
    assert!(!is_grid_adjacent(&cell(0, 0, 0), &cell(0, 0, 0)));
}
