use jigsaw_puzzle::board::Board;
use jigsaw_puzzle::descriptor::JigsawPuzzleGenerator;
use jigsaw_puzzle::pipeline::{apply_completed, dispatch_all, CropPipeline, PipelineError};

#[test]
fn six_jobs_polled_until_drained_are_each_delivered_once() {
    let mut p = CropPipeline::new(6);
    for i in 0..6 {
        assert_eq!(p.submit(i), Ok(()));
    }
    assert!(!p.is_drained());
    let mut seen = Vec::new();
    seen.extend(p.poll_completed(&vec![3, 1]));
    seen.extend(p.poll_completed(&vec![]));
    seen.extend(p.poll_completed(&vec![0, 5, 3]));
    seen.extend(p.poll_completed(&vec![2, 4, 1]));
    assert!(p.is_drained());
    seen.sort();
    assert_eq!(seen, vec![0, 1, 2, 3, 4, 5]);
}

#[test]
fn poll_never_yields_an_index_twice() {
    let mut p = CropPipeline::new(3);
    p.submit(0).unwrap();
    p.submit(1).unwrap();
    assert_eq!(p.poll_completed(&vec![1, 1, 0]), vec![1, 0]);
    assert_eq!(p.poll_completed(&vec![0, 1]), Vec::<usize>::new());
}

#[test]
fn poll_skips_unsubmitted_and_unknown_jobs() {
    let mut p = CropPipeline::new(3);
    p.submit(2).unwrap();
    assert_eq!(p.poll_completed(&vec![0, 7, 2]), vec![2]);
}

#[test]
fn submit_twice_or_out_of_range_is_refused() {
    let mut p = CropPipeline::new(2);
    assert_eq!(p.submit(1), Ok(()));
    assert_eq!(p.submit(1), Err(PipelineError::AlreadySubmitted));
    assert_eq!(p.submit(2), Err(PipelineError::InvalidPieceIndex));
    p.poll_completed(&vec![1]);
    assert_eq!(p.submit(1), Err(PipelineError::AlreadySubmitted));
    assert_eq!(p.len(), 2);
}

#[test]
fn three_by_two_puzzle_gets_every_texture_once_all_jobs_drain() {
    let generator =
        JigsawPuzzleGenerator { width: 300, height: 200, pixels: vec![0; 4 * 300 * 200], columns: 3, rows: 2 };
    let store = generator.decompose().unwrap();
    let mut board = Board::new(&store);
    let mut p = CropPipeline::new(store.descriptors.len());
    assert_eq!(dispatch_all(&mut p, &store), vec![0, 1, 2, 3, 4, 5]);
    assert_eq!(apply_completed(&mut p, &mut board, &vec![4, 0]), vec![4, 0]);
    assert_eq!(board.piece(4).texture, Some(4));
    assert_eq!(board.piece(1).texture, None);
    assert_eq!(apply_completed(&mut p, &mut board, &vec![0, 1, 2, 3, 5, 5]), vec![1, 2, 3, 5]);
    assert!(p.is_drained());
    for i in 0..6 {
        assert_eq!(board.piece(i).texture, Some(i as u64));
    }
    assert_eq!(apply_completed(&mut p, &mut board, &vec![0, 1, 2, 3, 4, 5]), Vec::<usize>::new());
}

#[test]
fn dispatch_skips_submitted_pieces_and_crops_outside_the_image() {
    let generator =
        JigsawPuzzleGenerator { width: 300, height: 200, pixels: vec![0; 4 * 300 * 200], columns: 3, rows: 2 };
    let mut store = generator.decompose().unwrap();
    store.descriptors[4].top_left_y = 1000;
    let mut p = CropPipeline::new(6);
    p.submit(1).unwrap();
    assert_eq!(dispatch_all(&mut p, &store), vec![0, 2, 3, 5]);
    assert_eq!(p.submit(4), Ok(()));
    assert_eq!(dispatch_all(&mut p, &store), Vec::<usize>::new());
}
