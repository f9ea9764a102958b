use binary_visualizer::frequency::{build_frequency_grid, put_points};
use binary_visualizer::image::Image;
use binary_visualizer::pos::Pos2;

fn nonzero(image: &Image<u32>) -> Vec<(usize, usize, u32)> {
    let mut out = Vec::new();
    for y in 0..image.height() {
        for x in 0..image.width() {
            let c = *image.get(Pos2 { x, y });
            if c != 0 {
                out.push((x, y, c));
            }
        }
    }
    out
}

#[test]
fn counts_overlapping_pairs() {
    let grid = build_frequency_grid(vec![0x00, 0x01, 0x00, 0x01]);
    assert_eq!(grid.width(), 256);
    assert_eq!(grid.height(), 256);
    assert_eq!(*grid.get(Pos2 { x: 0, y: 1 }), 2);
    assert_eq!(*grid.get(Pos2 { x: 1, y: 0 }), 1);
    assert_eq!(nonzero(&grid), vec![(1, 0, 1), (0, 1, 2)]);
}

#[test]
fn empty_input_gives_zero_grid() {
    let grid = build_frequency_grid(Vec::new());
    assert_eq!(grid.width(), 256);
    assert_eq!(grid.height(), 256);
    assert!(nonzero(&grid).is_empty());
}

#[test]
fn single_byte_gives_zero_grid() {
    let grid = build_frequency_grid(vec![0xAB]);
    assert_eq!(grid.width(), 256);
    assert_eq!(grid.height(), 256);
    assert!(nonzero(&grid).is_empty());
}

#[test]
fn put_points_adds_to_existing_counts() {
    let mut image = Image::new(256, 256, 0u32);
    image.set(Pos2 { x: 255, y: 7 }, 10);
    put_points(&mut image, vec![255, 7, 255, 255]);
    assert_eq!(*image.get(Pos2 { x: 255, y: 7 }), 11);
    assert_eq!(*image.get(Pos2 { x: 7, y: 255 }), 1);
    assert_eq!(*image.get(Pos2 { x: 255, y: 255 }), 1);
    assert_eq!(nonzero(&image).len(), 3);
}

#[test]
fn repeated_byte_counts_every_pair() {
    let grid = build_frequency_grid(vec![9; 1000]);
    assert_eq!(*grid.get(Pos2 { x: 9, y: 9 }), 999);
    assert_eq!(nonzero(&grid).len(), 1);
}
