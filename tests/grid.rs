use binary_visualizer::image::{Color, Image};
use binary_visualizer::pos::Pos2;

fn numbered(n: usize) -> Image<u32> {
    let mut image = Image::new(n, n, 0u32);
    for y in 0..n {
        for x in 0..n {
            image.set(Pos2 { x, y }, (y * n + x) as u32);
        }
    }
    image
}

fn cells(image: &Image<u32>) -> Vec<u32> {
    let mut out = Vec::new();
    for y in 0..image.height() {
        for x in 0..image.width() {
            out.push(*image.get(Pos2 { x, y }));
        }
    }
    out
}

#[test]
fn new_fills_every_cell() {
    let image = Image::new(3, 2, 7u32);
    assert_eq!(image.width(), 3);
    assert_eq!(image.height(), 2);
    assert_eq!(cells(&image), vec![7; 6]);
}

#[test]
fn empty_grid_is_valid() {
    let image = Image::new(0, 5, 1u8);
    assert_eq!(image.width(), 0);
    assert_eq!(image.height(), 5);
}

#[test]
fn set_writes_one_cell() {
    let mut image = Image::new(4, 3, 0u32);
    image.set(Pos2 { x: 2, y: 1 }, 9);
    assert_eq!(*image.get(Pos2 { x: 2, y: 1 }), 9);
    let all = cells(&image);
    assert_eq!(all.iter().filter(|&&c| c != 0).count(), 1);
    assert_eq!(all[1 * 4 + 2], 9);
}

#[test]
fn row_major_indexing() {
    let image = Image::new(5, 3, 0u8);
    assert_eq!(image.to_index(Pos2 { x: 4, y: 2 }), 14);
    assert_eq!(Image::<u8>::to_index_assoc(7, Pos2 { x: 3, y: 2 }), 17);
    let p = Image::<u8>::index_to_pos_assoc(7, 17);
    assert_eq!((p.x, p.y), (3, 2));
    let q = Image::<u8>::index_to_pos_assoc(5, 4);
    assert_eq!((q.x, q.y), (4, 0));
}

#[test]
fn map_keeps_shape_and_applies_function() {
    let mut image = Image::new(3, 2, 0u32);
    image.set(Pos2 { x: 1, y: 0 }, 5);
    image.set(Pos2 { x: 2, y: 1 }, 8);
    let doubled = image.map(|v: u32| v as u64 * 2 + 1);
    assert_eq!(doubled.width(), 3);
    assert_eq!(doubled.height(), 2);
    assert_eq!(*doubled.get(Pos2 { x: 0, y: 0 }), 1);
    assert_eq!(*doubled.get(Pos2 { x: 1, y: 0 }), 11);
    assert_eq!(*doubled.get(Pos2 { x: 2, y: 1 }), 17);
    assert_eq!(*doubled.get(Pos2 { x: 0, y: 1 }), 1);
}

#[test]
fn hilbertify_order_one() {
    let mut image = numbered(2);
    image.hilbertify();
    assert_eq!(cells(&image), vec![0, 2, 3, 1]);
}

#[test]
fn unhilbertify_order_one() {
    let mut image = numbered(2);
    image.unhilbertify();
    assert_eq!(cells(&image), vec![0, 3, 1, 2]);
}

#[test]
fn hilbertify_then_unhilbertify_restores_grid() {
    for &n in &[1usize, 2, 4, 8, 16] {
        let mut image = numbered(n);
        image.hilbertify();
        image.unhilbertify();
        assert_eq!(cells(&image), cells(&numbered(n)));
    }
}

#[test]
fn unhilbertify_then_hilbertify_restores_grid() {
    let mut image = numbered(8);
    image.unhilbertify();
    image.hilbertify();
    assert_eq!(cells(&image), cells(&numbered(8)));
}

#[test]
fn hilbertify_places_cells_by_curve_value() {
    let mut image = numbered(4);
    image.hilbertify();
    let expected = [0u32, 1, 5, 4, 8, 12, 13, 9, 10, 14, 15, 11, 7, 6, 2, 3];
    assert_eq!(cells(&image), expected.to_vec());
}

#[test]
fn data_raw_is_four_channels_per_cell() {
    let mut image = Image::new(2, 1, Color { r: 0, g: 0, b: 0, a: 255 });
    image.set(Pos2 { x: 1, y: 0 }, Color { r: 1, g: 2, b: 3, a: 4 });
    assert_eq!(image.data_raw(), vec![0, 0, 0, 255, 1, 2, 3, 4]);
}
