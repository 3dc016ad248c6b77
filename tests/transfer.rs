use las_transfer::point::{Color, Point, Position};
use las_transfer::transfer::{transfer_attributes, transfer_intensity, DonorIndex, TransferError};

fn pt(x: i32, y: i32, z: i32, intensity: u16) -> Point {
    Point { position: Position { x, y, z }, intensity, gps_time_bits: None, color: None }
}

#[test]
fn disjoint_neighbourhoods() {
    let source = vec![pt(0, 0, 0, 10), pt(10, 10, 10, 20)];
    let target = vec![pt(1, 1, 1, 0), pt(9, 9, 9, 0)];
    let out = transfer_intensity(&source, &target).unwrap();
    assert_eq!(out, vec![pt(1, 1, 1, 10), pt(9, 9, 9, 20)]);
}

#[test]
fn exact_coincidence() {
    let source = vec![pt(5, 5, 5, 42)];
    let target = vec![pt(5, 5, 5, 0)];
    let out = transfer_intensity(&source, &target).unwrap();
    assert_eq!(out[0].intensity, 42);
}

#[test]
fn empty_donor() {
    let target = vec![pt(1, 2, 3, 4)];
    assert_eq!(transfer_intensity(&Vec::new(), &target), Err(TransferError::EmptyDonor));
    let index = DonorIndex::new();
    assert_eq!(index.transfer(&target[0]), Err(TransferError::EmptyDonor));
}

#[test]
fn same_positions_reordered() {
    let source = vec![pt(0, 0, 0, 1), pt(3, 1, 4, 2), pt(-7, 2, 9, 3), pt(100, -100, 5, 4)];
    let target = vec![pt(100, -100, 5, 0), pt(0, 0, 0, 0), pt(-7, 2, 9, 0), pt(3, 1, 4, 0)];
    let out = transfer_intensity(&source, &target).unwrap();
    let got: Vec<u16> = out.iter().map(|p| p.intensity).collect();
    assert_eq!(got, vec![4, 1, 3, 2]);
    for (o, t) in out.iter().zip(target.iter()) {
        assert_eq!(o.position, t.position);
    }
}

#[test]
fn duplicate_donor_positions_take_first() {
    let source = vec![pt(2, 2, 2, 7), pt(2, 2, 2, 8)];
    let target = vec![pt(2, 2, 2, 0), pt(3, 3, 3, 0)];
    let out = transfer_intensity(&source, &target).unwrap();
    assert_eq!(out[0].intensity, 7);
    assert_eq!(out[1].intensity, 7);
}

#[test]
fn only_intensity_is_copied() {
    let donor = Point {
        position: Position { x: 9, y: 9, z: 9 },
        intensity: 300,
        gps_time_bits: Some(1),
        color: Some(Color { red: 1, green: 2, blue: 3 }),
    };
    let target = Point {
        position: Position { x: 0, y: 0, z: 0 },
        intensity: 5,
        gps_time_bits: Some(2),
        color: None,
    };
    let out = transfer_attributes(&target, &donor);
    assert_eq!(out, Point { intensity: 300, ..target });
}

#[test]
fn streaming_index_matches_batch() {
    let source = vec![pt(0, 0, 0, 10), pt(10, 0, 0, 20), pt(0, 10, 0, 30)];
    let mut index = DonorIndex::new();
    for p in source.iter() {
        index.add(*p);
    }
    assert_eq!(index.len(), 3);
    let target = vec![pt(1, 8, 0, 0), pt(6, 0, 0, 0), pt(-5, -5, 0, 0)];
    let batch = transfer_intensity(&source, &target).unwrap();
    let streamed: Vec<Point> = target.iter().map(|t| index.transfer(t).unwrap()).collect();
    assert_eq!(streamed, batch);
    let got: Vec<u16> = batch.iter().map(|p| p.intensity).collect();
    assert_eq!(got, vec![30, 20, 10]);
}
