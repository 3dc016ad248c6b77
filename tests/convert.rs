use las_transfer::convert::{adapt_point, convert_points, Conversion};
use las_transfer::point::{Color, FormatError, Point, PointFormat, Position};

fn point(intensity: u16, gps: Option<u64>, color: Option<Color>) -> Point {
    Point { position: Position { x: 1, y: 2, z: 3 }, intensity, gps_time_bits: gps, color }
}

#[test]
fn format_table() {
    let f0 = PointFormat::from_number(0).unwrap();
    assert_eq!(f0, PointFormat { has_gps_time: false, has_color: false });
    let f1 = PointFormat::from_number(1).unwrap();
    assert_eq!(f1, PointFormat { has_gps_time: true, has_color: false });
    let f2 = PointFormat::from_number(2).unwrap();
    assert_eq!(f2, PointFormat { has_gps_time: false, has_color: true });
    let f3 = PointFormat::from_number(3).unwrap();
    assert_eq!(f3, PointFormat { has_gps_time: true, has_color: true });
    let f6 = PointFormat::from_number(6).unwrap();
    assert_eq!(f6, PointFormat { has_gps_time: true, has_color: false });
    let compressed = PointFormat::from_number(0x82).unwrap();
    assert_eq!(compressed, f2);
}

#[test]
fn invalid_format_number() {
    assert_eq!(PointFormat::from_number(11), Err(FormatError::InvalidFormatNumber(11)));
    assert_eq!(PointFormat::from_number(64), Err(FormatError::InvalidFormatNumber(64)));
    assert_eq!(
        PointFormat::from_number(0x8B),
        Ok(PointFormat { has_gps_time: false, has_color: false })
    );
    assert_eq!(
        Conversion::new(PointFormat { has_gps_time: false, has_color: false }, 42),
        Err(FormatError::InvalidFormatNumber(42))
    );
}

#[test]
fn conversion_adds_gps_time() {
    let from = PointFormat::from_number(0).unwrap();
    let conv = Conversion::new(from, 1).unwrap();
    let pts = vec![point(1, None, None), point(2, None, None)];
    let out = convert_points(&pts, &conv.source, &conv.target);
    assert_eq!(out.len(), 2);
    for (o, p) in out.iter().zip(pts.iter()) {
        assert_eq!(o.gps_time_bits, Some(0));
        assert_eq!(f64::from_bits(o.gps_time_bits.unwrap()), 0.0);
        assert_eq!(o.color, None);
        assert_eq!(o.intensity, p.intensity);
    }
}

#[test]
fn conversion_drops_color() {
    let red = Some(Color { red: 9, green: 8, blue: 7 });
    let from = PointFormat::from_number(2).unwrap();
    let to = PointFormat::from_number(0).unwrap();
    let pts = vec![point(1, None, red), point(2, None, red), point(3, None, red)];
    let out = convert_points(&pts, &from, &to);
    assert_eq!(out.len(), pts.len());
    assert!(out.iter().all(|p| p.color.is_none()));
}

#[test]
fn conversion_adds_black() {
    let from = PointFormat::from_number(1).unwrap();
    let to = PointFormat::from_number(3).unwrap();
    let gps = Some(1.5f64.to_bits());
    let out = adapt_point(&point(4, gps, None), &from, &to);
    assert_eq!(out.color, Some(Color { red: 0, green: 0, blue: 0 }));
    assert_eq!(out.gps_time_bits, gps);
}

#[test]
fn conversion_drops_gps_time() {
    let from = PointFormat::from_number(3).unwrap();
    let to = PointFormat::from_number(2).unwrap();
    let c = Some(Color { red: 1, green: 2, blue: 3 });
    let out = adapt_point(&point(4, Some(77), c), &from, &to);
    assert_eq!(out, point(4, None, c));
}

#[test]
fn same_format_round_trip() {
    let f = PointFormat::from_number(3).unwrap();
    let conv = Conversion::new(f, 3).unwrap();
    assert!(conv.is_straight_copy());
    let pts = vec![
        point(1, Some(5), Some(Color { red: 1, green: 1, blue: 1 })),
        point(65535, Some(u64::MAX), Some(Color { red: 0, green: 9, blue: 65535 })),
    ];
    assert_eq!(convert_points(&pts, &f, &f), pts);
    assert_eq!(conv.adapt(&pts[1]), pts[1]);
}

#[test]
fn conversion_of_empty_stream() {
    let f = PointFormat::from_number(0).unwrap();
    let t = PointFormat::from_number(3).unwrap();
    assert!(convert_points(&Vec::new(), &f, &t).is_empty());
    assert!(!Conversion::new(f, 3).unwrap().is_straight_copy());
}
