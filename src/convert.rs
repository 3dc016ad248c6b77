//! Format conversion: each point gains or loses GPS time and colour as the
//! target point format asks.
use vstd::prelude::*;
use crate::point::{Color, FormatError, Point, PointFormat, conforms};

verus! {

/// The GPS time of a point adapted from format `from` to format `to`: added as
/// `0.0`, dropped, or kept.
pub open spec fn adapt_gps_time(g: Option<u64>, from: PointFormat, to: PointFormat) -> Option<u64> {
    if !from.has_gps_time && to.has_gps_time {
        Some(0u64)
    } else if from.has_gps_time && !to.has_gps_time {
        None
    } else {
        g
    }
}

/// The colour of a point adapted from format `from` to format `to`: added as
/// black, dropped, or kept.
pub open spec fn adapt_color(c: Option<Color>, from: PointFormat, to: PointFormat) -> Option<Color> {
    if !from.has_color && to.has_color {
        Some(Color { red: 0, green: 0, blue: 0 })
    } else if from.has_color && !to.has_color {
        None
    } else {
        c
    }
}

/// A point adapted from format `from` to format `to`.
pub open spec fn adapt_spec(p: Point, from: PointFormat, to: PointFormat) -> Point {
    Point {
        gps_time_bits: adapt_gps_time(p.gps_time_bits, from, to),
        color: adapt_color(p.color, from, to),
        ..p
    }
}

/// A point stream adapted from format `from` to format `to`, in input order.
pub open spec fn convert_spec(points: Seq<Point>, from: PointFormat, to: PointFormat) -> Seq<Point> {
    points.map_values(|p: Point| adapt_spec(p, from, to))
}

/// A conversion between two point formats.
#[derive(Clone, Copy, Debug, PartialEq, Eq, Structural)]
pub struct Conversion {
    pub source: PointFormat,
    pub target: PointFormat,
}

impl Conversion {
    /// A conversion from `source` to the point format numbered `target_number`.
    pub fn new(source: PointFormat, target_number: u8) -> (r: Result<Conversion, FormatError>)
        ensures
            match PointFormat::from_number_spec(target_number) {
                Ok(t) => r == Ok::<Conversion, FormatError>(Conversion { source, target: t }),
                Err(e) => r == Err::<Conversion, FormatError>(e),
            },
    {
        match PointFormat::from_number(target_number) {
            Ok(t) => Ok(Conversion { source, target: t }),
            Err(e) => Err(e),
        }
    }

    /// Whether points pass through unchanged.
    pub fn is_straight_copy(&self) -> (r: bool)
        ensures
            r == (self.source == self.target),
    {
        self.source.compatible(&self.target)
    }

    /// One point adapted to the target format.
    pub fn adapt(&self, p: &Point) -> (r: Point)
        ensures
            r == adapt_spec(*p, self.source, self.target),
    {
        adapt_point(p, &self.source, &self.target)
    }
}

/// One point adapted from format `from` to format `to`.
pub fn adapt_point(p: &Point, from: &PointFormat, to: &PointFormat) -> (r: Point)
    ensures
        r == adapt_spec(*p, *from, *to),
{
    let gps_time_bits = if !from.has_gps_time && to.has_gps_time {
        Some(0u64)
    } else if from.has_gps_time && !to.has_gps_time {
        None
    } else {
        p.gps_time_bits
    };
    let color = if !from.has_color && to.has_color {
        Some(Color { red: 0, green: 0, blue: 0 })
    } else if from.has_color && !to.has_color {
        None
    } else {
        p.color
    };
    Point { position: p.position, intensity: p.intensity, gps_time_bits, color }
}

/// Every point adapted from format `from` to format `to`, in input order.
pub fn convert_points(points: &Vec<Point>, from: &PointFormat, to: &PointFormat) -> (r: Vec<Point>)
    ensures
        r@ == convert_spec(points@, *from, *to),
{
    let mut out: Vec<Point> = Vec::with_capacity(points.len());
    let mut i: usize = 0;
    while i < points.len()
        invariant
            i <= points.len(),
            out@ == convert_spec(points@.take(i as int), *from, *to),
        decreases points.len() - i,
    {
        out.push(adapt_point(&points[i], from, to));
        proof {
            assert(points@.take(i as int + 1) == points@.take(i as int).push(points@[i as int]));
        }
        i = i + 1;
        assert(out@ =~= convert_spec(points@.take(i as int), *from, *to));
    }
    assert(points@.take(points.len() as int) =~= points@);
    out
}

/// Converting a point stream to the format it already has leaves every point
/// as it was.
pub proof fn lemma_same_format_identity(points: Seq<Point>, f: PointFormat)
    ensures
        convert_spec(points, f, f) == points,
{
    assert(convert_spec(points, f, f) =~= points);
}

/// After conversion every point carries exactly the optional fields of the
/// target format: colour (black where the source had none) where it has colour,
/// none where it has not; the same for GPS time.
pub proof fn lemma_conversion_conforms(points: Seq<Point>, from: PointFormat, to: PointFormat)
    requires
        forall|i: int| 0 <= i < points.len() ==> conforms(#[trigger] points[i], from),
    ensures
        forall|i: int| 0 <= i < points.len() ==> conforms(#[trigger] convert_spec(points, from, to)[i], to),
        forall|i: int|
            0 <= i < points.len() ==> (#[trigger] convert_spec(points, from, to)[i]).color is Some == to.has_color,
        forall|i: int|
            0 <= i < points.len() && !from.has_color && to.has_color ==> (
            #[trigger] convert_spec(points, from, to)[i]).color == Some(Color { red: 0, green: 0, blue: 0 }),
{
    assert forall|i: int| 0 <= i < points.len() implies conforms(#[trigger] convert_spec(points, from, to)[i], to) by {
        assert(conforms(points[i], from));
    }
}

} // verus!
