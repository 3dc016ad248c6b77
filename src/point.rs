//! The point model: integer record coordinates, optional GPS time and colour,
//! and the capabilities of a point format.
use vstd::prelude::*;

verus! {

/// The position of a point, in the integer record coordinates of a LAS file.
#[derive(Clone, Copy, Debug, PartialEq, Eq, Structural)]
pub struct Position {
    pub x: i32,
    pub y: i32,
    pub z: i32,
}

/// An RGB colour.
#[derive(Clone, Copy, Debug, PartialEq, Eq, Structural)]
pub struct Color {
    pub red: u16,
    pub green: u16,
    pub blue: u16,
}

/// A LAS point. The GPS time is held as the bit pattern of its IEEE-754 value,
/// so `Some(0)` is a time of `0.0`.
#[derive(Clone, Copy, Debug, PartialEq, Eq, Structural)]
pub struct Point {
    pub position: Position,
    pub intensity: u16,
    pub gps_time_bits: Option<u64>,
    pub color: Option<Color>,
}

/// The capabilities of a point format that this library acts on.
#[derive(Clone, Copy, Debug, PartialEq, Eq, Structural)]
pub struct PointFormat {
    pub has_gps_time: bool,
    pub has_color: bool,
}

/// Errors of the point model.
#[derive(Clone, Copy, Debug, PartialEq, Eq, Structural)]
pub enum FormatError {
    /// The number names no point format.
    InvalidFormatNumber(u8),
}

#[verifier::external_type_specification]
#[verifier::external_body]
pub struct ExLasError(las::Error);

impl Position {
    /// The coordinate on `axis` (0 for x, 1 for y, 2 for z).
    pub open spec fn coord_spec(self, axis: int) -> int {
        if axis == 0 {
            self.x as int
        } else if axis == 1 {
            self.y as int
        } else {
            self.z as int
        }
    }

    /// The coordinate on `axis` (0 for x, 1 for y, 2 for z).
    pub fn coord(&self, axis: usize) -> (r: i32)
        requires
            axis < 3,
        ensures
            r as int == self.coord_spec(axis as int),
    {
        if axis == 0 {
            self.x
        } else if axis == 1 {
            self.y
        } else {
            self.z
        }
    }
}

/// The squared Euclidean distance between two positions.
pub open spec fn squared_distance_spec(a: Position, b: Position) -> int {
    (a.x - b.x) * (a.x - b.x) + (a.y - b.y) * (a.y - b.y) + (a.z - b.z) * (a.z - b.z)
}

proof fn lemma_square_bound(d: int)
    requires
        -0x1_0000_0000 < d < 0x1_0000_0000,
    ensures
        0 <= d * d < 0x1_0000_0000_0000_0000,
{
    assert(0 <= d * d < 0x1_0000_0000_0000_0000) by (nonlinear_arith)
        requires
            -0x1_0000_0000 < d < 0x1_0000_0000,
    ;
}

fn squared_diff(a: i32, b: i32) -> (r: u128)
    ensures
        r as int == (a - b) * (a - b),
{
    let d: i64 = a as i64 - b as i64;
    proof {
        lemma_square_bound(d as int);
    }
    let m: u64 = if d < 0 { (-d) as u64 } else { d as u64 };
    assert((m as int) * (m as int) == (d as int) * (d as int)) by (nonlinear_arith)
        requires
            m as int == d as int || m as int == -(d as int),
    ;
    (m as u128) * (m as u128)
}

/// The squared Euclidean distance between two positions; it cannot overflow.
pub fn squared_distance(a: &Position, b: &Position) -> (r: u128)
    ensures
        r as int == squared_distance_spec(*a, *b),
{
    let dx = squared_diff(a.x, b.x);
    let dy = squared_diff(a.y, b.y);
    let dz = squared_diff(a.z, b.z);
    proof {
        lemma_square_bound(a.x - b.x);
        lemma_square_bound(a.y - b.y);
        lemma_square_bound(a.z - b.z);
    }
    dx + dy + dz
}

/// Whether a point format number names a format with GPS time.
pub open spec fn format_number_has_gps_time(n: u8) -> bool {
    let m = n % 64;
    m == 1 || m == 3 || m == 4 || m == 5 || (6 <= m && m <= 10)
}

/// Whether a point format number names a format with colour.
pub open spec fn format_number_has_color(n: u8) -> bool {
    let m = n % 64;
    m == 2 || m == 3 || m == 5 || m == 7 || m == 8 || m == 10
}

/// Whether a point format number is accepted: 0 to 10, or any number with the
/// compression bit set.
pub open spec fn format_number_valid(n: u8) -> bool {
    n <= 10 || n >= 128
}

/// Relies on las::point::Format::new: it fails exactly on numbers above 10
/// without the compression bit (0x80); otherwise GPS time and colour follow the
/// table of formats for the number with its top two bits cleared.
#[verifier::external_body]
fn las_format_new(n: u8) -> (r: Result<PointFormat, las::Error>)
    ensures
        r is Ok <==> format_number_valid(n),
        r is Ok ==> r->Ok_0.has_gps_time == format_number_has_gps_time(n)
            && r->Ok_0.has_color == format_number_has_color(n),
{
    las::point::Format::new(n).map(|f| PointFormat { has_gps_time: f.has_gps_time, has_color: f.has_color })
}

impl PointFormat {
    /// What `from_number` returns for `n`.
    pub open spec fn from_number_spec(n: u8) -> Result<PointFormat, FormatError> {
        if format_number_valid(n) {
            Ok(
                PointFormat {
                    has_gps_time: format_number_has_gps_time(n),
                    has_color: format_number_has_color(n),
                },
            )
        } else {
            Err(FormatError::InvalidFormatNumber(n))
        }
    }

    /// The capabilities of the point format with number `n`.
    pub fn from_number(n: u8) -> (r: Result<PointFormat, FormatError>)
        ensures
            r == PointFormat::from_number_spec(n),
    {
        match las_format_new(n) {
            Ok(f) => Ok(f),
            Err(_) => Err(FormatError::InvalidFormatNumber(n)),
        }
    }

    /// Whether two formats can be copied between without adapting points.
    pub fn compatible(&self, other: &PointFormat) -> (r: bool)
        ensures
            r == (self.has_gps_time == other.has_gps_time && self.has_color == other.has_color),
    {
        self.has_gps_time == other.has_gps_time && self.has_color == other.has_color
    }
}

/// Whether a point carries exactly the optional fields that a format has.
pub open spec fn conforms(p: Point, f: PointFormat) -> bool {
    &&& p.gps_time_bits.is_some() == f.has_gps_time
    &&& p.color.is_some() == f.has_color
}

} // verus!
