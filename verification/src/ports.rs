//! Port comparison: which properties two ports share, as a bit mask. Grid
//! geometry compares exactly; metadata compares by cross-section key first,
//! then by layer and width.
use vstd::prelude::*;

verus! {

/// The ports sit at the same place.
pub const POSITION: u8 = 1;
/// The ports face each other.
pub const OPPOSITE: u8 = 2;
/// The ports face the same way.
pub const SAME: u8 = 4;
/// The ports have the same width.
pub const WIDTH: u8 = 8;
/// The ports are on the same layer.
pub const LAYER: u8 = 16;
/// The ports have the same port type.
pub const PORT_TYPE: u8 = 32;
/// The ports have the same cross-section.
pub const CROSS_SECTION: u8 = 64;

/// A rotation by a multiple of a quarter turn.
#[derive(Clone, Copy, Debug, PartialEq, Eq)]
pub enum Rotation {
    R0,
    R90,
    R180,
    R270,
}

pub open spec fn turns(r: Rotation) -> int {
    match r {
        Rotation::R0 => 0,
        Rotation::R90 => 1,
        Rotation::R180 => 2,
        Rotation::R270 => 3,
    }
}

/// The number of quarter turns of a rotation.
pub fn quarter_turns(r: Rotation) -> (t: i32)
    ensures
        t == turns(r),
{
    match r {
        Rotation::R0 => 0,
        Rotation::R90 => 1,
        Rotation::R180 => 2,
        Rotation::R270 => 3,
    }
}

/// A port placement in database units: displacement and rotation.
#[derive(Clone, Copy, Debug, PartialEq, Eq)]
pub struct GridTransform {
    pub x: i64,
    pub y: i64,
    pub rotation: Rotation,
}

/// The flags that two grid placements earn: the same displacement, and
/// rotations half a turn apart (facing) or equal (same way).
pub open spec fn grid_flags_spec(a: GridTransform, b: GridTransform) -> int {
    (if a.x == b.x && a.y == b.y { POSITION as int } else { 0 }) + {
        let d = (turns(a.rotation) - turns(b.rotation)) % 4;
        if d == 2 {
            OPPOSITE as int
        } else if d == 0 {
            SAME as int
        } else {
            0
        }
    }
}

pub fn grid_flags(a: GridTransform, b: GridTransform) -> (r: u8)
    ensures
        r == grid_flags_spec(a, b),
{
    let mut flags: u8 = 0;
    if a.x == b.x && a.y == b.y {
        flags = flags + POSITION;
    }
    let d = quarter_turns(a.rotation) - quarter_turns(b.rotation);
    let d = if d < 0 { d + 4 } else { d };
    proof {
        assert(d == (turns(a.rotation) - turns(b.rotation)) % 4);
    }
    if d == 2 {
        flags = flags + OPPOSITE;
    } else if d == 0 {
        flags = flags + SAME;
    }
    flags
}

/// What a comparison reads of a port besides its placement.
#[derive(Debug)]
pub struct PortFacts {
    pub port_type: String,
    pub width: i64,
    /// Equality key of the port's cross-section.
    pub cross_section: usize,
}

/// The metadata flags: a shared cross-section implies width and layer; else
/// layer and width are compared on their own (`layers_equal` says whether the
/// layers are logically the same).
pub open spec fn metadata_flags_spec(a: PortFacts, b: PortFacts, layers_equal: bool) -> int {
    (if a.cross_section == b.cross_section {
        (CROSS_SECTION + WIDTH + LAYER) as int
    } else {
        (if layers_equal { LAYER as int } else { 0 }) + (if a.width == b.width { WIDTH as int } else { 0 })
    }) + (if a.port_type@ == b.port_type@ { PORT_TYPE as int } else { 0 })
}

pub fn metadata_flags(a: &PortFacts, b: &PortFacts, layers_equal: bool) -> (r: u8)
    ensures
        r == metadata_flags_spec(*a, *b, layers_equal),
{
    let mut flags: u8 = 0;
    if a.cross_section == b.cross_section {
        flags = CROSS_SECTION + WIDTH + LAYER;
    } else {
        if layers_equal {
            flags = flags + LAYER;
        }
        if a.width == b.width {
            flags = flags + WIDTH;
        }
    }
    if a.port_type == b.port_type {
        flags = flags + PORT_TYPE;
    }
    flags
}

/// Two grid ports compared: geometry and metadata together.
pub fn check_grid_connection(
    a: GridTransform,
    b: GridTransform,
    fa: &PortFacts,
    fb: &PortFacts,
    layers_equal: bool,
) -> (r: u8)
    ensures
        r == grid_flags_spec(a, b) + metadata_flags_spec(*fa, *fb, layers_equal),
{
    let g = grid_flags(a, b);
    let m = metadata_flags(fa, fb, layers_equal);
    g + m
}

/// Whether `flags` holds every flag of `mask`.
pub fn has_all(flags: u8, mask: u8) -> (r: bool)
    ensures
        r == (flags & mask == mask),
{
    flags & mask == mask
}

/// The metadata flags hold none of the three geometry bits.
proof fn lemma_metadata_bits(a: PortFacts, b: PortFacts, layers_equal: bool)
    ensures
        0 <= metadata_flags_spec(a, b, layers_equal) < 256,
        (metadata_flags_spec(a, b, layers_equal) as u8) & 7u8 == 0,
{
    let m = metadata_flags_spec(a, b, layers_equal);
    let c: u8 = if a.cross_section == b.cross_section { 1 } else { 0 };
    let l: u8 = if layers_equal { 1 } else { 0 };
    let w: u8 = if a.width == b.width { 1 } else { 0 };
    let t: u8 = if a.port_type@ == b.port_type@ { 1 } else { 0 };
    assert(c <= 1 && l <= 1 && w <= 1 && t <= 1);
    let x: u8 = if c == 1 { (88u8 + 32u8 * t) as u8 } else { (16u8 * l + 8u8 * w + 32u8 * t) as u8 };
    assert(m == x as int);
    assert(x & 7u8 == 0) by (bit_vector)
        requires
            c <= 1 && l <= 1 && w <= 1 && t <= 1,
            x == if c == 1 { (88u8 + 32u8 * t) as u8 } else { (16u8 * l + 8u8 * w + 32u8 * t) as u8 },
    ;
}

/// On the grid, two ports earn the position flag exactly when they sit at the
/// same place, the facing flag exactly when their rotations are half a turn
/// apart, and the same-way flag exactly when their rotations are equal; and
/// the comparison gives the same flags with the two ports swapped.
pub proof fn lemma_grid_connection(
    a: GridTransform,
    b: GridTransform,
    fa: PortFacts,
    fb: PortFacts,
    layers_equal: bool,
)
    ensures
        ({
            let f = (grid_flags_spec(a, b) + metadata_flags_spec(fa, fb, layers_equal)) as u8;
            &&& (f & POSITION != 0) == (a.x == b.x && a.y == b.y)
            &&& (f & OPPOSITE != 0) == ((turns(a.rotation) - turns(b.rotation)) % 4 == 2)
            &&& (f & SAME != 0) == (a.rotation == b.rotation)
        }),
        grid_flags_spec(a, b) + metadata_flags_spec(fa, fb, layers_equal) == grid_flags_spec(b, a)
            + metadata_flags_spec(fb, fa, layers_equal),
{
    lemma_metadata_bits(fa, fb, layers_equal);
    let m = metadata_flags_spec(fa, fb, layers_equal) as u8;
    let p: u8 = if a.x == b.x && a.y == b.y { 1 } else { 0 };
    let d = (turns(a.rotation) - turns(b.rotation)) % 4;
    let o: u8 = if d == 2 { 1 } else { 0 };
    let s: u8 = if d == 0 { 1 } else { 0 };
    assert(o + s <= 1);
    assert(grid_flags_spec(a, b) == p + 2 * o + 4 * s);
    let f = (grid_flags_spec(a, b) + metadata_flags_spec(fa, fb, layers_equal)) as u8;
    assert(f == ((p + 2 * o + 4 * s) as u8 + m) as u8);
    assert((f & 1u8 != 0) == (p == 1) && (f & 2u8 != 0) == (o == 1) && (f & 4u8 != 0) == (s == 1)) by (bit_vector)
        requires
            p <= 1 && o <= 1 && s <= 1 && o + s <= 1,
            m & 7u8 == 0,
            f == ((p + 2 * o + 4 * s) as u8 + m) as u8,
    ;
    assert((d == 0) == (a.rotation == b.rotation));
    let d2 = (turns(b.rotation) - turns(a.rotation)) % 4;
    assert((d == 2) == (d2 == 2));
    assert((d == 0) == (d2 == 0));
}

} // verus!
