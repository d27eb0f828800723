//! A drone: position, facing, level, inventory and its command queue; and
//! the geometry of facings and sound directions.

use std::collections::VecDeque;

use vstd::prelude::*;

use super::command::Command;
use super::map::{abs_int, res_at, res_name, Resource, RESOURCE_COUNT};
use crate::text::{dec, join};

verus! {

/// Time units of life that one unit of food buys.
pub const STARVE_INTERVAL_UNITS: u32 = 126;

/// What a hunger tick did to a drone.
#[derive(Clone, Copy, Debug, PartialEq, Eq, Structural)]
pub enum StarveResult {
    Survived,
    Died,
    Gone,
}

/// One of the eight tiles around a drone, numbered counter-clockwise from
/// the front (`number`: North = 1 ... NorthEast = 8).
#[derive(Clone, Copy, Debug, PartialEq, Eq, Structural)]
pub enum SoundDir {
    North,
    NorthWest,
    West,
    SouthWest,
    South,
    SouthEast,
    East,
    NorthEast,
}

/// Protocol number of a sound direction.
pub open spec fn sound_dir_number(d: SoundDir) -> u8 {
    match d {
        SoundDir::North => 1,
        SoundDir::NorthWest => 2,
        SoundDir::West => 3,
        SoundDir::SouthWest => 4,
        SoundDir::South => 5,
        SoundDir::SouthEast => 6,
        SoundDir::East => 7,
        SoundDir::NorthEast => 8,
    }
}

/// The facing a sound direction points to, for the four axis directions.
pub open spec fn sound_to_orientation(d: SoundDir) -> Option<Orientation> {
    match d {
        SoundDir::North => Some(Orientation::North),
        SoundDir::East => Some(Orientation::East),
        SoundDir::South => Some(Orientation::South),
        SoundDir::West => Some(Orientation::West),
        _ => None,
    }
}

impl SoundDir {
    /// Protocol number `K` of this direction (1..=8).
    pub fn number(self) -> (r: u8)
        ensures
            r == sound_dir_number(self),
            1 <= r <= 8,
    {
        match self {
            SoundDir::North => 1,
            SoundDir::NorthWest => 2,
            SoundDir::West => 3,
            SoundDir::SouthWest => 4,
            SoundDir::South => 5,
            SoundDir::SouthEast => 6,
            SoundDir::East => 7,
            SoundDir::NorthEast => 8,
        }
    }

    /// The facing this direction points to; `None` for the diagonals.
    pub fn to_orientation(self) -> (r: Option<Orientation>)
        ensures
            r == sound_to_orientation(self),
    {
        match self {
            SoundDir::North => Some(Orientation::North),
            SoundDir::East => Some(Orientation::East),
            SoundDir::South => Some(Orientation::South),
            SoundDir::West => Some(Orientation::West),
            _ => None,
        }
    }
}

/// Facing of a drone (`number`: North = 1, East = 2, South = 3, West = 4).
/// North is `y - 1`, East is `x + 1`.
#[derive(Clone, Copy, Debug, PartialEq, Eq, Structural)]
pub enum Orientation {
    North,
    East,
    South,
    West,
}

/// Protocol number of a facing.
pub open spec fn orientation_number(o: Orientation) -> u8 {
    match o {
        Orientation::North => 1,
        Orientation::East => 2,
        Orientation::South => 3,
        Orientation::West => 4,
    }
}

/// Unit step of a facing, `(dx, dy)`.
pub open spec fn orientation_vec(o: Orientation) -> (int, int) {
    match o {
        Orientation::North => (0, -1),
        Orientation::East => (1, 0),
        Orientation::South => (0, 1),
        Orientation::West => (-1, 0),
    }
}

/// The facing whose unit step is `u`, if any.
pub open spec fn orientation_from_vec(u: (int, int)) -> Option<Orientation> {
    if u == (0int, -1int) {
        Some(Orientation::North)
    } else if u == (1int, 0int) {
        Some(Orientation::East)
    } else if u == (0int, 1int) {
        Some(Orientation::South)
    } else if u == (-1int, 0int) {
        Some(Orientation::West)
    } else {
        None
    }
}

/// The sound direction straight along a facing.
pub open spec fn orientation_song(o: Orientation) -> SoundDir {
    match o {
        Orientation::North => SoundDir::North,
        Orientation::East => SoundDir::East,
        Orientation::South => SoundDir::South,
        Orientation::West => SoundDir::West,
    }
}

/// Quarter turn clockwise.
pub open spec fn turn_right(o: Orientation) -> Orientation {
    match o {
        Orientation::North => Orientation::East,
        Orientation::East => Orientation::South,
        Orientation::South => Orientation::West,
        Orientation::West => Orientation::North,
    }
}

/// Quarter turn counter-clockwise.
pub open spec fn turn_left(o: Orientation) -> Orientation {
    match o {
        Orientation::North => Orientation::West,
        Orientation::West => Orientation::South,
        Orientation::South => Orientation::East,
        Orientation::East => Orientation::North,
    }
}

/// `a < (sqrt(2) - 1) * b`, i.e. the angle of `(b, a)` is under 22.5
/// degrees, for `a >= 0` and `b > 0`.
pub open spec fn below_half_octant(a: int, b: int) -> bool {
    a * (a + 2 * b) < b * b
}

/// Direction number `K` of a sound arriving from a source `forward` tiles
/// ahead and `left` tiles to the left: 0 for the drone's own tile, else the
/// 45-degree sector (1 = ahead, counter-clockwise up to 8) holding the
/// direction of the source.
pub open spec fn sector(forward: int, left: int) -> u8 {
    if forward == 0 && left == 0 {
        0
    } else if forward > 0 && below_half_octant(abs_int(left), forward) {
        1
    } else if left > 0 && below_half_octant(abs_int(forward), left) {
        3
    } else if forward < 0 && below_half_octant(abs_int(left), -forward) {
        5
    } else if left < 0 && below_half_octant(abs_int(forward), -left) {
        7
    } else if forward > 0 && left > 0 {
        2
    } else if forward < 0 && left > 0 {
        4
    } else if forward < 0 && left < 0 {
        6
    } else {
        8
    }
}

/// Distance of a world offset along the facing (positive ahead).
pub open spec fn forward_of(o: Orientation, offset: (int, int)) -> int {
    offset.0 * orientation_vec(o).0 + offset.1 * orientation_vec(o).1
}

/// Distance of a world offset to the facing's left.
pub open spec fn left_of(o: Orientation, offset: (int, int)) -> int {
    offset.0 * orientation_vec(o).1 - offset.1 * orientation_vec(o).0
}

/// Direction number of a sound reaching a drone facing `o` from the world
/// offset `offset` (source minus receiver).
pub open spec fn sound_dir_spec(o: Orientation, offset: (int, int)) -> u8 {
    sector(forward_of(o, offset), left_of(o, offset))
}

/// The offsets for which the projection onto the facing stays within
/// `isize` arithmetic.
pub open spec fn sound_dir_defined(o: Orientation, offset: (isize, isize)) -> bool {
    match o {
        Orientation::North => offset.0 > isize::MIN && offset.1 > isize::MIN,
        Orientation::East => offset.1 > isize::MIN,
        Orientation::South => true,
        Orientation::West => offset.0 > isize::MIN && offset.1 > isize::MIN,
    }
}

/// `a < (sqrt(2) - 1) * b` on magnitudes below `2^64`.
fn below_half_octant_exec(a: u128, b: u128) -> (r: bool)
    requires
        a <= 0x8000_0000_0000_0000,
        b <= 0x8000_0000_0000_0000,
    ensures
        r == below_half_octant(a as int, b as int),
{
    assert(a * (a + 2 * b) <= 0x8000_0000_0000_0000 * 0x1_8000_0000_0000_0000) by (nonlinear_arith)
        requires
            a <= 0x8000_0000_0000_0000,
            a + 2 * b <= 0x1_8000_0000_0000_0000,
    ;
    assert(b * b <= 0x8000_0000_0000_0000 * 0x8000_0000_0000_0000) by (nonlinear_arith)
        requires
            b <= 0x8000_0000_0000_0000,
    ;
    a * (a + 2 * b) < b * b
}

fn abs_i128(x: i128) -> (r: u128)
    requires
        -0x8000_0000_0000_0000 <= x <= 0x8000_0000_0000_0000,
    ensures
        r == abs_int(x as int),
        r <= 0x8000_0000_0000_0000,
{
    if x < 0 {
        (-x) as u128
    } else {
        x as u128
    }
}

impl Orientation {
    /// Protocol number of this facing (1..=4).
    pub fn number(self) -> (r: u8)
        ensures
            r == orientation_number(self),
    {
        match self {
            Orientation::North => 1,
            Orientation::East => 2,
            Orientation::South => 3,
            Orientation::West => 4,
        }
    }

    /// The sound direction straight along this facing.
    pub fn to_song(self) -> (r: SoundDir)
        ensures
            r == orientation_song(self),
    {
        match self {
            Orientation::North => SoundDir::North,
            Orientation::East => SoundDir::East,
            Orientation::South => SoundDir::South,
            Orientation::West => SoundDir::West,
        }
    }

    /// Direction number `K` (0..=8) of a sound reaching a drone with this
    /// facing from the world offset `offset` (source minus receiver; x grows
    /// East, y grows South).
    pub fn sound_dir(self, offset: (isize, isize)) -> (k: u8)
        requires
            sound_dir_defined(self, offset),
        ensures
            k == sound_dir_spec(self, (offset.0 as int, offset.1 as int)),
            k <= 8,
            (k == 0) == (offset.0 == 0 && offset.1 == 0),
    {
        let (dx, dy) = offset;
        if dx == 0 && dy == 0 {
            return 0;
        }
        let x = dx as i128;
        let y = dy as i128;
        let (forward, left): (i128, i128) = match self {
            Orientation::North => (-y, -x),
            Orientation::East => (x, -y),
            Orientation::South => (y, x),
            Orientation::West => (-x, y),
        };
        let af = abs_i128(forward);
        let al = abs_i128(left);
        if forward > 0 && below_half_octant_exec(al, af) {
            1
        } else if left > 0 && below_half_octant_exec(af, al) {
            3
        } else if forward < 0 && below_half_octant_exec(al, af) {
            5
        } else if left < 0 && below_half_octant_exec(af, al) {
            7
        } else if forward > 0 && left > 0 {
            2
        } else if forward < 0 && left > 0 {
            4
        } else if forward < 0 && left < 0 {
            6
        } else {
            8
        }
    }

    /// The facing whose unit step is `u`; `None` for any other vector.
    pub fn from_vec(u: (isize, isize)) -> (r: Option<Orientation>)
        ensures
            r == orientation_from_vec((u.0 as int, u.1 as int)),
    {
        match u {
            (0, -1) => Some(Orientation::North),
            (1, 0) => Some(Orientation::East),
            (0, 1) => Some(Orientation::South),
            (-1, 0) => Some(Orientation::West),
            _ => None,
        }
    }

    /// Unit step of this facing, `(dx, dy)`.
    pub fn to_vec(self) -> (r: (isize, isize))
        ensures
            (r.0 as int, r.1 as int) == orientation_vec(self),
    {
        match self {
            Orientation::North => (0, -1),
            Orientation::East => (1, 0),
            Orientation::South => (0, 1),
            Orientation::West => (-1, 0),
        }
    }
}

/// Each axis facing's sound direction leads back to the facing, and the
/// diagonal directions lead to none.
pub proof fn law_song_roundtrip(o: Orientation, d: SoundDir)
    ensures
        sound_to_orientation(orientation_song(o)) == Some(o),
        sound_to_orientation(d) is Some ==> orientation_song(sound_to_orientation(d)->0) == d,
{
}

/// A facing's unit step leads back to the facing.
pub proof fn law_vec_roundtrip(o: Orientation)
    ensures
        orientation_from_vec(orientation_vec(o)) == Some(o),
{
}

/// Turning left undoes turning right, and four right turns make a full
/// circle.
pub proof fn law_turns(o: Orientation)
    ensures
        turn_left(turn_right(o)) == o,
        turn_right(turn_left(o)) == o,
        turn_right(turn_right(turn_right(turn_right(o)))) == o,
{
}

/// Quarter-turn of a world offset in the same sense as `turn_right`.
pub open spec fn rotate_right(v: (int, int)) -> (int, int) {
    (-v.1, v.0)
}

/// The board direction from a drone facing `o` to its neighbouring square
/// number `k`: 1 ahead, then counter-clockwise (2 ahead-left, 3 left,
/// 4 behind-left, 5 behind, 6 behind-right, 7 right, 8 ahead-right). The
/// left of a facing step `f` is `(f.1, -f.0)`.
pub open spec fn neighbour_dir(o: Orientation, k: int) -> (int, int) {
    let f = orientation_vec(o);
    let l = (f.1, -f.0);
    if k == 1 {
        f
    } else if k == 2 {
        (f.0 + l.0, f.1 + l.1)
    } else if k == 3 {
        l
    } else if k == 4 {
        (l.0 - f.0, l.1 - f.1)
    } else if k == 5 {
        (-f.0, -f.1)
    } else if k == 6 {
        (-f.0 - l.0, -f.1 - l.1)
    } else if k == 7 {
        (-l.0, -l.1)
    } else {
        (f.0 - l.0, f.1 - l.1)
    }
}

/// Comparing angles: a direction with dot product `s1` against `v` and
/// squared length `q1` is at least as close to `v` as one with `s2` and
/// `q2` (`s1 / sqrt(q1) >= s2 / sqrt(q2)`), for squared lengths 1 and 2.
pub open spec fn cos_at_least(s1: int, q1: int, s2: int, q2: int) -> bool {
    if q1 == q2 {
        s1 >= s2
    } else if q1 < q2 {
        (s1 >= 0 && (s2 <= 0 || 2 * s1 * s1 >= s2 * s2)) || (s1 < 0 && s2 < 0 && s2 * s2 >= 2 * s1 * s1)
    } else {
        (s1 >= 0 && (s2 <= 0 || s1 * s1 >= 2 * s2 * s2)) || (s1 < 0 && s2 < 0 && s1 * s1 <= 2 * s2 * s2)
    }
}

/// The direction `d1` is at least as close in angle to `v` as `d2`.
pub open spec fn at_least_as_close(v: (int, int), d1: (int, int), d2: (int, int)) -> bool {
    cos_at_least(
        v.0 * d1.0 + v.1 * d1.1,
        d1.0 * d1.0 + d1.1 * d1.1,
        v.0 * d2.0 + v.1 * d2.1,
        d2.0 * d2.0 + d2.1 * d2.1,
    )
}

/// Dot product of the direction of neighbour `k` with a source lying `fw`
/// ahead and `lf` to the left.
spec fn frame_score(k: int, fw: int, lf: int) -> int {
    if k == 1 {
        fw
    } else if k == 2 {
        fw + lf
    } else if k == 3 {
        lf
    } else if k == 4 {
        -fw + lf
    } else if k == 5 {
        -fw
    } else if k == 6 {
        -fw - lf
    } else if k == 7 {
        -lf
    } else {
        fw - lf
    }
}

spec fn frame_norm(k: int) -> int {
    if k % 2 == 1 {
        1
    } else {
        2
    }
}

/// In the drone's frame, neighbour `k` is at least as close to the source
/// as every other neighbour.
spec fn frame_nearest(k: int, fw: int, lf: int) -> bool {
    forall|j: int| 1 <= j <= 8 ==> #[trigger] cos_at_least(frame_score(k, fw, lf), frame_norm(k), frame_score(j, fw, lf), frame_norm(j))
}


/// Where the sector computation picks 1 (one sign case), neighbour
/// 1 is a nearest one.
proof fn lemma_nearest_1_a(fw: int, lf: int)
    requires
        fw > 0,
        lf >= 0,
        lf * (lf + 2 * fw) < fw * fw,
    ensures
        frame_nearest(1, fw, lf),
{
    assert forall|j: int| 1 <= j <= 8 implies #[trigger] cos_at_least(frame_score(1, fw, lf), frame_norm(1), frame_score(j, fw, lf), frame_norm(j)) by {
        if j == 1 {
            assert((fw) >= (fw)) by (nonlinear_arith)
                requires
                    fw > 0,
                    lf >= 0,
                    lf * (lf + 2 * fw) < fw * fw,
            ;
            assert(frame_score(1, fw, lf) == fw);
            assert(frame_score(1, fw, lf) == fw);
            assert(frame_norm(1) == 1 && frame_norm(1) == 1);
        } else if j == 2 {
            assert(((fw) >= 0 && ((fw + lf) <= 0 || 2 * (fw) * (fw) >= (fw + lf) * (fw + lf))) || ((fw) < 0 && (fw + lf) < 0 && (fw + lf) * (fw + lf) >= 2 * (fw) * (fw))) by (nonlinear_arith)
                requires
                    fw > 0,
                    lf >= 0,
                    lf * (lf + 2 * fw) < fw * fw,
            ;
            assert(frame_score(1, fw, lf) == fw);
            assert(frame_score(2, fw, lf) == fw + lf);
            assert(frame_norm(1) == 1 && frame_norm(2) == 2);
        } else if j == 3 {
            assert((fw) >= (lf)) by (nonlinear_arith)
                requires
                    fw > 0,
                    lf >= 0,
                    lf * (lf + 2 * fw) < fw * fw,
            ;
            assert(frame_score(1, fw, lf) == fw);
            assert(frame_score(3, fw, lf) == lf);
            assert(frame_norm(1) == 1 && frame_norm(3) == 1);
        } else if j == 4 {
            assert(((fw) >= 0 && ((-fw + lf) <= 0 || 2 * (fw) * (fw) >= (-fw + lf) * (-fw + lf))) || ((fw) < 0 && (-fw + lf) < 0 && (-fw + lf) * (-fw + lf) >= 2 * (fw) * (fw))) by (nonlinear_arith)
                requires
                    fw > 0,
                    lf >= 0,
                    lf * (lf + 2 * fw) < fw * fw,
            ;
            assert(frame_score(1, fw, lf) == fw);
            assert(frame_score(4, fw, lf) == -fw + lf);
            assert(frame_norm(1) == 1 && frame_norm(4) == 2);
        } else if j == 5 {
            assert((fw) >= (-fw)) by (nonlinear_arith)
                requires
                    fw > 0,
                    lf >= 0,
                    lf * (lf + 2 * fw) < fw * fw,
            ;
            assert(frame_score(1, fw, lf) == fw);
            assert(frame_score(5, fw, lf) == -fw);
            assert(frame_norm(1) == 1 && frame_norm(5) == 1);
        } else if j == 6 {
            assert(((fw) >= 0 && ((-fw - lf) <= 0 || 2 * (fw) * (fw) >= (-fw - lf) * (-fw - lf))) || ((fw) < 0 && (-fw - lf) < 0 && (-fw - lf) * (-fw - lf) >= 2 * (fw) * (fw))) by (nonlinear_arith)
                requires
                    fw > 0,
                    lf >= 0,
                    lf * (lf + 2 * fw) < fw * fw,
            ;
            assert(frame_score(1, fw, lf) == fw);
            assert(frame_score(6, fw, lf) == -fw - lf);
            assert(frame_norm(1) == 1 && frame_norm(6) == 2);
        } else if j == 7 {
            assert((fw) >= (-lf)) by (nonlinear_arith)
                requires
                    fw > 0,
                    lf >= 0,
                    lf * (lf + 2 * fw) < fw * fw,
            ;
            assert(frame_score(1, fw, lf) == fw);
            assert(frame_score(7, fw, lf) == -lf);
            assert(frame_norm(1) == 1 && frame_norm(7) == 1);
        } else if j == 8 {
            assert(((fw) >= 0 && ((fw - lf) <= 0 || 2 * (fw) * (fw) >= (fw - lf) * (fw - lf))) || ((fw) < 0 && (fw - lf) < 0 && (fw - lf) * (fw - lf) >= 2 * (fw) * (fw))) by (nonlinear_arith)
                requires
                    fw > 0,
                    lf >= 0,
                    lf * (lf + 2 * fw) < fw * fw,
            ;
            assert(frame_score(1, fw, lf) == fw);
            assert(frame_score(8, fw, lf) == fw - lf);
            assert(frame_norm(1) == 1 && frame_norm(8) == 2);
        }
    }
}

/// Where the sector computation picks 1 (one sign case), neighbour
/// 1 is a nearest one.
proof fn lemma_nearest_1_b(fw: int, lf: int)
    requires
        fw > 0,
        lf < 0,
        (-lf) * (-lf + 2 * fw) < fw * fw,
    ensures
        frame_nearest(1, fw, lf),
{
    assert forall|j: int| 1 <= j <= 8 implies #[trigger] cos_at_least(frame_score(1, fw, lf), frame_norm(1), frame_score(j, fw, lf), frame_norm(j)) by {
        if j == 1 {
            assert((fw) >= (fw)) by (nonlinear_arith)
                requires
                    fw > 0,
                    lf < 0,
                    (-lf) * (-lf + 2 * fw) < fw * fw,
            ;
            assert(frame_score(1, fw, lf) == fw);
            assert(frame_score(1, fw, lf) == fw);
            assert(frame_norm(1) == 1 && frame_norm(1) == 1);
        } else if j == 2 {
            assert(((fw) >= 0 && ((fw + lf) <= 0 || 2 * (fw) * (fw) >= (fw + lf) * (fw + lf))) || ((fw) < 0 && (fw + lf) < 0 && (fw + lf) * (fw + lf) >= 2 * (fw) * (fw))) by (nonlinear_arith)
                requires
                    fw > 0,
                    lf < 0,
                    (-lf) * (-lf + 2 * fw) < fw * fw,
            ;
            assert(frame_score(1, fw, lf) == fw);
            assert(frame_score(2, fw, lf) == fw + lf);
            assert(frame_norm(1) == 1 && frame_norm(2) == 2);
        } else if j == 3 {
            assert((fw) >= (lf)) by (nonlinear_arith)
                requires
                    fw > 0,
                    lf < 0,
                    (-lf) * (-lf + 2 * fw) < fw * fw,
            ;
            assert(frame_score(1, fw, lf) == fw);
            assert(frame_score(3, fw, lf) == lf);
            assert(frame_norm(1) == 1 && frame_norm(3) == 1);
        } else if j == 4 {
            assert(((fw) >= 0 && ((-fw + lf) <= 0 || 2 * (fw) * (fw) >= (-fw + lf) * (-fw + lf))) || ((fw) < 0 && (-fw + lf) < 0 && (-fw + lf) * (-fw + lf) >= 2 * (fw) * (fw))) by (nonlinear_arith)
                requires
                    fw > 0,
                    lf < 0,
                    (-lf) * (-lf + 2 * fw) < fw * fw,
            ;
            assert(frame_score(1, fw, lf) == fw);
            assert(frame_score(4, fw, lf) == -fw + lf);
            assert(frame_norm(1) == 1 && frame_norm(4) == 2);
        } else if j == 5 {
            assert((fw) >= (-fw)) by (nonlinear_arith)
                requires
                    fw > 0,
                    lf < 0,
                    (-lf) * (-lf + 2 * fw) < fw * fw,
            ;
            assert(frame_score(1, fw, lf) == fw);
            assert(frame_score(5, fw, lf) == -fw);
            assert(frame_norm(1) == 1 && frame_norm(5) == 1);
        } else if j == 6 {
            assert(((fw) >= 0 && ((-fw - lf) <= 0 || 2 * (fw) * (fw) >= (-fw - lf) * (-fw - lf))) || ((fw) < 0 && (-fw - lf) < 0 && (-fw - lf) * (-fw - lf) >= 2 * (fw) * (fw))) by (nonlinear_arith)
                requires
                    fw > 0,
                    lf < 0,
                    (-lf) * (-lf + 2 * fw) < fw * fw,
            ;
            assert(frame_score(1, fw, lf) == fw);
            assert(frame_score(6, fw, lf) == -fw - lf);
            assert(frame_norm(1) == 1 && frame_norm(6) == 2);
        } else if j == 7 {
            assert((fw) >= (-lf)) by (nonlinear_arith)
                requires
                    fw > 0,
                    lf < 0,
                    (-lf) * (-lf + 2 * fw) < fw * fw,
            ;
            assert(frame_score(1, fw, lf) == fw);
            assert(frame_score(7, fw, lf) == -lf);
            assert(frame_norm(1) == 1 && frame_norm(7) == 1);
        } else if j == 8 {
            assert(((fw) >= 0 && ((fw - lf) <= 0 || 2 * (fw) * (fw) >= (fw - lf) * (fw - lf))) || ((fw) < 0 && (fw - lf) < 0 && (fw - lf) * (fw - lf) >= 2 * (fw) * (fw))) by (nonlinear_arith)
                requires
                    fw > 0,
                    lf < 0,
                    (-lf) * (-lf + 2 * fw) < fw * fw,
            ;
            assert(frame_score(1, fw, lf) == fw);
            assert(frame_score(8, fw, lf) == fw - lf);
            assert(frame_norm(1) == 1 && frame_norm(8) == 2);
        }
    }
}

/// Where the sector computation picks 2 (one sign case), neighbour
/// 2 is a nearest one.
proof fn lemma_nearest_2_a(fw: int, lf: int)
    requires
        fw > 0,
        lf > 0,
        lf * (lf + 2 * fw) >= fw * fw,
        fw * (fw + 2 * lf) >= lf * lf,
    ensures
        frame_nearest(2, fw, lf),
{
    assert forall|j: int| 1 <= j <= 8 implies #[trigger] cos_at_least(frame_score(2, fw, lf), frame_norm(2), frame_score(j, fw, lf), frame_norm(j)) by {
        if j == 1 {
            assert(((fw + lf) >= 0 && ((fw) <= 0 || (fw + lf) * (fw + lf) >= 2 * (fw) * (fw))) || ((fw + lf) < 0 && (fw) < 0 && (fw + lf) * (fw + lf) <= 2 * (fw) * (fw))) by (nonlinear_arith)
                requires
                    fw > 0,
                    lf > 0,
                    lf * (lf + 2 * fw) >= fw * fw,
                    fw * (fw + 2 * lf) >= lf * lf,
            ;
            assert(frame_score(2, fw, lf) == fw + lf);
            assert(frame_score(1, fw, lf) == fw);
            assert(frame_norm(2) == 2 && frame_norm(1) == 1);
        } else if j == 2 {
            assert((fw + lf) >= (fw + lf)) by (nonlinear_arith)
                requires
                    fw > 0,
                    lf > 0,
                    lf * (lf + 2 * fw) >= fw * fw,
                    fw * (fw + 2 * lf) >= lf * lf,
            ;
            assert(frame_score(2, fw, lf) == fw + lf);
            assert(frame_score(2, fw, lf) == fw + lf);
            assert(frame_norm(2) == 2 && frame_norm(2) == 2);
        } else if j == 3 {
            assert(((fw + lf) >= 0 && ((lf) <= 0 || (fw + lf) * (fw + lf) >= 2 * (lf) * (lf))) || ((fw + lf) < 0 && (lf) < 0 && (fw + lf) * (fw + lf) <= 2 * (lf) * (lf))) by (nonlinear_arith)
                requires
                    fw > 0,
                    lf > 0,
                    lf * (lf + 2 * fw) >= fw * fw,
                    fw * (fw + 2 * lf) >= lf * lf,
            ;
            assert(frame_score(2, fw, lf) == fw + lf);
            assert(frame_score(3, fw, lf) == lf);
            assert(frame_norm(2) == 2 && frame_norm(3) == 1);
        } else if j == 4 {
            assert((fw + lf) >= (-fw + lf)) by (nonlinear_arith)
                requires
                    fw > 0,
                    lf > 0,
                    lf * (lf + 2 * fw) >= fw * fw,
                    fw * (fw + 2 * lf) >= lf * lf,
            ;
            assert(frame_score(2, fw, lf) == fw + lf);
            assert(frame_score(4, fw, lf) == -fw + lf);
            assert(frame_norm(2) == 2 && frame_norm(4) == 2);
        } else if j == 5 {
            assert(((fw + lf) >= 0 && ((-fw) <= 0 || (fw + lf) * (fw + lf) >= 2 * (-fw) * (-fw))) || ((fw + lf) < 0 && (-fw) < 0 && (fw + lf) * (fw + lf) <= 2 * (-fw) * (-fw))) by (nonlinear_arith)
                requires
                    fw > 0,
                    lf > 0,
                    lf * (lf + 2 * fw) >= fw * fw,
                    fw * (fw + 2 * lf) >= lf * lf,
            ;
            assert(frame_score(2, fw, lf) == fw + lf);
            assert(frame_score(5, fw, lf) == -fw);
            assert(frame_norm(2) == 2 && frame_norm(5) == 1);
        } else if j == 6 {
            assert((fw + lf) >= (-fw - lf)) by (nonlinear_arith)
                requires
                    fw > 0,
                    lf > 0,
                    lf * (lf + 2 * fw) >= fw * fw,
                    fw * (fw + 2 * lf) >= lf * lf,
            ;
            assert(frame_score(2, fw, lf) == fw + lf);
            assert(frame_score(6, fw, lf) == -fw - lf);
            assert(frame_norm(2) == 2 && frame_norm(6) == 2);
        } else if j == 7 {
            assert(((fw + lf) >= 0 && ((-lf) <= 0 || (fw + lf) * (fw + lf) >= 2 * (-lf) * (-lf))) || ((fw + lf) < 0 && (-lf) < 0 && (fw + lf) * (fw + lf) <= 2 * (-lf) * (-lf))) by (nonlinear_arith)
                requires
                    fw > 0,
                    lf > 0,
                    lf * (lf + 2 * fw) >= fw * fw,
                    fw * (fw + 2 * lf) >= lf * lf,
            ;
            assert(frame_score(2, fw, lf) == fw + lf);
            assert(frame_score(7, fw, lf) == -lf);
            assert(frame_norm(2) == 2 && frame_norm(7) == 1);
        } else if j == 8 {
            assert((fw + lf) >= (fw - lf)) by (nonlinear_arith)
                requires
                    fw > 0,
                    lf > 0,
                    lf * (lf + 2 * fw) >= fw * fw,
                    fw * (fw + 2 * lf) >= lf * lf,
            ;
            assert(frame_score(2, fw, lf) == fw + lf);
            assert(frame_score(8, fw, lf) == fw - lf);
            assert(frame_norm(2) == 2 && frame_norm(8) == 2);
        }
    }
}

/// Where the sector computation picks 3 (one sign case), neighbour
/// 3 is a nearest one.
proof fn lemma_nearest_3_a(fw: int, lf: int)
    requires
        lf > 0,
        fw >= 0,
        fw * (fw + 2 * lf) < lf * lf,
    ensures
        frame_nearest(3, fw, lf),
{
    assert forall|j: int| 1 <= j <= 8 implies #[trigger] cos_at_least(frame_score(3, fw, lf), frame_norm(3), frame_score(j, fw, lf), frame_norm(j)) by {
        if j == 1 {
            assert((lf) >= (fw)) by (nonlinear_arith)
                requires
                    lf > 0,
                    fw >= 0,
                    fw * (fw + 2 * lf) < lf * lf,
            ;
            assert(frame_score(3, fw, lf) == lf);
            assert(frame_score(1, fw, lf) == fw);
            assert(frame_norm(3) == 1 && frame_norm(1) == 1);
        } else if j == 2 {
            assert(((lf) >= 0 && ((fw + lf) <= 0 || 2 * (lf) * (lf) >= (fw + lf) * (fw + lf))) || ((lf) < 0 && (fw + lf) < 0 && (fw + lf) * (fw + lf) >= 2 * (lf) * (lf))) by (nonlinear_arith)
                requires
                    lf > 0,
                    fw >= 0,
                    fw * (fw + 2 * lf) < lf * lf,
            ;
            assert(frame_score(3, fw, lf) == lf);
            assert(frame_score(2, fw, lf) == fw + lf);
            assert(frame_norm(3) == 1 && frame_norm(2) == 2);
        } else if j == 3 {
            assert((lf) >= (lf)) by (nonlinear_arith)
                requires
                    lf > 0,
                    fw >= 0,
                    fw * (fw + 2 * lf) < lf * lf,
            ;
            assert(frame_score(3, fw, lf) == lf);
            assert(frame_score(3, fw, lf) == lf);
            assert(frame_norm(3) == 1 && frame_norm(3) == 1);
        } else if j == 4 {
            assert(((lf) >= 0 && ((-fw + lf) <= 0 || 2 * (lf) * (lf) >= (-fw + lf) * (-fw + lf))) || ((lf) < 0 && (-fw + lf) < 0 && (-fw + lf) * (-fw + lf) >= 2 * (lf) * (lf))) by (nonlinear_arith)
                requires
                    lf > 0,
                    fw >= 0,
                    fw * (fw + 2 * lf) < lf * lf,
            ;
            assert(frame_score(3, fw, lf) == lf);
            assert(frame_score(4, fw, lf) == -fw + lf);
            assert(frame_norm(3) == 1 && frame_norm(4) == 2);
        } else if j == 5 {
            assert((lf) >= (-fw)) by (nonlinear_arith)
                requires
                    lf > 0,
                    fw >= 0,
                    fw * (fw + 2 * lf) < lf * lf,
            ;
            assert(frame_score(3, fw, lf) == lf);
            assert(frame_score(5, fw, lf) == -fw);
            assert(frame_norm(3) == 1 && frame_norm(5) == 1);
        } else if j == 6 {
            assert(((lf) >= 0 && ((-fw - lf) <= 0 || 2 * (lf) * (lf) >= (-fw - lf) * (-fw - lf))) || ((lf) < 0 && (-fw - lf) < 0 && (-fw - lf) * (-fw - lf) >= 2 * (lf) * (lf))) by (nonlinear_arith)
                requires
                    lf > 0,
                    fw >= 0,
                    fw * (fw + 2 * lf) < lf * lf,
            ;
            assert(frame_score(3, fw, lf) == lf);
            assert(frame_score(6, fw, lf) == -fw - lf);
            assert(frame_norm(3) == 1 && frame_norm(6) == 2);
        } else if j == 7 {
            assert((lf) >= (-lf)) by (nonlinear_arith)
                requires
                    lf > 0,
                    fw >= 0,
                    fw * (fw + 2 * lf) < lf * lf,
            ;
            assert(frame_score(3, fw, lf) == lf);
            assert(frame_score(7, fw, lf) == -lf);
            assert(frame_norm(3) == 1 && frame_norm(7) == 1);
        } else if j == 8 {
            assert(((lf) >= 0 && ((fw - lf) <= 0 || 2 * (lf) * (lf) >= (fw - lf) * (fw - lf))) || ((lf) < 0 && (fw - lf) < 0 && (fw - lf) * (fw - lf) >= 2 * (lf) * (lf))) by (nonlinear_arith)
                requires
                    lf > 0,
                    fw >= 0,
                    fw * (fw + 2 * lf) < lf * lf,
            ;
            assert(frame_score(3, fw, lf) == lf);
            assert(frame_score(8, fw, lf) == fw - lf);
            assert(frame_norm(3) == 1 && frame_norm(8) == 2);
        }
    }
}

/// Where the sector computation picks 3 (one sign case), neighbour
/// 3 is a nearest one.
proof fn lemma_nearest_3_b(fw: int, lf: int)
    requires
        lf > 0,
        fw < 0,
        (-fw) * (-fw + 2 * lf) < lf * lf,
    ensures
        frame_nearest(3, fw, lf),
{
    assert forall|j: int| 1 <= j <= 8 implies #[trigger] cos_at_least(frame_score(3, fw, lf), frame_norm(3), frame_score(j, fw, lf), frame_norm(j)) by {
        if j == 1 {
            assert((lf) >= (fw)) by (nonlinear_arith)
                requires
                    lf > 0,
                    fw < 0,
                    (-fw) * (-fw + 2 * lf) < lf * lf,
            ;
            assert(frame_score(3, fw, lf) == lf);
            assert(frame_score(1, fw, lf) == fw);
            assert(frame_norm(3) == 1 && frame_norm(1) == 1);
        } else if j == 2 {
            assert(((lf) >= 0 && ((fw + lf) <= 0 || 2 * (lf) * (lf) >= (fw + lf) * (fw + lf))) || ((lf) < 0 && (fw + lf) < 0 && (fw + lf) * (fw + lf) >= 2 * (lf) * (lf))) by (nonlinear_arith)
                requires
                    lf > 0,
                    fw < 0,
                    (-fw) * (-fw + 2 * lf) < lf * lf,
            ;
            assert(frame_score(3, fw, lf) == lf);
            assert(frame_score(2, fw, lf) == fw + lf);
            assert(frame_norm(3) == 1 && frame_norm(2) == 2);
        } else if j == 3 {
            assert((lf) >= (lf)) by (nonlinear_arith)
                requires
                    lf > 0,
                    fw < 0,
                    (-fw) * (-fw + 2 * lf) < lf * lf,
            ;
            assert(frame_score(3, fw, lf) == lf);
            assert(frame_score(3, fw, lf) == lf);
            assert(frame_norm(3) == 1 && frame_norm(3) == 1);
        } else if j == 4 {
            assert(((lf) >= 0 && ((-fw + lf) <= 0 || 2 * (lf) * (lf) >= (-fw + lf) * (-fw + lf))) || ((lf) < 0 && (-fw + lf) < 0 && (-fw + lf) * (-fw + lf) >= 2 * (lf) * (lf))) by (nonlinear_arith)
                requires
                    lf > 0,
                    fw < 0,
                    (-fw) * (-fw + 2 * lf) < lf * lf,
            ;
            assert(frame_score(3, fw, lf) == lf);
            assert(frame_score(4, fw, lf) == -fw + lf);
            assert(frame_norm(3) == 1 && frame_norm(4) == 2);
        } else if j == 5 {
            assert((lf) >= (-fw)) by (nonlinear_arith)
                requires
                    lf > 0,
                    fw < 0,
                    (-fw) * (-fw + 2 * lf) < lf * lf,
            ;
            assert(frame_score(3, fw, lf) == lf);
            assert(frame_score(5, fw, lf) == -fw);
            assert(frame_norm(3) == 1 && frame_norm(5) == 1);
        } else if j == 6 {
            assert(((lf) >= 0 && ((-fw - lf) <= 0 || 2 * (lf) * (lf) >= (-fw - lf) * (-fw - lf))) || ((lf) < 0 && (-fw - lf) < 0 && (-fw - lf) * (-fw - lf) >= 2 * (lf) * (lf))) by (nonlinear_arith)
                requires
                    lf > 0,
                    fw < 0,
                    (-fw) * (-fw + 2 * lf) < lf * lf,
            ;
            assert(frame_score(3, fw, lf) == lf);
            assert(frame_score(6, fw, lf) == -fw - lf);
            assert(frame_norm(3) == 1 && frame_norm(6) == 2);
        } else if j == 7 {
            assert((lf) >= (-lf)) by (nonlinear_arith)
                requires
                    lf > 0,
                    fw < 0,
                    (-fw) * (-fw + 2 * lf) < lf * lf,
            ;
            assert(frame_score(3, fw, lf) == lf);
            assert(frame_score(7, fw, lf) == -lf);
            assert(frame_norm(3) == 1 && frame_norm(7) == 1);
        } else if j == 8 {
            assert(((lf) >= 0 && ((fw - lf) <= 0 || 2 * (lf) * (lf) >= (fw - lf) * (fw - lf))) || ((lf) < 0 && (fw - lf) < 0 && (fw - lf) * (fw - lf) >= 2 * (lf) * (lf))) by (nonlinear_arith)
                requires
                    lf > 0,
                    fw < 0,
                    (-fw) * (-fw + 2 * lf) < lf * lf,
            ;
            assert(frame_score(3, fw, lf) == lf);
            assert(frame_score(8, fw, lf) == fw - lf);
            assert(frame_norm(3) == 1 && frame_norm(8) == 2);
        }
    }
}

/// Where the sector computation picks 4 (one sign case), neighbour
/// 4 is a nearest one.
proof fn lemma_nearest_4_a(fw: int, lf: int)
    requires
        fw < 0,
        lf > 0,
        (-fw) * (-fw + 2 * lf) >= lf * lf,
        lf * (lf - 2 * fw) >= fw * fw,
    ensures
        frame_nearest(4, fw, lf),
{
    assert forall|j: int| 1 <= j <= 8 implies #[trigger] cos_at_least(frame_score(4, fw, lf), frame_norm(4), frame_score(j, fw, lf), frame_norm(j)) by {
        if j == 1 {
            assert(((-fw + lf) >= 0 && ((fw) <= 0 || (-fw + lf) * (-fw + lf) >= 2 * (fw) * (fw))) || ((-fw + lf) < 0 && (fw) < 0 && (-fw + lf) * (-fw + lf) <= 2 * (fw) * (fw))) by (nonlinear_arith)
                requires
                    fw < 0,
                    lf > 0,
                    (-fw) * (-fw + 2 * lf) >= lf * lf,
                    lf * (lf - 2 * fw) >= fw * fw,
            ;
            assert(frame_score(4, fw, lf) == -fw + lf);
            assert(frame_score(1, fw, lf) == fw);
            assert(frame_norm(4) == 2 && frame_norm(1) == 1);
        } else if j == 2 {
            assert((-fw + lf) >= (fw + lf)) by (nonlinear_arith)
                requires
                    fw < 0,
                    lf > 0,
                    (-fw) * (-fw + 2 * lf) >= lf * lf,
                    lf * (lf - 2 * fw) >= fw * fw,
            ;
            assert(frame_score(4, fw, lf) == -fw + lf);
            assert(frame_score(2, fw, lf) == fw + lf);
            assert(frame_norm(4) == 2 && frame_norm(2) == 2);
        } else if j == 3 {
            assert(((-fw + lf) >= 0 && ((lf) <= 0 || (-fw + lf) * (-fw + lf) >= 2 * (lf) * (lf))) || ((-fw + lf) < 0 && (lf) < 0 && (-fw + lf) * (-fw + lf) <= 2 * (lf) * (lf))) by (nonlinear_arith)
                requires
                    fw < 0,
                    lf > 0,
                    (-fw) * (-fw + 2 * lf) >= lf * lf,
                    lf * (lf - 2 * fw) >= fw * fw,
            ;
            assert(frame_score(4, fw, lf) == -fw + lf);
            assert(frame_score(3, fw, lf) == lf);
            assert(frame_norm(4) == 2 && frame_norm(3) == 1);
        } else if j == 4 {
            assert((-fw + lf) >= (-fw + lf)) by (nonlinear_arith)
                requires
                    fw < 0,
                    lf > 0,
                    (-fw) * (-fw + 2 * lf) >= lf * lf,
                    lf * (lf - 2 * fw) >= fw * fw,
            ;
            assert(frame_score(4, fw, lf) == -fw + lf);
            assert(frame_score(4, fw, lf) == -fw + lf);
            assert(frame_norm(4) == 2 && frame_norm(4) == 2);
        } else if j == 5 {
            assert(((-fw + lf) >= 0 && ((-fw) <= 0 || (-fw + lf) * (-fw + lf) >= 2 * (-fw) * (-fw))) || ((-fw + lf) < 0 && (-fw) < 0 && (-fw + lf) * (-fw + lf) <= 2 * (-fw) * (-fw))) by (nonlinear_arith)
                requires
                    fw < 0,
                    lf > 0,
                    (-fw) * (-fw + 2 * lf) >= lf * lf,
                    lf * (lf - 2 * fw) >= fw * fw,
            ;
            assert(frame_score(4, fw, lf) == -fw + lf);
            assert(frame_score(5, fw, lf) == -fw);
            assert(frame_norm(4) == 2 && frame_norm(5) == 1);
        } else if j == 6 {
            assert((-fw + lf) >= (-fw - lf)) by (nonlinear_arith)
                requires
                    fw < 0,
                    lf > 0,
                    (-fw) * (-fw + 2 * lf) >= lf * lf,
                    lf * (lf - 2 * fw) >= fw * fw,
            ;
            assert(frame_score(4, fw, lf) == -fw + lf);
            assert(frame_score(6, fw, lf) == -fw - lf);
            assert(frame_norm(4) == 2 && frame_norm(6) == 2);
        } else if j == 7 {
            assert(((-fw + lf) >= 0 && ((-lf) <= 0 || (-fw + lf) * (-fw + lf) >= 2 * (-lf) * (-lf))) || ((-fw + lf) < 0 && (-lf) < 0 && (-fw + lf) * (-fw + lf) <= 2 * (-lf) * (-lf))) by (nonlinear_arith)
                requires
                    fw < 0,
                    lf > 0,
                    (-fw) * (-fw + 2 * lf) >= lf * lf,
                    lf * (lf - 2 * fw) >= fw * fw,
            ;
            assert(frame_score(4, fw, lf) == -fw + lf);
            assert(frame_score(7, fw, lf) == -lf);
            assert(frame_norm(4) == 2 && frame_norm(7) == 1);
        } else if j == 8 {
            assert((-fw + lf) >= (fw - lf)) by (nonlinear_arith)
                requires
                    fw < 0,
                    lf > 0,
                    (-fw) * (-fw + 2 * lf) >= lf * lf,
                    lf * (lf - 2 * fw) >= fw * fw,
            ;
            assert(frame_score(4, fw, lf) == -fw + lf);
            assert(frame_score(8, fw, lf) == fw - lf);
            assert(frame_norm(4) == 2 && frame_norm(8) == 2);
        }
    }
}

/// Where the sector computation picks 5 (one sign case), neighbour
/// 5 is a nearest one.
proof fn lemma_nearest_5_a(fw: int, lf: int)
    requires
        fw < 0,
        lf >= 0,
        lf * (lf - 2 * fw) < fw * fw,
    ensures
        frame_nearest(5, fw, lf),
{
    assert forall|j: int| 1 <= j <= 8 implies #[trigger] cos_at_least(frame_score(5, fw, lf), frame_norm(5), frame_score(j, fw, lf), frame_norm(j)) by {
        if j == 1 {
            assert((-fw) >= (fw)) by (nonlinear_arith)
                requires
                    fw < 0,
                    lf >= 0,
                    lf * (lf - 2 * fw) < fw * fw,
            ;
            assert(frame_score(5, fw, lf) == -fw);
            assert(frame_score(1, fw, lf) == fw);
            assert(frame_norm(5) == 1 && frame_norm(1) == 1);
        } else if j == 2 {
            assert(((-fw) >= 0 && ((fw + lf) <= 0 || 2 * (-fw) * (-fw) >= (fw + lf) * (fw + lf))) || ((-fw) < 0 && (fw + lf) < 0 && (fw + lf) * (fw + lf) >= 2 * (-fw) * (-fw))) by (nonlinear_arith)
                requires
                    fw < 0,
                    lf >= 0,
                    lf * (lf - 2 * fw) < fw * fw,
            ;
            assert(frame_score(5, fw, lf) == -fw);
            assert(frame_score(2, fw, lf) == fw + lf);
            assert(frame_norm(5) == 1 && frame_norm(2) == 2);
        } else if j == 3 {
            assert((-fw) >= (lf)) by (nonlinear_arith)
                requires
                    fw < 0,
                    lf >= 0,
                    lf * (lf - 2 * fw) < fw * fw,
            ;
            assert(frame_score(5, fw, lf) == -fw);
            assert(frame_score(3, fw, lf) == lf);
            assert(frame_norm(5) == 1 && frame_norm(3) == 1);
        } else if j == 4 {
            assert(((-fw) >= 0 && ((-fw + lf) <= 0 || 2 * (-fw) * (-fw) >= (-fw + lf) * (-fw + lf))) || ((-fw) < 0 && (-fw + lf) < 0 && (-fw + lf) * (-fw + lf) >= 2 * (-fw) * (-fw))) by (nonlinear_arith)
                requires
                    fw < 0,
                    lf >= 0,
                    lf * (lf - 2 * fw) < fw * fw,
            ;
            assert(frame_score(5, fw, lf) == -fw);
            assert(frame_score(4, fw, lf) == -fw + lf);
            assert(frame_norm(5) == 1 && frame_norm(4) == 2);
        } else if j == 5 {
            assert((-fw) >= (-fw)) by (nonlinear_arith)
                requires
                    fw < 0,
                    lf >= 0,
                    lf * (lf - 2 * fw) < fw * fw,
            ;
            assert(frame_score(5, fw, lf) == -fw);
            assert(frame_score(5, fw, lf) == -fw);
            assert(frame_norm(5) == 1 && frame_norm(5) == 1);
        } else if j == 6 {
            assert(((-fw) >= 0 && ((-fw - lf) <= 0 || 2 * (-fw) * (-fw) >= (-fw - lf) * (-fw - lf))) || ((-fw) < 0 && (-fw - lf) < 0 && (-fw - lf) * (-fw - lf) >= 2 * (-fw) * (-fw))) by (nonlinear_arith)
                requires
                    fw < 0,
                    lf >= 0,
                    lf * (lf - 2 * fw) < fw * fw,
            ;
            assert(frame_score(5, fw, lf) == -fw);
            assert(frame_score(6, fw, lf) == -fw - lf);
            assert(frame_norm(5) == 1 && frame_norm(6) == 2);
        } else if j == 7 {
            assert((-fw) >= (-lf)) by (nonlinear_arith)
                requires
                    fw < 0,
                    lf >= 0,
                    lf * (lf - 2 * fw) < fw * fw,
            ;
            assert(frame_score(5, fw, lf) == -fw);
            assert(frame_score(7, fw, lf) == -lf);
            assert(frame_norm(5) == 1 && frame_norm(7) == 1);
        } else if j == 8 {
            assert(((-fw) >= 0 && ((fw - lf) <= 0 || 2 * (-fw) * (-fw) >= (fw - lf) * (fw - lf))) || ((-fw) < 0 && (fw - lf) < 0 && (fw - lf) * (fw - lf) >= 2 * (-fw) * (-fw))) by (nonlinear_arith)
                requires
                    fw < 0,
                    lf >= 0,
                    lf * (lf - 2 * fw) < fw * fw,
            ;
            assert(frame_score(5, fw, lf) == -fw);
            assert(frame_score(8, fw, lf) == fw - lf);
            assert(frame_norm(5) == 1 && frame_norm(8) == 2);
        }
    }
}

/// Where the sector computation picks 5 (one sign case), neighbour
/// 5 is a nearest one.
proof fn lemma_nearest_5_b(fw: int, lf: int)
    requires
        fw < 0,
        lf < 0,
        (-lf) * (-lf - 2 * fw) < fw * fw,
    ensures
        frame_nearest(5, fw, lf),
{
    assert forall|j: int| 1 <= j <= 8 implies #[trigger] cos_at_least(frame_score(5, fw, lf), frame_norm(5), frame_score(j, fw, lf), frame_norm(j)) by {
        if j == 1 {
            assert((-fw) >= (fw)) by (nonlinear_arith)
                requires
                    fw < 0,
                    lf < 0,
                    (-lf) * (-lf - 2 * fw) < fw * fw,
            ;
            assert(frame_score(5, fw, lf) == -fw);
            assert(frame_score(1, fw, lf) == fw);
            assert(frame_norm(5) == 1 && frame_norm(1) == 1);
        } else if j == 2 {
            assert(((-fw) >= 0 && ((fw + lf) <= 0 || 2 * (-fw) * (-fw) >= (fw + lf) * (fw + lf))) || ((-fw) < 0 && (fw + lf) < 0 && (fw + lf) * (fw + lf) >= 2 * (-fw) * (-fw))) by (nonlinear_arith)
                requires
                    fw < 0,
                    lf < 0,
                    (-lf) * (-lf - 2 * fw) < fw * fw,
            ;
            assert(frame_score(5, fw, lf) == -fw);
            assert(frame_score(2, fw, lf) == fw + lf);
            assert(frame_norm(5) == 1 && frame_norm(2) == 2);
        } else if j == 3 {
            assert((-fw) >= (lf)) by (nonlinear_arith)
                requires
                    fw < 0,
                    lf < 0,
                    (-lf) * (-lf - 2 * fw) < fw * fw,
            ;
            assert(frame_score(5, fw, lf) == -fw);
            assert(frame_score(3, fw, lf) == lf);
            assert(frame_norm(5) == 1 && frame_norm(3) == 1);
        } else if j == 4 {
            assert(((-fw) >= 0 && ((-fw + lf) <= 0 || 2 * (-fw) * (-fw) >= (-fw + lf) * (-fw + lf))) || ((-fw) < 0 && (-fw + lf) < 0 && (-fw + lf) * (-fw + lf) >= 2 * (-fw) * (-fw))) by (nonlinear_arith)
                requires
                    fw < 0,
                    lf < 0,
                    (-lf) * (-lf - 2 * fw) < fw * fw,
            ;
            assert(frame_score(5, fw, lf) == -fw);
            assert(frame_score(4, fw, lf) == -fw + lf);
            assert(frame_norm(5) == 1 && frame_norm(4) == 2);
        } else if j == 5 {
            assert((-fw) >= (-fw)) by (nonlinear_arith)
                requires
                    fw < 0,
                    lf < 0,
                    (-lf) * (-lf - 2 * fw) < fw * fw,
            ;
            assert(frame_score(5, fw, lf) == -fw);
            assert(frame_score(5, fw, lf) == -fw);
            assert(frame_norm(5) == 1 && frame_norm(5) == 1);
        } else if j == 6 {
            assert(((-fw) >= 0 && ((-fw - lf) <= 0 || 2 * (-fw) * (-fw) >= (-fw - lf) * (-fw - lf))) || ((-fw) < 0 && (-fw - lf) < 0 && (-fw - lf) * (-fw - lf) >= 2 * (-fw) * (-fw))) by (nonlinear_arith)
                requires
                    fw < 0,
                    lf < 0,
                    (-lf) * (-lf - 2 * fw) < fw * fw,
            ;
            assert(frame_score(5, fw, lf) == -fw);
            assert(frame_score(6, fw, lf) == -fw - lf);
            assert(frame_norm(5) == 1 && frame_norm(6) == 2);
        } else if j == 7 {
            assert((-fw) >= (-lf)) by (nonlinear_arith)
                requires
                    fw < 0,
                    lf < 0,
                    (-lf) * (-lf - 2 * fw) < fw * fw,
            ;
            assert(frame_score(5, fw, lf) == -fw);
            assert(frame_score(7, fw, lf) == -lf);
            assert(frame_norm(5) == 1 && frame_norm(7) == 1);
        } else if j == 8 {
            assert(((-fw) >= 0 && ((fw - lf) <= 0 || 2 * (-fw) * (-fw) >= (fw - lf) * (fw - lf))) || ((-fw) < 0 && (fw - lf) < 0 && (fw - lf) * (fw - lf) >= 2 * (-fw) * (-fw))) by (nonlinear_arith)
                requires
                    fw < 0,
                    lf < 0,
                    (-lf) * (-lf - 2 * fw) < fw * fw,
            ;
            assert(frame_score(5, fw, lf) == -fw);
            assert(frame_score(8, fw, lf) == fw - lf);
            assert(frame_norm(5) == 1 && frame_norm(8) == 2);
        }
    }
}

/// Where the sector computation picks 6 (one sign case), neighbour
/// 6 is a nearest one.
proof fn lemma_nearest_6_a(fw: int, lf: int)
    requires
        fw < 0,
        lf < 0,
        (-lf) * (-lf - 2 * fw) >= fw * fw,
        (-fw) * (-fw - 2 * lf) >= lf * lf,
    ensures
        frame_nearest(6, fw, lf),
{
    assert forall|j: int| 1 <= j <= 8 implies #[trigger] cos_at_least(frame_score(6, fw, lf), frame_norm(6), frame_score(j, fw, lf), frame_norm(j)) by {
        if j == 1 {
            assert(((-fw - lf) >= 0 && ((fw) <= 0 || (-fw - lf) * (-fw - lf) >= 2 * (fw) * (fw))) || ((-fw - lf) < 0 && (fw) < 0 && (-fw - lf) * (-fw - lf) <= 2 * (fw) * (fw))) by (nonlinear_arith)
                requires
                    fw < 0,
                    lf < 0,
                    (-lf) * (-lf - 2 * fw) >= fw * fw,
                    (-fw) * (-fw - 2 * lf) >= lf * lf,
            ;
            assert(frame_score(6, fw, lf) == -fw - lf);
            assert(frame_score(1, fw, lf) == fw);
            assert(frame_norm(6) == 2 && frame_norm(1) == 1);
        } else if j == 2 {
            assert((-fw - lf) >= (fw + lf)) by (nonlinear_arith)
                requires
                    fw < 0,
                    lf < 0,
                    (-lf) * (-lf - 2 * fw) >= fw * fw,
                    (-fw) * (-fw - 2 * lf) >= lf * lf,
            ;
            assert(frame_score(6, fw, lf) == -fw - lf);
            assert(frame_score(2, fw, lf) == fw + lf);
            assert(frame_norm(6) == 2 && frame_norm(2) == 2);
        } else if j == 3 {
            assert(((-fw - lf) >= 0 && ((lf) <= 0 || (-fw - lf) * (-fw - lf) >= 2 * (lf) * (lf))) || ((-fw - lf) < 0 && (lf) < 0 && (-fw - lf) * (-fw - lf) <= 2 * (lf) * (lf))) by (nonlinear_arith)
                requires
                    fw < 0,
                    lf < 0,
                    (-lf) * (-lf - 2 * fw) >= fw * fw,
                    (-fw) * (-fw - 2 * lf) >= lf * lf,
            ;
            assert(frame_score(6, fw, lf) == -fw - lf);
            assert(frame_score(3, fw, lf) == lf);
            assert(frame_norm(6) == 2 && frame_norm(3) == 1);
        } else if j == 4 {
            assert((-fw - lf) >= (-fw + lf)) by (nonlinear_arith)
                requires
                    fw < 0,
                    lf < 0,
                    (-lf) * (-lf - 2 * fw) >= fw * fw,
                    (-fw) * (-fw - 2 * lf) >= lf * lf,
            ;
            assert(frame_score(6, fw, lf) == -fw - lf);
            assert(frame_score(4, fw, lf) == -fw + lf);
            assert(frame_norm(6) == 2 && frame_norm(4) == 2);
        } else if j == 5 {
            assert(((-fw - lf) >= 0 && ((-fw) <= 0 || (-fw - lf) * (-fw - lf) >= 2 * (-fw) * (-fw))) || ((-fw - lf) < 0 && (-fw) < 0 && (-fw - lf) * (-fw - lf) <= 2 * (-fw) * (-fw))) by (nonlinear_arith)
                requires
                    fw < 0,
                    lf < 0,
                    (-lf) * (-lf - 2 * fw) >= fw * fw,
                    (-fw) * (-fw - 2 * lf) >= lf * lf,
            ;
            assert(frame_score(6, fw, lf) == -fw - lf);
            assert(frame_score(5, fw, lf) == -fw);
            assert(frame_norm(6) == 2 && frame_norm(5) == 1);
        } else if j == 6 {
            assert((-fw - lf) >= (-fw - lf)) by (nonlinear_arith)
                requires
                    fw < 0,
                    lf < 0,
                    (-lf) * (-lf - 2 * fw) >= fw * fw,
                    (-fw) * (-fw - 2 * lf) >= lf * lf,
            ;
            assert(frame_score(6, fw, lf) == -fw - lf);
            assert(frame_score(6, fw, lf) == -fw - lf);
            assert(frame_norm(6) == 2 && frame_norm(6) == 2);
        } else if j == 7 {
            assert(((-fw - lf) >= 0 && ((-lf) <= 0 || (-fw - lf) * (-fw - lf) >= 2 * (-lf) * (-lf))) || ((-fw - lf) < 0 && (-lf) < 0 && (-fw - lf) * (-fw - lf) <= 2 * (-lf) * (-lf))) by (nonlinear_arith)
                requires
                    fw < 0,
                    lf < 0,
                    (-lf) * (-lf - 2 * fw) >= fw * fw,
                    (-fw) * (-fw - 2 * lf) >= lf * lf,
            ;
            assert(frame_score(6, fw, lf) == -fw - lf);
            assert(frame_score(7, fw, lf) == -lf);
            assert(frame_norm(6) == 2 && frame_norm(7) == 1);
        } else if j == 8 {
            assert((-fw - lf) >= (fw - lf)) by (nonlinear_arith)
                requires
                    fw < 0,
                    lf < 0,
                    (-lf) * (-lf - 2 * fw) >= fw * fw,
                    (-fw) * (-fw - 2 * lf) >= lf * lf,
            ;
            assert(frame_score(6, fw, lf) == -fw - lf);
            assert(frame_score(8, fw, lf) == fw - lf);
            assert(frame_norm(6) == 2 && frame_norm(8) == 2);
        }
    }
}

/// Where the sector computation picks 7 (one sign case), neighbour
/// 7 is a nearest one.
proof fn lemma_nearest_7_a(fw: int, lf: int)
    requires
        lf < 0,
        fw >= 0,
        fw * (fw - 2 * lf) < lf * lf,
    ensures
        frame_nearest(7, fw, lf),
{
    assert forall|j: int| 1 <= j <= 8 implies #[trigger] cos_at_least(frame_score(7, fw, lf), frame_norm(7), frame_score(j, fw, lf), frame_norm(j)) by {
        if j == 1 {
            assert((-lf) >= (fw)) by (nonlinear_arith)
                requires
                    lf < 0,
                    fw >= 0,
                    fw * (fw - 2 * lf) < lf * lf,
            ;
            assert(frame_score(7, fw, lf) == -lf);
            assert(frame_score(1, fw, lf) == fw);
            assert(frame_norm(7) == 1 && frame_norm(1) == 1);
        } else if j == 2 {
            assert(((-lf) >= 0 && ((fw + lf) <= 0 || 2 * (-lf) * (-lf) >= (fw + lf) * (fw + lf))) || ((-lf) < 0 && (fw + lf) < 0 && (fw + lf) * (fw + lf) >= 2 * (-lf) * (-lf))) by (nonlinear_arith)
                requires
                    lf < 0,
                    fw >= 0,
                    fw * (fw - 2 * lf) < lf * lf,
            ;
            assert(frame_score(7, fw, lf) == -lf);
            assert(frame_score(2, fw, lf) == fw + lf);
            assert(frame_norm(7) == 1 && frame_norm(2) == 2);
        } else if j == 3 {
            assert((-lf) >= (lf)) by (nonlinear_arith)
                requires
                    lf < 0,
                    fw >= 0,
                    fw * (fw - 2 * lf) < lf * lf,
            ;
            assert(frame_score(7, fw, lf) == -lf);
            assert(frame_score(3, fw, lf) == lf);
            assert(frame_norm(7) == 1 && frame_norm(3) == 1);
        } else if j == 4 {
            assert(((-lf) >= 0 && ((-fw + lf) <= 0 || 2 * (-lf) * (-lf) >= (-fw + lf) * (-fw + lf))) || ((-lf) < 0 && (-fw + lf) < 0 && (-fw + lf) * (-fw + lf) >= 2 * (-lf) * (-lf))) by (nonlinear_arith)
                requires
                    lf < 0,
                    fw >= 0,
                    fw * (fw - 2 * lf) < lf * lf,
            ;
            assert(frame_score(7, fw, lf) == -lf);
            assert(frame_score(4, fw, lf) == -fw + lf);
            assert(frame_norm(7) == 1 && frame_norm(4) == 2);
        } else if j == 5 {
            assert((-lf) >= (-fw)) by (nonlinear_arith)
                requires
                    lf < 0,
                    fw >= 0,
                    fw * (fw - 2 * lf) < lf * lf,
            ;
            assert(frame_score(7, fw, lf) == -lf);
            assert(frame_score(5, fw, lf) == -fw);
            assert(frame_norm(7) == 1 && frame_norm(5) == 1);
        } else if j == 6 {
            assert(((-lf) >= 0 && ((-fw - lf) <= 0 || 2 * (-lf) * (-lf) >= (-fw - lf) * (-fw - lf))) || ((-lf) < 0 && (-fw - lf) < 0 && (-fw - lf) * (-fw - lf) >= 2 * (-lf) * (-lf))) by (nonlinear_arith)
                requires
                    lf < 0,
                    fw >= 0,
                    fw * (fw - 2 * lf) < lf * lf,
            ;
            assert(frame_score(7, fw, lf) == -lf);
            assert(frame_score(6, fw, lf) == -fw - lf);
            assert(frame_norm(7) == 1 && frame_norm(6) == 2);
        } else if j == 7 {
            assert((-lf) >= (-lf)) by (nonlinear_arith)
                requires
                    lf < 0,
                    fw >= 0,
                    fw * (fw - 2 * lf) < lf * lf,
            ;
            assert(frame_score(7, fw, lf) == -lf);
            assert(frame_score(7, fw, lf) == -lf);
            assert(frame_norm(7) == 1 && frame_norm(7) == 1);
        } else if j == 8 {
            assert(((-lf) >= 0 && ((fw - lf) <= 0 || 2 * (-lf) * (-lf) >= (fw - lf) * (fw - lf))) || ((-lf) < 0 && (fw - lf) < 0 && (fw - lf) * (fw - lf) >= 2 * (-lf) * (-lf))) by (nonlinear_arith)
                requires
                    lf < 0,
                    fw >= 0,
                    fw * (fw - 2 * lf) < lf * lf,
            ;
            assert(frame_score(7, fw, lf) == -lf);
            assert(frame_score(8, fw, lf) == fw - lf);
            assert(frame_norm(7) == 1 && frame_norm(8) == 2);
        }
    }
}

/// Where the sector computation picks 7 (one sign case), neighbour
/// 7 is a nearest one.
proof fn lemma_nearest_7_b(fw: int, lf: int)
    requires
        lf < 0,
        fw < 0,
        (-fw) * (-fw - 2 * lf) < lf * lf,
    ensures
        frame_nearest(7, fw, lf),
{
    assert forall|j: int| 1 <= j <= 8 implies #[trigger] cos_at_least(frame_score(7, fw, lf), frame_norm(7), frame_score(j, fw, lf), frame_norm(j)) by {
        if j == 1 {
            assert((-lf) >= (fw)) by (nonlinear_arith)
                requires
                    lf < 0,
                    fw < 0,
                    (-fw) * (-fw - 2 * lf) < lf * lf,
            ;
            assert(frame_score(7, fw, lf) == -lf);
            assert(frame_score(1, fw, lf) == fw);
            assert(frame_norm(7) == 1 && frame_norm(1) == 1);
        } else if j == 2 {
            assert(((-lf) >= 0 && ((fw + lf) <= 0 || 2 * (-lf) * (-lf) >= (fw + lf) * (fw + lf))) || ((-lf) < 0 && (fw + lf) < 0 && (fw + lf) * (fw + lf) >= 2 * (-lf) * (-lf))) by (nonlinear_arith)
                requires
                    lf < 0,
                    fw < 0,
                    (-fw) * (-fw - 2 * lf) < lf * lf,
            ;
            assert(frame_score(7, fw, lf) == -lf);
            assert(frame_score(2, fw, lf) == fw + lf);
            assert(frame_norm(7) == 1 && frame_norm(2) == 2);
        } else if j == 3 {
            assert((-lf) >= (lf)) by (nonlinear_arith)
                requires
                    lf < 0,
                    fw < 0,
                    (-fw) * (-fw - 2 * lf) < lf * lf,
            ;
            assert(frame_score(7, fw, lf) == -lf);
            assert(frame_score(3, fw, lf) == lf);
            assert(frame_norm(7) == 1 && frame_norm(3) == 1);
        } else if j == 4 {
            assert(((-lf) >= 0 && ((-fw + lf) <= 0 || 2 * (-lf) * (-lf) >= (-fw + lf) * (-fw + lf))) || ((-lf) < 0 && (-fw + lf) < 0 && (-fw + lf) * (-fw + lf) >= 2 * (-lf) * (-lf))) by (nonlinear_arith)
                requires
                    lf < 0,
                    fw < 0,
                    (-fw) * (-fw - 2 * lf) < lf * lf,
            ;
            assert(frame_score(7, fw, lf) == -lf);
            assert(frame_score(4, fw, lf) == -fw + lf);
            assert(frame_norm(7) == 1 && frame_norm(4) == 2);
        } else if j == 5 {
            assert((-lf) >= (-fw)) by (nonlinear_arith)
                requires
                    lf < 0,
                    fw < 0,
                    (-fw) * (-fw - 2 * lf) < lf * lf,
            ;
            assert(frame_score(7, fw, lf) == -lf);
            assert(frame_score(5, fw, lf) == -fw);
            assert(frame_norm(7) == 1 && frame_norm(5) == 1);
        } else if j == 6 {
            assert(((-lf) >= 0 && ((-fw - lf) <= 0 || 2 * (-lf) * (-lf) >= (-fw - lf) * (-fw - lf))) || ((-lf) < 0 && (-fw - lf) < 0 && (-fw - lf) * (-fw - lf) >= 2 * (-lf) * (-lf))) by (nonlinear_arith)
                requires
                    lf < 0,
                    fw < 0,
                    (-fw) * (-fw - 2 * lf) < lf * lf,
            ;
            assert(frame_score(7, fw, lf) == -lf);
            assert(frame_score(6, fw, lf) == -fw - lf);
            assert(frame_norm(7) == 1 && frame_norm(6) == 2);
        } else if j == 7 {
            assert((-lf) >= (-lf)) by (nonlinear_arith)
                requires
                    lf < 0,
                    fw < 0,
                    (-fw) * (-fw - 2 * lf) < lf * lf,
            ;
            assert(frame_score(7, fw, lf) == -lf);
            assert(frame_score(7, fw, lf) == -lf);
            assert(frame_norm(7) == 1 && frame_norm(7) == 1);
        } else if j == 8 {
            assert(((-lf) >= 0 && ((fw - lf) <= 0 || 2 * (-lf) * (-lf) >= (fw - lf) * (fw - lf))) || ((-lf) < 0 && (fw - lf) < 0 && (fw - lf) * (fw - lf) >= 2 * (-lf) * (-lf))) by (nonlinear_arith)
                requires
                    lf < 0,
                    fw < 0,
                    (-fw) * (-fw - 2 * lf) < lf * lf,
            ;
            assert(frame_score(7, fw, lf) == -lf);
            assert(frame_score(8, fw, lf) == fw - lf);
            assert(frame_norm(7) == 1 && frame_norm(8) == 2);
        }
    }
}

/// Where the sector computation picks 8 (one sign case), neighbour
/// 8 is a nearest one.
proof fn lemma_nearest_8_a(fw: int, lf: int)
    requires
        fw > 0,
        lf < 0,
        (-lf) * (-lf + 2 * fw) >= fw * fw,
        fw * (fw - 2 * lf) >= lf * lf,
    ensures
        frame_nearest(8, fw, lf),
{
    assert forall|j: int| 1 <= j <= 8 implies #[trigger] cos_at_least(frame_score(8, fw, lf), frame_norm(8), frame_score(j, fw, lf), frame_norm(j)) by {
        if j == 1 {
            assert(((fw - lf) >= 0 && ((fw) <= 0 || (fw - lf) * (fw - lf) >= 2 * (fw) * (fw))) || ((fw - lf) < 0 && (fw) < 0 && (fw - lf) * (fw - lf) <= 2 * (fw) * (fw))) by (nonlinear_arith)
                requires
                    fw > 0,
                    lf < 0,
                    (-lf) * (-lf + 2 * fw) >= fw * fw,
                    fw * (fw - 2 * lf) >= lf * lf,
            ;
            assert(frame_score(8, fw, lf) == fw - lf);
            assert(frame_score(1, fw, lf) == fw);
            assert(frame_norm(8) == 2 && frame_norm(1) == 1);
        } else if j == 2 {
            assert((fw - lf) >= (fw + lf)) by (nonlinear_arith)
                requires
                    fw > 0,
                    lf < 0,
                    (-lf) * (-lf + 2 * fw) >= fw * fw,
                    fw * (fw - 2 * lf) >= lf * lf,
            ;
            assert(frame_score(8, fw, lf) == fw - lf);
            assert(frame_score(2, fw, lf) == fw + lf);
            assert(frame_norm(8) == 2 && frame_norm(2) == 2);
        } else if j == 3 {
            assert(((fw - lf) >= 0 && ((lf) <= 0 || (fw - lf) * (fw - lf) >= 2 * (lf) * (lf))) || ((fw - lf) < 0 && (lf) < 0 && (fw - lf) * (fw - lf) <= 2 * (lf) * (lf))) by (nonlinear_arith)
                requires
                    fw > 0,
                    lf < 0,
                    (-lf) * (-lf + 2 * fw) >= fw * fw,
                    fw * (fw - 2 * lf) >= lf * lf,
            ;
            assert(frame_score(8, fw, lf) == fw - lf);
            assert(frame_score(3, fw, lf) == lf);
            assert(frame_norm(8) == 2 && frame_norm(3) == 1);
        } else if j == 4 {
            assert((fw - lf) >= (-fw + lf)) by (nonlinear_arith)
                requires
                    fw > 0,
                    lf < 0,
                    (-lf) * (-lf + 2 * fw) >= fw * fw,
                    fw * (fw - 2 * lf) >= lf * lf,
            ;
            assert(frame_score(8, fw, lf) == fw - lf);
            assert(frame_score(4, fw, lf) == -fw + lf);
            assert(frame_norm(8) == 2 && frame_norm(4) == 2);
        } else if j == 5 {
            assert(((fw - lf) >= 0 && ((-fw) <= 0 || (fw - lf) * (fw - lf) >= 2 * (-fw) * (-fw))) || ((fw - lf) < 0 && (-fw) < 0 && (fw - lf) * (fw - lf) <= 2 * (-fw) * (-fw))) by (nonlinear_arith)
                requires
                    fw > 0,
                    lf < 0,
                    (-lf) * (-lf + 2 * fw) >= fw * fw,
                    fw * (fw - 2 * lf) >= lf * lf,
            ;
            assert(frame_score(8, fw, lf) == fw - lf);
            assert(frame_score(5, fw, lf) == -fw);
            assert(frame_norm(8) == 2 && frame_norm(5) == 1);
        } else if j == 6 {
            assert((fw - lf) >= (-fw - lf)) by (nonlinear_arith)
                requires
                    fw > 0,
                    lf < 0,
                    (-lf) * (-lf + 2 * fw) >= fw * fw,
                    fw * (fw - 2 * lf) >= lf * lf,
            ;
            assert(frame_score(8, fw, lf) == fw - lf);
            assert(frame_score(6, fw, lf) == -fw - lf);
            assert(frame_norm(8) == 2 && frame_norm(6) == 2);
        } else if j == 7 {
            assert(((fw - lf) >= 0 && ((-lf) <= 0 || (fw - lf) * (fw - lf) >= 2 * (-lf) * (-lf))) || ((fw - lf) < 0 && (-lf) < 0 && (fw - lf) * (fw - lf) <= 2 * (-lf) * (-lf))) by (nonlinear_arith)
                requires
                    fw > 0,
                    lf < 0,
                    (-lf) * (-lf + 2 * fw) >= fw * fw,
                    fw * (fw - 2 * lf) >= lf * lf,
            ;
            assert(frame_score(8, fw, lf) == fw - lf);
            assert(frame_score(7, fw, lf) == -lf);
            assert(frame_norm(8) == 2 && frame_norm(7) == 1);
        } else if j == 8 {
            assert((fw - lf) >= (fw - lf)) by (nonlinear_arith)
                requires
                    fw > 0,
                    lf < 0,
                    (-lf) * (-lf + 2 * fw) >= fw * fw,
                    fw * (fw - 2 * lf) >= lf * lf,
            ;
            assert(frame_score(8, fw, lf) == fw - lf);
            assert(frame_score(8, fw, lf) == fw - lf);
            assert(frame_norm(8) == 2 && frame_norm(8) == 2);
        }
    }
}

/// Dot product and squared length of a direction known to be `(a, b)`.
proof fn lemma_dot_const(v: (int, int), d: (int, int), a: int, b: int)
    by (nonlinear_arith)
    requires
        d.0 == a,
        d.1 == b,
    ensures
        v.0 * d.0 + v.1 * d.1 == v.0 * a + v.1 * b,
        d.0 * d.0 + d.1 * d.1 == a * a + b * b,
{
}

/// In the drone's frame, the sector chosen is a nearest neighbour.
proof fn lemma_sector_nearest(fw: int, lf: int)
    requires
        !(fw == 0 && lf == 0),
    ensures
        1 <= sector(fw, lf) <= 8,
        frame_nearest(sector(fw, lf) as int, fw, lf),
{
    let a = abs_int(lf);
    let b = abs_int(fw);
    if fw > 0 && below_half_octant(a, fw) {
        if lf >= 0 {
            lemma_nearest_1_a(fw, lf);
        } else {
            assert((-lf) * (-lf + 2 * fw) < fw * fw);
            lemma_nearest_1_b(fw, lf);
        }
    } else if lf > 0 && below_half_octant(b, lf) {
        if fw >= 0 {
            lemma_nearest_3_a(fw, lf);
        } else {
            assert((-fw) * (-fw + 2 * lf) < lf * lf);
            lemma_nearest_3_b(fw, lf);
        }
    } else if fw < 0 && below_half_octant(a, -fw) {
        if lf >= 0 {
            assert(lf * (lf - 2 * fw) < fw * fw) by (nonlinear_arith)
                requires
                    lf * (lf + 2 * (-fw)) < (-fw) * (-fw);
            lemma_nearest_5_a(fw, lf);
        } else {
            assert((-lf) * (-lf - 2 * fw) < fw * fw) by (nonlinear_arith)
                requires
                    (-lf) * ((-lf) + 2 * (-fw)) < (-fw) * (-fw);
            lemma_nearest_5_b(fw, lf);
        }
    } else if lf < 0 && below_half_octant(b, -lf) {
        if fw >= 0 {
            assert(fw * (fw - 2 * lf) < lf * lf) by (nonlinear_arith)
                requires
                    fw * (fw + 2 * (-lf)) < (-lf) * (-lf);
            lemma_nearest_7_a(fw, lf);
        } else {
            assert((-fw) * (-fw - 2 * lf) < lf * lf) by (nonlinear_arith)
                requires
                    (-fw) * ((-fw) + 2 * (-lf)) < (-lf) * (-lf);
            lemma_nearest_7_b(fw, lf);
        }
    } else if fw > 0 && lf > 0 {
        lemma_nearest_2_a(fw, lf);
    } else if fw < 0 && lf > 0 {
        assert((-fw) * (-fw + 2 * lf) >= lf * lf);
        assert(lf * (lf - 2 * fw) >= fw * fw) by (nonlinear_arith)
            requires
                !(lf * (lf + 2 * (-fw)) < (-fw) * (-fw));
        lemma_nearest_4_a(fw, lf);
    } else if fw < 0 && lf < 0 {
        assert((-lf) * (-lf - 2 * fw) >= fw * fw) by (nonlinear_arith)
            requires
                !((-lf) * ((-lf) + 2 * (-fw)) < (-fw) * (-fw));
        assert((-fw) * (-fw - 2 * lf) >= lf * lf) by (nonlinear_arith)
            requires
                !((-fw) * ((-fw) + 2 * (-lf)) < (-lf) * (-lf));
        lemma_nearest_6_a(fw, lf);
    } else {
        if fw == 0 {
            assert(b * (b + 2 * lf) < lf * lf && b * (b + 2 * (-lf)) < (-lf) * (-lf)) by (nonlinear_arith)
                requires
                    b == 0,
                    lf != 0;
        }
        if lf == 0 {
            assert(a * (a + 2 * fw) < fw * fw && a * (a + 2 * (-fw)) < (-fw) * (-fw)) by (nonlinear_arith)
                requires
                    a == 0,
                    fw != 0;
        }
        assert(fw > 0 && lf < 0);
        assert((-lf) * (-lf + 2 * fw) >= fw * fw);
        assert(fw * (fw - 2 * lf) >= lf * lf) by (nonlinear_arith)
            requires
                !(fw * (fw + 2 * (-lf)) < (-lf) * (-lf));
        lemma_nearest_8_a(fw, lf);
    }
}

/// The dot product of a source with the direction of neighbour `k`, and
/// that direction's squared length, seen in the drone's frame.
proof fn lemma_frame_link(o: Orientation, v: (int, int), k: int)
    requires
        1 <= k <= 8,
    ensures
        v.0 * neighbour_dir(o, k).0 + v.1 * neighbour_dir(o, k).1 == frame_score(k, forward_of(o, v), left_of(o, v)),
        neighbour_dir(o, k).0 * neighbour_dir(o, k).0 + neighbour_dir(o, k).1 * neighbour_dir(o, k).1 == frame_norm(k),
{
    let (f0, f1) = orientation_vec(o);
    lemma_dot_const(v, orientation_vec(o), f0, f1);
    let d = neighbour_dir(o, k);
    lemma_dot_const(v, d, d.0, d.1);
    assert(forward_of(o, v) == v.0 * f0 + v.1 * f1);
    assert(left_of(o, v) == v.0 * f1 - v.1 * f0);
    if k == 1 {
        assert(d == (f0, f1));
    } else if k == 2 {
        assert(d == (f0 + f1, f1 - f0));
    } else if k == 3 {
        assert(d == (f1, -f0));
    } else if k == 4 {
        assert(d == (f1 - f0, -f0 - f1));
    } else if k == 5 {
        assert(d == (-f0, -f1));
    } else if k == 6 {
        assert(d == (-f0 - f1, -f1 + f0));
    } else if k == 7 {
        assert(d == (-f1, f0));
    } else {
        assert(d == (f0 - f1, f1 + f0));
    }
    lemma_frame_algebra(v.0, v.1, f0, f1, k);
}

/// The algebra behind `lemma_frame_link`, for a unit step `(f0, f1)`.
proof fn lemma_frame_algebra(v0: int, v1: int, f0: int, f1: int, k: int)
    by (nonlinear_arith)
    requires
        (f0 == 0 && (f1 == 1 || f1 == -1)) || (f1 == 0 && (f0 == 1 || f0 == -1)),
    ensures
        k == 1 ==> v0 * f0 + v1 * f1 == (v0 * f0 + v1 * f1) && f0 * f0 + f1 * f1 == 1,
        k == 2 ==> v0 * (f0 + f1) + v1 * (f1 - f0) == (v0 * f0 + v1 * f1) + (v0 * f1 - v1 * f0)
            && (f0 + f1) * (f0 + f1) + (f1 - f0) * (f1 - f0) == 2,
        k == 3 ==> v0 * f1 + v1 * (-f0) == (v0 * f1 - v1 * f0) && f1 * f1 + (-f0) * (-f0) == 1,
        k == 4 ==> v0 * (f1 - f0) + v1 * (-f0 - f1) == -(v0 * f0 + v1 * f1) + (v0 * f1 - v1 * f0)
            && (f1 - f0) * (f1 - f0) + (-f0 - f1) * (-f0 - f1) == 2,
        k == 5 ==> v0 * (-f0) + v1 * (-f1) == -(v0 * f0 + v1 * f1) && (-f0) * (-f0) + (-f1) * (-f1) == 1,
        k == 6 ==> v0 * (-f0 - f1) + v1 * (-f1 + f0) == -(v0 * f0 + v1 * f1) - (v0 * f1 - v1 * f0)
            && (-f0 - f1) * (-f0 - f1) + (-f1 + f0) * (-f1 + f0) == 2,
        k == 7 ==> v0 * (-f1) + v1 * f0 == -(v0 * f1 - v1 * f0) && (-f1) * (-f1) + f0 * f0 == 1,
        k == 8 ==> v0 * (f0 - f1) + v1 * (f1 + f0) == (v0 * f0 + v1 * f1) - (v0 * f1 - v1 * f0)
            && (f0 - f1) * (f0 - f1) + (f1 + f0) * (f1 + f0) == 2,
{
}

/// The direction number `K` a drone hears names the neighbouring square
/// whose direction is nearest, in angle, to the direction of the source:
/// for a source anywhere but on the drone's own square, no neighbouring
/// direction is closer to it than that of square `K`.
pub proof fn law_sound_dir_nearest(o: Orientation, v: (int, int))
    requires
        v != (0int, 0int),
    ensures
        1 <= sound_dir_spec(o, v) <= 8,
        forall|j: int|
            1 <= j <= 8 ==> #[trigger] at_least_as_close(v, neighbour_dir(o, sound_dir_spec(o, v) as int), neighbour_dir(o, j)),
{
    let fw = forward_of(o, v);
    let lf = left_of(o, v);
    let (f0, f1) = orientation_vec(o);
    lemma_dot_const(v, orientation_vec(o), f0, f1);
    assert(fw == 0 && lf == 0 ==> v == (0int, 0int)) by (nonlinear_arith)
        requires
            fw == v.0 * f0 + v.1 * f1,
            lf == v.0 * f1 - v.1 * f0,
            (f0 == 0 && (f1 == 1 || f1 == -1)) || (f1 == 0 && (f0 == 1 || f0 == -1));
    lemma_sector_nearest(fw, lf);
    let k = sound_dir_spec(o, v) as int;
    assert(k == sector(fw, lf));
    lemma_frame_link(o, v, k);
    assert forall|j: int| 1 <= j <= 8 implies #[trigger] at_least_as_close(v, neighbour_dir(o, k), neighbour_dir(o, j)) by {
        lemma_frame_link(o, v, j);
        assert(cos_at_least(frame_score(k, fw, lf), frame_norm(k), frame_score(j, fw, lf), frame_norm(j)));
    }
}

/// The direction number depends only on where the source lies relative to
/// the drone: turning the drone and the offset together by a quarter turn
/// leaves it unchanged.
pub proof fn law_sound_dir_rotation(o: Orientation, offset: (int, int))
    ensures
        sound_dir_spec(turn_right(o), rotate_right(offset)) == sound_dir_spec(o, offset),
{
    let (dx, dy) = offset;
    assert(forward_of(turn_right(o), rotate_right(offset)) == forward_of(o, offset)) by {
        match o {
            Orientation::North => assert(-dy * 1 + dx * 0 == dx * 0 + dy * -1),
            Orientation::East => assert(-dy * 0 + dx * 1 == dx * 1 + dy * 0),
            Orientation::South => assert(-dy * -1 + dx * 0 == dx * 0 + dy * 1),
            Orientation::West => assert(-dy * 0 + dx * -1 == dx * -1 + dy * 0),
        }
    }
    assert(left_of(turn_right(o), rotate_right(offset)) == left_of(o, offset)) by {
        match o {
            Orientation::North => assert(-dy * 0 - dx * 1 == dx * -1 - dy * 0),
            Orientation::East => assert(-dy * 1 - dx * 0 == dx * 0 - dy * 1),
            Orientation::South => assert(-dy * 0 - dx * -1 == dx * 1 - dy * 0),
            Orientation::West => assert(-dy * -1 - dx * 0 == dx * 0 - dy * -1),
        }
    }
}

/// The direction number is 0 exactly for the drone's own tile, and lies in
/// `1..=8` otherwise.
pub proof fn law_sound_dir_range(o: Orientation, offset: (int, int))
    ensures
        sound_dir_spec(o, offset) <= 8,
        (sound_dir_spec(o, offset) == 0) == (offset.0 == 0 && offset.1 == 0),
{
}

/// Text of the `i`-th entry of an inventory listing: `"<name> <count>"`.
pub open spec fn inventory_item(inv: Seq<u32>, i: int) -> Seq<char> {
    res_name(res_at(i as nat)) + " "@ + dec(inv[i] as nat)
}

/// `"[food n, linemate n, ..., thystame n]"` for the counters `inv`.
pub open spec fn inventory_text(inv: Seq<u32>) -> Seq<char> {
    "["@ + join(Seq::new(RESOURCE_COUNT as nat, |i: int| inventory_item(inv, i)), ", "@) + "]"@
}

/// A drone.
#[derive(Debug)]
pub struct Player {
    pub id: u32,
    pub team: usize,
    pub x: usize,
    pub y: usize,
    pub orientation: Orientation,
    pub level: u8,
    pub inventory: [u32; RESOURCE_COUNT],
    pub queue: VecDeque<Command>,
    pub busy: bool,
    pub current_cmd: u64,
    pub cmd_seq: u64,
}

impl Player {
    /// A freshly hatched drone: level 1, ten units of food, nothing queued.
    pub fn new(id: u32, team: usize, x: usize, y: usize, orientation: Orientation) -> (p: Player)
        ensures
            p.id == id,
            p.team == team,
            p.x == x,
            p.y == y,
            p.orientation == orientation,
            p.level == 1,
            p.inventory@ == seq![10u32, 0, 0, 0, 0, 0, 0],
            p.queue@.len() == 0,
            !p.busy,
            p.current_cmd == 0,
            p.cmd_seq == 0,
    {
        let mut inventory = [0u32; RESOURCE_COUNT];
        inventory[Resource::Food.index()] = 10;
        let p = Player {
            id,
            team,
            x,
            y,
            orientation,
            level: 1,
            inventory,
            queue: VecDeque::new(),
            busy: false,
            current_cmd: 0,
            cmd_seq: 0,
        };
        assert(p.inventory@ =~= seq![10u32, 0, 0, 0, 0, 0, 0]);
        p
    }

    /// `"[food n, linemate n, ..., thystame n]"`.
    pub fn inventory_string(&self) -> (s: String)
        ensures
            s@ == inventory_text(self.inventory@),
    {
        let ghost f = |i: int| inventory_item(self.inventory@, i);
        let mut out = String::new();
        out.append("[");
        let mut i: usize = 0;
        while i < RESOURCE_COUNT
            invariant
                i <= RESOURCE_COUNT,
                f == (|i: int| inventory_item(self.inventory@, i)),
                out@ == "["@ + join(Seq::new(i as nat, f), ", "@),
            decreases RESOURCE_COUNT - i,
        {
            let ghost before = out@;
            if i > 0 {
                out.append(", ");
            }
            let r = Resource::from_index(i);
            out.append(r.name());
            out.append(" ");
            crate::text::push_dec(&mut out, self.inventory[i] as u64);
            proof {
                assert(Seq::new((i + 1) as nat, f) =~= Seq::new(i as nat, f).push(f(i as int)));
                crate::text::lemma_join_push(Seq::new(i as nat, f), ", "@, f(i as int));
                if i == 0 {
                    assert(Seq::new(i as nat, f).len() == 0);
                }
            }
            i += 1;
        }
        out.append("]");
        out
    }
}

/// Facings on the board, where `x` grows to the East and `y` to the South:
/// North is one step towards smaller `y`, turning right turns the step a
/// quarter clockwise, and the protocol numbers the facings clockwise from
/// North (North 1, East 2, South 3, West 4).
pub proof fn law_facings(o: Orientation)
    ensures
        orientation_vec(Orientation::North) == (0int, -1int),
        orientation_vec(turn_right(o)) == (-orientation_vec(o).1, orientation_vec(o).0),
        orientation_number(Orientation::North) == 1,
        orientation_number(turn_right(o)) == orientation_number(o) % 4 + 1,
{
}

} // verus!
