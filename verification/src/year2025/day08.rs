//! Points in space, read from comma-separated coordinate triples, and the
//! squared distances between them.

use crate::text::is_signed_seq;
use crate::text::lines_of;
use crate::text::parse_i64;
use crate::text::signed_val;
use crate::text::spec_lines;
use crate::text::spec_split;
use crate::text::split_on;
use vstd::prelude::*;
use vstd::string::StringSliceAdditionalSpecFns;

verus! {

/// A position in three-dimensional space.
#[derive(Debug, Clone, Copy, PartialEq, PartialOrd)]
pub struct Vec3(pub i64, pub i64, pub i64);

/// The line spells at least three comma-separated signed numbers, each
/// within the coordinate bound (a machine limit keeping squares in `i64`).
pub open spec fn vec3_line_ok(l: Seq<u8>) -> bool {
    let fs = spec_split(l, 44);
    fs.len() >= 3 && is_signed_seq(fs[0]) && is_signed_seq(fs[1]) && is_signed_seq(fs[2])
        && -800000000 <= signed_val(fs[0]) <= 800000000 && -800000000 <= signed_val(fs[1])
        <= 800000000 && -800000000 <= signed_val(fs[2]) <= 800000000
}

/// The point a well-formed line spells.
pub open spec fn vec3_of_line(l: Seq<u8>) -> Vec3 {
    let fs = spec_split(l, 44);
    Vec3(signed_val(fs[0]) as i64, signed_val(fs[1]) as i64, signed_val(fs[2]) as i64)
}

/// Reads one point per line, written as `x,y,z`. A malformed line is
/// skipped; on input whose lines are all well-formed the result is exactly
/// the spelled point sequence.
pub fn parse(input: &str) -> (r: Vec<Vec3>)
    ensures
        ({
            let ls = spec_lines(input.spec_bytes());
            (forall|i: int| 0 <= i < ls.len() ==> vec3_line_ok(#[trigger] ls[i])) ==> {
                &&& r@.len() == ls.len()
                &&& forall|i: int| 0 <= i < ls.len() ==> r@[i] == vec3_of_line(#[trigger] ls[i])
            }
        }),
{
    let ghost ls = spec_lines(input.spec_bytes());
    let lines = lines_of(input);
    let mut out: Vec<Vec3> = Vec::new();
    let mut k: usize = 0;
    while k < lines.len()
        invariant
            lines@.map_values(|l: Vec<u8>| l@) =~= ls,
            k <= lines@.len(),
            (forall|i: int| 0 <= i < k ==> vec3_line_ok(#[trigger] ls[i])) ==> {
                &&& out@.len() == k
                &&& forall|i: int| 0 <= i < k ==> out@[i] == vec3_of_line(#[trigger] ls[i])
            },
        decreases lines@.len() - k,
    {
        let fields = split_on(lines[k].as_slice(), 44);
        proof {
            assert(lines@[k as int]@ == ls[k as int]);
            assert(fields@.map_values(|l: Vec<u8>| l@) =~= spec_split(ls[k as int], 44));
        }
        if fields.len() >= 3 {
            let fx = parse_i64(fields[0].as_slice());
            let fy = parse_i64(fields[1].as_slice());
            let fz = parse_i64(fields[2].as_slice());
            match (fx, fy, fz) {
                (Some(xv), Some(yv), Some(zv)) => {
                    if -800000000 <= xv && xv <= 800000000 && -800000000 <= yv && yv <= 800000000
                        && -800000000 <= zv && zv <= 800000000 {
                        out.push(Vec3(xv, yv, zv));
                    }
                },
                _ => {},
            }
        }
        k = k + 1;
    }
    out
}

impl Vec3 {
    /// The squared Euclidean distance to `rhs`. The coordinate bound is a
    /// machine limit that keeps the three squares summed within `i64`.
    pub fn distance_to(&self, rhs: Vec3) -> (r: i64)
        requires
            -800000000 <= self.0 <= 800000000,
            -800000000 <= self.1 <= 800000000,
            -800000000 <= self.2 <= 800000000,
            -800000000 <= rhs.0 <= 800000000,
            -800000000 <= rhs.1 <= 800000000,
            -800000000 <= rhs.2 <= 800000000,
        ensures
            r == (self.0 - rhs.0) * (self.0 - rhs.0) + (self.1 - rhs.1) * (self.1 - rhs.1) + (
            self.2 - rhs.2) * (self.2 - rhs.2),
    {
        let dx = self.0 - rhs.0;
        let dy = self.1 - rhs.1;
        let dz = self.2 - rhs.2;
        proof {
            assert(0 <= dx * dx <= 2560000000000000000 && 0 <= dy * dy <= 2560000000000000000 && 0
                <= dz * dz <= 2560000000000000000) by (nonlinear_arith)
                requires
                    -1600000000 <= dx <= 1600000000 && -1600000000 <= dy <= 1600000000
                        && -1600000000 <= dz <= 1600000000,
            ;
        }
        dx * dx + dy * dy + dz * dz
    }
}

} // verus!
