//! The shell scan: which rays are cast through a mesh, and in what order.
//!
//! The scan makes three passes, one along each axis. A pass walks the grid
//! points of the two other axes line by line, and casts from each point one
//! ray along its own axis, starting at the low end of the scan bounds. What is
//! done with a ray is up to the caller; the scan names the rays and tells the
//! end of each line, which is the unit that progress is counted in.
use crate::bbox::Bbox;
use crate::grid::{saturate, GridCoord};
use crate::rounding::ONE_BITS;
use crate::vector::Vector3;
use crate::scalar::Scalar;
use vstd::prelude::*;

verus! {

/// One of the three axes.
#[derive(Clone, Copy, Debug, PartialEq, Eq, Structural)]
pub enum Axis {
    X,
    Y,
    Z,
}

/// The grid cells that a scan covers: on each axis from `min` up to, but not
/// including, `max`.
#[derive(Clone, Copy, Debug, PartialEq, Eq, Structural)]
pub struct ScanBounds {
    pub min: GridCoord,
    pub max: GridCoord,
}

/// A ray of the scan. It starts at the grid point `origin`, which is the
/// resolution times `origin` in space, and runs along `axis` towards larger
/// coordinates.
#[derive(Clone, Copy, Debug, PartialEq, Eq, Structural)]
pub struct ScanRay {
    pub axis: Axis,
    pub origin: GridCoord,
}

impl ScanRay {
    /// Where the ray starts in space at the given resolution: its grid point
    /// times the resolution.
    pub open spec fn start(self, resolution: Scalar) -> Vector3 {
        Vector3 {
            x: Scalar::of_integer(self.origin.x as int).times(resolution),
            y: Scalar::of_integer(self.origin.y as int).times(resolution),
            z: Scalar::of_integer(self.origin.z as int).times(resolution),
        }
    }

    /// The direction of the ray: one along its axis, zero along the two
    /// others.
    pub open spec fn heading(self) -> Vector3 {
        let one = Scalar { bits: ONE_BITS };
        let zero = Scalar { bits: 0 };
        match self.axis {
            Axis::X => Vector3 { x: one, y: zero, z: zero },
            Axis::Y => Vector3 { x: zero, y: one, z: zero },
            Axis::Z => Vector3 { x: zero, y: zero, z: one },
        }
    }

    /// The point that the ray reaches at the given distance from its start.
    pub open spec fn reached(self, resolution: Scalar, distance: Scalar) -> Vector3 {
        self.start(resolution).plus(self.heading().scaled(distance))
    }

    /// Where the ray starts in space at the given resolution.
    pub fn origin_at(&self, resolution: Scalar) -> (v: Vector3)
        ensures
            v == self.start(resolution),
    {
        Vector3 {
            x: Scalar::from_i32(self.origin.x).mul(resolution),
            y: Scalar::from_i32(self.origin.y).mul(resolution),
            z: Scalar::from_i32(self.origin.z).mul(resolution),
        }
    }

    /// The direction of the ray.
    pub fn direction(&self) -> (v: Vector3)
        ensures
            v == self.heading(),
    {
        let one = Scalar { bits: ONE_BITS };
        let zero = Scalar { bits: 0 };
        match self.axis {
            Axis::X => Vector3 { x: one, y: zero, z: zero },
            Axis::Y => Vector3 { x: zero, y: one, z: zero },
            Axis::Z => Vector3 { x: zero, y: zero, z: one },
        }
    }

    /// The point that the ray reaches at the given distance from its start.
    pub fn point_at(&self, resolution: Scalar, distance: Scalar) -> (v: Vector3)
        ensures
            v == self.reached(resolution, distance),
    {
        self.origin_at(resolution).add(&self.direction().scale(distance))
    }
}

/// What the scan asks for next.
#[derive(Clone, Copy, Debug, PartialEq, Eq, Structural)]
pub enum ScanStep {
    /// Cast this ray.
    Cast(ScanRay),
    /// A line has been walked to its end.
    LineDone,
}

/// The number of integers from `lo` up to, but not including, `hi`.
pub open spec fn extent(lo: int, hi: int) -> nat {
    if lo < hi {
        (hi - lo) as nat
    } else {
        0
    }
}

impl ScanBounds {
    /// Where the lines of a pass begin: a pass along x walks lines of fixed
    /// y, the two others lines of fixed x.
    pub open spec fn outer_lo(self, axis: Axis) -> int {
        match axis {
            Axis::X => self.min.y as int,
            Axis::Y => self.min.x as int,
            Axis::Z => self.min.x as int,
        }
    }

    pub open spec fn outer_hi(self, axis: Axis) -> int {
        match axis {
            Axis::X => self.max.y as int,
            Axis::Y => self.max.x as int,
            Axis::Z => self.max.x as int,
        }
    }

    /// Where a line begins: a line of the pass along z runs over y, a line of
    /// the two others over z.
    pub open spec fn inner_lo(self, axis: Axis) -> int {
        match axis {
            Axis::X => self.min.z as int,
            Axis::Y => self.min.z as int,
            Axis::Z => self.min.y as int,
        }
    }

    pub open spec fn inner_hi(self, axis: Axis) -> int {
        match axis {
            Axis::X => self.max.z as int,
            Axis::Y => self.max.z as int,
            Axis::Z => self.max.y as int,
        }
    }

    /// The ray of a pass at the given place of the given line.
    pub open spec fn ray(self, axis: Axis, outer: int, inner: int) -> ScanRay {
        match axis {
            Axis::X => ScanRay {
                axis,
                origin: GridCoord { x: self.min.x, y: outer as i32, z: inner as i32 },
            },
            Axis::Y => ScanRay {
                axis,
                origin: GridCoord { x: outer as i32, y: self.min.y, z: inner as i32 },
            },
            Axis::Z => ScanRay {
                axis,
                origin: GridCoord { x: outer as i32, y: inner as i32, z: self.min.z },
            },
        }
    }

    /// A line from the place `from` on: its rays in rising order, then the end
    /// of the line.
    pub open spec fn line_steps(self, axis: Axis, outer: int, from: int) -> Seq<ScanStep> {
        Seq::new(
            extent(from, self.inner_hi(axis)),
            |k: int| ScanStep::Cast(self.ray(axis, outer, from + k)),
        ).push(ScanStep::LineDone)
    }

    /// A pass from the line `from` on: its lines in rising order.
    pub open spec fn pass_steps(self, axis: Axis, from: int) -> Seq<ScanStep>
        decreases self.outer_hi(axis) - from,
    {
        if from >= self.outer_hi(axis) {
            Seq::empty()
        } else {
            self.line_steps(axis, from, self.inner_lo(axis)) + self.pass_steps(axis, from + 1)
        }
    }

    /// A whole pass.
    pub open spec fn pass(self, axis: Axis) -> Seq<ScanStep> {
        self.pass_steps(axis, self.outer_lo(axis))
    }

    /// The passes that follow the one along `axis`.
    pub open spec fn later_passes(self, axis: Axis) -> Seq<ScanStep> {
        match axis {
            Axis::X => self.pass(Axis::Y) + self.pass(Axis::Z),
            Axis::Y => self.pass(Axis::Z),
            Axis::Z => Seq::empty(),
        }
    }

    /// The whole scan: the pass along x, then the one along y, then the one
    /// along z.
    pub open spec fn steps(self) -> Seq<ScanStep> {
        self.pass(Axis::X) + self.pass(Axis::Y) + self.pass(Axis::Z)
    }

    /// The number of lines of the scan: the extent in y for the pass along x,
    /// and the extent in x for each of the two others.
    pub open spec fn lines(self) -> nat {
        extent(self.min.y as int, self.max.y as int) + extent(self.min.x as int, self.max.x as int)
            + extent(self.min.x as int, self.max.x as int)
    }

    /// The bounds of the scan of a box at the given resolution: on each axis
    /// from one cell below the box's least corner, rounded down, to one cell
    /// above its greatest corner, rounded up, as far as `i32` reaches.
    pub open spec fn of(bbox: Bbox, resolution: Scalar) -> ScanBounds {
        ScanBounds {
            min: GridCoord {
                x: saturate(bbox.min.x.over(resolution).floored() - 1),
                y: saturate(bbox.min.y.over(resolution).floored() - 1),
                z: saturate(bbox.min.z.over(resolution).floored() - 1),
            },
            max: GridCoord {
                x: saturate(bbox.max.x.over(resolution).ceiled() + 1),
                y: saturate(bbox.max.y.over(resolution).ceiled() + 1),
                z: saturate(bbox.max.z.over(resolution).ceiled() + 1),
            },
        }
    }

    /// The bounds of the scan of a box at the given resolution.
    pub fn around(bbox: &Bbox, resolution: Scalar) -> (bounds: ScanBounds)
        ensures
            bounds == ScanBounds::of(*bbox, resolution),
    {
        ScanBounds {
            min: GridCoord {
                x: one_below(bbox.min.x.div(resolution).floor()),
                y: one_below(bbox.min.y.div(resolution).floor()),
                z: one_below(bbox.min.z.div(resolution).floor()),
            },
            max: GridCoord {
                x: one_above(bbox.max.x.div(resolution).ceil()),
                y: one_above(bbox.max.y.div(resolution).ceil()),
                z: one_above(bbox.max.z.div(resolution).ceil()),
            },
        }
    }

    /// The number of lines of the scan.
    pub fn line_count(&self) -> (n: u64)
        ensures
            n == self.lines(),
    {
        let along_x: u64 = span(self.min.y, self.max.y);
        let along_y: u64 = span(self.min.x, self.max.x);
        along_x + along_y + along_y
    }
}

fn one_below(c: i32) -> (b: i32)
    ensures
        b == saturate(c - 1),
{
    if c == i32::MIN {
        c
    } else {
        c - 1
    }
}

fn one_above(c: i32) -> (a: i32)
    ensures
        a == saturate(c + 1),
{
    if c == i32::MAX {
        c
    } else {
        c + 1
    }
}

/// The number of integers from `lo` up to, but not including, `hi`.
pub fn span(lo: i32, hi: i32) -> (n: u64)
    ensures
        n == extent(lo as int, hi as int),
        n <= 0xffff_ffff,
{
    if lo < hi {
        (hi as i64 - lo as i64) as u64
    } else {
        0
    }
}

/// A scan in progress: the steps that are still to come.
pub struct ShellScan {
    bounds: ScanBounds,
    pass: Option<Axis>,
    outer: i32,
    inner: i32,
}

impl ShellScan {
    /// The bounds that the scan was made for.
    pub closed spec fn bounds(self) -> ScanBounds {
        self.bounds
    }

    /// While a pass is under way the scan stands on one of its lines.
    #[verifier::type_invariant]
    spec fn on_a_line(self) -> bool {
        match self.pass {
            Some(axis) => {
                &&& self.bounds.outer_lo(axis) <= self.outer < self.bounds.outer_hi(axis)
                &&& self.bounds.inner_lo(axis) <= self.inner
                &&& self.inner <= self.bounds.inner_hi(axis) || self.inner == self.bounds.inner_lo(
                    axis,
                )
            },
            None => true,
        }
    }

    /// The steps that are still to come, in order.
    pub closed spec fn remaining(self) -> Seq<ScanStep> {
        match self.pass {
            Some(axis) => self.bounds.line_steps(axis, self.outer as int, self.inner as int)
                + self.bounds.pass_steps(axis, self.outer + 1) + self.bounds.later_passes(axis),
            None => Seq::empty(),
        }
    }

    /// The bounds that the scan was made for.
    pub fn limits(&self) -> (bounds: ScanBounds)
        ensures
            bounds == self.bounds(),
    {
        self.bounds
    }

    /// A scan that stands before the first line of the pass along `axis`, or
    /// of the first pass after it that has a line.
    fn at_pass(bounds: ScanBounds, axis: Axis) -> (scan: ShellScan)
        ensures
            scan.bounds() == bounds,
            scan.remaining() =~= bounds.pass(axis) + bounds.later_passes(axis),
    {
        let has_x_lines = bounds.min.y < bounds.max.y;
        let has_yz_lines = bounds.min.x < bounds.max.x;
        proof {
            assert(!has_x_lines ==> bounds.pass(Axis::X) =~= Seq::empty());
            assert(!has_yz_lines ==> bounds.pass(Axis::Y) =~= Seq::empty());
            assert(!has_yz_lines ==> bounds.pass(Axis::Z) =~= Seq::empty());
        }
        match axis {
            Axis::X => {
                if has_x_lines {
                    ShellScan { bounds, pass: Some(Axis::X), outer: bounds.min.y, inner: bounds.min.z }
                } else if has_yz_lines {
                    ShellScan { bounds, pass: Some(Axis::Y), outer: bounds.min.x, inner: bounds.min.z }
                } else {
                    ShellScan { bounds, pass: None, outer: 0, inner: 0 }
                }
            },
            Axis::Y => {
                if has_yz_lines {
                    ShellScan { bounds, pass: Some(Axis::Y), outer: bounds.min.x, inner: bounds.min.z }
                } else {
                    ShellScan { bounds, pass: None, outer: 0, inner: 0 }
                }
            },
            Axis::Z => {
                if has_yz_lines {
                    ShellScan { bounds, pass: Some(Axis::Z), outer: bounds.min.x, inner: bounds.min.y }
                } else {
                    ShellScan { bounds, pass: None, outer: 0, inner: 0 }
                }
            },
        }
    }

    /// A scan of the given bounds, with every step still to come.
    pub fn new(bounds: ScanBounds) -> (scan: ShellScan)
        ensures
            scan.bounds() == bounds,
            scan.remaining() == bounds.steps(),
    {
        let scan = ShellScan::at_pass(bounds, Axis::X);
        assert(scan.remaining() =~= bounds.steps());
        scan
    }

    /// Takes the next step off the scan; `None` once the scan is over.
    pub fn next(&mut self) -> (step: Option<ScanStep>)
        ensures
            final(self).bounds() == old(self).bounds(),
            old(self).remaining().len() == 0 ==> step is None && final(self).remaining()
                == old(self).remaining(),
            old(self).remaining().len() > 0 ==> step == Some(old(self).remaining()[0])
                && final(self).remaining() == old(self).remaining().drop_first(),
    {
        proof {
            use_type_invariant(&*self);
        }
        let bounds = self.bounds;
        let axis = match self.pass {
            Some(axis) => axis,
            None => {
                return None;
            },
        };
        let (outer_hi, inner_lo, inner_hi) = match axis {
            Axis::X => (bounds.max.y, bounds.min.z, bounds.max.z),
            Axis::Y => (bounds.max.x, bounds.min.z, bounds.max.z),
            Axis::Z => (bounds.max.x, bounds.min.y, bounds.max.y),
        };
        let ghost before = *self;
        let ghost line = bounds.line_steps(axis, before.outer as int, before.inner as int);
        let ghost rest = bounds.pass_steps(axis, before.outer + 1) + bounds.later_passes(axis);
        assert(before.remaining() =~= line + rest);
        if self.inner < inner_hi {
            let origin = match axis {
                Axis::X => GridCoord { x: bounds.min.x, y: self.outer, z: self.inner },
                Axis::Y => GridCoord { x: self.outer, y: bounds.min.y, z: self.inner },
                Axis::Z => GridCoord { x: self.outer, y: self.inner, z: bounds.min.z },
            };
            *self = ShellScan { bounds, pass: Some(axis), outer: self.outer, inner: self.inner + 1 };
            proof {
                let shorter = bounds.line_steps(axis, before.outer as int, before.inner + 1);
                assert(line[0] == ScanStep::Cast(ScanRay { axis, origin }));
                assert(line.drop_first() =~= shorter);
                assert((line + rest).drop_first() =~= shorter + rest);
                assert(self.remaining() =~= shorter + rest);
            }
            Some(ScanStep::Cast(ScanRay { axis, origin }))
        } else {
            proof {
                assert(line =~= seq![ScanStep::LineDone]);
                assert((line + rest).drop_first() =~= rest);
            }
            if self.outer + 1 < outer_hi {
                *self = ShellScan { bounds, pass: Some(axis), outer: self.outer + 1, inner: inner_lo };
                proof {
                    assert(self.remaining() =~= rest);
                }
            } else {
                proof {
                    assert(bounds.pass_steps(axis, before.outer + 1) =~= Seq::empty());
                    assert(rest =~= bounds.later_passes(axis));
                }
                match axis {
                    Axis::X => {
                        *self = ShellScan::at_pass(bounds, Axis::Y);
                    },
                    Axis::Y => {
                        *self = ShellScan::at_pass(bounds, Axis::Z);
                    },
                    Axis::Z => {
                        *self = ShellScan { bounds, pass: None, outer: 0, inner: 0 };
                    },
                }
                proof {
                    assert(self.remaining() =~= rest);
                }
            }
            Some(ScanStep::LineDone)
        }
    }
}

/// The number of line ends among the steps.
pub open spec fn line_ends(steps: Seq<ScanStep>) -> nat
    decreases steps.len(),
{
    if steps.len() == 0 {
        0
    } else if steps.last() is LineDone {
        line_ends(steps.drop_last()) + 1
    } else {
        line_ends(steps.drop_last())
    }
}

impl ScanBounds {
    /// The number of rays of the scan: one for each grid point of the two
    /// other axes, for each of the three axes.
    pub open spec fn rays(self) -> nat {
        let x = extent(self.min.x as int, self.max.x as int);
        let y = extent(self.min.y as int, self.max.y as int);
        let z = extent(self.min.z as int, self.max.z as int);
        y * z + x * z + x * y
    }
}

proof fn lemma_line_ends_add(a: Seq<ScanStep>, b: Seq<ScanStep>)
    ensures
        line_ends(a + b) == line_ends(a) + line_ends(b),
    decreases b.len(),
{
    if b.len() == 0 {
        assert(a + b =~= a);
    } else {
        assert((a + b).drop_last() =~= a + b.drop_last());
        lemma_line_ends_add(a, b.drop_last());
    }
}

proof fn lemma_rays_hold_no_line_end(steps: Seq<ScanStep>)
    requires
        forall|i: int| 0 <= i < steps.len() ==> #[trigger] steps[i] is Cast,
    ensures
        line_ends(steps) == 0,
    decreases steps.len(),
{
    if steps.len() > 0 {
        lemma_rays_hold_no_line_end(steps.drop_last());
    }
}

proof fn lemma_line(bounds: ScanBounds, axis: Axis, outer: int, from: int)
    ensures
        bounds.line_steps(axis, outer, from).len() == extent(from, bounds.inner_hi(axis)) + 1,
        line_ends(bounds.line_steps(axis, outer, from)) == 1,
{
    let line = bounds.line_steps(axis, outer, from);
    let rays = Seq::new(
        extent(from, bounds.inner_hi(axis)),
        |k: int| ScanStep::Cast(bounds.ray(axis, outer, from + k)),
    );
    assert(line.drop_last() =~= rays);
    lemma_rays_hold_no_line_end(rays);
}

proof fn lemma_pass(bounds: ScanBounds, axis: Axis, from: int)
    ensures
        bounds.pass_steps(axis, from).len() == extent(from, bounds.outer_hi(axis)) * (extent(
            bounds.inner_lo(axis),
            bounds.inner_hi(axis),
        ) + 1),
        line_ends(bounds.pass_steps(axis, from)) == extent(from, bounds.outer_hi(axis)),
    decreases bounds.outer_hi(axis) - from,
{
    let width = extent(bounds.inner_lo(axis), bounds.inner_hi(axis)) as int;
    if from >= bounds.outer_hi(axis) {
        assert(0 * (width + 1) == 0);
    } else {
        let line = bounds.line_steps(axis, from, bounds.inner_lo(axis));
        let rest = bounds.pass_steps(axis, from + 1);
        lemma_line(bounds, axis, from, bounds.inner_lo(axis));
        lemma_pass(bounds, axis, from + 1);
        lemma_line_ends_add(line, rest);
        let left = extent(from + 1, bounds.outer_hi(axis)) as int;
        assert((left + 1) * (width + 1) == (width + 1) + left * (width + 1)) by (nonlinear_arith);
    }
}

/// The scan ends as many lines as `lines` counts: the extent in y for the
/// pass along x, the extent in x for each of the two others. With the rays it
/// casts, those are all its steps.
pub proof fn lemma_scan_size(bounds: ScanBounds)
    ensures
        line_ends(bounds.steps()) == bounds.lines(),
        bounds.steps().len() == bounds.lines() + bounds.rays(),
{
    let x = extent(bounds.min.x as int, bounds.max.x as int) as int;
    let y = extent(bounds.min.y as int, bounds.max.y as int) as int;
    let z = extent(bounds.min.z as int, bounds.max.z as int) as int;
    lemma_pass(bounds, Axis::X, bounds.outer_lo(Axis::X));
    lemma_pass(bounds, Axis::Y, bounds.outer_lo(Axis::Y));
    lemma_pass(bounds, Axis::Z, bounds.outer_lo(Axis::Z));
    lemma_line_ends_add(bounds.pass(Axis::X), bounds.pass(Axis::Y));
    lemma_line_ends_add(bounds.pass(Axis::X) + bounds.pass(Axis::Y), bounds.pass(Axis::Z));
    assert(y * (z + 1) + x * (z + 1) + x * (y + 1) == (y + x + x) + (y * z + x * z + x * y))
        by (nonlinear_arith);
}

} // verus!
