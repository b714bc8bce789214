use vstd::prelude::*;

verus! {

/// The smallest level-of-detail target.
pub const MIN_LOD_DETAIL: u32 = 100;

/// The largest level-of-detail target.
pub const MAX_LOD_DETAIL: u32 = 2500;

/// `d` clamped into the allowed detail range.
pub open spec fn clamp_detail(d: int) -> int {
    if d < MIN_LOD_DETAIL {
        MIN_LOD_DETAIL as int
    } else if d > MAX_LOD_DETAIL {
        MAX_LOD_DETAIL as int
    } else {
        d
    }
}

/// `detail` clamped into the allowed range.
pub fn clamp_lod_detail(detail: u32) -> (d: u32)
    ensures
        d == clamp_detail(detail as int),
{
    let d = if detail < MIN_LOD_DETAIL { MIN_LOD_DETAIL } else { detail };
    if d > MAX_LOD_DETAIL {
        MAX_LOD_DETAIL
    } else {
        d
    }
}

/// The detail of the mesh to build, when the mesh built so far does not have
/// the target detail.
pub open spec fn rebuild_for(target: u32, built: Option<u32>) -> Option<u32> {
    if built == Some(target) {
        None
    } else {
        Some(target)
    }
}

/// The bookkeeping of the level-of-detail terrain: the detail that is asked
/// for, and the detail of the mesh that was last built, if any.
pub struct Lod {
    tgt_detail: u32,
    model_detail: Option<u32>,
}

impl Lod {
    pub closed spec fn target(&self) -> u32 {
        self.tgt_detail
    }

    pub closed spec fn built(&self) -> Option<u32> {
        self.model_detail
    }

    /// No mesh built yet; the target is the configured detail, made even and
    /// clamped into the allowed range, as `set_detail` records it.
    pub fn new(configured_detail: u32) -> (l: Self)
        ensures
            l.target() == clamp_detail(configured_detail - configured_detail % 2),
            l.target() % 2 == 0,
            l.built() == None::<u32>,
    {
        let even = configured_detail - configured_detail % 2;
        Lod { tgt_detail: clamp_lod_detail(even), model_detail: None }
    }

    /// The detail that is asked for.
    pub fn get_detail(&self) -> (d: u32)
        ensures
            d == self.target(),
    {
        self.tgt_detail
    }

    /// Asks for `detail`, made even and clamped into the allowed range.
    pub fn set_detail(&mut self, detail: u32)
        ensures
            final(self).target() == clamp_detail(detail - detail % 2),
            final(self).target() % 2 == 0,
            final(self).built() == old(self).built(),
    {
        let even = detail - detail % 2;
        self.tgt_detail = clamp_lod_detail(even);
    }

    /// Records that a mesh is built when none is, or when its detail differs
    /// from the target, and returns the detail that the new mesh must have.
    pub fn maintain(&mut self) -> (rebuild: Option<u32>)
        ensures
            final(self).target() == old(self).target(),
            final(self).built() == Some(old(self).target()),
            rebuild == rebuild_for(old(self).target(), old(self).built()),
    {
        let rebuild = match self.model_detail {
            Some(d) => d != self.tgt_detail,
            None => true,
        };
        if rebuild {
            self.model_detail = Some(self.tgt_detail);
            Some(self.tgt_detail)
        } else {
            None
        }
    }
}

/// A target set by `set_detail` is even and in the allowed range, and
/// setting it again changes nothing.
pub proof fn lemma_set_detail_normalizes(detail: u32)
    ensures
        clamp_detail(detail - detail % 2) % 2 == 0,
        MIN_LOD_DETAIL <= clamp_detail(detail - detail % 2) <= MAX_LOD_DETAIL,
        ({
            let t = clamp_detail(detail - detail % 2);
            clamp_detail(t - t % 2) == t
        }),
{
}

/// Once maintained, the terrain asks for no new mesh until the target
/// changes: maintaining again with the same target builds nothing, and a
/// different target always asks for a mesh of that detail.
pub proof fn lemma_maintain_settles(target: u32, other: u32)
    ensures
        rebuild_for(target, Some(target)) == None::<u32>,
        other != target ==> rebuild_for(other, Some(target)) == Some(other),
{
}

/// The grid cell and the rotation of the quad at spiral offset
/// `(pos_x, pos_y)` in a terrain mesh of the given (even) detail. The mesh has
/// an odd side, `detail + 1`, so that its two halves are even around a hole in
/// the middle; quads in the top-right and bottom-left quadrants are not
/// rotated, the others are rotated once.
pub fn quad_cell(pos_x: i32, pos_y: i32, detail: u32) -> (cell: (i32, i32, u8))
    requires
        detail <= MAX_LOD_DETAIL,
        detail % 2 == 0,
        -(detail as int) - 1 <= pos_x <= detail + 1,
        -(detail as int) - 1 <= pos_y <= detail + 1,
    ensures
        ({
            let side = detail + 1;
            let half = side / 2;
            &&& cell.0 == pos_x + half
            &&& cell.1 == pos_y + half
            &&& cell.2 == if (cell.0 > half) != (cell.1 > half) {
                0u8
            } else {
                1u8
            }
        }),
{
    let side = detail + 1;
    let half = (side / 2) as i32;
    let x = pos_x + half;
    let y = pos_y + half;
    let rotation = if (x > half) != (y > half) {
        0
    } else {
        1
    };
    (x, y, rotation)
}

} // verus!
