//! Light removal: darkened voxels and the lit voxels around them that wait
//! to be flooded again.

use crate::lights::LightNode;
use crate::steady::{
    opposite,
    dx,
    dy,
    dz,
    extends,
    lemma_dark_settled,
    lemma_queued_extends,
    next_level,
    permitted,
    queued,
    settled,
    settled_all,
    settled_dir,
    settled_or_queued,
    transparent,
};
use crate::world::{LightColor, Registry, Space, WorldConfig};
use vstd::prelude::*;

verus! {

/// The queue holds a node for voxel `(x, y, z)`, at any level.
pub open spec fn holds_voxel(q: Seq<LightNode>, x: int, y: int, z: int) -> bool {
    exists|j: int|
        0 <= j < q.len() && #[trigger] q[j].voxel[0] == x && q[j].voxel[1] == y && q[j].voxel[2]
            == z
}

/// Around voxel `(x, y, z)`, in direction `d`, a lit neighbor within the
/// height waits in `fill` at its current level.
pub open spec fn refilled_dir(
    space: &Space,
    fill: Seq<LightNode>,
    config: &WorldConfig,
    c: LightColor,
    x: int,
    y: int,
    z: int,
    d: int,
) -> bool {
    let (nx, ny, nz) = (x + dx(d), y + dy(d), z + dz(d));
    0 <= ny < config.max_height && space.light(c, nx, ny, nz) > 0 ==> queued(
        fill,
        nx,
        ny,
        nz,
        space.light(c, nx, ny, nz),
    )
}

pub open spec fn refilled(
    space: &Space,
    fill: Seq<LightNode>,
    config: &WorldConfig,
    c: LightColor,
    x: int,
    y: int,
    z: int,
) -> bool {
    forall|d: int| 0 <= d < 6 ==> #[trigger] refilled_dir(space, fill, config, c, x, y, z, d)
}

/// During a removal: every level is the one it started with or zero, and
/// every darkened permitted voxel is still queued in `dark`, has its lit
/// neighbors queued in `fill`, or is voxel `(ux, uy, uz)`.
pub open spec fn darkening(
    start: &Space,
    space: &Space,
    dark: Seq<LightNode>,
    fill: Seq<LightNode>,
    config: &WorldConfig,
    c: LightColor,
    excused: bool,
    ux: int,
    uy: int,
    uz: int,
) -> bool {
    &&& forall|x: int, y: int, z: int|
        #[trigger] space.light(c, x, y, z) == start.light(c, x, y, z) || space.light(c, x, y, z)
            == 0
    &&& forall|x: int, y: int, z: int|
        permitted(space, config, None, None, x, y, z) && space.light(c, x, y, z) == 0
            && start.light(c, x, y, z) > 0 ==> holds_voxel(dark, x, y, z) || #[trigger] refilled(
            space,
            fill,
            config,
            c,
            x,
            y,
            z,
        ) || (excused && x == ux && y == uy && z == uz)
}


/// Darkening other voxels, and a refill queue that only grows, keep a
/// voxel's lit neighbors queued.
pub proof fn lemma_refilled_keep(
    s1: &Space,
    s2: &Space,
    f1: Seq<LightNode>,
    f2: Seq<LightNode>,
    config: &WorldConfig,
    c: LightColor,
    x: int,
    y: int,
    z: int,
)
    requires
        extends(f2, f1),
        forall|a: int, b: int, e: int|
            #[trigger] s2.light(c, a, b, e) == s1.light(c, a, b, e) || s2.light(c, a, b, e) == 0,
    ensures
        forall|d: int|
            refilled_dir(s1, f1, config, c, x, y, z, d) ==> #[trigger] refilled_dir(
                s2,
                f2,
                config,
                c,
                x,
                y,
                z,
                d,
            ),
{
    assert forall|d: int|
        refilled_dir(s1, f1, config, c, x, y, z, d) implies #[trigger] refilled_dir(
        s2,
        f2,
        config,
        c,
        x,
        y,
        z,
        d,
    ) by {
        let (nx, ny, nz) = (x + dx(d), y + dy(d), z + dz(d));
        let l = s2.light(c, nx, ny, nz);
        if 0 <= ny < config.max_height && l > 0 {
            assert(s1.light(c, nx, ny, nz) == l);
            lemma_queued_extends(f1, f2, nx, ny, nz, l);
        }
    }
}

/// Once darkening is over, a steady field of a color channel is ready to be
/// flooded again from the refill queue.
pub proof fn lemma_refill_ready(
    start: &Space,
    space: &Space,
    fill: Seq<LightNode>,
    registry: &Registry,
    config: &WorldConfig,
    c: LightColor,
)
    requires
        c != LightColor::Sunlight,
        space.same_blocks(start),
        settled_all(start, registry, config, None, None, c),
        darkening(start, space, Seq::empty(), fill, config, c, false, 0, 0, 0),
    ensures
        settled_or_queued(space, registry, config, None, None, c, fill),
{
    assert forall|x: int, y: int, z: int|
        permitted(space, config, None, None, x, y, z) implies #[trigger] settled(
            space,
            registry,
            config,
            None,
            None,
            c,
            x,
            y,
            z,
        ) || queued(fill, x, y, z, space.light(c, x, y, z)) by {
        let l = space.light(c, x, y, z);
        if l == 0 {
            lemma_dark_settled(space, registry, config, None, None, c, x, y, z);
        } else if !queued(fill, x, y, z, l) {
            assert(l == start.light(c, x, y, z));
            assert(permitted(start, config, None, None, x, y, z));
            assert(settled(start, registry, config, None, None, c, x, y, z));
            assert forall|d: int| 0 <= d < 6 implies #[trigger] settled_dir(
                space,
                registry,
                config,
                None,
                None,
                c,
                x,
                y,
                z,
                d,
            ) by {
                let (nx, ny, nz) = (x + dx(d), y + dy(d), z + dz(d));
                assert(settled_dir(start, registry, config, None, None, c, x, y, z, d));
                assert(space.voxel(nx, ny, nz) == start.voxel(nx, ny, nz));
                if permitted(space, config, None, None, nx, ny, nz) && transparent(
                    space,
                    registry,
                    nx,
                    ny,
                    nz,
                ) && space.light(c, nx, ny, nz) < next_level(
                    c,
                    d,
                    l,
                    config.max_light_level as int,
                ) {
                    assert(space.light(c, nx, ny, nz) == start.light(c, nx, ny, nz) || space.light(
                        c,
                        nx,
                        ny,
                        nz,
                    ) == 0);
                    assert(!holds_voxel(Seq::<LightNode>::empty(), nx, ny, nz));
                    assert(refilled(space, fill, config, c, nx, ny, nz));
                    assert(refilled_dir(space, fill, config, c, nx, ny, nz, opposite(d)));
                }
            }
            assert(settled_dir(space, registry, config, None, None, c, x, y, z, 0));
            assert(settled_dir(space, registry, config, None, None, c, x, y, z, 1));
            assert(settled_dir(space, registry, config, None, None, c, x, y, z, 2));
            assert(settled_dir(space, registry, config, None, None, c, x, y, z, 3));
            assert(settled_dir(space, registry, config, None, None, c, x, y, z, 4));
            assert(settled_dir(space, registry, config, None, None, c, x, y, z, 5));
        }
    }
}

/// Channel `c` is steady at every voxel of the box within the height, not
/// only at the permitted ones.
pub open spec fn settled_everywhere(space: &Space, registry: &Registry, config: &WorldConfig, c: LightColor) -> bool {
    forall|x: int, y: int, z: int|
        space.contains(x, y, z) && 0 <= y < config.max_height ==> #[trigger] settled(
            space,
            registry,
            config,
            None,
            None,
            c,
            x,
            y,
            z,
        )
}

/// A refill node stands in the box, within the height, at or below the level
/// its voxel held at the start.
pub open spec fn fill_ok(start: &Space, config: &WorldConfig, c: LightColor, node: LightNode) -> bool {
    let (x, y, z) = (node.voxel[0] as int, node.voxel[1] as int, node.voxel[2] as int);
    &&& start.contains(x, y, z)
    &&& 0 <= y < config.max_height
    &&& node.level <= start.light(c, x, y, z)
}

/// After removing the light of `(x, y, z)`, what it holds is no more than one
/// step carries from what its neighbor in direction `e` held before.
pub open spec fn removal_bounded(
    before: &Space,
    after: &Space,
    config: &WorldConfig,
    c: LightColor,
    x: int,
    y: int,
    z: int,
    e: int,
) -> bool {
    after.light(c, x, y, z) <= next_level(
        c,
        opposite(e),
        before.light(c, x + dx(e), y + dy(e), z + dz(e)),
        config.max_light_level as int,
    )
}
} // verus!
