//! The top-down sweep of propagation: sky-exposed columns, the sun mask,
//! and what the sweep leaves at each voxel of the region.

use crate::lights::LightNode;
use crate::steady::{
    all_justified,
    justified,
    justified_dir,
    next_level,
    opposite,
    raised,
    down,
    dx,
    dy,
    dz,
    extends,
    flood_requires,
    lemma_dark_settled,
    lemma_queued_extends,
    levels_within,
    permitted,
    queued,
    settled,
    settled_dir,
    settled_or_queued,
    transparent,
};
use crate::world::{Block, LightColor, Registry, Space, Vec3, WorldConfig};
use vstd::arithmetic::div_mod::{
    lemma_fundamental_div_mod_converse_div, lemma_fundamental_div_mod_converse_mod,
};
use vstd::prelude::*;

verus! {

/// Every voxel of column `(x, z)` from height `y` up to `h` is transparent.
pub open spec fn column_clear(space: &Space, registry: &Registry, x: int, y: int, z: int, h: int) -> bool {
    forall|y2: int| y <= y2 < h ==> #[trigger] transparent(space, registry, x, y2, z)
}

/// Column `(x, z)` lies in the region `[min, min + shape)`.
pub open spec fn in_region(min: &Vec3<i32>, shape: &Vec3<usize>, x: int, z: int) -> bool {
    &&& min.0 <= x < min.0 + shape.0
    &&& min.2 <= z < min.2 + shape.2
}

/// A transparent voxel beside a sky-exposed voxel of the region, in lateral
/// direction `d`, holds at least one level below full sunlight.
pub open spec fn lit_beside(
    space: &Space,
    registry: &Registry,
    config: &WorldConfig,
    min: &Vec3<i32>,
    shape: &Vec3<usize>,
    x: int,
    y: int,
    z: int,
    d: int,
) -> bool {
    let (nx, nz) = (x + dx(d), z + dz(d));
    transparent(space, registry, x, y, z) && in_region(min, shape, nx, nz) && column_clear(
        space,
        registry,
        nx,
        y,
        nz,
        config.max_height as int,
    ) ==> space.light(LightColor::Sunlight, x, y, z) >= config.max_light_level - 1
}

/// What the top-down sweep of propagation leaves at a voxel: sunlight from
/// the sky column or from beside it, emitted color light, and seeds queued
/// for the flood of each channel.
pub open spec fn swept(
    space: &Space,
    registry: &Registry,
    config: &WorldConfig,
    min: &Vec3<i32>,
    shape: &Vec3<usize>,
    qs: Seq<LightNode>,
    qr: Seq<LightNode>,
    qg: Seq<LightNode>,
    qb: Seq<LightNode>,
    x: int,
    y: int,
    z: int,
) -> bool {
    let b = registry.blocks@[space.voxel(x, y, z)];
    let max = config.max_light_level as int;
    let sun = space.light(LightColor::Sunlight, x, y, z);
    let red = space.light(LightColor::Red, x, y, z);
    let green = space.light(LightColor::Green, x, y, z);
    let blue = space.light(LightColor::Blue, x, y, z);
    &&& (sun == max) == column_clear(space, registry, x, y, z, config.max_height as int)
    &&& sun == max || sun == 0 || queued(qs, x, y, z, sun)
    &&& !b.is_transparent ==> sun == 0
    &&& sun != max && sun != 0 ==> side_seeded(space, registry, config, min, shape, x, y, z)
    &&& lit_beside(space, registry, config, min, shape, x, y, z, 0)
    &&& lit_beside(space, registry, config, min, shape, x, y, z, 1)
    &&& lit_beside(space, registry, config, min, shape, x, y, z, 2)
    &&& lit_beside(space, registry, config, min, shape, x, y, z, 3)
    &&& red == if b.is_light {
        b.red_light_level as int
    } else {
        0
    }
    &&& green == if b.is_light {
        b.green_light_level as int
    } else {
        0
    }
    &&& blue == if b.is_light {
        b.blue_light_level as int
    } else {
        0
    }
    &&& red == 0 || queued(qr, x, y, z, red)
    &&& green == 0 || queued(qg, x, y, z, green)
    &&& blue == 0 || queued(qb, x, y, z, blue)
}

/// Voxel `(lx, ly, lz)`, in region coordinates, comes before the sweep's
/// position `(cx, cy, cz)`: layers go from the top down, then x, then z.
pub open spec fn swept_before(cy: int, cx: int, cz: int, lx: int, ly: int, lz: int) -> bool {
    ly > cy || (ly == cy && (lx < cx || (lx == cx && lz < cz)))
}

/// Index of column `(lx, lz)` in the sweep's mask.
pub open spec fn mask_index(lx: int, lz: int, sx: int) -> int {
    lx + lz * sx
}

/// The mask holds, for each column of the region, full sunlight if the
/// column is clear down to the layer being swept (for a column already swept
/// in this layer) or down to the layer above (for one not yet swept), else zero.
pub open spec fn mask_ok(
    mask: Seq<u32>,
    space: &Space,
    registry: &Registry,
    config: &WorldConfig,
    min: &Vec3<i32>,
    shape: &Vec3<usize>,
    cy: int,
    cx: int,
    cz: int,
) -> bool {
    &&& mask.len() == shape.0 * shape.2
    &&& forall|lx: int, lz: int|
        0 <= lx < shape.0 && 0 <= lz < shape.2 ==> #[trigger] mask[mask_index(lx, lz, shape.0 as int)]
            == if column_clear(
            space,
            registry,
            min.0 + lx,
            if swept_before(cy, cx, cz, lx, cy, lz) {
                cy
            } else {
                cy + 1
            },
            min.2 + lz,
            config.max_height as int,
        ) {
            config.max_light_level
        } else {
            0
        }
}

/// Every voxel of the region that the sweep has passed is swept.
pub open spec fn swept_upto(
    space: &Space,
    registry: &Registry,
    config: &WorldConfig,
    min: &Vec3<i32>,
    shape: &Vec3<usize>,
    qs: Seq<LightNode>,
    qr: Seq<LightNode>,
    qg: Seq<LightNode>,
    qb: Seq<LightNode>,
    cy: int,
    cx: int,
    cz: int,
) -> bool {
    forall|x: int, y: int, z: int|
        in_region(min, shape, x, z) && 0 <= y < config.max_height && swept_before(
            cy,
            cx,
            cz,
            x - min.0,
            y,
            z - min.2,
        ) ==> #[trigger] swept(space, registry, config, min, shape, qs, qr, qg, qb, x, y, z)
}

pub proof fn lemma_mask_index(lx: int, lz: int, lx2: int, lz2: int, sx: int, sz: int)
    requires
        0 <= lx < sx,
        0 <= lz < sz,
        0 <= lx2 < sx,
        0 <= lz2 < sz,
    ensures
        0 <= mask_index(lx, lz, sx) < sx * sz,
        mask_index(lx, lz, sx) == mask_index(lx2, lz2, sx) ==> lx == lx2 && lz == lz2,
{
    assert(0 <= lx + lz * sx < sx * sz) by (nonlinear_arith)
        requires
            0 <= lx < sx,
            0 <= lz < sz,
    ;
    if mask_index(lx, lz, sx) == mask_index(lx2, lz2, sx) {
        let i = lx + lz * sx;
        lemma_fundamental_div_mod_converse_div(i, sx, lz, lx);
        lemma_fundamental_div_mod_converse_div(i, sx, lz2, lx2);
        lemma_fundamental_div_mod_converse_mod(i, sx, lz, lx);
        lemma_fundamental_div_mod_converse_mod(i, sx, lz2, lx2);
    }
}

pub proof fn lemma_clear_same(s1: &Space, s2: &Space, registry: &Registry, x: int, y: int, z: int, h: int)
    requires
        s2.same_blocks(s1),
    ensures
        column_clear(s1, registry, x, y, z, h) == column_clear(s2, registry, x, y, z, h),
        transparent(s1, registry, x, y, z) == transparent(s2, registry, x, y, z),
{
    assert forall|y2: int|
        #![trigger transparent(s1, registry, x, y2, z)]
        #![trigger transparent(s2, registry, x, y2, z)]
        transparent(s1, registry, x, y2, z) == transparent(s2, registry, x, y2, z) by {
        assert(s1.voxel(x, y2, z) == s2.voxel(x, y2, z));
    }
}

/// Writes elsewhere, and queues that only grow, keep a swept voxel swept.
pub proof fn lemma_swept_keep(
    s1: &Space,
    s2: &Space,
    registry: &Registry,
    config: &WorldConfig,
    min: &Vec3<i32>,
    shape: &Vec3<usize>,
    qs1: Seq<LightNode>,
    qr1: Seq<LightNode>,
    qg1: Seq<LightNode>,
    qb1: Seq<LightNode>,
    qs2: Seq<LightNode>,
    qr2: Seq<LightNode>,
    qg2: Seq<LightNode>,
    qb2: Seq<LightNode>,
    x: int,
    y: int,
    z: int,
)
    requires
        s2.same_blocks(s1),
        forall|c: LightColor| #[trigger] s2.light(c, x, y, z) == s1.light(c, x, y, z),
        extends(qs2, qs1),
        extends(qr2, qr1),
        extends(qg2, qg1),
        extends(qb2, qb1),
        swept(s1, registry, config, min, shape, qs1, qr1, qg1, qb1, x, y, z),
    ensures
        swept(s2, registry, config, min, shape, qs2, qr2, qg2, qb2, x, y, z),
{
    let h = config.max_height as int;
    lemma_clear_same(s1, s2, registry, x, y, z, h);
    assert(s1.voxel(x, y, z) == s2.voxel(x, y, z));
    lemma_side_same(s1, s2, registry, config, min, shape, x, y, z);
    let sun = s1.light(LightColor::Sunlight, x, y, z);
    assert(s2.light(LightColor::Sunlight, x, y, z) == sun);
    assert(s2.light(LightColor::Red, x, y, z) == s1.light(LightColor::Red, x, y, z));
    assert(s2.light(LightColor::Green, x, y, z) == s1.light(LightColor::Green, x, y, z));
    assert(s2.light(LightColor::Blue, x, y, z) == s1.light(LightColor::Blue, x, y, z));
    if queued(qs1, x, y, z, sun) {
        lemma_queued_extends(qs1, qs2, x, y, z, sun);
    }
    let r = s1.light(LightColor::Red, x, y, z);
    if queued(qr1, x, y, z, r) {
        lemma_queued_extends(qr1, qr2, x, y, z, r);
    }
    let g = s1.light(LightColor::Green, x, y, z);
    if queued(qg1, x, y, z, g) {
        lemma_queued_extends(qg1, qg2, x, y, z, g);
    }
    let b = s1.light(LightColor::Blue, x, y, z);
    if queued(qb1, x, y, z, b) {
        lemma_queued_extends(qb1, qb2, x, y, z, b);
    }
    assert forall|d: int| 0 <= d < 4 implies #[trigger] lit_beside(s2, registry, config, min, shape, x, y, z, d) by {
        assert(lit_beside(s1, registry, config, min, shape, x, y, z, d));
        lemma_clear_same(s1, s2, registry, x + dx(d), y, z + dz(d), h);
    }
}

pub open spec fn propagate_requires(
    space: &Space,
    min: &Vec3<i32>,
    shape: &Vec3<usize>,
    registry: &Registry,
    config: &WorldConfig,
) -> bool {
    &&& flood_requires(space, registry, config)
    &&& registry.levels_within(config.max_light_level as int)
    &&& 1 <= config.max_light_level
    &&& space.min_x <= min.0
    &&& min.0 + shape.0 <= space.min_x + space.width
    &&& space.min_z <= min.2
    &&& min.2 + shape.2 <= space.min_z + space.depth
    &&& config.max_height <= space.height
    &&& shape.0 * shape.2 <= usize::MAX
}

pub proof fn lemma_clear_step(s: &Space, registry: &Registry, x: int, y: int, z: int, h: int)
    requires
        y < h,
    ensures
        column_clear(s, registry, x, y, z, h) == (transparent(s, registry, x, y, z) && column_clear(
            s,
            registry,
            x,
            y + 1,
            z,
            h,
        )),
{
    if transparent(s, registry, x, y, z) && column_clear(s, registry, x, y + 1, z, h) {
        assert forall|y2: int| y <= y2 < h implies #[trigger] transparent(s, registry, x, y2, z) by {
            if y2 > y {
                assert(transparent(s, registry, x, y2, z));
            }
        }
    }
}

pub proof fn lemma_mask_same(
    mask: Seq<u32>,
    s1: &Space,
    s2: &Space,
    registry: &Registry,
    config: &WorldConfig,
    min: &Vec3<i32>,
    shape: &Vec3<usize>,
    cy: int,
    cx: int,
    cz: int,
)
    requires
        s2.same_blocks(s1),
        mask_ok(mask, s1, registry, config, min, shape, cy, cx, cz),
    ensures
        mask_ok(mask, s2, registry, config, min, shape, cy, cx, cz),
{
    assert forall|lx: int, lz: int|
        0 <= lx < shape.0 && 0 <= lz < shape.2 implies #[trigger] mask[mask_index(lx, lz, shape.0 as int)]
            == if column_clear(
            s2,
            registry,
            min.0 + lx,
            if swept_before(cy, cx, cz, lx, cy, lz) {
                cy
            } else {
                cy + 1
            },
            min.2 + lz,
            config.max_height as int,
        ) {
            config.max_light_level
        } else {
            0
        } by {
        lemma_clear_same(s1, s2, registry, min.0 + lx, cy, min.2 + lz, config.max_height as int);
        lemma_clear_same(s1, s2, registry, min.0 + lx, cy + 1, min.2 + lz, config.max_height as int);
    }
}

/// A voxel at full sunlight after the sweep is steady on the sun channel.
pub proof fn lemma_sun_top_settled(
    space: &Space,
    registry: &Registry,
    config: &WorldConfig,
    min: &Vec3<i32>,
    shape: &Vec3<usize>,
    qs: Seq<LightNode>,
    qr: Seq<LightNode>,
    qg: Seq<LightNode>,
    qb: Seq<LightNode>,
    x: int,
    y: int,
    z: int,
)
    requires
        swept_upto(space, registry, config, min, shape, qs, qr, qg, qb, -1, 0, 0),
        permitted(space, config, Some(min), Some(shape), x, y, z),
        space.light(LightColor::Sunlight, x, y, z) == config.max_light_level,
    ensures
        settled(space, registry, config, Some(min), Some(shape), LightColor::Sunlight, x, y, z),
{
    let h = config.max_height as int;
    let max = config.max_light_level as int;
    let sun = LightColor::Sunlight;
    assert(swept(space, registry, config, min, shape, qs, qr, qg, qb, x, y, z));
    assert(column_clear(space, registry, x, y, z, h));
    assert forall|d: int| 0 <= d < 6 implies #[trigger] settled_dir(
        space,
        registry,
        config,
        Some(min),
        Some(shape),
        sun,
        x,
        y,
        z,
        d,
    ) by {
        let (nx, ny, nz) = (x + dx(d), y + dy(d), z + dz(d));
        if permitted(space, config, Some(min), Some(shape), nx, ny, nz) && transparent(
            space,
            registry,
            nx,
            ny,
            nz,
        ) {
            assert(swept(space, registry, config, min, shape, qs, qr, qg, qb, nx, ny, nz));
            if d == 5 {
                lemma_clear_step(space, registry, nx, ny, nz, h);
            } else if d == 4 {
                lemma_clear_step(space, registry, x, y, z, h);
            } else if d == 0 {
                assert(lit_beside(space, registry, config, min, shape, nx, ny, nz, 1));
            } else if d == 1 {
                assert(lit_beside(space, registry, config, min, shape, nx, ny, nz, 0));
            } else if d == 2 {
                assert(lit_beside(space, registry, config, min, shape, nx, ny, nz, 3));
            } else {
                assert(lit_beside(space, registry, config, min, shape, nx, ny, nz, 2));
            }
        }
    }
    assert(settled_dir(space, registry, config, Some(min), Some(shape), sun, x, y, z, 0));
    assert(settled_dir(space, registry, config, Some(min), Some(shape), sun, x, y, z, 1));
    assert(settled_dir(space, registry, config, Some(min), Some(shape), sun, x, y, z, 2));
    assert(settled_dir(space, registry, config, Some(min), Some(shape), sun, x, y, z, 3));
    assert(settled_dir(space, registry, config, Some(min), Some(shape), sun, x, y, z, 4));
    assert(settled_dir(space, registry, config, Some(min), Some(shape), sun, x, y, z, 5));
}

/// After the sweep, every channel is ready to flood from its queue.
pub proof fn lemma_sweep_ready(
    space: &Space,
    registry: &Registry,
    config: &WorldConfig,
    min: &Vec3<i32>,
    shape: &Vec3<usize>,
    qs: Seq<LightNode>,
    qr: Seq<LightNode>,
    qg: Seq<LightNode>,
    qb: Seq<LightNode>,
)
    requires
        swept_upto(space, registry, config, min, shape, qs, qr, qg, qb, -1, 0, 0),
    ensures
        settled_or_queued(space, registry, config, Some(min), Some(shape), LightColor::Sunlight, qs),
        settled_or_queued(space, registry, config, Some(min), Some(shape), LightColor::Red, qr),
        settled_or_queued(space, registry, config, Some(min), Some(shape), LightColor::Green, qg),
        settled_or_queued(space, registry, config, Some(min), Some(shape), LightColor::Blue, qb),
{
    assert forall|c: LightColor, x: int, y: int, z: int|
        permitted(space, config, Some(min), Some(shape), x, y, z) implies #[trigger] settled(
            space,
            registry,
            config,
            Some(min),
            Some(shape),
            c,
            x,
            y,
            z,
        ) || queued(
            match c {
                LightColor::Sunlight => qs,
                LightColor::Red => qr,
                LightColor::Green => qg,
                LightColor::Blue => qb,
            },
            x,
            y,
            z,
            space.light(c, x, y, z),
        ) by {
        assert(swept(space, registry, config, min, shape, qs, qr, qg, qb, x, y, z));
        if space.light(c, x, y, z) == 0 {
            lemma_dark_settled(space, registry, config, Some(min), Some(shape), c, x, y, z);
        } else if c == LightColor::Sunlight && space.light(c, x, y, z)
            == config.max_light_level {
            lemma_sun_top_settled(space, registry, config, min, shape, qs, qr, qg, qb, x, y, z);
        }
    }
    assert forall|x: int, y: int, z: int|
        permitted(space, config, Some(min), Some(shape), x, y, z) implies #[trigger] settled(
            space,
            registry,
            config,
            Some(min),
            Some(shape),
            LightColor::Sunlight,
            x,
            y,
            z,
        ) || queued(qs, x, y, z, space.light(LightColor::Sunlight, x, y, z)) by {
        assert(settled(space, registry, config, Some(min), Some(shape), LightColor::Sunlight, x, y, z)
            || queued(qs, x, y, z, space.light(LightColor::Sunlight, x, y, z)));
    }
    assert forall|x: int, y: int, z: int|
        permitted(space, config, Some(min), Some(shape), x, y, z) implies #[trigger] settled(
            space,
            registry,
            config,
            Some(min),
            Some(shape),
            LightColor::Red,
            x,
            y,
            z,
        ) || queued(qr, x, y, z, space.light(LightColor::Red, x, y, z)) by {
        assert(settled(space, registry, config, Some(min), Some(shape), LightColor::Red, x, y, z)
            || queued(qr, x, y, z, space.light(LightColor::Red, x, y, z)));
    }
    assert forall|x: int, y: int, z: int|
        permitted(space, config, Some(min), Some(shape), x, y, z) implies #[trigger] settled(
            space,
            registry,
            config,
            Some(min),
            Some(shape),
            LightColor::Green,
            x,
            y,
            z,
        ) || queued(qg, x, y, z, space.light(LightColor::Green, x, y, z)) by {
        assert(settled(space, registry, config, Some(min), Some(shape), LightColor::Green, x, y, z)
            || queued(qg, x, y, z, space.light(LightColor::Green, x, y, z)));
    }
    assert forall|x: int, y: int, z: int|
        permitted(space, config, Some(min), Some(shape), x, y, z) implies #[trigger] settled(
            space,
            registry,
            config,
            Some(min),
            Some(shape),
            LightColor::Blue,
            x,
            y,
            z,
        ) || queued(qb, x, y, z, space.light(LightColor::Blue, x, y, z)) by {
        assert(settled(space, registry, config, Some(min), Some(shape), LightColor::Blue, x, y, z)
            || queued(qb, x, y, z, space.light(LightColor::Blue, x, y, z)));
    }
}

/// What propagation leaves in a voxel of the region: an opaque block that
/// emits nothing is dark on every channel, a voxel open to the sky holds full
/// sunlight, and an emissive block holds at least its own levels.
pub open spec fn region_voxel_lit(
    space: &Space,
    registry: &Registry,
    config: &WorldConfig,
    x: int,
    y: int,
    z: int,
) -> bool {
    let b = registry.blocks@[space.voxel(x, y, z)];
    &&& !b.is_transparent && !b.is_light ==> {
        &&& space.light(LightColor::Sunlight, x, y, z) == 0
        &&& space.light(LightColor::Red, x, y, z) == 0
        &&& space.light(LightColor::Green, x, y, z) == 0
        &&& space.light(LightColor::Blue, x, y, z) == 0
    }
    &&& column_clear(space, registry, x, y, z, config.max_height as int) ==> space.light(
        LightColor::Sunlight,
        x,
        y,
        z,
    ) == config.max_light_level
    &&& b.is_light ==> {
        &&& space.light(LightColor::Red, x, y, z) >= b.red_light_level
        &&& space.light(LightColor::Green, x, y, z) >= b.green_light_level
        &&& space.light(LightColor::Blue, x, y, z) >= b.blue_light_level
    }
}

/// What a block emits on channel `c`; nothing on the sun channel.
pub open spec fn emission(b: Block, c: LightColor) -> int {
    if !b.is_light {
        0
    } else {
        match c {
            LightColor::Sunlight => 0,
            LightColor::Red => b.red_light_level as int,
            LightColor::Green => b.green_light_level as int,
            LightColor::Blue => b.blue_light_level as int,
        }
    }
}

/// A node queued by the sweep: an emissive voxel of the region, at the level
/// its block emits on channel `c`.
pub open spec fn emits(
    space: &Space,
    registry: &Registry,
    config: &WorldConfig,
    min: &Vec3<i32>,
    shape: &Vec3<usize>,
    c: LightColor,
    node: LightNode,
) -> bool {
    let (x, y, z) = (node.voxel[0] as int, node.voxel[1] as int, node.voxel[2] as int);
    &&& in_region(min, shape, x, z)
    &&& 0 <= y < config.max_height
    &&& node.level == emission(registry.blocks@[space.voxel(x, y, z)], c)
}

pub open spec fn all_emit(
    space: &Space,
    registry: &Registry,
    config: &WorldConfig,
    min: &Vec3<i32>,
    shape: &Vec3<usize>,
    c: LightColor,
    q: Seq<LightNode>,
) -> bool {
    forall|j: int| 0 <= j < q.len() ==> #[trigger] emits(space, registry, config, min, shape, c, q[j])
}

/// Queued emitters stay emitters while the blocks stay and the queue grows
/// by emitters.
pub proof fn lemma_emit_keep(
    s1: &Space,
    s2: &Space,
    registry: &Registry,
    config: &WorldConfig,
    min: &Vec3<i32>,
    shape: &Vec3<usize>,
    c: LightColor,
    q1: Seq<LightNode>,
    q2: Seq<LightNode>,
)
    requires
        s2.same_blocks(s1),
        extends(q2, q1),
        all_emit(s1, registry, config, min, shape, c, q1),
        forall|j: int| q1.len() <= j < q2.len() ==> #[trigger] emits(s2, registry, config, min, shape, c, q2[j]),
    ensures
        all_emit(s2, registry, config, min, shape, c, q2),
{
    assert forall|j: int| 0 <= j < q2.len() implies #[trigger] emits(s2, registry, config, min, shape, c, q2[j]) by {
        if j < q1.len() {
            assert(q2[j] == q1[j]);
            assert(emits(s1, registry, config, min, shape, c, q1[j]));
            let (x, y, z) = (q1[j].voxel[0] as int, q1[j].voxel[1] as int, q1[j].voxel[2] as int);
            assert(s1.voxel(x, y, z) == s2.voxel(x, y, z));
        }
    }
}

/// Voxel `(x, y, z)` holds on channel `c` at most one less than its neighbor
/// in direction `e`, a voxel of the region.
pub open spec fn step_below(
    space: &Space,
    config: &WorldConfig,
    min: &Vec3<i32>,
    shape: &Vec3<usize>,
    c: LightColor,
    x: int,
    y: int,
    z: int,
    e: int,
) -> bool {
    let (ux, uy, uz) = (x + dx(e), y + dy(e), z + dz(e));
    &&& in_region(min, shape, ux, uz)
    &&& 0 <= uy < config.max_height
    &&& space.light(c, x, y, z) <= space.light(c, ux, uy, uz) - 1
}

/// Voxel `(x, y, z)` holds on channel `c` no more than its own block emits,
/// or one less than some neighbor in the region.
pub open spec fn lit_from_around(
    space: &Space,
    registry: &Registry,
    config: &WorldConfig,
    min: &Vec3<i32>,
    shape: &Vec3<usize>,
    c: LightColor,
    x: int,
    y: int,
    z: int,
) -> bool {
    space.light(c, x, y, z) <= emission(registry.blocks@[space.voxel(x, y, z)], c) || exists|e: int|
        0 <= e < 6 && #[trigger] step_below(space, config, min, shape, c, x, y, z, e)
}

/// After flooding a color channel from the sweep's emitters, a voxel that
/// started at its own emission holds no more than that emission or one less
/// than a neighbor.
pub proof fn lemma_color_bounded(
    before: &Space,
    after: &Space,
    fin: &Space,
    q: Seq<LightNode>,
    registry: &Registry,
    config: &WorldConfig,
    min: &Vec3<i32>,
    shape: &Vec3<usize>,
    c: LightColor,
    x: int,
    y: int,
    z: int,
)
    requires
        c != LightColor::Sunlight,
        after.same_blocks(before),
        fin.same_blocks(before),
        fin.chan(c) == after.chan(c),
        all_justified(after, before, q, config, c),
        all_emit(before, registry, config, min, shape, c, q),
        before.light(c, x, y, z) == emission(registry.blocks@[before.voxel(x, y, z)], c),
        forall|a: int, b: int, e: int|
            in_region(min, shape, a, e) && 0 <= b < config.max_height ==> emission(
                registry.blocks@[fin.voxel(a, b, e)],
                c,
            ) <= #[trigger] fin.light(c, a, b, e),
        forall|a: int, b: int, e: int|
            #[trigger] after.light(c, a, b, e) != before.light(c, a, b, e) ==> in_region(min, shape, a, e) && 0
                <= b < config.max_height,
    ensures
        lit_from_around(fin, registry, config, min, shape, c, x, y, z),
{
    assert(fin.voxel(x, y, z) == before.voxel(x, y, z));
    assert(fin.light(c, x, y, z) == after.light(c, x, y, z));
    if raised(after, before, c, x, y, z) {
        assert(justified(after, before, q, config, c, x, y, z));
        let e = choose|e: int| 0 <= e < 6 && #[trigger] justified_dir(after, before, q, config, c, x, y, z, e);
        let (ux, uy, uz) = (x + dx(e), y + dy(e), z + dz(e));
        assert(fin.light(c, ux, uy, uz) == after.light(c, ux, uy, uz));
        if !(raised(after, before, c, ux, uy, uz) && after.light(c, x, y, z) <= next_level(
            c,
            opposite(e),
            after.light(c, ux, uy, uz),
            config.max_light_level as int,
        )) {
            let s = choose|s: int| #[trigger] queued(q, ux, uy, uz, s) && after.light(c, x, y, z)
                <= next_level(c, opposite(e), s, config.max_light_level as int);
            let j = choose|j: int|
                0 <= j < q.len() && #[trigger] q[j].voxel[0] == ux && q[j].voxel[1] == uy && q[j].voxel[2]
                    == uz && q[j].level == s;
            assert(emits(before, registry, config, min, shape, c, q[j]));
            assert(fin.voxel(ux, uy, uz) == before.voxel(ux, uy, uz));
            assert(emission(registry.blocks@[fin.voxel(ux, uy, uz)], c) <= fin.light(c, ux, uy, uz));
        }
        assert(step_below(fin, config, min, shape, c, x, y, z, e));
    }
}

/// The column beside `(x, y, z)` in lateral direction `d` lies in the region
/// and is clear from the layer above `y` up to the sky.
pub open spec fn side_clear(
    space: &Space,
    registry: &Registry,
    config: &WorldConfig,
    min: &Vec3<i32>,
    shape: &Vec3<usize>,
    x: int,
    y: int,
    z: int,
    d: int,
) -> bool {
    let (nx, nz) = (x + dx(d), z + dz(d));
    in_region(min, shape, nx, nz) && column_clear(space, registry, nx, y + 1, nz, config.max_height as int)
}

/// Some lateral column beside `(x, y, z)` is clear from the layer above.
pub open spec fn side_seeded(
    space: &Space,
    registry: &Registry,
    config: &WorldConfig,
    min: &Vec3<i32>,
    shape: &Vec3<usize>,
    x: int,
    y: int,
    z: int,
) -> bool {
    side_clear(space, registry, config, min, shape, x, y, z, 0) || side_clear(space, registry, config, min, shape, x, y, z, 1)
        || side_clear(space, registry, config, min, shape, x, y, z, 2) || side_clear(
        space,
        registry,
        config,
        min,
        shape,
        x,
        y,
        z,
        3,
    )
}

/// The sunlight the sweep may give a voxel: full in a clear column, one
/// less beside a column clear from the layer above, else none.
pub open spec fn sun_base(
    space: &Space,
    registry: &Registry,
    config: &WorldConfig,
    min: &Vec3<i32>,
    shape: &Vec3<usize>,
    x: int,
    y: int,
    z: int,
) -> int {
    if column_clear(space, registry, x, y, z, config.max_height as int) {
        config.max_light_level as int
    } else if side_seeded(space, registry, config, min, shape, x, y, z) {
        config.max_light_level - 1
    } else {
        0
    }
}

/// A sunlight seed of the sweep: a voxel of the region beside a column clear
/// from the layer above, at one less than full sunlight.
pub open spec fn sun_seed(
    space: &Space,
    registry: &Registry,
    config: &WorldConfig,
    min: &Vec3<i32>,
    shape: &Vec3<usize>,
    node: LightNode,
) -> bool {
    let (x, y, z) = (node.voxel[0] as int, node.voxel[1] as int, node.voxel[2] as int);
    &&& in_region(min, shape, x, z)
    &&& 0 <= y < config.max_height
    &&& node.level == config.max_light_level - 1
    &&& side_seeded(space, registry, config, min, shape, x, y, z)
}

pub open spec fn all_sun_seeds(
    space: &Space,
    registry: &Registry,
    config: &WorldConfig,
    min: &Vec3<i32>,
    shape: &Vec3<usize>,
    q: Seq<LightNode>,
) -> bool {
    forall|j: int| 0 <= j < q.len() ==> #[trigger] sun_seed(space, registry, config, min, shape, q[j])
}

pub proof fn lemma_side_same(
    s1: &Space,
    s2: &Space,
    registry: &Registry,
    config: &WorldConfig,
    min: &Vec3<i32>,
    shape: &Vec3<usize>,
    x: int,
    y: int,
    z: int,
)
    requires
        s2.same_blocks(s1),
    ensures
        side_seeded(s1, registry, config, min, shape, x, y, z) == side_seeded(s2, registry, config, min, shape, x, y, z),
        sun_base(s1, registry, config, min, shape, x, y, z) == sun_base(s2, registry, config, min, shape, x, y, z),
{
    let h = config.max_height as int;
    lemma_clear_same(s1, s2, registry, x, y, z, h);
    lemma_clear_same(s1, s2, registry, x + 1, y + 1, z, h);
    lemma_clear_same(s1, s2, registry, x - 1, y + 1, z, h);
    lemma_clear_same(s1, s2, registry, x, y + 1, z + 1, h);
    lemma_clear_same(s1, s2, registry, x, y + 1, z - 1, h);
}

/// Sunlight seeds stay seeds while the blocks stay and the queue grows by seeds.
pub proof fn lemma_sun_seeds_keep(
    s1: &Space,
    s2: &Space,
    registry: &Registry,
    config: &WorldConfig,
    min: &Vec3<i32>,
    shape: &Vec3<usize>,
    q1: Seq<LightNode>,
    q2: Seq<LightNode>,
)
    requires
        s2.same_blocks(s1),
        extends(q2, q1),
        all_sun_seeds(s1, registry, config, min, shape, q1),
        forall|j: int| q1.len() <= j < q2.len() ==> #[trigger] sun_seed(s2, registry, config, min, shape, q2[j]),
    ensures
        all_sun_seeds(s2, registry, config, min, shape, q2),
{
    assert forall|j: int| 0 <= j < q2.len() implies #[trigger] sun_seed(s2, registry, config, min, shape, q2[j]) by {
        if j < q1.len() {
            assert(q2[j] == q1[j]);
            assert(sun_seed(s1, registry, config, min, shape, q1[j]));
            let (x, y, z) = (q1[j].voxel[0] as int, q1[j].voxel[1] as int, q1[j].voxel[2] as int);
            lemma_side_same(s1, s2, registry, config, min, shape, x, y, z);
        }
    }
}

/// Voxel `(x, y, z)` holds no more sunlight than one step carries from its
/// neighbor in direction `e`, a voxel of the region, or from that neighbor's
/// sweep level.
pub open spec fn sun_step(
    space: &Space,
    registry: &Registry,
    config: &WorldConfig,
    min: &Vec3<i32>,
    shape: &Vec3<usize>,
    x: int,
    y: int,
    z: int,
    e: int,
) -> bool {
    let (ux, uy, uz) = (x + dx(e), y + dy(e), z + dz(e));
    let max = config.max_light_level as int;
    let s = space.light(LightColor::Sunlight, x, y, z);
    &&& in_region(min, shape, ux, uz)
    &&& 0 <= uy < config.max_height
    &&& (s <= next_level(LightColor::Sunlight, opposite(e), space.light(LightColor::Sunlight, ux, uy, uz), max)
        || s <= next_level(LightColor::Sunlight, opposite(e), sun_base(space, registry, config, min, shape, ux, uy, uz), max))
}

/// Voxel `(x, y, z)` holds no more sunlight than the sweep may give it, or
/// than one step carries from a neighbor in the region.
pub open spec fn sun_from_around(
    space: &Space,
    registry: &Registry,
    config: &WorldConfig,
    min: &Vec3<i32>,
    shape: &Vec3<usize>,
    x: int,
    y: int,
    z: int,
) -> bool {
    space.light(LightColor::Sunlight, x, y, z) <= sun_base(space, registry, config, min, shape, x, y, z)
        || exists|e: int| 0 <= e < 6 && #[trigger] sun_step(space, registry, config, min, shape, x, y, z, e)
}

/// After flooding sunlight from the sweep's seeds, a voxel that started at
/// most at its sweep level holds no more than that level or one step from a
/// neighbor in the region.
pub proof fn lemma_sun_bounded(
    before: &Space,
    after: &Space,
    q: Seq<LightNode>,
    registry: &Registry,
    config: &WorldConfig,
    min: &Vec3<i32>,
    shape: &Vec3<usize>,
    x: int,
    y: int,
    z: int,
)
    requires
        after.same_blocks(before),
        all_justified(after, before, q, config, LightColor::Sunlight),
        all_sun_seeds(before, registry, config, min, shape, q),
        before.light(LightColor::Sunlight, x, y, z) <= sun_base(before, registry, config, min, shape, x, y, z),
        forall|a: int, b: int, e: int|
            #[trigger] after.light(LightColor::Sunlight, a, b, e) != before.light(LightColor::Sunlight, a, b, e)
                ==> in_region(min, shape, a, e) && 0 <= b < config.max_height,
    ensures
        sun_from_around(after, registry, config, min, shape, x, y, z),
{
    let c = LightColor::Sunlight;
    let max = config.max_light_level as int;
    lemma_side_same(before, after, registry, config, min, shape, x, y, z);
    if raised(after, before, c, x, y, z) {
        assert(justified(after, before, q, config, c, x, y, z));
        let e = choose|e: int| 0 <= e < 6 && #[trigger] justified_dir(after, before, q, config, c, x, y, z, e);
        let (ux, uy, uz) = (x + dx(e), y + dy(e), z + dz(e));
        lemma_side_same(before, after, registry, config, min, shape, ux, uy, uz);
        if !(raised(after, before, c, ux, uy, uz) && after.light(c, x, y, z) <= next_level(
            c,
            opposite(e),
            after.light(c, ux, uy, uz),
            max,
        )) {
            let s = choose|s: int| #[trigger] queued(q, ux, uy, uz, s) && after.light(c, x, y, z)
                <= next_level(c, opposite(e), s, max);
            let j = choose|j: int|
                0 <= j < q.len() && #[trigger] q[j].voxel[0] == ux && q[j].voxel[1] == uy && q[j].voxel[2]
                    == uz && q[j].level == s;
            assert(sun_seed(before, registry, config, min, shape, q[j]));
            assert(sun_base(after, registry, config, min, shape, ux, uy, uz) >= max - 1);
        }
        assert(sun_step(after, registry, config, min, shape, x, y, z, e));
    }
}

} // verus!
