//! Steadiness of a light field: how far light may fall off between
//! neighbors, and what a flood step keeps.

use crate::lights::LightNode;
use crate::world::{LightColor, Registry, Space, Vec3, WorldConfig};
use vstd::prelude::*;

verus! {

/// The six axial directions, in the order `+x, -x, +z, -z, +y, -y`.
pub open spec fn dx(d: int) -> int {
    if d == 0 {
        1
    } else if d == 1 {
        -1
    } else {
        0
    }
}

pub open spec fn dy(d: int) -> int {
    if d == 4 {
        1
    } else if d == 5 {
        -1
    } else {
        0
    }
}

pub open spec fn dz(d: int) -> int {
    if d == 2 {
        1
    } else if d == 3 {
        -1
    } else {
        0
    }
}

/// The direction straight down.
pub open spec fn down() -> int {
    5
}

/// The level that a step in direction `d` carries from a cell at level `l`:
/// one less, except that full sunlight goes down without loss.
pub open spec fn next_level(c: LightColor, d: int, l: int, max_level: int) -> int {
    if c == LightColor::Sunlight && d == down() && l == max_level {
        max_level
    } else {
        l - 1
    }
}

/// Column `(x, z)` lies in the optional lateral bounds `[min, min + shape)`.
pub open spec fn in_bounds(min: Option<&Vec3<i32>>, shape: Option<&Vec3<usize>>, x: int, z: int) -> bool {
    match min {
        None => true,
        Some(m) => {
            &&& m.0 <= x
            &&& m.2 <= z
            &&& match shape {
                None => true,
                Some(s) => x < m.0 + s.0 && z < m.2 + s.2,
            }
        },
    }
}

/// A voxel that flooding may write: inside the height, the world's chunks,
/// the bounds, and the space.
pub open spec fn permitted(
    space: &Space,
    config: &WorldConfig,
    min: Option<&Vec3<i32>>,
    shape: Option<&Vec3<usize>>,
    x: int,
    y: int,
    z: int,
) -> bool {
    &&& 0 <= y < config.max_height
    &&& config.in_world(x, z)
    &&& in_bounds(min, shape, x, z)
    &&& space.contains(x, y, z)
}

pub open spec fn transparent(space: &Space, registry: &Registry, x: int, y: int, z: int) -> bool {
    registry.blocks@[space.voxel(x, y, z)].is_transparent
}

/// Light does not fall off too fast from `(x, y, z)` in direction `d`: a
/// permitted transparent neighbor holds at least what one step carries.
pub open spec fn settled_dir(
    space: &Space,
    registry: &Registry,
    config: &WorldConfig,
    min: Option<&Vec3<i32>>,
    shape: Option<&Vec3<usize>>,
    c: LightColor,
    x: int,
    y: int,
    z: int,
    d: int,
) -> bool {
    let (nx, ny, nz) = (x + dx(d), y + dy(d), z + dz(d));
    permitted(space, config, min, shape, nx, ny, nz) && transparent(space, registry, nx, ny, nz)
        ==> space.light(c, nx, ny, nz) >= next_level(
        c,
        d,
        space.light(c, x, y, z),
        config.max_light_level as int,
    )
}

/// Light does not fall off too fast from `(x, y, z)` in any direction.
pub open spec fn settled(
    space: &Space,
    registry: &Registry,
    config: &WorldConfig,
    min: Option<&Vec3<i32>>,
    shape: Option<&Vec3<usize>>,
    c: LightColor,
    x: int,
    y: int,
    z: int,
) -> bool {
    &&& settled_dir(space, registry, config, min, shape, c, x, y, z, 0)
    &&& settled_dir(space, registry, config, min, shape, c, x, y, z, 1)
    &&& settled_dir(space, registry, config, min, shape, c, x, y, z, 2)
    &&& settled_dir(space, registry, config, min, shape, c, x, y, z, 3)
    &&& settled_dir(space, registry, config, min, shape, c, x, y, z, 4)
    &&& settled_dir(space, registry, config, min, shape, c, x, y, z, 5)
}

/// The light field of channel `c` is steady on every permitted voxel.
pub open spec fn settled_all(
    space: &Space,
    registry: &Registry,
    config: &WorldConfig,
    min: Option<&Vec3<i32>>,
    shape: Option<&Vec3<usize>>,
    c: LightColor,
) -> bool {
    forall|x: int, y: int, z: int|
        permitted(space, config, min, shape, x, y, z) ==> #[trigger] settled(
            space,
            registry,
            config,
            min,
            shape,
            c,
            x,
            y,
            z,
        )
}

/// The queue holds a node for voxel `(x, y, z)` at level `l`.
pub open spec fn queued(q: Seq<LightNode>, x: int, y: int, z: int, l: int) -> bool {
    exists|j: int|
        0 <= j < q.len() && #[trigger] q[j].voxel[0] == x && q[j].voxel[1] == y && q[j].voxel[2]
            == z && q[j].level == l
}

/// Every permitted voxel is steady, or waits in the queue at its current level.
pub open spec fn settled_or_queued(
    space: &Space,
    registry: &Registry,
    config: &WorldConfig,
    min: Option<&Vec3<i32>>,
    shape: Option<&Vec3<usize>>,
    c: LightColor,
    q: Seq<LightNode>,
) -> bool {
    forall|x: int, y: int, z: int|
        permitted(space, config, min, shape, x, y, z) ==> #[trigger] settled(
            space,
            registry,
            config,
            min,
            shape,
            c,
            x,
            y,
            z,
        ) || queued(q, x, y, z, space.light(c, x, y, z))
}

/// As `settled_or_queued`, with voxel `(vx, vy, vz)` also excused while it
/// holds level `l`: the node being expanded.
pub open spec fn settled_or_queued_but(
    space: &Space,
    registry: &Registry,
    config: &WorldConfig,
    min: Option<&Vec3<i32>>,
    shape: Option<&Vec3<usize>>,
    c: LightColor,
    q: Seq<LightNode>,
    vx: int,
    vy: int,
    vz: int,
    l: int,
) -> bool {
    forall|x: int, y: int, z: int|
        permitted(space, config, min, shape, x, y, z) ==> #[trigger] settled(
            space,
            registry,
            config,
            min,
            shape,
            c,
            x,
            y,
            z,
        ) || queued(q, x, y, z, space.light(c, x, y, z)) || (x == vx && y == vy && z == vz && l
            == space.light(c, x, y, z))
}

/// Raising other voxels keeps a voxel steady.
pub proof fn lemma_settled_mono(
    prev: &Space,
    cur: &Space,
    registry: &Registry,
    config: &WorldConfig,
    min: Option<&Vec3<i32>>,
    shape: Option<&Vec3<usize>>,
    c: LightColor,
    x: int,
    y: int,
    z: int,
)
    requires
        cur.same_blocks(prev),
        cur.light(c, x, y, z) == prev.light(c, x, y, z),
        forall|a: int, b: int, e: int| #[trigger] cur.light(c, a, b, e) >= prev.light(c, a, b, e),
    ensures
        forall|d: int|
            settled_dir(prev, registry, config, min, shape, c, x, y, z, d) ==> #[trigger] settled_dir(
                cur,
                registry,
                config,
                min,
                shape,
                c,
                x,
                y,
                z,
                d,
            ),
{
    assert forall|d: int|
        settled_dir(prev, registry, config, min, shape, c, x, y, z, d) implies #[trigger] settled_dir(
        cur,
        registry,
        config,
        min,
        shape,
        c,
        x,
        y,
        z,
        d,
    ) by {
        let (nx, ny, nz) = (x + dx(d), y + dy(d), z + dz(d));
        assert(cur.light(c, nx, ny, nz) >= prev.light(c, nx, ny, nz));
        assert(cur.voxel(nx, ny, nz) == prev.voxel(nx, ny, nz));
    }
}

/// A voxel at level zero is steady.
pub proof fn lemma_dark_settled(
    space: &Space,
    registry: &Registry,
    config: &WorldConfig,
    min: Option<&Vec3<i32>>,
    shape: Option<&Vec3<usize>>,
    c: LightColor,
    x: int,
    y: int,
    z: int,
)
    requires
        space.light(c, x, y, z) == 0,
    ensures
        settled(space, registry, config, min, shape, c, x, y, z),
{
    assert forall|d: int| 0 <= d < 6 implies #[trigger] settled_dir(
        space,
        registry,
        config,
        min,
        shape,
        c,
        x,
        y,
        z,
        d,
    ) by {
        let (nx, ny, nz) = (x + dx(d), y + dy(d), z + dz(d));
        assert(space.light(c, nx, ny, nz) >= 0);
    }
    assert(settled_dir(space, registry, config, min, shape, c, x, y, z, 0));
    assert(settled_dir(space, registry, config, min, shape, c, x, y, z, 1));
    assert(settled_dir(space, registry, config, min, shape, c, x, y, z, 2));
    assert(settled_dir(space, registry, config, min, shape, c, x, y, z, 3));
    assert(settled_dir(space, registry, config, min, shape, c, x, y, z, 4));
    assert(settled_dir(space, registry, config, min, shape, c, x, y, z, 5));
}

/// A queue that grows at its back keeps what it held.
pub open spec fn extends(q2: Seq<LightNode>, q1: Seq<LightNode>) -> bool {
    q1.len() <= q2.len() && forall|j: int| 0 <= j < q1.len() ==> #[trigger] q2[j] == q1[j]
}

pub proof fn lemma_queued_extends(q1: Seq<LightNode>, q2: Seq<LightNode>, x: int, y: int, z: int, l: int)
    requires
        extends(q2, q1),
        queued(q1, x, y, z, l),
    ensures
        queued(q2, x, y, z, l),
{
    let j = choose|j: int|
        0 <= j < q1.len() && #[trigger] q1[j].voxel[0] == x && q1[j].voxel[1] == y && q1[j].voxel[2]
            == z && q1[j].level == l;
    assert(q2[j] == q1[j]);
}

/// Steadiness of a channel depends only on the blocks and on that channel.
pub proof fn lemma_steady_same(
    s1: &Space,
    s2: &Space,
    registry: &Registry,
    config: &WorldConfig,
    min: Option<&Vec3<i32>>,
    shape: Option<&Vec3<usize>>,
    c: LightColor,
    q: Seq<LightNode>,
)
    requires
        s2.same_blocks(s1),
        s2.chan(c) == s1.chan(c),
    ensures
        settled_or_queued(s1, registry, config, min, shape, c, q) ==> settled_or_queued(
            s2,
            registry,
            config,
            min,
            shape,
            c,
            q,
        ),
        settled_all(s1, registry, config, min, shape, c) ==> settled_all(
            s2,
            registry,
            config,
            min,
            shape,
            c,
        ),
{
    assert forall|x: int, y: int, z: int|
        #![trigger settled(s1, registry, config, min, shape, c, x, y, z)]
        #![trigger settled(s2, registry, config, min, shape, c, x, y, z)]
        settled(s1, registry, config, min, shape, c, x, y, z) == settled(
            s2,
            registry,
            config,
            min,
            shape,
            c,
            x,
            y,
            z,
        ) by {
        assert forall|d: int|
            #![trigger settled_dir(s1, registry, config, min, shape, c, x, y, z, d)]
            #![trigger settled_dir(s2, registry, config, min, shape, c, x, y, z, d)]
            settled_dir(s1, registry, config, min, shape, c, x, y, z, d) == settled_dir(
                s2,
                registry,
                config,
                min,
                shape,
                c,
                x,
                y,
                z,
                d,
            ) by {
            let (nx, ny, nz) = (x + dx(d), y + dy(d), z + dz(d));
            assert(s1.voxel(nx, ny, nz) == s2.voxel(nx, ny, nz));
        }
    }
}

/// The levels carried by a queue are at most `max_level`.
pub open spec fn levels_within(q: Seq<LightNode>, max_level: int) -> bool {
    forall|j: int| 0 <= j < q.len() ==> #[trigger] q[j].level <= max_level
}

/// Sum of the levels of a channel.
pub open spec fn total(s: Seq<u32>) -> int
    decreases s.len(),
{
    if s.len() == 0 {
        0
    } else {
        total(s.drop_last()) + s.last()
    }
}

pub proof fn lemma_total_update(s: Seq<u32>, i: int, v: u32)
    requires
        0 <= i < s.len(),
    ensures
        total(s.update(i, v)) == total(s) - s[i] + v,
    decreases s.len(),
{
    let t = s.update(i, v);
    if i == s.len() - 1 {
        assert(t.drop_last() =~= s.drop_last());
    } else {
        lemma_total_update(s.drop_last(), i, v);
        assert(t.drop_last() =~= s.drop_last().update(i, v));
    }
}

pub proof fn lemma_total_bounds(s: Seq<u32>, cap: int)
    requires
        forall|i: int| 0 <= i < s.len() ==> #[trigger] s[i] <= cap,
    ensures
        0 <= total(s) <= cap * s.len(),
    decreases s.len(),
{
    if s.len() > 0 {
        lemma_total_bounds(s.drop_last(), cap);
        let n = s.len() as int;
        assert(cap * (n - 1) + cap == cap * n) by (nonlinear_arith);
    }
}

/// What a flood leaves alone: the blocks, the other channels, and any voxel
/// that is not permitted and transparent; levels stay at most `max_level`.
pub open spec fn flood_frame(
    before: &Space,
    after: &Space,
    registry: &Registry,
    config: &WorldConfig,
    min: Option<&Vec3<i32>>,
    shape: Option<&Vec3<usize>>,
    c: LightColor,
) -> bool {
    &&& after.wf()
    &&& after.same_blocks(before)
    &&& after.levels_within(config.max_light_level as int)
    &&& forall|c2: LightColor| c2 != c ==> #[trigger] after.chan(c2) == before.chan(c2)
    &&& forall|x: int, y: int, z: int|
        #[trigger] after.light(c, x, y, z) >= before.light(c, x, y, z)
    &&& forall|x: int, y: int, z: int|
        #[trigger] after.light(c, x, y, z) != before.light(c, x, y, z) ==> permitted(
            before,
            config,
            min,
            shape,
            x,
            y,
            z,
        ) && transparent(before, registry, x, y, z)
}

pub open spec fn flood_requires(
    space: &Space,
    registry: &Registry,
    config: &WorldConfig,
) -> bool {
    &&& space.wf()
    &&& space.ids_valid(registry)
    &&& space.levels_within(config.max_light_level as int)
}

/// One flood step keeps every permitted voxel steady or queued, and, where
/// the expanded node holds its voxel's level, settles one more direction.
pub proof fn lemma_flood_step_keeps(
    prev: &Space,
    cur: &Space,
    prev_q: Seq<LightNode>,
    cur_q: Seq<LightNode>,
    registry: &Registry,
    config: &WorldConfig,
    min: Option<&Vec3<i32>>,
    shape: Option<&Vec3<usize>>,
    c: LightColor,
    node: LightNode,
    d: int,
    lv: int,
)
    requires
        0 <= d < 6,
        cur.same_blocks(prev),
        prev.light(c, node.voxel[0] as int, node.voxel[1] as int, node.voxel[2] as int) == lv,
        ({
            let (vx, vy, vz) = (node.voxel[0] as int, node.voxel[1] as int, node.voxel[2] as int);
            let (nx, ny, nz) = (vx + dx(d), vy + dy(d), vz + dz(d));
            let next = next_level(c, d, node.level as int, config.max_light_level as int);
            let write = permitted(prev, config, min, shape, nx, ny, nz) && transparent(
                prev,
                registry,
                nx,
                ny,
                nz,
            ) && prev.light(c, nx, ny, nz) < next;
            &&& write ==> {
                &&& cur_q == prev_q.push(cur_q.last())
                &&& cur_q.last().voxel[0] == nx
                &&& cur_q.last().voxel[1] == ny
                &&& cur_q.last().voxel[2] == nz
                &&& cur_q.last().level == next
            }
            &&& !write ==> cur_q == prev_q
            &&& forall|x: int, y: int, z: int|
                #[trigger] cur.light(c, x, y, z) == if write && x == nx && y == ny && z == nz {
                    next
                } else {
                    prev.light(c, x, y, z)
                }
            &&& settled_or_queued_but(prev, registry, config, min, shape, c, prev_q, vx, vy, vz, node.level as int)
            &&& node.level == lv ==> forall|e: int|
                0 <= e < d ==> #[trigger] settled_dir(prev, registry, config, min, shape, c, vx, vy, vz, e)
        }),
    ensures
        ({
            let (vx, vy, vz) = (node.voxel[0] as int, node.voxel[1] as int, node.voxel[2] as int);
            &&& cur.light(c, vx, vy, vz) == lv
            &&& settled_or_queued_but(cur, registry, config, min, shape, c, cur_q, vx, vy, vz, node.level as int)
            &&& node.level == lv ==> forall|e: int|
                0 <= e < d + 1 ==> #[trigger] settled_dir(cur, registry, config, min, shape, c, vx, vy, vz, e)
        }),
{
    let (vx, vy, vz) = (node.voxel[0] as int, node.voxel[1] as int, node.voxel[2] as int);
    let (nx, ny, nz) = (vx + dx(d), vy + dy(d), vz + dz(d));
    let next = next_level(c, d, node.level as int, config.max_light_level as int);
    let write = permitted(prev, config, min, shape, nx, ny, nz) && transparent(prev, registry, nx, ny, nz)
        && prev.light(c, nx, ny, nz) < next;
    assert(cur.light(c, vx, vy, vz) == prev.light(c, vx, vy, vz));
    assert forall|a: int, b: int, e: int| #[trigger] cur.light(c, a, b, e) >= prev.light(c, a, b, e) by {}
    assert forall|x: int, y: int, z: int|
        permitted(cur, config, min, shape, x, y, z) implies #[trigger] settled(
            cur,
            registry,
            config,
            min,
            shape,
            c,
            x,
            y,
            z,
        ) || queued(cur_q, x, y, z, cur.light(c, x, y, z)) || (x == vx && y == vy && z == vz
            && node.level == cur.light(c, x, y, z)) by {
        assert(permitted(prev, config, min, shape, x, y, z));
        if write && x == nx && y == ny && z == nz {
            assert(cur_q[cur_q.len() - 1] == cur_q.last());
        } else {
            assert(cur.light(c, x, y, z) == prev.light(c, x, y, z));
            lemma_settled_mono(prev, cur, registry, config, min, shape, c, x, y, z);
            if settled(prev, registry, config, min, shape, c, x, y, z) {
                assert(settled_dir(prev, registry, config, min, shape, c, x, y, z, 0));
                assert(settled_dir(prev, registry, config, min, shape, c, x, y, z, 1));
                assert(settled_dir(prev, registry, config, min, shape, c, x, y, z, 2));
                assert(settled_dir(prev, registry, config, min, shape, c, x, y, z, 3));
                assert(settled_dir(prev, registry, config, min, shape, c, x, y, z, 4));
                assert(settled_dir(prev, registry, config, min, shape, c, x, y, z, 5));
            } else if queued(prev_q, x, y, z, prev.light(c, x, y, z)) {
                let l = prev.light(c, x, y, z);
                let j = choose|j: int|
                    0 <= j < prev_q.len() && #[trigger] prev_q[j].voxel[0] == x && prev_q[j].voxel[1]
                        == y && prev_q[j].voxel[2] == z && prev_q[j].level == l;
                assert(cur_q[j] == prev_q[j]);
            }
        }
    }
    if node.level == lv {
        lemma_settled_mono(prev, cur, registry, config, min, shape, c, vx, vy, vz);
        assert forall|e: int|
            0 <= e < d + 1 implies #[trigger] settled_dir(cur, registry, config, min, shape, c, vx, vy, vz, e) by {
            if e < d {
                assert(settled_dir(prev, registry, config, min, shape, c, vx, vy, vz, e));
            } else {
                assert(cur.light(c, nx, ny, nz) >= prev.light(c, nx, ny, nz));
                assert(cur.voxel(nx, ny, nz) == prev.voxel(nx, ny, nz));
            }
        }
    }
}

/// Every voxel raised above `start` is steady, waits in the queue at its
/// current level, or is the excused voxel `(vx, vy, vz)` while it holds `l`.
pub open spec fn raised_settled_or_queued(
    space: &Space,
    start: &Space,
    registry: &Registry,
    config: &WorldConfig,
    min: Option<&Vec3<i32>>,
    shape: Option<&Vec3<usize>>,
    c: LightColor,
    q: Seq<LightNode>,
    vx: int,
    vy: int,
    vz: int,
    l: int,
    excused: bool,
) -> bool {
    forall|x: int, y: int, z: int|
        raised(space, start, c, x, y, z) ==> #[trigger] settled(space, registry, config, min, shape, c, x, y, z)
            || queued(q, x, y, z, space.light(c, x, y, z)) || (excused && x == vx && y == vy && z == vz
            && l == space.light(c, x, y, z))
}

/// One flood step keeps every raised voxel steady or queued, and, where the
/// expanded node holds its voxel's level, settles one more direction.
pub proof fn lemma_flood_step_raised(
    start: &Space,
    prev: &Space,
    cur: &Space,
    prev_q: Seq<LightNode>,
    cur_q: Seq<LightNode>,
    registry: &Registry,
    config: &WorldConfig,
    min: Option<&Vec3<i32>>,
    shape: Option<&Vec3<usize>>,
    c: LightColor,
    node: LightNode,
    d: int,
    lv: int,
)
    requires
        0 <= d < 6,
        cur.same_blocks(prev),
        below(start, prev, c),
        prev.light(c, node.voxel[0] as int, node.voxel[1] as int, node.voxel[2] as int) == lv,
        ({
            let (vx, vy, vz) = (node.voxel[0] as int, node.voxel[1] as int, node.voxel[2] as int);
            let (nx, ny, nz) = (vx + dx(d), vy + dy(d), vz + dz(d));
            let next = next_level(c, d, node.level as int, config.max_light_level as int);
            let write = permitted(prev, config, min, shape, nx, ny, nz) && transparent(
                prev,
                registry,
                nx,
                ny,
                nz,
            ) && prev.light(c, nx, ny, nz) < next;
            &&& write ==> {
                &&& cur_q == prev_q.push(cur_q.last())
                &&& cur_q.last().voxel[0] == nx
                &&& cur_q.last().voxel[1] == ny
                &&& cur_q.last().voxel[2] == nz
                &&& cur_q.last().level == next
            }
            &&& !write ==> cur_q == prev_q
            &&& forall|x: int, y: int, z: int|
                #[trigger] cur.light(c, x, y, z) == if write && x == nx && y == ny && z == nz {
                    next
                } else {
                    prev.light(c, x, y, z)
                }
            &&& raised_settled_or_queued(prev, start, registry, config, min, shape, c, prev_q, vx, vy, vz, node.level as int, true)
            &&& node.level == lv ==> forall|e: int|
                0 <= e < d ==> #[trigger] settled_dir(prev, registry, config, min, shape, c, vx, vy, vz, e)
        }),
    ensures
        ({
            let (vx, vy, vz) = (node.voxel[0] as int, node.voxel[1] as int, node.voxel[2] as int);
            &&& cur.light(c, vx, vy, vz) == lv
            &&& raised_settled_or_queued(cur, start, registry, config, min, shape, c, cur_q, vx, vy, vz, node.level as int, true)
            &&& node.level == lv ==> forall|e: int|
                0 <= e < d + 1 ==> #[trigger] settled_dir(cur, registry, config, min, shape, c, vx, vy, vz, e)
        }),
{
    let (vx, vy, vz) = (node.voxel[0] as int, node.voxel[1] as int, node.voxel[2] as int);
    let (nx, ny, nz) = (vx + dx(d), vy + dy(d), vz + dz(d));
    let next = next_level(c, d, node.level as int, config.max_light_level as int);
    let write = permitted(prev, config, min, shape, nx, ny, nz) && transparent(prev, registry, nx, ny, nz)
        && prev.light(c, nx, ny, nz) < next;
    assert(cur.light(c, vx, vy, vz) == prev.light(c, vx, vy, vz));
    assert forall|a: int, b: int, e: int| #[trigger] cur.light(c, a, b, e) >= prev.light(c, a, b, e) by {}
    assert forall|x: int, y: int, z: int|
        raised(cur, start, c, x, y, z) implies #[trigger] settled(
            cur,
            registry,
            config,
            min,
            shape,
            c,
            x,
            y,
            z,
        ) || queued(cur_q, x, y, z, cur.light(c, x, y, z)) || (true && x == vx && y == vy && z == vz
            && node.level == cur.light(c, x, y, z)) by {
        if write && x == nx && y == ny && z == nz {
            assert(cur_q[cur_q.len() - 1] == cur_q.last());
        } else {
            assert(cur.light(c, x, y, z) == prev.light(c, x, y, z));
            assert(raised(prev, start, c, x, y, z));
            lemma_settled_mono(prev, cur, registry, config, min, shape, c, x, y, z);
            if settled(prev, registry, config, min, shape, c, x, y, z) {
                assert(settled_dir(prev, registry, config, min, shape, c, x, y, z, 0));
                assert(settled_dir(prev, registry, config, min, shape, c, x, y, z, 1));
                assert(settled_dir(prev, registry, config, min, shape, c, x, y, z, 2));
                assert(settled_dir(prev, registry, config, min, shape, c, x, y, z, 3));
                assert(settled_dir(prev, registry, config, min, shape, c, x, y, z, 4));
                assert(settled_dir(prev, registry, config, min, shape, c, x, y, z, 5));
            } else if queued(prev_q, x, y, z, prev.light(c, x, y, z)) {
                let l = prev.light(c, x, y, z);
                let j = choose|j: int|
                    0 <= j < prev_q.len() && #[trigger] prev_q[j].voxel[0] == x && prev_q[j].voxel[1]
                        == y && prev_q[j].voxel[2] == z && prev_q[j].level == l;
                assert(cur_q[j] == prev_q[j]);
            }
        }
    }
    if node.level == lv {
        lemma_settled_mono(prev, cur, registry, config, min, shape, c, vx, vy, vz);
        assert forall|e: int|
            0 <= e < d + 1 implies #[trigger] settled_dir(cur, registry, config, min, shape, c, vx, vy, vz, e) by {
            if e < d {
                assert(settled_dir(prev, registry, config, min, shape, c, vx, vy, vz, e));
            } else {
                assert(cur.light(c, nx, ny, nz) >= prev.light(c, nx, ny, nz));
                assert(cur.voxel(nx, ny, nz) == prev.voxel(nx, ny, nz));
            }
        }
    }
}

/// A write that raises a permitted transparent voxel of channel `c` keeps the
/// frame of a flood that started at `start`.
pub proof fn lemma_flood_step_frame(
    start: &Space,
    prev: &Space,
    cur: &Space,
    registry: &Registry,
    config: &WorldConfig,
    min: Option<&Vec3<i32>>,
    shape: Option<&Vec3<usize>>,
    c: LightColor,
)
    requires
        flood_frame(start, prev, registry, config, min, shape, c),
        cur.wf(),
        cur.same_blocks(prev),
        forall|c2: LightColor| c2 != c ==> #[trigger] cur.chan(c2) == prev.chan(c2),
        forall|i: int|
            0 <= i < cur.chan(c).len() ==> #[trigger] cur.chan(c)[i] <= config.max_light_level,
        forall|x: int, y: int, z: int|
            #[trigger] cur.light(c, x, y, z) != prev.light(c, x, y, z) ==> permitted(
                prev,
                config,
                min,
                shape,
                x,
                y,
                z,
            ) && transparent(prev, registry, x, y, z) && cur.light(c, x, y, z) > prev.light(
                c,
                x,
                y,
                z,
            ),
    ensures
        flood_frame(start, cur, registry, config, min, shape, c),
{
    assert forall|c2: LightColor, i: int|
        0 <= i < cur.chan(c2).len() implies #[trigger] cur.chan(c2)[i]
        <= config.max_light_level by {
        if c2 != c {
            assert(cur.chan(c2) == prev.chan(c2));
        }
    }
    assert forall|c2: LightColor| c2 != c implies #[trigger] cur.chan(c2) == start.chan(c2) by {
        assert(cur.chan(c2) == prev.chan(c2));
        assert(prev.chan(c2) == start.chan(c2));
    }
    assert forall|x: int, y: int, z: int|
        #[trigger] cur.light(c, x, y, z) >= start.light(c, x, y, z) by {
        assert(cur.light(c, x, y, z) != prev.light(c, x, y, z) || true);
        assert(prev.light(c, x, y, z) >= start.light(c, x, y, z));
    }
    assert forall|x: int, y: int, z: int|
        #[trigger] cur.light(c, x, y, z) != start.light(c, x, y, z) implies permitted(
            start,
            config,
            min,
            shape,
            x,
            y,
            z,
        ) && transparent(start, registry, x, y, z) by {
        if prev.light(c, x, y, z) != start.light(c, x, y, z) {
        } else {
            assert(cur.light(c, x, y, z) != prev.light(c, x, y, z));
        }
    }
}

/// A node stands at a permitted voxel, with a level no higher than the voxel
/// already holds.
pub open spec fn seed_in_place(
    space: &Space,
    config: &WorldConfig,
    min: Option<&Vec3<i32>>,
    shape: Option<&Vec3<usize>>,
    c: LightColor,
    node: LightNode,
) -> bool {
    let (x, y, z) = (node.voxel[0] as int, node.voxel[1] as int, node.voxel[2] as int);
    &&& permitted(space, config, min, shape, x, y, z)
    &&& node.level <= space.light(c, x, y, z)
}

/// Every node of the queue stands in place.
pub open spec fn seeds_in_place(
    space: &Space,
    config: &WorldConfig,
    min: Option<&Vec3<i32>>,
    shape: Option<&Vec3<usize>>,
    c: LightColor,
    q: Seq<LightNode>,
) -> bool {
    forall|j: int| 0 <= j < q.len() ==> #[trigger] seed_in_place(space, config, min, shape, c, q[j])
}

/// Seeds in place stay in place while their channel and the blocks stay.
pub proof fn lemma_seeds_same(
    s1: &Space,
    s2: &Space,
    config: &WorldConfig,
    min: Option<&Vec3<i32>>,
    shape: Option<&Vec3<usize>>,
    c: LightColor,
    q: Seq<LightNode>,
)
    requires
        s2.same_blocks(s1),
        s2.chan(c) == s1.chan(c),
        seeds_in_place(s1, config, min, shape, c, q),
    ensures
        seeds_in_place(s2, config, min, shape, c, q),
{
    assert forall|j: int| 0 <= j < q.len() implies #[trigger] seed_in_place(
        s2,
        config,
        min,
        shape,
        c,
        q[j],
    ) by {
        assert(seed_in_place(s1, config, min, shape, c, q[j]));
    }
}

/// Seeds in place: the first one, and all the others.
pub proof fn lemma_seeds_pop(
    space: &Space,
    config: &WorldConfig,
    min: Option<&Vec3<i32>>,
    shape: Option<&Vec3<usize>>,
    c: LightColor,
    q: Seq<LightNode>,
)
    requires
        q.len() > 0,
        seeds_in_place(space, config, min, shape, c, q),
    ensures
        seeds_in_place(space, config, min, shape, c, q.subrange(1, q.len() as int)),
        seed_in_place(space, config, min, shape, c, q[0]),
{
    assert(seed_in_place(space, config, min, shape, c, q[0]));
    let r = q.subrange(1, q.len() as int);
    assert forall|j: int| 0 <= j < r.len() implies #[trigger] seed_in_place(
        space,
        config,
        min,
        shape,
        c,
        r[j],
    ) by {
        assert(r[j] == q[j + 1]);
        assert(seed_in_place(space, config, min, shape, c, q[j + 1]));
    }
}

/// A node at or below field `cap` at its voxel, where `cap` is steady.
pub open spec fn under(
    cap: &Space,
    registry: &Registry,
    config: &WorldConfig,
    min: Option<&Vec3<i32>>,
    shape: Option<&Vec3<usize>>,
    c: LightColor,
    node: LightNode,
) -> bool {
    let (x, y, z) = (node.voxel[0] as int, node.voxel[1] as int, node.voxel[2] as int);
    &&& node.level <= cap.light(c, x, y, z)
    &&& settled(cap, registry, config, min, shape, c, x, y, z)
}

/// Channel `c` of `space` lies at or below that of `cap` everywhere.
pub open spec fn below(space: &Space, cap: &Space, c: LightColor) -> bool {
    forall|x: int, y: int, z: int| #[trigger] space.light(c, x, y, z) <= cap.light(c, x, y, z)
}

/// Field `cap` bounds a flood of channel `c` from `start` with queue `q`: it
/// has the same blocks, lies above `start`, is steady on every permitted
/// voxel, and is steady at and above every seed.
pub open spec fn caps(
    cap: &Space,
    start: &Space,
    registry: &Registry,
    config: &WorldConfig,
    min: Option<&Vec3<i32>>,
    shape: Option<&Vec3<usize>>,
    c: LightColor,
    q: Seq<LightNode>,
) -> bool {
    &&& cap.same_blocks(start)
    &&& below(start, cap, c)
    &&& settled_all(cap, registry, config, min, shape, c)
    &&& forall|j: int| 0 <= j < q.len() ==> #[trigger] under(cap, registry, config, min, shape, c, q[j])
}

/// One flood step stays at or below any steady field that bounds the
/// expanded node, and the node it queues is bounded too.
pub proof fn lemma_flood_step_capped(
    prev: &Space,
    cur: &Space,
    cap: &Space,
    prev_q: Seq<LightNode>,
    cur_q: Seq<LightNode>,
    registry: &Registry,
    config: &WorldConfig,
    min: Option<&Vec3<i32>>,
    shape: Option<&Vec3<usize>>,
    c: LightColor,
    node: LightNode,
    d: int,
)
    requires
        0 <= d < 6,
        cap.same_blocks(prev),
        below(prev, cap, c),
        settled_all(cap, registry, config, min, shape, c),
        under(cap, registry, config, min, shape, c, node),
        forall|j: int| 0 <= j < prev_q.len() ==> #[trigger] under(cap, registry, config, min, shape, c, prev_q[j]),
        ({
            let (vx, vy, vz) = (node.voxel[0] as int, node.voxel[1] as int, node.voxel[2] as int);
            let (nx, ny, nz) = (vx + dx(d), vy + dy(d), vz + dz(d));
            let next = next_level(c, d, node.level as int, config.max_light_level as int);
            let write = permitted(prev, config, min, shape, nx, ny, nz) && transparent(
                prev,
                registry,
                nx,
                ny,
                nz,
            ) && prev.light(c, nx, ny, nz) < next;
            &&& write ==> {
                &&& cur_q == prev_q.push(cur_q.last())
                &&& cur_q.last().voxel[0] == nx
                &&& cur_q.last().voxel[1] == ny
                &&& cur_q.last().voxel[2] == nz
                &&& cur_q.last().level == next
            }
            &&& !write ==> cur_q == prev_q
            &&& forall|x: int, y: int, z: int|
                #[trigger] cur.light(c, x, y, z) == if write && x == nx && y == ny && z == nz {
                    next
                } else {
                    prev.light(c, x, y, z)
                }
        }),
    ensures
        below(cur, cap, c),
        forall|j: int| 0 <= j < cur_q.len() ==> #[trigger] under(cap, registry, config, min, shape, c, cur_q[j]),
{
    let (vx, vy, vz) = (node.voxel[0] as int, node.voxel[1] as int, node.voxel[2] as int);
    let (nx, ny, nz) = (vx + dx(d), vy + dy(d), vz + dz(d));
    let max = config.max_light_level as int;
    let next = next_level(c, d, node.level as int, max);
    let write = permitted(prev, config, min, shape, nx, ny, nz) && transparent(prev, registry, nx, ny, nz)
        && prev.light(c, nx, ny, nz) < next;
    if write {
        assert(settled_dir(cap, registry, config, min, shape, c, vx, vy, vz, d));
        assert(cap.voxel(nx, ny, nz) == prev.voxel(nx, ny, nz));
        assert(permitted(cap, config, min, shape, nx, ny, nz));
        assert(next <= next_level(c, d, cap.light(c, vx, vy, vz), max));
        assert(next <= cap.light(c, nx, ny, nz));
        assert(settled(cap, registry, config, min, shape, c, nx, ny, nz));
        assert(under(cap, registry, config, min, shape, c, cur_q[cur_q.len() - 1]));
        assert forall|j: int| 0 <= j < cur_q.len() implies #[trigger] under(cap, registry, config, min, shape, c, cur_q[j]) by {
            if j < prev_q.len() {
                assert(cur_q[j] == prev_q[j]);
            }
        }
    }
    assert forall|x: int, y: int, z: int| #[trigger] cur.light(c, x, y, z) <= cap.light(c, x, y, z) by {
        assert(prev.light(c, x, y, z) <= cap.light(c, x, y, z));
    }
}

pub open spec fn opposite(d: int) -> int {
    if d % 2 == 0 {
        d + 1
    } else {
        d - 1
    }
}

/// Voxel `(x, y, z)` holds more on channel `c` than it did in `start`.
pub open spec fn raised(space: &Space, start: &Space, c: LightColor, x: int, y: int, z: int) -> bool {
    space.light(c, x, y, z) > start.light(c, x, y, z)
}

/// The level of `(x, y, z)` is carried by one step from its neighbor in
/// direction `e`: from that neighbor's level if it was raised, or from the
/// level of a seed there.
pub open spec fn justified_dir(
    space: &Space,
    start: &Space,
    seeds: Seq<LightNode>,
    config: &WorldConfig,
    c: LightColor,
    x: int,
    y: int,
    z: int,
    e: int,
) -> bool {
    let (ux, uy, uz) = (x + dx(e), y + dy(e), z + dz(e));
    let max = config.max_light_level as int;
    let l = space.light(c, x, y, z);
    (raised(space, start, c, ux, uy, uz) && l <= next_level(c, opposite(e), space.light(c, ux, uy, uz), max))
        || exists|s: int| #[trigger] queued(seeds, ux, uy, uz, s) && l <= next_level(c, opposite(e), s, max)
}

pub open spec fn justified(
    space: &Space,
    start: &Space,
    seeds: Seq<LightNode>,
    config: &WorldConfig,
    c: LightColor,
    x: int,
    y: int,
    z: int,
) -> bool {
    exists|e: int| 0 <= e < 6 && #[trigger] justified_dir(space, start, seeds, config, c, x, y, z, e)
}

/// A queued node is a seed, or stands at a raised voxel no higher than it holds.
pub open spec fn node_ok(space: &Space, start: &Space, seeds: Seq<LightNode>, c: LightColor, node: LightNode) -> bool {
    let (x, y, z) = (node.voxel[0] as int, node.voxel[1] as int, node.voxel[2] as int);
    queued(seeds, x, y, z, node.level as int) || (raised(space, start, c, x, y, z) && node.level <= space.light(c, x, y, z))
}

pub open spec fn all_justified(space: &Space, start: &Space, seeds: Seq<LightNode>, config: &WorldConfig, c: LightColor) -> bool {
    forall|x: int, y: int, z: int|
        raised(space, start, c, x, y, z) ==> #[trigger] justified(space, start, seeds, config, c, x, y, z)
}

/// One flood step keeps every raised voxel justified and every queued node
/// a seed or at a raised voxel.
pub proof fn lemma_flood_step_justified(
    start: &Space,
    prev: &Space,
    cur: &Space,
    seeds: Seq<LightNode>,
    prev_q: Seq<LightNode>,
    cur_q: Seq<LightNode>,
    registry: &Registry,
    config: &WorldConfig,
    min: Option<&Vec3<i32>>,
    shape: Option<&Vec3<usize>>,
    c: LightColor,
    node: LightNode,
    d: int,
)
    requires
        0 <= d < 6,
        below(start, prev, c),
        all_justified(prev, start, seeds, config, c),
        node_ok(prev, start, seeds, c, node),
        forall|j: int| 0 <= j < prev_q.len() ==> #[trigger] node_ok(prev, start, seeds, c, prev_q[j]),
        ({
            let (vx, vy, vz) = (node.voxel[0] as int, node.voxel[1] as int, node.voxel[2] as int);
            let (nx, ny, nz) = (vx + dx(d), vy + dy(d), vz + dz(d));
            let next = next_level(c, d, node.level as int, config.max_light_level as int);
            let write = permitted(prev, config, min, shape, nx, ny, nz) && transparent(
                prev,
                registry,
                nx,
                ny,
                nz,
            ) && prev.light(c, nx, ny, nz) < next;
            &&& write ==> {
                &&& cur_q == prev_q.push(cur_q.last())
                &&& cur_q.last().voxel[0] == nx
                &&& cur_q.last().voxel[1] == ny
                &&& cur_q.last().voxel[2] == nz
                &&& cur_q.last().level == next
            }
            &&& !write ==> cur_q == prev_q
            &&& forall|x: int, y: int, z: int|
                #[trigger] cur.light(c, x, y, z) == if write && x == nx && y == ny && z == nz {
                    next
                } else {
                    prev.light(c, x, y, z)
                }
        }),
    ensures
        all_justified(cur, start, seeds, config, c),
        forall|j: int| 0 <= j < cur_q.len() ==> #[trigger] node_ok(cur, start, seeds, c, cur_q[j]),
{
    let (vx, vy, vz) = (node.voxel[0] as int, node.voxel[1] as int, node.voxel[2] as int);
    let (nx, ny, nz) = (vx + dx(d), vy + dy(d), vz + dz(d));
    let max = config.max_light_level as int;
    let next = next_level(c, d, node.level as int, max);
    let write = permitted(prev, config, min, shape, nx, ny, nz) && transparent(prev, registry, nx, ny, nz)
        && prev.light(c, nx, ny, nz) < next;
    assert forall|x: int, y: int, z: int| #[trigger] cur.light(c, x, y, z) >= prev.light(c, x, y, z) by {}
    assert forall|x: int, y: int, z: int|
        raised(cur, start, c, x, y, z) implies #[trigger] justified(cur, start, seeds, config, c, x, y, z) by {
        if write && x == nx && y == ny && z == nz {
            let e = opposite(d);
            assert(x + dx(e) == vx && y + dy(e) == vy && z + dz(e) == vz);
            assert(opposite(e) == d);
            assert(cur.light(c, vx, vy, vz) == prev.light(c, vx, vy, vz));
            if queued(seeds, vx, vy, vz, node.level as int) {
                assert(justified_dir(cur, start, seeds, config, c, x, y, z, e));
            } else {
                assert(justified_dir(cur, start, seeds, config, c, x, y, z, e));
            }
        } else {
            assert(prev.light(c, x, y, z) <= start.light(c, x, y, z) || raised(prev, start, c, x, y, z));
            assert(justified(prev, start, seeds, config, c, x, y, z));
            let e = choose|e: int| 0 <= e < 6 && #[trigger] justified_dir(prev, start, seeds, config, c, x, y, z, e);
            let (ux, uy, uz) = (x + dx(e), y + dy(e), z + dz(e));
            assert(cur.light(c, ux, uy, uz) >= prev.light(c, ux, uy, uz));
            assert(justified_dir(cur, start, seeds, config, c, x, y, z, e));
        }
    }
    assert forall|j: int| 0 <= j < cur_q.len() implies #[trigger] node_ok(cur, start, seeds, c, cur_q[j]) by {
        if j < prev_q.len() {
            assert(cur_q[j] == prev_q[j]);
            assert(node_ok(prev, start, seeds, c, prev_q[j]));
            let (x, y, z) = (cur_q[j].voxel[0] as int, cur_q[j].voxel[1] as int, cur_q[j].voxel[2] as int);
            assert(cur.light(c, x, y, z) >= prev.light(c, x, y, z));
        } else {
            assert(cur_q[j] == cur_q.last());
            assert(prev.light(c, nx, ny, nz) >= start.light(c, nx, ny, nz));
        }
    }
}

/// From `node`, a permitted transparent neighbor in direction `d` holds at
/// least what one step carries from the node's level.
pub open spec fn expanded_dir(
    space: &Space,
    registry: &Registry,
    config: &WorldConfig,
    min: Option<&Vec3<i32>>,
    shape: Option<&Vec3<usize>>,
    c: LightColor,
    node: LightNode,
    d: int,
) -> bool {
    let (nx, ny, nz) = (node.voxel[0] + dx(d), node.voxel[1] + dy(d), node.voxel[2] + dz(d));
    permitted(space, config, min, shape, nx, ny, nz) && transparent(space, registry, nx, ny, nz)
        ==> space.light(c, nx, ny, nz) >= next_level(c, d, node.level as int, config.max_light_level as int)
}

pub open spec fn expanded(
    space: &Space,
    registry: &Registry,
    config: &WorldConfig,
    min: Option<&Vec3<i32>>,
    shape: Option<&Vec3<usize>>,
    c: LightColor,
    node: LightNode,
) -> bool {
    forall|d: int| 0 <= d < 6 ==> #[trigger] expanded_dir(space, registry, config, min, shape, c, node, d)
}

/// Each seed is expanded, still waits in the queue, or is `node`.
pub open spec fn seeds_expanded(
    space: &Space,
    registry: &Registry,
    config: &WorldConfig,
    min: Option<&Vec3<i32>>,
    shape: Option<&Vec3<usize>>,
    c: LightColor,
    seeds: Seq<LightNode>,
    queue: Seq<LightNode>,
    excused: Option<LightNode>,
) -> bool {
    forall|j: int|
        0 <= j < seeds.len() ==> #[trigger] expanded(space, registry, config, min, shape, c, seeds[j])
            || (exists|k: int| 0 <= k < queue.len() && #[trigger] queue[k] == seeds[j]) || excused
            == Some(seeds[j])
}

/// Raising voxels keeps an expanded node expanded.
pub proof fn lemma_expanded_mono(
    prev: &Space,
    cur: &Space,
    registry: &Registry,
    config: &WorldConfig,
    min: Option<&Vec3<i32>>,
    shape: Option<&Vec3<usize>>,
    c: LightColor,
    node: LightNode,
)
    requires
        cur.same_blocks(prev),
        forall|a: int, b: int, e: int| #[trigger] cur.light(c, a, b, e) >= prev.light(c, a, b, e),
    ensures
        forall|d: int|
            expanded_dir(prev, registry, config, min, shape, c, node, d) ==> #[trigger] expanded_dir(
                cur,
                registry,
                config,
                min,
                shape,
                c,
                node,
                d,
            ),
{
    assert forall|d: int|
        expanded_dir(prev, registry, config, min, shape, c, node, d) implies #[trigger] expanded_dir(
        cur,
        registry,
        config,
        min,
        shape,
        c,
        node,
        d,
    ) by {
        let (nx, ny, nz) = (node.voxel[0] + dx(d), node.voxel[1] + dy(d), node.voxel[2] + dz(d));
        assert(cur.light(c, nx, ny, nz) >= prev.light(c, nx, ny, nz));
        assert(cur.voxel(nx, ny, nz) == prev.voxel(nx, ny, nz));
    }
}

/// One flood step keeps the seeds expanded or waiting, and expands the
/// current node in one more direction.
pub proof fn lemma_flood_step_expanded(
    prev: &Space,
    cur: &Space,
    seeds: Seq<LightNode>,
    prev_q: Seq<LightNode>,
    cur_q: Seq<LightNode>,
    registry: &Registry,
    config: &WorldConfig,
    min: Option<&Vec3<i32>>,
    shape: Option<&Vec3<usize>>,
    c: LightColor,
    node: LightNode,
    d: int,
)
    requires
        0 <= d < 6,
        cur.same_blocks(prev),
        seeds_expanded(prev, registry, config, min, shape, c, seeds, prev_q, Some(node)),
        forall|e: int| 0 <= e < d ==> #[trigger] expanded_dir(prev, registry, config, min, shape, c, node, e),
        ({
            let (vx, vy, vz) = (node.voxel[0] as int, node.voxel[1] as int, node.voxel[2] as int);
            let (nx, ny, nz) = (vx + dx(d), vy + dy(d), vz + dz(d));
            let next = next_level(c, d, node.level as int, config.max_light_level as int);
            let write = permitted(prev, config, min, shape, nx, ny, nz) && transparent(
                prev,
                registry,
                nx,
                ny,
                nz,
            ) && prev.light(c, nx, ny, nz) < next;
            &&& write ==> cur_q == prev_q.push(cur_q.last())
            &&& !write ==> cur_q == prev_q
            &&& forall|x: int, y: int, z: int|
                #[trigger] cur.light(c, x, y, z) == if write && x == nx && y == ny && z == nz {
                    next
                } else {
                    prev.light(c, x, y, z)
                }
        }),
    ensures
        seeds_expanded(cur, registry, config, min, shape, c, seeds, cur_q, Some(node)),
        forall|e: int| 0 <= e < d + 1 ==> #[trigger] expanded_dir(cur, registry, config, min, shape, c, node, e),
{
    let (vx, vy, vz) = (node.voxel[0] as int, node.voxel[1] as int, node.voxel[2] as int);
    let (nx, ny, nz) = (vx + dx(d), vy + dy(d), vz + dz(d));
    assert forall|a: int, b: int, e: int| #[trigger] cur.light(c, a, b, e) >= prev.light(c, a, b, e) by {}
    assert forall|j: int| 0 <= j < seeds.len() implies #[trigger] expanded(cur, registry, config, min, shape, c, seeds[j])
        || (exists|k: int| 0 <= k < cur_q.len() && #[trigger] cur_q[k] == seeds[j]) || Some(node) == Some(seeds[j]) by {
        if expanded(prev, registry, config, min, shape, c, seeds[j]) {
            lemma_expanded_mono(prev, cur, registry, config, min, shape, c, seeds[j]);
            assert forall|e: int| 0 <= e < 6 implies #[trigger] expanded_dir(cur, registry, config, min, shape, c, seeds[j], e) by {
                assert(expanded_dir(prev, registry, config, min, shape, c, seeds[j], e));
            }
        } else if exists|k: int| 0 <= k < prev_q.len() && #[trigger] prev_q[k] == seeds[j] {
            let k = choose|k: int| 0 <= k < prev_q.len() && #[trigger] prev_q[k] == seeds[j];
            assert(cur_q[k] == prev_q[k]);
        }
    }
    lemma_expanded_mono(prev, cur, registry, config, min, shape, c, node);
    assert forall|e: int| 0 <= e < d + 1 implies #[trigger] expanded_dir(cur, registry, config, min, shape, c, node, e) by {
        if e < d {
            assert(expanded_dir(prev, registry, config, min, shape, c, node, e));
        } else {
            assert(cur.light(c, nx, ny, nz) >= prev.light(c, nx, ny, nz));
            assert(cur.voxel(nx, ny, nz) == prev.voxel(nx, ny, nz));
        }
    }
}

} // verus!
