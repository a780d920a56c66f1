use crate::steady::{
    opposite,
    down,
    dx,
    dy,
    dz,
    extends,
    flood_frame,
    flood_requires,
    lemma_flood_step_frame,
    lemma_flood_step_keeps,
    lemma_steady_same,
    lemma_total_bounds,
    lemma_total_update,
    levels_within,
    next_level,
    permitted,
    queued,
    settled,
    settled_all,
    settled_dir,
    settled_or_queued,
    settled_or_queued_but,
    all_justified,
    expanded,
    expanded_dir,
    lemma_flood_step_expanded,
    seeds_expanded,
    below,
    justified,
    justified_dir,
    lemma_flood_step_justified,
    node_ok,
    raised,
    raised_settled_or_queued,
    lemma_flood_step_raised,
    lemma_dark_settled,
    caps,
    lemma_flood_step_capped,
    under,
    lemma_seeds_pop,
    lemma_seeds_same,
    seeds_in_place,
    total,
    transparent,
};
use crate::sweep::{
    all_sun_seeds,
    lemma_side_same,
    lemma_sun_bounded,
    lemma_sun_seeds_keep,
    side_clear,
    side_seeded,
    sun_base,
    sun_from_around,
    sun_seed,
    lemma_color_bounded,
    lit_from_around,
    all_emit,
    emission,
    emits,
    lemma_emit_keep,
    column_clear,
    in_region,
    lemma_clear_same,
    lemma_clear_step,
    lemma_mask_index,
    lemma_mask_same,
    lemma_sweep_ready,
    lemma_swept_keep,
    lit_beside,
    mask_index,
    mask_ok,
    propagate_requires,
    region_voxel_lit,
    swept,
    swept_before,
    swept_upto,
};
use crate::darken::{
    removal_bounded,
    fill_ok,
    settled_everywhere,
    darkening,
    holds_voxel,
    lemma_refill_ready,
    lemma_refilled_keep,
    refilled,
    refilled_dir,
};
use crate::world::{LightCell, LightColor, Registry, Space, Vec2, Vec3, WorldConfig};
use std::collections::VecDeque;
use vstd::prelude::*;

verus! {

/// Node of a light propagation queue: a voxel and the level it carries.
#[derive(Clone, Copy, Debug)]
pub struct LightNode {
    pub voxel: [i32; 3],
    pub level: u32,
}

/// Global illumination of a voxel world.
pub struct Lights;

/// The offset of axial direction `d`.
fn offset(d: usize) -> (r: (i64, i64, i64))
    requires
        d < 6,
    ensures
        r.0 == dx(d as int) && r.1 == dy(d as int) && r.2 == dz(d as int),
{
    if d == 0 {
        (1, 0, 0)
    } else if d == 1 {
        (-1, 0, 0)
    } else if d == 2 {
        (0, 0, 1)
    } else if d == 3 {
        (0, 0, -1)
    } else if d == 4 {
        (0, 1, 0)
    } else {
        (0, -1, 0)
    }
}

impl Lights {
    /// One step of a flood: from `node` towards direction `d`.
    fn flood_step(
        space: &mut Space,
        queue: &mut VecDeque<LightNode>,
        node: &LightNode,
        d: usize,
        color: &LightColor,
        registry: &Registry,
        config: &WorldConfig,
        min: Option<&Vec3<i32>>,
        shape: Option<&Vec3<usize>>,
    )
        requires
            flood_requires(old(space), registry, config),
            1 <= node.level <= config.max_light_level,
            d < 6,
        ensures
            ({
                let (nx, ny, nz) = (
                    node.voxel[0] + dx(d as int),
                    node.voxel[1] + dy(d as int),
                    node.voxel[2] + dz(d as int),
                );
                let next = next_level(
                    *color,
                    d as int,
                    node.level as int,
                    config.max_light_level as int,
                );
                let write = permitted(old(space), config, min, shape, nx, ny, nz) && transparent(
                    old(space),
                    registry,
                    nx,
                    ny,
                    nz,
                ) && old(space).light(*color, nx, ny, nz) < next;
                &&& final(space).wf()
                &&& final(space).same_blocks(old(space))
                &&& forall|c2: LightColor|
                    c2 != *color ==> #[trigger] final(space).chan(c2) == old(space).chan(c2)
                &&& write ==> {
                    &&& old(space).contains(nx, ny, nz)
                    &&& final(space).chan(*color) == old(space).chan(*color).update(
                        old(space).idx(nx, ny, nz),
                        next as u32,
                    )
                    &&& final(queue)@.len() == old(queue)@.len() + 1
                    &&& final(queue)@ == old(queue)@.push(final(queue)@.last())
                    &&& final(queue)@.last().voxel[0] == nx
                    &&& final(queue)@.last().voxel[1] == ny
                    &&& final(queue)@.last().voxel[2] == nz
                    &&& final(queue)@.last().level == next
                }
                &&& !write ==> final(space).chan(*color) == old(space).chan(*color)
                &&& !write ==> final(queue)@ == old(queue)@
                &&& forall|x: int, y: int, z: int|
                    #[trigger] final(space).light(*color, x, y, z) == if write && x == nx && y
                        == ny && z == nz {
                        next
                    } else {
                        old(space).light(*color, x, y, z)
                    }
                &&& 0 <= next <= config.max_light_level
            }),
    {
        let (ox, oy, oz) = offset(d);
        let nx = node.voxel[0] as i64 + ox;
        let ny = node.voxel[1] as i64 + oy;
        let nz = node.voxel[2] as i64 + oz;
        let max_level = config.max_light_level;
        let next = if *color == LightColor::Sunlight && d == 5 && node.level == max_level {
            max_level
        } else {
            node.level - 1
        };
        if ny < 0 || ny as i128 >= config.max_height as i128 || !config.in_world_exec(nx, nz) {
            return ;
        }
        match min {
            None => {},
            Some(m) => {
                if nx < m.0 as i64 || nz < m.2 as i64 {
                    return ;
                }
                match shape {
                    None => {},
                    Some(s) => {
                        if nx as i128 >= m.0 as i128 + s.0 as i128 || nz as i128 >= m.2 as i128
                            + s.2 as i128 {
                            return ;
                        }
                    },
                }
            },
        }
        let i = match space.index_of(nx, ny, nz) {
            Some(i) => i,
            None => {
                return ;
            },
        };
        let (x, y, z) = (nx as i32, ny as i32, nz as i32);
        let id = space.get_voxel(x, y, z);
        proof {
            space.lemma_idx(nx as int, ny as int, nz as int);
        }
        let block = registry.get_block_by_id(id);
        if !block.is_transparent || space.get_light(x, y, z, color) >= next {
            return ;
        }
        space.set_light(x, y, z, next, color);
        queue.push_back(LightNode { voxel: [x, y, z], level: next });
    }
    /// Floods one channel breadth-first from the queued nodes. A node's level
    /// is taken as already present at its voxel; each permitted transparent
    /// neighbor that holds less than a step carries is raised and queued.
    #[verifier::rlimit(100)]
    #[verifier::spinoff_prover]
    pub fn flood_light(
        space: &mut Space,
        queue: VecDeque<LightNode>,
        color: &LightColor,
        registry: &Registry,
        config: &WorldConfig,
        min: Option<&Vec3<i32>>,
        shape: Option<&Vec3<usize>>,
    )
        requires
            flood_requires(old(space), registry, config),
            levels_within(queue@, config.max_light_level as int),
        ensures
            flood_frame(old(space), final(space), registry, config, min, shape, *color),
            settled_or_queued(old(space), registry, config, min, shape, *color, queue@)
                ==> settled_all(final(space), registry, config, min, shape, *color),
            queue@.len() == 0 ==> final(space).chan(*color) == old(space).chan(*color),
            settled_all(old(space), registry, config, min, shape, *color) && seeds_in_place(
                old(space),
                config,
                min,
                shape,
                *color,
                queue@,
            ) ==> final(space).chan(*color) == old(space).chan(*color),
            forall|cap: Space|
                #[trigger] caps(&cap, old(space), registry, config, min, shape, *color, queue@)
                    ==> below(final(space), &cap, *color),
            all_justified(final(space), old(space), queue@, config, *color),
            forall|j: int|
                0 <= j < queue@.len() ==> #[trigger] expanded(final(space), registry, config, min, shape, *color, queue@[j]),
            forall|x: int, y: int, z: int|
                raised(final(space), old(space), *color, x, y, z) ==> #[trigger] settled(
                    final(space),
                    registry,
                    config,
                    min,
                    shape,
                    *color,
                    x,
                    y,
                    z,
                ),
    {
        let mut queue = queue;
        let ghost start = *space;
        let ghost pre = settled_or_queued(&start, registry, config, min, shape, *color, queue@);
        let ghost max = config.max_light_level as int;
        let ghost n = space.sun@.len() as int;
        let ghost empty = queue@.len() == 0;
        let ghost q0 = queue@;
        let ghost quiet = settled_all(&start, registry, config, min, shape, *color) && seeds_in_place(
            &start,
            config,
            min,
            shape,
            *color,
            queue@,
        );
        proof {
            lemma_total_bounds(space.chan(*color), max);
        }
        proof {
            assert forall|j: int| 0 <= j < queue@.len() implies #[trigger] node_ok(space, &start, q0, *color, queue@[j]) by {
                assert(queued(q0, queue@[j].voxel[0] as int, queue@[j].voxel[1] as int, queue@[j].voxel[2] as int, queue@[j].level as int));
            }
            assert forall|j: int| 0 <= j < q0.len() implies #[trigger] expanded(space, registry, config, min, shape, *color, q0[j])
                || (exists|k: int| 0 <= k < queue@.len() && #[trigger] queue@[k] == q0[j]) || None::<LightNode> == Some(q0[j]) by {
                assert(queue@[j] == q0[j]);
            }
        }
        while queue.len() > 0
            invariant
                flood_requires(space, registry, config),
                flood_frame(&start, space, registry, config, min, shape, *color),
                levels_within(queue@, max),
                max == config.max_light_level,
                n == space.chan(*color).len(),
                0 <= total(space.chan(*color)) <= max * n,
                pre ==> settled_or_queued(space, registry, config, min, shape, *color, queue@),
                empty ==> space.chan(*color) == start.chan(*color) && queue@.len() == 0,
                quiet ==> space.chan(*color) == start.chan(*color) && seeds_in_place(
                    space,
                    config,
                    min,
                    shape,
                    *color,
                    queue@,
                ) && settled_all(&start, registry, config, min, shape, *color),
                forall|cap: Space|
                    #[trigger] caps(&cap, &start, registry, config, min, shape, *color, q0) ==> below(
                        space,
                        &cap,
                        *color,
                    ) && forall|j: int|
                        0 <= j < queue@.len() ==> #[trigger] under(
                            &cap,
                            registry,
                            config,
                            min,
                            shape,
                            *color,
                            queue@[j],
                        ),
                all_justified(space, &start, q0, config, *color),
                forall|j: int| 0 <= j < queue@.len() ==> #[trigger] node_ok(space, &start, q0, *color, queue@[j]),
                seeds_expanded(space, registry, config, min, shape, *color, q0, queue@, None),
                raised_settled_or_queued(space, &start, registry, config, min, shape, *color, queue@, 0, 0, 0, 0, false),
            decreases 7 * (max * n - total(space.chan(*color))) + queue@.len(),
        {
            let ghost q_before = queue@;
            let node = queue.pop_front().unwrap();
            let ghost popped = node;
            let ghost measure = 7 * (max * n - total(space.chan(*color))) + queue@.len();
            let ghost (vx, vy, vz) = (node.voxel[0] as int, node.voxel[1] as int, node.voxel[2] as int);
            let ghost lv = space.light(*color, vx, vy, vz);
            proof {
                if quiet {
                    lemma_seeds_pop(space, config, min, shape, *color, q_before);
                }
            }
            proof {
                assert forall|j: int| 0 <= j < q0.len() implies #[trigger] expanded(space, registry, config, min, shape, *color, q0[j])
                    || (exists|k: int| 0 <= k < queue@.len() && #[trigger] queue@[k] == q0[j]) || Some(node) == Some(q0[j]) by {
                    if !expanded(space, registry, config, min, shape, *color, q0[j]) {
                        let k = choose|k: int| 0 <= k < q_before.len() && #[trigger] q_before[k] == q0[j];
                        if k > 0 {
                            assert(queue@[k - 1] == q_before[k]);
                        }
                    }
                }
            }
            proof {
                let q1 = queue@;
                assert forall|x: int, y: int, z: int|
                    raised(space, &start, *color, x, y, z) implies #[trigger] settled(
                        space,
                        registry,
                        config,
                        min,
                        shape,
                        *color,
                        x,
                        y,
                        z,
                    ) || queued(q1, x, y, z, space.light(*color, x, y, z)) || (true && x == vx && y == vy
                        && z == vz && node.level == space.light(*color, x, y, z)) by {
                    let l = space.light(*color, x, y, z);
                    if !settled(space, registry, config, min, shape, *color, x, y, z) {
                        assert(queued(q_before, x, y, z, l));
                        let j = choose|j: int|
                            0 <= j < q_before.len() && #[trigger] q_before[j].voxel[0] == x
                                && q_before[j].voxel[1] == y && q_before[j].voxel[2] == z
                                && q_before[j].level == l;
                        if j > 0 {
                            assert(q1[j - 1] == q_before[j]);
                        }
                    }
                }
            }
            proof {
                assert(node_ok(space, &start, q0, *color, q_before[0]));
                assert forall|j: int| 0 <= j < queue@.len() implies #[trigger] node_ok(space, &start, q0, *color, queue@[j]) by {
                    assert(queue@[j] == q_before[j + 1]);
                    assert(node_ok(space, &start, q0, *color, q_before[j + 1]));
                }
            }
            proof {
                assert forall|cap: Space|
                    #[trigger] caps(&cap, &start, registry, config, min, shape, *color, q0) implies below(
                        space,
                        &cap,
                        *color,
                    ) && under(&cap, registry, config, min, shape, *color, node) && forall|j: int|
                        0 <= j < queue@.len() ==> #[trigger] under(
                            &cap,
                            registry,
                            config,
                            min,
                            shape,
                            *color,
                            queue@[j],
                        ) by {
                    assert(under(&cap, registry, config, min, shape, *color, q_before[0]));
                    assert forall|j: int| 0 <= j < queue@.len() implies #[trigger] under(
                        &cap,
                        registry,
                        config,
                        min,
                        shape,
                        *color,
                        queue@[j],
                    ) by {
                        assert(queue@[j] == q_before[j + 1]);
                        assert(under(&cap, registry, config, min, shape, *color, q_before[j + 1]));
                    }
                }
            }
            proof {
                if pre {
                    let q0 = queue@;
                    assert forall|x: int, y: int, z: int|
                        permitted(space, config, min, shape, x, y, z) implies #[trigger] settled(
                            space,
                            registry,
                            config,
                            min,
                            shape,
                            *color,
                            x,
                            y,
                            z,
                        ) || queued(q0, x, y, z, space.light(*color, x, y, z)) || (x == vx && y
                            == vy && z == vz && node.level == space.light(*color, x, y, z)) by {
                        let l = space.light(*color, x, y, z);
                        if !settled(space, registry, config, min, shape, *color, x, y, z) {
                            assert(queued(q_before, x, y, z, l));
                            let j = choose|j: int|
                                0 <= j < q_before.len() && #[trigger] q_before[j].voxel[0] == x
                                    && q_before[j].voxel[1] == y && q_before[j].voxel[2] == z
                                    && q_before[j].level == l;
                            if j > 0 {
                                assert(q0[j - 1] == q_before[j]);
                            }
                        }
                    }
                    assert(settled_or_queued_but(
                        space,
                        registry,
                        config,
                        min,
                        shape,
                        *color,
                        q0,
                        vx,
                        vy,
                        vz,
                        node.level as int,
                    ));
                }
            }
            if node.level > 0 {
                let mut d: usize = 0;
                while d < 6
                    invariant
                        0 <= d <= 6,
                        flood_requires(space, registry, config),
                        flood_frame(&start, space, registry, config, min, shape, *color),
                        levels_within(queue@, max),
                        max == config.max_light_level,
                        n == space.chan(*color).len(),
                        0 <= total(space.chan(*color)) <= max * n,
                        7 * (max * n - total(space.chan(*color))) + queue@.len() <= measure,
                        node == popped,
                        1 <= node.level <= max,
                        vx == node.voxel[0] && vy == node.voxel[1] && vz == node.voxel[2],
                        quiet ==> space.chan(*color) == start.chan(*color) && seeds_in_place(
                            space,
                            config,
                            min,
                            shape,
                            *color,
                            queue@,
                        ) && settled_all(&start, registry, config, min, shape, *color)
                            && permitted(space, config, min, shape, vx, vy, vz) && node.level
                            <= space.light(*color, vx, vy, vz),
                        space.light(*color, vx, vy, vz) == lv,
                        pre ==> settled_or_queued_but(
                            space,
                            registry,
                            config,
                            min,
                            shape,
                            *color,
                            queue@,
                            vx,
                            vy,
                            vz,
                            node.level as int,
                        ),
                        node.level == lv ==> forall|e: int|
                            0 <= e < d ==> #[trigger] settled_dir(
                                space,
                                registry,
                                config,
                                min,
                                shape,
                                *color,
                                vx,
                                vy,
                                vz,
                                e,
                            ),
                        forall|cap: Space|
                            #[trigger] caps(&cap, &start, registry, config, min, shape, *color, q0)
                                ==> below(space, &cap, *color) && under(
                                &cap,
                                registry,
                                config,
                                min,
                                shape,
                                *color,
                                node,
                            ) && forall|j: int|
                                0 <= j < queue@.len() ==> #[trigger] under(
                                    &cap,
                                    registry,
                                    config,
                                    min,
                                    shape,
                                    *color,
                                    queue@[j],
                                ),
                        all_justified(space, &start, q0, config, *color),
                        node_ok(space, &start, q0, *color, node),
                        seeds_expanded(space, registry, config, min, shape, *color, q0, queue@, Some(node)),
                        raised_settled_or_queued(
                            space,
                            &start,
                            registry,
                            config,
                            min,
                            shape,
                            *color,
                            queue@,
                            vx,
                            vy,
                            vz,
                            node.level as int,
                            true,
                        ),
                        forall|e: int|
                            0 <= e < d ==> #[trigger] expanded_dir(space, registry, config, min, shape, *color, node, e),
                        forall|j: int| 0 <= j < queue@.len() ==> #[trigger] node_ok(space, &start, q0, *color, queue@[j]),
                    decreases 6 - d,
                {
                    let ghost prev = *space;
                    let ghost prev_q = queue@;
                    Lights::flood_step(
                        space,
                        &mut queue,
                        &node,
                        d,
                        color,
                        registry,
                        config,
                        min,
                        shape,
                    );
                    proof {
                        let nx = node.voxel[0] + dx(d as int);
                        let ny = node.voxel[1] + dy(d as int);
                        let nz = node.voxel[2] + dz(d as int);
                        let next = next_level(*color, d as int, node.level as int, max);
                        if quiet {
                            lemma_steady_same(&start, &prev, registry, config, min, shape, *color, queue@);
                            assert(settled(&prev, registry, config, min, shape, *color, vx, vy, vz));
                            assert(settled_dir(&prev, registry, config, min, shape, *color, vx, vy, vz, d as int));
                            assert(next_level(*color, d as int, prev.light(*color, vx, vy, vz), max) >= next);
                            assert(space.chan(*color) == prev.chan(*color));
                            assert(queue@ == prev_q);
                            lemma_seeds_same(&prev, space, config, min, shape, *color, queue@);
                        }
                        if permitted(&prev, config, min, shape, nx, ny, nz) && transparent(
                            &prev,
                            registry,
                            nx,
                            ny,
                            nz,
                        ) && prev.light(*color, nx, ny, nz) < next {
                            prev.lemma_idx(nx, ny, nz);
                            assert(space.light(*color, nx, ny, nz) == next);
                            assert(prev.light(*color, nx, ny, nz) < next);
                            lemma_total_update(
                                prev.chan(*color),
                                prev.idx(nx, ny, nz),
                                next as u32,
                            );
                        }
                        assert forall|i: int|
                            0 <= i < space.chan(*color).len() implies #[trigger] space.chan(
                                *color,
                            )[i] <= max by {
                            assert(prev.chan(*color)[i] <= max);
                        }
                        assert forall|x: int, y: int, z: int|
                            #[trigger] space.light(*color, x, y, z) != prev.light(
                                *color,
                                x,
                                y,
                                z,
                            ) implies permitted(&prev, config, min, shape, x, y, z) && transparent(
                            &prev,
                            registry,
                            x,
                            y,
                            z,
                        ) && space.light(*color, x, y, z) > prev.light(*color, x, y, z) by {}
                        lemma_flood_step_frame(
                            &start,
                            &prev,
                            space,
                            registry,
                            config,
                            min,
                            shape,
                            *color,
                        );
                        assert forall|j: int| 0 <= j < queue@.len() implies #[trigger] queue@[j].level <= max by {
                            if j < prev_q.len() {
                                assert(queue@[j] == prev_q[j]);
                            }
                        }
                        lemma_total_bounds(space.chan(*color), max);
                        assert(space.light(*color, vx, vy, vz) == prev.light(*color, vx, vy, vz));
                        assert forall|a: int, b: int, e: int| #[trigger] start.light(*color, a, b, e) <= prev.light(*color, a, b, e) by {
                            assert(prev.light(*color, a, b, e) >= start.light(*color, a, b, e));
                        }
                        lemma_flood_step_expanded(
                            &prev,
                            space,
                            q0,
                            prev_q,
                            queue@,
                            registry,
                            config,
                            min,
                            shape,
                            *color,
                            node,
                            d as int,
                        );
                        lemma_flood_step_justified(
                            &start,
                            &prev,
                            space,
                            q0,
                            prev_q,
                            queue@,
                            registry,
                            config,
                            min,
                            shape,
                            *color,
                            node,
                            d as int,
                        );
                        lemma_flood_step_raised(
                            &start,
                            &prev,
                            space,
                            prev_q,
                            queue@,
                            registry,
                            config,
                            min,
                            shape,
                            *color,
                            node,
                            d as int,
                            lv,
                        );
                        assert forall|cap: Space|
                            #[trigger] caps(&cap, &start, registry, config, min, shape, *color, q0)
                                implies below(space, &cap, *color) && under(
                                &cap,
                                registry,
                                config,
                                min,
                                shape,
                                *color,
                                node,
                            ) && forall|j: int|
                                0 <= j < queue@.len() ==> #[trigger] under(
                                    &cap,
                                    registry,
                                    config,
                                    min,
                                    shape,
                                    *color,
                                    queue@[j],
                                ) by {
                            lemma_flood_step_capped(
                                &prev,
                                space,
                                &cap,
                                prev_q,
                                queue@,
                                registry,
                                config,
                                min,
                                shape,
                                *color,
                                node,
                                d as int,
                            );
                        }
                        if pre {
                            lemma_flood_step_keeps(
                                &prev,
                                space,
                                prev_q,
                                queue@,
                                registry,
                                config,
                                min,
                                shape,
                                *color,
                                node,
                                d as int,
                                lv,
                            );
                        }
                    }
                    d += 1;
                }
            }
            proof {
                assert forall|e: int| 0 <= e < 6 implies #[trigger] expanded_dir(space, registry, config, min, shape, *color, node, e) by {
                    let (nx, ny, nz) = (node.voxel[0] + dx(e), node.voxel[1] + dy(e), node.voxel[2] + dz(e));
                    assert(space.light(*color, nx, ny, nz) >= 0);
                }
                assert(expanded(space, registry, config, min, shape, *color, node));
            }
            proof {
                if node.level == lv {
                    if lv == 0 {
                        lemma_dark_settled(space, registry, config, min, shape, *color, vx, vy, vz);
                    } else {
                        assert(settled_dir(space, registry, config, min, shape, *color, vx, vy, vz, 0));
                        assert(settled_dir(space, registry, config, min, shape, *color, vx, vy, vz, 1));
                        assert(settled_dir(space, registry, config, min, shape, *color, vx, vy, vz, 2));
                        assert(settled_dir(space, registry, config, min, shape, *color, vx, vy, vz, 3));
                        assert(settled_dir(space, registry, config, min, shape, *color, vx, vy, vz, 4));
                        assert(settled_dir(space, registry, config, min, shape, *color, vx, vy, vz, 5));
                    }
                }
                assert(raised_settled_or_queued(space, &start, registry, config, min, shape, *color, queue@, 0, 0, 0, 0, false));
            }
        }
    }

    /// One step of a removal: from `node` towards direction `d`. A lit
    /// neighbor that `node`'s light reached is darkened and queued in `dark`;
    /// one lit from elsewhere is queued in `fill` at its level.
    fn remove_step(
        space: &mut Space,
        dark: &mut VecDeque<LightNode>,
        fill: &mut VecDeque<LightNode>,
        node: &LightNode,
        d: usize,
        color: &LightColor,
        config: &WorldConfig,
    )
        requires
            old(space).wf(),
            d < 6,
        ensures
            ({
                let (nx, ny, nz) = (
                    node.voxel[0] + dx(d as int),
                    node.voxel[1] + dy(d as int),
                    node.voxel[2] + dz(d as int),
                );
                let nl = old(space).light(*color, nx, ny, nz);
                let max = config.max_light_level as int;
                let seen = 0 <= ny < config.max_height && nl != 0;
                let darken = seen && (nl < node.level || (*color == LightColor::Sunlight && d
                    == down() && node.level == max && nl == max));
                let refill = seen && !darken && (*color != LightColor::Sunlight || d != down()
                    || nl > node.level);
                &&& final(space).wf()
                &&& final(space).same_blocks(old(space))
                &&& forall|c2: LightColor|
                    c2 != *color ==> #[trigger] final(space).chan(c2) == old(space).chan(c2)
                &&& seen ==> old(space).contains(nx, ny, nz)
                &&& darken ==> {
                    &&& final(space).chan(*color) == old(space).chan(*color).update(
                        old(space).idx(nx, ny, nz),
                        0,
                    )
                    &&& final(dark)@ == old(dark)@.push(final(dark)@.last())
                    &&& final(dark)@.last().voxel[0] == nx
                    &&& final(dark)@.last().voxel[1] == ny
                    &&& final(dark)@.last().voxel[2] == nz
                    &&& final(dark)@.last().level == nl
                }
                &&& !darken ==> final(space).chan(*color) == old(space).chan(*color)
                &&& !darken ==> final(dark)@ == old(dark)@
                &&& refill ==> {
                    &&& final(fill)@ == old(fill)@.push(final(fill)@.last())
                    &&& final(fill)@.last().voxel[0] == nx
                    &&& final(fill)@.last().voxel[1] == ny
                    &&& final(fill)@.last().voxel[2] == nz
                    &&& final(fill)@.last().level == nl
                }
                &&& !refill ==> final(fill)@ == old(fill)@
                &&& forall|x: int, y: int, z: int|
                    #[trigger] final(space).light(*color, x, y, z) == if darken && x == nx && y
                        == ny && z == nz {
                        0
                    } else {
                        old(space).light(*color, x, y, z)
                    }
            }),
    {
        let (ox, oy, oz) = offset(d);
        let nx = node.voxel[0] as i64 + ox;
        let ny = node.voxel[1] as i64 + oy;
        let nz = node.voxel[2] as i64 + oz;
        if ny < 0 || ny as i128 >= config.max_height as i128 {
            return ;
        }
        if space.index_of(nx, ny, nz).is_none() {
            return ;
        }
        let (x, y, z) = (nx as i32, ny as i32, nz as i32);
        let nl = space.get_light(x, y, z, color);
        if nl == 0 {
            return ;
        }
        let max_level = config.max_light_level;
        let is_sunlight = *color == LightColor::Sunlight;
        if nl < node.level || (is_sunlight && d == 5 && node.level == max_level && nl
            == max_level) {
            dark.push_back(LightNode { voxel: [x, y, z], level: nl });
            space.set_light(x, y, z, 0, color);
        } else if !is_sunlight || d != 5 || nl > node.level {
            fill.push_back(LightNode { voxel: [x, y, z], level: nl });
        }
    }

    /// Removes the light of one voxel on one channel: darkens every voxel that
    /// its light reached, then floods again from the lit voxels around the
    /// darkened ones. On a color channel, a field that was steady everywhere
    /// is steady again afterwards.
    #[verifier::rlimit(100)]
    #[verifier::spinoff_prover]
    pub fn remove_light(
        space: &mut Space,
        voxel: &Vec3<i32>,
        color: &LightColor,
        config: &WorldConfig,
        registry: &Registry,
    )
        requires
            flood_requires(old(space), registry, config),
        ensures
            final(space).wf(),
            final(space).same_blocks(old(space)),
            final(space).levels_within(config.max_light_level as int),
            forall|c2: LightColor|
                c2 != *color ==> #[trigger] final(space).chan(c2) == old(space).chan(c2),
            *color != LightColor::Sunlight && settled_all(old(space), registry, config, None, None, *color)
                ==> settled_all(final(space), registry, config, None, None, *color),
            settled_everywhere(old(space), registry, config, *color) ==> below(
                final(space),
                old(space),
                *color,
            ),
            settled_everywhere(old(space), registry, config, *color) && final(space).light(
                *color,
                voxel.0 as int,
                voxel.1 as int,
                voxel.2 as int,
            ) > 0 ==> exists|e: int|
                0 <= e < 6 && #[trigger] removal_bounded(
                    old(space),
                    final(space),
                    config,
                    *color,
                    voxel.0 as int,
                    voxel.1 as int,
                    voxel.2 as int,
                    e,
                ),
            settled_everywhere(old(space), registry, config, *color) && old(space).light(
                *color,
                voxel.0 as int,
                voxel.1 as int,
                voxel.2 as int,
            ) == 0 ==> forall|x: int, y: int, z: int|
                #[trigger] final(space).light(*color, x, y, z) == old(space).light(*color, x, y, z),
            !transparent(old(space), registry, voxel.0 as int, voxel.1 as int, voxel.2 as int) ==> final(space).light(
                *color,
                voxel.0 as int,
                voxel.1 as int,
                voxel.2 as int,
            ) == 0,
            *color != LightColor::Sunlight ==> forall|e: int|
                0 <= e < 6 && old(space).light(*color, voxel.0 + dx(e), voxel.1 + dy(e), voxel.2 + dz(e))
                    >= old(space).light(*color, voxel.0 as int, voxel.1 as int, voxel.2 as int)
                    ==> #[trigger] final(space).light(*color, voxel.0 + dx(e), voxel.1 + dy(e), voxel.2 + dz(e))
                    >= old(space).light(*color, voxel.0 + dx(e), voxel.1 + dy(e), voxel.2 + dz(e)),
    {
        let ghost start = *space;
        let ghost max = config.max_light_level as int;
        let ghost torch = *color != LightColor::Sunlight;
        let ghost (vx, vy, vz) = (voxel.0 as int, voxel.1 as int, voxel.2 as int);
        let mut fill: VecDeque<LightNode> = VecDeque::new();
        let mut dark: VecDeque<LightNode> = VecDeque::new();
        let level = space.get_light(voxel.0, voxel.1, voxel.2, color);
        dark.push_back(LightNode { voxel: [voxel.0, voxel.1, voxel.2], level });
        let ghost prev = *space;
        space.set_light(voxel.0, voxel.1, voxel.2, 0, color);
        proof {
            if prev.contains(vx, vy, vz) {
                prev.lemma_idx(vx, vy, vz);
                lemma_total_update(prev.chan(*color), prev.idx(vx, vy, vz), 0);
            }
            assert forall|c2: LightColor, i: int|
                0 <= i < space.chan(c2).len() implies #[trigger] space.chan(c2)[i] <= max by {
                assert(prev.chan(c2)[i] <= max);
            }
            lemma_total_bounds(space.chan(*color), max);
            assert forall|a: int, b: int, e: int|
                #[trigger] space.light(*color, a, b, e) <= start.light(*color, a, b, e) by {}
            assert(dark@[0].voxel[0] == vx && dark@[0].voxel[1] == vy && dark@[0].voxel[2] == vz);
            assert(holds_voxel(dark@, vx, vy, vz));
        }
        while dark.len() > 0
            invariant
                flood_requires(space, registry, config),
                space.same_blocks(&start),
                forall|c2: LightColor| c2 != *color ==> #[trigger] space.chan(c2) == start.chan(c2),
                levels_within(fill@, max),
                max == config.max_light_level,
                total(space.chan(*color)) >= 0,
                torch == (*color != LightColor::Sunlight),
                torch ==> darkening(&start, space, dark@, fill@, config, *color, false, 0, 0, 0),
                below(space, &start, *color),
                forall|j: int| 0 <= j < fill@.len() ==> #[trigger] fill_ok(&start, config, *color, fill@[j]),
                space.light(*color, vx, vy, vz) == 0,
                forall|j: int| 0 <= j < dark@.len() ==> #[trigger] dark@[j].level <= start.light(*color, vx, vy, vz),
                torch ==> forall|x: int, y: int, z: int|
                    #[trigger] space.light(*color, x, y, z) == 0 && start.light(*color, x, y, z) > 0 ==> (x == vx
                        && y == vy && z == vz) || start.light(*color, x, y, z) < start.light(*color, vx, vy, vz),
                start.light(*color, vx, vy, vz) == 0 ==> space.chan(*color) == start.chan(*color) && forall|j: int|
                    0 <= j < dark@.len() ==> #[trigger] dark@[j].level == 0,
                forall|j: int|
                    0 <= j < fill@.len() ==> !(#[trigger] fill@[j].voxel[0] == vx && fill@[j].voxel[1] == vy
                        && fill@[j].voxel[2] == vz),
            decreases 2 * total(space.chan(*color)) + dark@.len(),
        {
            let ghost dark_before = dark@;
            let node = dark.pop_front().unwrap();
            proof {
                assert(dark_before[0].level <= start.light(*color, vx, vy, vz));
                assert forall|j: int| 0 <= j < dark@.len() implies #[trigger] dark@[j].level <= start.light(*color, vx, vy, vz) by {
                    assert(dark@[j] == dark_before[j + 1]);
                    assert(dark_before[j + 1].level <= start.light(*color, vx, vy, vz));
                }
            }
            proof {
                if start.light(*color, vx, vy, vz) == 0 {
                    assert(dark_before[0].level == 0);
                    assert forall|j: int| 0 <= j < dark@.len() implies #[trigger] dark@[j].level == 0 by {
                        assert(dark@[j] == dark_before[j + 1]);
                        assert(dark_before[j + 1].level == 0);
                    }
                }
            }
            let ghost (ux, uy, uz) = (node.voxel[0] as int, node.voxel[1] as int, node.voxel[2] as int);
            let ghost measure = 2 * total(space.chan(*color)) + dark@.len();
            proof {
                if torch {
                    let d0 = dark@;
                    assert forall|x: int, y: int, z: int|
                        permitted(space, config, None, None, x, y, z) && space.light(*color, x, y, z) == 0
                            && start.light(*color, x, y, z) > 0 implies holds_voxel(d0, x, y, z)
                            || #[trigger] refilled(space, fill@, config, *color, x, y, z) || (true
                            && x == ux && y == uy && z == uz) by {
                        if holds_voxel(dark_before, x, y, z) {
                            let j = choose|j: int|
                                0 <= j < dark_before.len() && #[trigger] dark_before[j].voxel[0] == x
                                    && dark_before[j].voxel[1] == y && dark_before[j].voxel[2] == z;
                            if j > 0 {
                                assert(d0[j - 1] == dark_before[j]);
                            }
                        }
                    }
                }
            }
            let mut d: usize = 0;
            while d < 6
                invariant
                    0 <= d <= 6,
                    flood_requires(space, registry, config),
                    space.same_blocks(&start),
                    forall|c2: LightColor|
                        c2 != *color ==> #[trigger] space.chan(c2) == start.chan(c2),
                    levels_within(fill@, max),
                    max == config.max_light_level,
                    total(space.chan(*color)) >= 0,
                    2 * total(space.chan(*color)) + dark@.len() <= measure,
                    torch == (*color != LightColor::Sunlight),
                    ux == node.voxel[0] && uy == node.voxel[1] && uz == node.voxel[2],
                    below(space, &start, *color),
                    forall|j: int| 0 <= j < fill@.len() ==> #[trigger] fill_ok(&start, config, *color, fill@[j]),
                    start.light(*color, vx, vy, vz) == 0 ==> space.chan(*color) == start.chan(*color) && node.level
                        == 0 && forall|j: int| 0 <= j < dark@.len() ==> #[trigger] dark@[j].level == 0,
                        space.light(*color, vx, vy, vz) == 0,
                    forall|j: int| 0 <= j < dark@.len() ==> #[trigger] dark@[j].level <= start.light(*color, vx, vy, vz),
                    node.level <= start.light(*color, vx, vy, vz),
                    torch ==> forall|x: int, y: int, z: int|
                        #[trigger] space.light(*color, x, y, z) == 0 && start.light(*color, x, y, z) > 0 ==> (x == vx
                            && y == vy && z == vz) || start.light(*color, x, y, z) < start.light(*color, vx, vy, vz),
                    forall|j: int|
                        0 <= j < fill@.len() ==> !(#[trigger] fill@[j].voxel[0] == vx && fill@[j].voxel[1] == vy
                            && fill@[j].voxel[2] == vz),

                    torch ==> darkening(&start, space, dark@, fill@, config, *color, true, ux, uy, uz),
                    torch ==> forall|e: int|
                        0 <= e < d ==> #[trigger] refilled_dir(space, fill@, config, *color, ux, uy, uz, e),
                decreases 6 - d,
            {
                let ghost prev = *space;
                let ghost prev_fill = fill@;
                let ghost prev_dark = dark@;
                Lights::remove_step(space, &mut dark, &mut fill, &node, d, color, config);
                proof {
                    let nx = node.voxel[0] + dx(d as int);
                    let ny = node.voxel[1] + dy(d as int);
                    let nz = node.voxel[2] + dz(d as int);
                    let nl = prev.light(*color, nx, ny, nz);
                    let darken = 0 <= ny < config.max_height && nl != 0 && (nl < node.level || (
                    *color == LightColor::Sunlight && d == down() && node.level == max && nl
                        == max));
                    if darken {
                        prev.lemma_idx(nx, ny, nz);
                        lemma_total_update(prev.chan(*color), prev.idx(nx, ny, nz), 0);
                    }
                    assert forall|c2: LightColor, i: int|
                        0 <= i < space.chan(c2).len() implies #[trigger] space.chan(c2)[i]
                        <= max by {
                        assert(prev.chan(c2)[i] <= max);
                        if c2 != *color {
                            assert(space.chan(c2) == prev.chan(c2));
                        }
                    }
                    assert forall|j: int| 0 <= j < fill@.len() implies #[trigger] fill@[j].level
                        <= max by {
                        if j < prev_fill.len() {
                            assert(fill@[j] == prev_fill[j]);
                        } else {
                            prev.lemma_idx(nx, ny, nz);
                            assert(prev.chan(*color)[prev.idx(nx, ny, nz)] <= max);
                        }
                    }
                    lemma_total_bounds(space.chan(*color), max);
                    assert forall|a: int, b: int, e: int|
                        #[trigger] space.light(*color, a, b, e) <= start.light(*color, a, b, e) by {
                        assert(prev.light(*color, a, b, e) <= start.light(*color, a, b, e));
                    }
                    assert forall|j: int| 0 <= j < fill@.len() implies #[trigger] fill_ok(&start, config, *color, fill@[j]) by {
                        if j < prev_fill.len() {
                            assert(fill@[j] == prev_fill[j]);
                        } else {
                            assert(prev.light(*color, nx, ny, nz) <= start.light(*color, nx, ny, nz));
                        }
                    }
                    assert forall|j: int| 0 <= j < dark@.len() implies #[trigger] dark@[j].level <= start.light(*color, vx, vy, vz) by {
                        if j < prev_dark.len() {
                            assert(dark@[j] == prev_dark[j]);
                        }
                    }
                    if torch {
                        assert forall|x: int, y: int, z: int|
                            #[trigger] space.light(*color, x, y, z) == 0 && start.light(*color, x, y, z) > 0 implies (x
                                == vx && y == vy && z == vz) || start.light(*color, x, y, z) < start.light(*color, vx, vy, vz) by {
                            assert(prev.light(*color, x, y, z) == start.light(*color, x, y, z) || prev.light(*color, x, y, z) == 0);
                            if prev.light(*color, x, y, z) != 0 {
                                assert(darken && x == nx && y == ny && z == nz);
                            }
                        }
                    }
                    if start.light(*color, vx, vy, vz) == 0 {
                        assert(!darken);
                        assert(dark@ == prev_dark);
                    }
                    assert forall|j: int|
                        0 <= j < fill@.len() implies !(#[trigger] fill@[j].voxel[0] == vx && fill@[j].voxel[1]
                            == vy && fill@[j].voxel[2] == vz) by {
                        if j < prev_fill.len() {
                            assert(fill@[j] == prev_fill[j]);
                        }
                    }
                    if torch {
                        assert(extends(fill@, prev_fill));
                        assert(extends(dark@, prev_dark));
                        assert forall|a: int, b: int, e: int|
                            #[trigger] space.light(*color, a, b, e) == start.light(*color, a, b, e)
                                || space.light(*color, a, b, e) == 0 by {
                            assert(prev.light(*color, a, b, e) == start.light(*color, a, b, e)
                                || prev.light(*color, a, b, e) == 0);
                        }
                        assert forall|a: int, b: int, e: int|
                            #[trigger] space.light(*color, a, b, e) == prev.light(*color, a, b, e)
                                || space.light(*color, a, b, e) == 0 by {}
                        assert forall|x: int, y: int, z: int|
                            permitted(space, config, None, None, x, y, z) && space.light(*color, x, y, z)
                                == 0 && start.light(*color, x, y, z) > 0 implies holds_voxel(dark@, x, y, z)
                                || #[trigger] refilled(space, fill@, config, *color, x, y, z) || (true
                                && x == ux && y == uy && z == uz) by {
                            if darken && x == nx && y == ny && z == nz {
                                let j = dark@.len() - 1;
                                assert(dark@[j].voxel[0] == x && dark@[j].voxel[1] == y && dark@[j].voxel[2] == z);
                            } else {
                                assert(prev.light(*color, x, y, z) == 0);
                                if holds_voxel(prev_dark, x, y, z) {
                                    let j = choose|j: int|
                                        0 <= j < prev_dark.len() && #[trigger] prev_dark[j].voxel[0] == x
                                            && prev_dark[j].voxel[1] == y && prev_dark[j].voxel[2] == z;
                                    assert(dark@[j] == prev_dark[j]);
                                } else if refilled(&prev, prev_fill, config, *color, x, y, z) {
                                    lemma_refilled_keep(&prev, space, prev_fill, fill@, config, *color, x, y, z);
                                    assert forall|e: int| 0 <= e < 6 implies #[trigger] refilled_dir(space, fill@, config, *color, x, y, z, e) by {
                                        assert(refilled_dir(&prev, prev_fill, config, *color, x, y, z, e));
                                    }
                                }
                            }
                        }
                        lemma_refilled_keep(&prev, space, prev_fill, fill@, config, *color, ux, uy, uz);
                        assert forall|e: int|
                            0 <= e < d + 1 implies #[trigger] refilled_dir(space, fill@, config, *color, ux, uy, uz, e) by {
                            if e < d {
                                assert(refilled_dir(&prev, prev_fill, config, *color, ux, uy, uz, e));
                            } else if 0 <= ny < config.max_height && space.light(*color, nx, ny, nz) > 0 {
                                let j = fill@.len() - 1;
                                assert(fill@[j].voxel[0] == nx && fill@[j].voxel[1] == ny && fill@[j].voxel[2] == nz);
                            }
                        }
                    }
                }
                d += 1;
            }
            proof {
                if torch {
                    assert forall|x: int, y: int, z: int|
                        permitted(space, config, None, None, x, y, z) && space.light(*color, x, y, z)
                            == 0 && start.light(*color, x, y, z) > 0 implies holds_voxel(dark@, x, y, z)
                            || #[trigger] refilled(space, fill@, config, *color, x, y, z) || (false
                            && x == 0 && y == 0 && z == 0) by {
                        if x == ux && y == uy && z == uz {
                            assert forall|e: int| 0 <= e < 6 implies #[trigger] refilled_dir(space, fill@, config, *color, x, y, z, e) by {}
                        }
                    }
                }
            }
        }
        proof {
            if torch && settled_all(&start, registry, config, None, None, *color) {
                assert(dark@ =~= Seq::<LightNode>::empty());
                lemma_refill_ready(&start, space, fill@, registry, config, *color);
            }
        }
        proof {
            if settled_everywhere(&start, registry, config, *color) {
                assert forall|j: int| 0 <= j < fill@.len() implies #[trigger] under(
                    &start,
                    registry,
                    config,
                    None,
                    None,
                    *color,
                    fill@[j],
                ) by {
                    assert(fill_ok(&start, config, *color, fill@[j]));
                }
                assert(caps(&start, space, registry, config, None, None, *color, fill@));
            }
        }
        let ghost mid = *space;
        let ghost seeds = fill@;
        Lights::flood_light(space, fill, color, registry, config, None, None);
        proof {
            if settled_everywhere(&start, registry, config, *color) && space.light(*color, vx, vy, vz) > 0 {
                assert(raised(space, &mid, *color, vx, vy, vz));
                assert(justified(space, &mid, seeds, config, *color, vx, vy, vz));
                let e = choose|e: int| 0 <= e < 6 && #[trigger] justified_dir(space, &mid, seeds, config, *color, vx, vy, vz, e);
                let (ux, uy, uz) = (vx + dx(e), vy + dy(e), vz + dz(e));
                assert(space.light(*color, ux, uy, uz) <= start.light(*color, ux, uy, uz));
                if !(raised(space, &mid, *color, ux, uy, uz) && space.light(*color, vx, vy, vz) <= next_level(
                    *color,
                    opposite(e),
                    space.light(*color, ux, uy, uz),
                    max,
                )) {
                    let l = choose|l: int| #[trigger] queued(seeds, ux, uy, uz, l) && space.light(*color, vx, vy, vz)
                        <= next_level(*color, opposite(e), l, max);
                    let j = choose|j: int|
                        0 <= j < seeds.len() && #[trigger] seeds[j].voxel[0] == ux && seeds[j].voxel[1] == uy
                            && seeds[j].voxel[2] == uz && seeds[j].level == l;
                    assert(fill_ok(&start, config, *color, seeds[j]));
                }
                assert(removal_bounded(&start, space, config, *color, vx, vy, vz, e));
            }
        }
        proof {
            if !transparent(&start, registry, vx, vy, vz) {
                assert(mid.voxel(vx, vy, vz) == start.voxel(vx, vy, vz));
                assert(space.light(*color, vx, vy, vz) == mid.light(*color, vx, vy, vz));
            }
            if torch {
                assert forall|e: int|
                    0 <= e < 6 && start.light(*color, vx + dx(e), vy + dy(e), vz + dz(e)) >= start.light(*color, vx, vy, vz)
                        implies #[trigger] space.light(*color, vx + dx(e), vy + dy(e), vz + dz(e)) >= start.light(
                        *color,
                        vx + dx(e),
                        vy + dy(e),
                        vz + dz(e),
                    ) by {
                    let (nx, ny, nz) = (vx + dx(e), vy + dy(e), vz + dz(e));
                    assert(mid.light(*color, nx, ny, nz) == start.light(*color, nx, ny, nz) || mid.light(*color, nx, ny, nz) == 0);
                    assert(space.light(*color, nx, ny, nz) >= mid.light(*color, nx, ny, nz));
                }
            }
        }
        proof {
            if settled_everywhere(&start, registry, config, *color) && start.light(*color, vx, vy, vz) == 0 {
                assert forall|a: int, b: int, e: int|
                    #[trigger] space.light(*color, a, b, e) == start.light(*color, a, b, e) by {
                    assert(space.light(*color, a, b, e) >= mid.light(*color, a, b, e));
                    assert(mid.light(*color, a, b, e) == start.light(*color, a, b, e));
                    assert(space.light(*color, a, b, e) <= start.light(*color, a, b, e));
                }
            }
        }
    }

    /// Sweeps one voxel of the region during propagation.
    #[verifier::rlimit(100)]
    #[verifier::spinoff_prover]
    fn sweep_voxel(
        space: &mut Space,
        mask: &mut Vec<u32>,
        queues: &mut [VecDeque<LightNode>; 4],
        min: &Vec3<i32>,
        shape: &Vec3<usize>,
        registry: &Registry,
        config: &WorldConfig,
        lx: usize,
        cy: usize,
        lz: usize,
    )
        requires
            propagate_requires(old(space), min, shape, registry, config),
            lx < shape.0,
            lz < shape.2,
            cy < config.max_height,
            mask_ok(old(mask)@, old(space), registry, config, min, shape, cy as int, lx as int, lz as int),
            swept_upto(old(space), registry, config, min, shape, old(queues)[0]@, old(queues)[1]@, old(queues)[2]@, old(queues)[3]@, cy as int, lx as int, lz as int),
            forall|k: int| 0 <= k < 4 ==> levels_within(#[trigger] old(queues)[k]@, config.max_light_level as int),
            all_emit(old(space), registry, config, min, shape, LightColor::Red, old(queues)[1]@),
            all_sun_seeds(old(space), registry, config, min, shape, old(queues)[0]@),
            all_emit(old(space), registry, config, min, shape, LightColor::Green, old(queues)[2]@),
            all_emit(old(space), registry, config, min, shape, LightColor::Blue, old(queues)[3]@),
        ensures
            propagate_requires(final(space), min, shape, registry, config),
            final(space).same_blocks(old(space)),
            forall|c: LightColor, x: int, y: int, z: int| !(x == min.0 + lx && y == cy && z == min.2 + lz)
                ==> #[trigger] final(space).light(c, x, y, z) == old(space).light(c, x, y, z),
            mask_ok(final(mask)@, final(space), registry, config, min, shape, cy as int, lx as int, lz + 1),
            swept_upto(final(space), registry, config, min, shape, final(queues)[0]@, final(queues)[1]@, final(queues)[2]@, final(queues)[3]@, cy as int, lx as int, lz + 1),
            forall|k: int| 0 <= k < 4 ==> levels_within(#[trigger] final(queues)[k]@, config.max_light_level as int),
            all_emit(final(space), registry, config, min, shape, LightColor::Red, final(queues)[1]@),
            all_sun_seeds(final(space), registry, config, min, shape, final(queues)[0]@),
            all_emit(final(space), registry, config, min, shape, LightColor::Green, final(queues)[2]@),
            all_emit(final(space), registry, config, min, shape, LightColor::Blue, final(queues)[3]@),
    {
        let ghost start = *space;
        let ghost q0 = *queues;
        let max = config.max_light_level;
        let sxn = shape.0;
        let szn = shape.2;
        let wx = (min.0 as i64 + lx as i64) as i32;
        let wz = (min.2 as i64 + lz as i64) as i32;
        let wy = cy as i32;
        proof {
            lemma_mask_index(lx as int, lz as int, lx as int, lz as int, sxn as int, szn as int);
            space.lemma_idx(wx as int, wy as int, wz as int);
        }
        let i = lx + lz * sxn;
        let id = space.get_voxel(wx, wy, wz);
        let block = registry.get_block_by_id(id);
        let m = mask[i];
        if block.is_transparent {
            let mut level = m;
            if m == 0 {
                proof {
                    if lx > 0 {
                        lemma_mask_index(lx - 1, lz as int, lx as int, lz as int, sxn as int, szn as int);
                    }
                    if lx + 1 < sxn {
                        lemma_mask_index(lx + 1, lz as int, lx as int, lz as int, sxn as int, szn as int);
                    }
                    if lz > 0 {
                        lemma_mask_index(lx as int, lz - 1, lx as int, lz as int, sxn as int, szn as int);
                        assert((lz - 1) * sxn == lz * sxn - sxn) by (nonlinear_arith);
                    }
                    if lz + 1 < szn {
                        lemma_mask_index(lx as int, lz + 1, lx as int, lz as int, sxn as int, szn as int);
                        assert((lz + 1) * sxn == lz * sxn + sxn) by (nonlinear_arith);
                    }
                }
                if (lx > 0 && mask[i - 1] == max) || (lx + 1 < sxn && mask[i + 1] == max) || (lz > 0
                    && mask[i - sxn] == max) || (lz + 1 < szn && mask[i + sxn] == max) {
                    proof {
                        let h = config.max_height as int;
                        let (x, y, z) = (wx as int, wy as int, wz as int);
                        assert(side_seeded(&start, registry, config, min, shape, x, y, z)) by {
                        if lx > 0 && old(mask)@[i - 1] == max {
                            assert(mask_index(lx - 1, lz as int, sxn as int) == i - 1);
                            lemma_clear_step(&start, registry, x - 1, y, z, h);
                            assert(side_clear(&start, registry, config, min, shape, x, y, z, 1));
                        } else if lx + 1 < sxn && old(mask)@[i + 1] == max {
                            assert(mask_index(lx + 1, lz as int, sxn as int) == i + 1);
                            lemma_clear_step(&start, registry, x + 1, y, z, h);
                            assert(side_clear(&start, registry, config, min, shape, x, y, z, 0));
                        } else if lz > 0 && old(mask)@[i - sxn] == max {
                            assert(mask_index(lx as int, lz - 1, sxn as int) == i - sxn);
                            lemma_clear_step(&start, registry, x, y, z - 1, h);
                            assert(side_clear(&start, registry, config, min, shape, x, y, z, 3));
                        } else {
                            assert(mask_index(lx as int, lz + 1, sxn as int) == i + sxn);
                            lemma_clear_step(&start, registry, x, y, z + 1, h);
                            assert(side_clear(&start, registry, config, min, shape, x, y, z, 2));
                        }
                        }
                    }
                    level = max - 1;
                    queues[0].push_back(LightNode { voxel: [wx, wy, wz], level });
                }
            }
            space.set_light(wx, wy, wz, level, &LightColor::Sunlight);
        } else {
            mask.set(i, 0);
            space.set_light(wx, wy, wz, 0, &LightColor::Sunlight);
        }
        let red = if block.is_light { block.red_light_level } else { 0 };
        let green = if block.is_light { block.green_light_level } else { 0 };
        let blue = if block.is_light { block.blue_light_level } else { 0 };
        space.set_light(wx, wy, wz, red, &LightColor::Red);
        space.set_light(wx, wy, wz, green, &LightColor::Green);
        space.set_light(wx, wy, wz, blue, &LightColor::Blue);
        if red > 0 {
            queues[1].push_back(LightNode { voxel: [wx, wy, wz], level: red });
        }
        if green > 0 {
            queues[2].push_back(LightNode { voxel: [wx, wy, wz], level: green });
        }
        if blue > 0 {
            queues[3].push_back(LightNode { voxel: [wx, wy, wz], level: blue });
        }
        proof {
            let h = config.max_height as int;
            let (x, y, z) = (wx as int, wy as int, wz as int);
            let max_i = max as int;
            lemma_clear_step(&start, registry, x, y, z, h);
            lemma_clear_same(&start, space, registry, x, y, z, h);
            lemma_clear_same(&start, space, registry, x, y + 1, z, h);
            assert(start.voxel(x, y, z) == space.voxel(x, y, z));
            assert(start.voxel(x, y, z) == id);
            assert(!swept_before(cy as int, lx as int, lz as int, lx as int, cy as int, lz as int));
            assert(m == if column_clear(&start, registry, x, y + 1, z, h) { max } else { 0 });
            // the mask after this voxel
            assert forall|lx2: int, lz2: int|
                0 <= lx2 < shape.0 && 0 <= lz2 < shape.2 implies #[trigger] mask@[mask_index(lx2, lz2, shape.0 as int)]
                    == if column_clear(
                    &start,
                    registry,
                    min.0 + lx2,
                    if swept_before(cy as int, lx as int, lz + 1, lx2, cy as int, lz2) {
                        cy as int
                    } else {
                        cy + 1
                    },
                    min.2 + lz2,
                    h,
                ) {
                    max
                } else {
                    0
                } by {
                lemma_mask_index(lx2, lz2, lx as int, lz as int, sxn as int, szn as int);
                if lx2 != lx || lz2 != lz {
                    assert(old(mask)@[mask_index(lx2, lz2, shape.0 as int)] == mask@[mask_index(lx2, lz2, shape.0 as int)]);
                }
            }
            lemma_mask_same(mask@, &start, space, registry, config, min, shape, cy as int, lx as int, lz + 1);
            // the voxel itself
            let qs = queues[0]@;
            let qr = queues[1]@;
            let qg = queues[2]@;
            let qb = queues[3]@;
            assert(extends(qs, q0[0]@));
            assert(extends(qr, q0[1]@));
            assert(extends(qg, q0[2]@));
            assert(extends(qb, q0[3]@));
            if red > 0 {
                assert(emits(space, registry, config, min, shape, LightColor::Red, qr[qr.len() - 1]));
            }
            lemma_emit_keep(&start, space, registry, config, min, shape, LightColor::Red, q0[1]@, qr);
            if green > 0 {
                assert(emits(space, registry, config, min, shape, LightColor::Green, qg[qg.len() - 1]));
            }
            lemma_emit_keep(&start, space, registry, config, min, shape, LightColor::Green, q0[2]@, qg);
            if blue > 0 {
                assert(emits(space, registry, config, min, shape, LightColor::Blue, qb[qb.len() - 1]));
            }
            lemma_emit_keep(&start, space, registry, config, min, shape, LightColor::Blue, q0[3]@, qb);
            lemma_side_same(&start, space, registry, config, min, shape, x, y, z);
            if qs.len() > q0[0]@.len() {
                assert(sun_seed(space, registry, config, min, shape, qs[qs.len() - 1]));
            }
            lemma_sun_seeds_keep(&start, space, registry, config, min, shape, q0[0]@, qs);
            if space.light(LightColor::Sunlight, x, y, z) == max_i - 1 && max_i - 1 != 0 {
                assert(qs[qs.len() - 1].level == max_i - 1);
                assert(qs[qs.len() - 1].voxel[0] == x && qs[qs.len() - 1].voxel[1] == y && qs[qs.len() - 1].voxel[2] == z);
            }
            if red > 0 {
                assert(qr[qr.len() - 1].level == red);
                assert(qr[qr.len() - 1].voxel[0] == x && qr[qr.len() - 1].voxel[1] == y && qr[qr.len() - 1].voxel[2] == z);
            }
            if green > 0 {
                assert(qg[qg.len() - 1].level == green);
                assert(qg[qg.len() - 1].voxel[0] == x && qg[qg.len() - 1].voxel[1] == y && qg[qg.len() - 1].voxel[2] == z);
            }
            if blue > 0 {
                assert(qb[qb.len() - 1].level == blue);
                assert(qb[qb.len() - 1].voxel[0] == x && qb[qb.len() - 1].voxel[1] == y && qb[qb.len() - 1].voxel[2] == z);
            }
            assert forall|d: int| 0 <= d < 4 implies #[trigger] lit_beside(space, registry, config, min, shape, x, y, z, d) by {
                let (nx, nz) = (x + dx(d), z + dz(d));
                lemma_clear_same(&start, space, registry, nx, y, nz, h);
                if transparent(space, registry, x, y, z) && in_region(min, shape, nx, nz) && column_clear(space, registry, nx, y, nz, h) {
                    lemma_clear_step(&start, registry, nx, y, nz, h);
                    let (lx2, lz2) = (nx - min.0, nz - min.2);
                    lemma_mask_index(lx2, lz2, lx as int, lz as int, sxn as int, szn as int);
                    assert(old(mask)@[mask_index(lx2, lz2, sxn as int)] == max);
                    if d == 1 {
                        assert(mask_index(lx2, lz2, sxn as int) == i - 1);
                    } else if d == 0 {
                        assert(mask_index(lx2, lz2, sxn as int) == i + 1);
                    } else if d == 3 {
                        assert(lz2 * sxn == lz * sxn - sxn) by (nonlinear_arith) requires lz2 == lz - 1;
                        assert(mask_index(lx2, lz2, sxn as int) == i - sxn);
                    } else {
                        assert(lz2 * sxn == lz * sxn + sxn) by (nonlinear_arith) requires lz2 == lz + 1;
                        assert(mask_index(lx2, lz2, sxn as int) == i + sxn);
                    }
                }
            }
            assert(swept(space, registry, config, min, shape, qs, qr, qg, qb, x, y, z)) by {
                let sun = space.light(LightColor::Sunlight, x, y, z);
                let b = registry.blocks@[space.voxel(x, y, z)];
                assert(b == block);
                assert((sun == max_i) == column_clear(space, registry, x, y, z, h));
                assert(sun == max_i || sun == 0 || queued(qs, x, y, z, sun));
                assert(!b.is_transparent ==> sun == 0);
                assert(space.light(LightColor::Red, x, y, z) == red);
                assert(red == 0 || queued(qr, x, y, z, red as int));
                assert(green == 0 || queued(qg, x, y, z, green as int));
                assert(blue == 0 || queued(qb, x, y, z, blue as int));
            }
            assert forall|x2: int, y2: int, z2: int|
                in_region(min, shape, x2, z2) && 0 <= y2 < config.max_height && swept_before(
                    cy as int,
                    lx as int,
                    lz + 1,
                    x2 - min.0,
                    y2,
                    z2 - min.2,
                ) implies #[trigger] swept(space, registry, config, min, shape, qs, qr, qg, qb, x2, y2, z2) by {
                if !(x2 == x && y2 == y && z2 == z) {
                    assert(swept(&start, registry, config, min, shape, q0[0]@, q0[1]@, q0[2]@, q0[3]@, x2, y2, z2));
                    assert forall|c: LightColor| #[trigger] space.light(c, x2, y2, z2) == start.light(c, x2, y2, z2) by {}
                    lemma_swept_keep(&start, space, registry, config, min, shape, q0[0]@, q0[1]@, q0[2]@, q0[3]@, qs, qr, qg, qb, x2, y2, z2);
                }
            }
        }
    }

    /// Sets every voxel of the region `[min, min + shape)`, over the whole
    /// height, to a steady light field: sunlight straight down the clear
    /// columns and beside them, light from emissive blocks, each then flooded
    /// within the region. Returns the light of chunk `center`, laid out as
    /// `Space::get_lights` lays it out.
    #[verifier::rlimit(100)]
    #[verifier::spinoff_prover]
    pub fn propagate(
        space: &mut Space,
        min: &Vec3<i32>,
        center: &Vec2<i32>,
        shape: &Vec3<usize>,
        registry: &Registry,
        config: &WorldConfig,
    ) -> (r: Vec<LightCell>)
        requires
            propagate_requires(old(space), min, shape, registry, config),
            old(space).holds_chunk(center.0 as int, center.1 as int, config),
        ensures
            ({
                let cs = config.chunk_size as int;
                let h = config.max_height as int;
                &&& r@.len() == cs * cs * h
                &&& forall|lx: int, lz: int, y: int|
                    0 <= lx < cs && 0 <= lz < cs && 0 <= y < h ==> #[trigger] r@[(lx * cs + lz) * h + y]
                        == final(space).cell(center.0 * cs + lx, y, center.1 * cs + lz)
            }),
            final(space).wf(),
            final(space).same_blocks(old(space)),
            final(space).levels_within(config.max_light_level as int),
            settled_all(final(space), registry, config, Some(min), Some(shape), LightColor::Sunlight),
            settled_all(final(space), registry, config, Some(min), Some(shape), LightColor::Red),
            settled_all(final(space), registry, config, Some(min), Some(shape), LightColor::Green),
            settled_all(final(space), registry, config, Some(min), Some(shape), LightColor::Blue),
            forall|x: int, y: int, z: int|
                in_region(min, shape, x, z) && 0 <= y < config.max_height ==> #[trigger] region_voxel_lit(
                    final(space),
                    registry,
                    config,
                    x,
                    y,
                    z,
                ),
            forall|c: LightColor, x: int, y: int, z: int|
                !(in_region(min, shape, x, z) && 0 <= y < config.max_height)
                    ==> #[trigger] final(space).light(c, x, y, z) == old(space).light(c, x, y, z),
            forall|x: int, y: int, z: int|
                in_region(min, shape, x, z) && 0 <= y < config.max_height ==> #[trigger] lit_from_around(
                    final(space),
                    registry,
                    config,
                    min,
                    shape,
                    LightColor::Red,
                    x,
                    y,
                    z,
                ) && lit_from_around(final(space), registry, config, min, shape, LightColor::Green, x, y, z)
                    && lit_from_around(final(space), registry, config, min, shape, LightColor::Blue, x, y, z),
            forall|x: int, y: int, z: int|
                in_region(min, shape, x, z) && 0 <= y < config.max_height ==> #[trigger] sun_from_around(
                    final(space),
                    registry,
                    config,
                    min,
                    shape,
                    x,
                    y,
                    z,
                ),
    {
        let ghost start = *space;
        let max = config.max_light_level;
        let sxn = shape.0;
        let szn = shape.2;
        let cols = sxn * szn;
        let mut mask: Vec<u32> = Vec::new();
        let mut k: usize = 0;
        while k < cols
            invariant
                k <= cols,
                cols == shape.0 * shape.2,
                mask@.len() == k,
                forall|j: int| 0 <= j < k ==> #[trigger] mask@[j] == max,
            decreases cols - k,
        {
            mask.push(max);
            k += 1;
        }
        let mut queues: [VecDeque<LightNode>; 4] = [
            VecDeque::new(),
            VecDeque::new(),
            VecDeque::new(),
            VecDeque::new(),
        ];
        let h = config.max_height;
        proof {
            assert forall|lx: int, lz: int|
                0 <= lx < shape.0 && 0 <= lz < shape.2 implies #[trigger] mask@[mask_index(lx, lz, shape.0 as int)]
                    == if column_clear(
                    space,
                    registry,
                    min.0 + lx,
                    if swept_before(h - 1, 0, 0, lx, h - 1, lz) {
                        h - 1
                    } else {
                        h - 1 + 1
                    },
                    min.2 + lz,
                    h as int,
                ) {
                    max
                } else {
                    0
                } by {
                lemma_mask_index(lx, lz, lx, lz, shape.0 as int, shape.2 as int);
            }
        }
        let mut y: usize = h;
        while y > 0
            invariant
                y <= h,
                h == config.max_height,
                max == config.max_light_level,
                sxn == shape.0,
                szn == shape.2,
                propagate_requires(space, min, shape, registry, config),
                space.same_blocks(&start),
                forall|c: LightColor, x: int, y: int, z: int|
                    !(in_region(min, shape, x, z) && 0 <= y < config.max_height) ==> #[trigger] space.light(
                        c,
                        x,
                        y,
                        z,
                    ) == start.light(c, x, y, z),
                mask_ok(mask@, space, registry, config, min, shape, y - 1, 0, 0),
                swept_upto(space, registry, config, min, shape, queues[0]@, queues[1]@, queues[2]@, queues[3]@, y - 1, 0, 0),
                forall|k: int| 0 <= k < 4 ==> levels_within(#[trigger] queues[k]@, max as int),
                all_emit(space, registry, config, min, shape, LightColor::Red, queues[1]@),
                all_sun_seeds(space, registry, config, min, shape, queues[0]@),
                all_emit(space, registry, config, min, shape, LightColor::Green, queues[2]@),
                all_emit(space, registry, config, min, shape, LightColor::Blue, queues[3]@),
            decreases y,
        {
            y -= 1;
            let mut lx: usize = 0;
            while lx < sxn
                invariant
                    y < h,
                    lx <= sxn,
                    sxn == shape.0,
                    szn == shape.2,
                    h == config.max_height,
                    max == config.max_light_level,
                    propagate_requires(space, min, shape, registry, config),
                    space.same_blocks(&start),
                    forall|c: LightColor, x: int, y: int, z: int|
                        !(in_region(min, shape, x, z) && 0 <= y < config.max_height) ==> #[trigger] space.light(
                            c,
                            x,
                            y,
                            z,
                        ) == start.light(c, x, y, z),
                forall|c: LightColor, x: int, y: int, z: int|
                    !(in_region(min, shape, x, z) && 0 <= y < config.max_height) ==> #[trigger] space.light(
                        c,
                        x,
                        y,
                        z,
                    ) == start.light(c, x, y, z),
                    mask_ok(mask@, space, registry, config, min, shape, y as int, lx as int, 0),
                    swept_upto(space, registry, config, min, shape, queues[0]@, queues[1]@, queues[2]@, queues[3]@, y as int, lx as int, 0),
                    forall|k: int| 0 <= k < 4 ==> levels_within(#[trigger] queues[k]@, max as int),
                    all_emit(space, registry, config, min, shape, LightColor::Red, queues[1]@),
                    all_sun_seeds(space, registry, config, min, shape, queues[0]@),
                    all_emit(space, registry, config, min, shape, LightColor::Green, queues[2]@),
                    all_emit(space, registry, config, min, shape, LightColor::Blue, queues[3]@),
                decreases sxn - lx,
            {
                let mut lz: usize = 0;
                while lz < szn
                    invariant
                        y < h,
                        lx < sxn,
                        lz <= szn,
                        sxn == shape.0,
                        szn == shape.2,
                        h == config.max_height,
                        max == config.max_light_level,
                        propagate_requires(space, min, shape, registry, config),
                        space.same_blocks(&start),
                        forall|c: LightColor, x: int, y: int, z: int|
                            !(in_region(min, shape, x, z) && 0 <= y < config.max_height) ==> #[trigger] space.light(
                                c,
                                x,
                                y,
                                z,
                            ) == start.light(c, x, y, z),
                    forall|c: LightColor, x: int, y: int, z: int|
                        !(in_region(min, shape, x, z) && 0 <= y < config.max_height) ==> #[trigger] space.light(
                            c,
                            x,
                            y,
                            z,
                        ) == start.light(c, x, y, z),
                forall|c: LightColor, x: int, y: int, z: int|
                    !(in_region(min, shape, x, z) && 0 <= y < config.max_height) ==> #[trigger] space.light(
                        c,
                        x,
                        y,
                        z,
                    ) == start.light(c, x, y, z),
                        mask_ok(mask@, space, registry, config, min, shape, y as int, lx as int, lz as int),
                        swept_upto(space, registry, config, min, shape, queues[0]@, queues[1]@, queues[2]@, queues[3]@, y as int, lx as int, lz as int),
                        forall|k: int| 0 <= k < 4 ==> levels_within(#[trigger] queues[k]@, max as int),
                        all_emit(space, registry, config, min, shape, LightColor::Red, queues[1]@),
                        all_sun_seeds(space, registry, config, min, shape, queues[0]@),
                        all_emit(space, registry, config, min, shape, LightColor::Green, queues[2]@),
                        all_emit(space, registry, config, min, shape, LightColor::Blue, queues[3]@),
                    decreases szn - lz,
                {
                    Lights::sweep_voxel(space, &mut mask, &mut queues, min, shape, registry, config, lx, y, lz);
                    lz += 1;
                }
                proof {
                    let q = queues;
                    assert forall|x: int, yy: int, z: int|
                        in_region(min, shape, x, z) && 0 <= yy < config.max_height && swept_before(
                            y as int,
                            lx + 1,
                            0,
                            x - min.0,
                            yy,
                            z - min.2,
                        ) implies #[trigger] swept(space, registry, config, min, shape, q[0]@, q[1]@, q[2]@, q[3]@, x, yy, z) by {
                        assert(swept_before(y as int, lx as int, szn as int, x - min.0, yy, z - min.2));
                    }
                    assert forall|lx2: int, lz2: int|
                        0 <= lx2 < shape.0 && 0 <= lz2 < shape.2 implies #[trigger] mask@[mask_index(lx2, lz2, shape.0 as int)]
                            == if column_clear(
                            space,
                            registry,
                            min.0 + lx2,
                            if swept_before(y as int, lx + 1, 0, lx2, y as int, lz2) {
                                y as int
                            } else {
                                y + 1
                            },
                            min.2 + lz2,
                            h as int,
                        ) {
                            max
                        } else {
                            0
                        } by {
                        lemma_mask_index(lx2, lz2, lx2, lz2, shape.0 as int, shape.2 as int);
                        assert(swept_before(y as int, lx + 1, 0, lx2, y as int, lz2) == swept_before(y as int, lx as int, szn as int, lx2, y as int, lz2));
                    }
                }
                lx += 1;
            }
            proof {
                let q = queues;
                assert forall|x: int, yy: int, z: int|
                    in_region(min, shape, x, z) && 0 <= yy < config.max_height && swept_before(
                        y - 1,
                        0,
                        0,
                        x - min.0,
                        yy,
                        z - min.2,
                    ) implies #[trigger] swept(space, registry, config, min, shape, q[0]@, q[1]@, q[2]@, q[3]@, x, yy, z) by {
                    assert(swept_before(y as int, sxn as int, 0, x - min.0, yy, z - min.2));
                }
                assert forall|lx2: int, lz2: int|
                    0 <= lx2 < shape.0 && 0 <= lz2 < shape.2 implies #[trigger] mask@[mask_index(lx2, lz2, shape.0 as int)]
                        == if column_clear(
                        space,
                        registry,
                        min.0 + lx2,
                        if swept_before(y - 1, 0, 0, lx2, y - 1, lz2) {
                            y - 1
                        } else {
                            y - 1 + 1
                        },
                        min.2 + lz2,
                        h as int,
                    ) {
                        max
                    } else {
                        0
                    } by {
                    lemma_mask_index(lx2, lz2, lx2, lz2, shape.0 as int, shape.2 as int);
                    assert(swept_before(y as int, sxn as int, 0, lx2, y as int, lz2));
                }
            }
        }
        let ghost s0 = *space;
        let mut qs: VecDeque<LightNode> = VecDeque::new();
        let mut qr: VecDeque<LightNode> = VecDeque::new();
        let mut qg: VecDeque<LightNode> = VecDeque::new();
        let mut qb: VecDeque<LightNode> = VecDeque::new();
        std::mem::swap(&mut qs, &mut queues[0]);
        std::mem::swap(&mut qr, &mut queues[1]);
        std::mem::swap(&mut qg, &mut queues[2]);
        std::mem::swap(&mut qb, &mut queues[3]);
        proof {
            lemma_sweep_ready(space, registry, config, min, shape, qs@, qr@, qg@, qb@);
        }
        Lights::flood_light(space, qr, &LightColor::Red, registry, config, Some(min), Some(shape));
        let ghost s1 = *space;
        proof {
            lemma_steady_same(&s0, &s1, registry, config, Some(min), Some(shape), LightColor::Green, qg@);
            lemma_steady_same(&s0, &s1, registry, config, Some(min), Some(shape), LightColor::Blue, qb@);
            lemma_steady_same(&s0, &s1, registry, config, Some(min), Some(shape), LightColor::Sunlight, qs@);
        }
        Lights::flood_light(space, qg, &LightColor::Green, registry, config, Some(min), Some(shape));
        let ghost s2 = *space;
        proof {
            lemma_steady_same(&s1, &s2, registry, config, Some(min), Some(shape), LightColor::Red, qr@);
            lemma_steady_same(&s1, &s2, registry, config, Some(min), Some(shape), LightColor::Blue, qb@);
            lemma_steady_same(&s1, &s2, registry, config, Some(min), Some(shape), LightColor::Sunlight, qs@);
        }
        Lights::flood_light(space, qb, &LightColor::Blue, registry, config, Some(min), Some(shape));
        let ghost s3 = *space;
        proof {
            lemma_steady_same(&s2, &s3, registry, config, Some(min), Some(shape), LightColor::Red, qr@);
            lemma_steady_same(&s2, &s3, registry, config, Some(min), Some(shape), LightColor::Green, qg@);
            lemma_steady_same(&s2, &s3, registry, config, Some(min), Some(shape), LightColor::Sunlight, qs@);
        }
        Lights::flood_light(space, qs, &LightColor::Sunlight, registry, config, Some(min), Some(shape));
        proof {
            lemma_steady_same(&s3, space, registry, config, Some(min), Some(shape), LightColor::Red, qr@);
            lemma_steady_same(&s3, space, registry, config, Some(min), Some(shape), LightColor::Green, qg@);
            lemma_steady_same(&s3, space, registry, config, Some(min), Some(shape), LightColor::Blue, qb@);
            let h = config.max_height as int;
            assert forall|c: LightColor, x: int, y: int, z: int|
                !(in_region(min, shape, x, z) && 0 <= y < config.max_height) implies #[trigger] space.light(
                    c,
                    x,
                    y,
                    z,
                ) == start.light(c, x, y, z) by {
                assert(s0.light(c, x, y, z) == start.light(c, x, y, z));
                assert(!permitted(&s0, config, Some(min), Some(shape), x, y, z));
                assert(s1.light(c, x, y, z) == s0.light(c, x, y, z));
                assert(s2.light(c, x, y, z) == s1.light(c, x, y, z));
                assert(s3.light(c, x, y, z) == s2.light(c, x, y, z));
            }
            let h = config.max_height as int;
            assert forall|x: int, y: int, z: int|
                in_region(min, shape, x, z) && 0 <= y < h implies #[trigger] region_voxel_lit(
                space,
                registry,
                config,
                x,
                y,
                z,
            ) by {
                assert(swept_before(-1, 0, 0, x - min.0, y, z - min.2));
                assert(swept(&s0, registry, config, min, shape, qs@, qr@, qg@, qb@, x, y, z));
                lemma_clear_same(&s0, space, registry, x, y, z, h);
                assert(s0.voxel(x, y, z) == space.voxel(x, y, z));
                assert(s1.voxel(x, y, z) == space.voxel(x, y, z));
                assert(s2.voxel(x, y, z) == space.voxel(x, y, z));
                assert(s3.voxel(x, y, z) == space.voxel(x, y, z));
                space.lemma_idx(x, y, z);
                let sun = LightColor::Sunlight;
                assert(space.chan(sun)[space.idx(x, y, z)] <= config.max_light_level);
                assert(s1.light(sun, x, y, z) == s0.light(sun, x, y, z));
                assert(s2.light(sun, x, y, z) == s1.light(sun, x, y, z));
                assert(s3.light(sun, x, y, z) == s2.light(sun, x, y, z));
                assert(space.light(sun, x, y, z) >= s3.light(sun, x, y, z));
                let r = LightColor::Red;
                assert(s1.light(r, x, y, z) >= s0.light(r, x, y, z));
                assert(s2.light(r, x, y, z) == s1.light(r, x, y, z));
                assert(s3.light(r, x, y, z) == s2.light(r, x, y, z));
                assert(space.light(r, x, y, z) == s3.light(r, x, y, z));
                let g = LightColor::Green;
                assert(s1.light(g, x, y, z) == s0.light(g, x, y, z));
                assert(s2.light(g, x, y, z) >= s1.light(g, x, y, z));
                assert(s3.light(g, x, y, z) == s2.light(g, x, y, z));
                assert(space.light(g, x, y, z) == s3.light(g, x, y, z));
                let bl = LightColor::Blue;
                assert(s1.light(bl, x, y, z) == s0.light(bl, x, y, z));
                assert(s2.light(bl, x, y, z) == s1.light(bl, x, y, z));
                assert(s3.light(bl, x, y, z) >= s2.light(bl, x, y, z));
                assert(space.light(bl, x, y, z) == s3.light(bl, x, y, z));
            }
            assert forall|c: LightColor, a: int, b: int, e: int|
                c != LightColor::Sunlight && in_region(min, shape, a, e) && 0 <= b < config.max_height
                    implies emission(registry.blocks@[space.voxel(a, b, e)], c) <= #[trigger] space.light(
                    c,
                    a,
                    b,
                    e,
                ) by {
                assert(region_voxel_lit(space, registry, config, a, b, e));
            }
            assert(extends(qg@, qg@));
            assert(extends(qb@, qb@));
            lemma_emit_keep(&s0, &s1, registry, config, min, shape, LightColor::Green, qg@, qg@);
            lemma_emit_keep(&s0, &s1, registry, config, min, shape, LightColor::Blue, qb@, qb@);
            lemma_emit_keep(&s1, &s2, registry, config, min, shape, LightColor::Blue, qb@, qb@);
            assert(extends(qs@, qs@));
            lemma_sun_seeds_keep(&s0, &s3, registry, config, min, shape, qs@, qs@);
            assert forall|x: int, y: int, z: int|
                in_region(min, shape, x, z) && 0 <= y < h implies #[trigger] sun_from_around(
                space,
                registry,
                config,
                min,
                shape,
                x,
                y,
                z,
            ) by {
                let sun = LightColor::Sunlight;
                assert(swept_before(-1, 0, 0, x - min.0, y, z - min.2));
                assert(swept(&s0, registry, config, min, shape, qs@, qr@, qg@, qb@, x, y, z));
                s0.lemma_idx(x, y, z);
                assert(s0.chan(sun)[s0.idx(x, y, z)] <= config.max_light_level);
                lemma_side_same(&s0, &s3, registry, config, min, shape, x, y, z);
                assert(s1.light(sun, x, y, z) == s0.light(sun, x, y, z));
                assert(s2.light(sun, x, y, z) == s1.light(sun, x, y, z));
                assert(s3.light(sun, x, y, z) == s2.light(sun, x, y, z));
                assert(s3.light(sun, x, y, z) <= sun_base(&s3, registry, config, min, shape, x, y, z));
                lemma_sun_bounded(&s3, space, qs@, registry, config, min, shape, x, y, z);
            }
            assert forall|x: int, y: int, z: int|
                in_region(min, shape, x, z) && 0 <= y < h implies #[trigger] lit_from_around(
                space,
                registry,
                config,
                min,
                shape,
                LightColor::Red,
                x,
                y,
                z,
            ) && lit_from_around(space, registry, config, min, shape, LightColor::Green, x, y, z) && lit_from_around(
                space,
                registry,
                config,
                min,
                shape,
                LightColor::Blue,
                x,
                y,
                z,
            ) by {
                assert(swept_before(-1, 0, 0, x - min.0, y, z - min.2));
                assert(swept(&s0, registry, config, min, shape, qs@, qr@, qg@, qb@, x, y, z));
                lemma_color_bounded(&s0, &s1, space, qr@, registry, config, min, shape, LightColor::Red, x, y, z);
                assert(s1.voxel(x, y, z) == s0.voxel(x, y, z));
                assert(s2.voxel(x, y, z) == s0.voxel(x, y, z));
                assert(s1.light(LightColor::Green, x, y, z) == s0.light(LightColor::Green, x, y, z));
                lemma_color_bounded(&s1, &s2, space, qg@, registry, config, min, shape, LightColor::Green, x, y, z);
                assert(s2.light(LightColor::Blue, x, y, z) == s0.light(LightColor::Blue, x, y, z));
                lemma_color_bounded(&s2, &s3, space, qb@, registry, config, min, shape, LightColor::Blue, x, y, z);
            }
        }
        space.get_lights(center.0, center.1, config).unwrap()
    }
}

} // verus!
