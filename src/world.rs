use vstd::arithmetic::div_mod::{
    lemma_fundamental_div_mod_converse_div, lemma_fundamental_div_mod_converse_mod,
};
use vstd::prelude::*;

verus! {

/// The four independent light channels of a voxel.
#[derive(Clone, Copy, Debug, PartialEq, Eq, Structural)]
pub enum LightColor {
    Sunlight,
    Red,
    Green,
    Blue,
}

/// A plain triple, used for coordinates and extents.
#[derive(Clone, Copy, Debug, PartialEq, Eq, Structural)]
pub struct Vec3<T>(pub T, pub T, pub T);

/// A plain pair, used for chunk coordinates.
#[derive(Clone, Copy, Debug, PartialEq, Eq, Structural)]
pub struct Vec2<T>(pub T, pub T);

/// The properties of a block type that lighting reads.
#[derive(Clone, Copy, Debug, PartialEq, Eq, Structural)]
pub struct Block {
    pub is_transparent: bool,
    pub is_light: bool,
    pub red_light_level: u32,
    pub green_light_level: u32,
    pub blue_light_level: u32,
}

/// Block types, indexed by block id.
pub struct Registry {
    pub blocks: Vec<Block>,
}

impl Registry {
    /// Every emissive level is at most `max_level`.
    pub open spec fn levels_within(&self, max_level: int) -> bool {
        forall|i: int|
            0 <= i < self.blocks@.len() ==> {
                &&& #[trigger] self.blocks@[i].red_light_level <= max_level
                &&& self.blocks@[i].green_light_level <= max_level
                &&& self.blocks@[i].blue_light_level <= max_level
            }
    }

    pub fn get_block_by_id(&self, id: u32) -> (r: Block)
        requires
            id < self.blocks@.len(),
        ensures
            r == self.blocks@[id as int],
    {
        self.blocks[id as usize]
    }
}

/// World limits: height `max_height`, light levels in `[0, max_light_level]`,
/// and the closed rectangle of chunks `[min_chunk, max_chunk]`, each chunk
/// being `chunk_size` voxels wide along x and z.
#[derive(Clone, Copy, Debug)]
pub struct WorldConfig {
    pub max_height: usize,
    pub max_light_level: u32,
    pub chunk_size: usize,
    pub min_chunk: [i32; 2],
    pub max_chunk: [i32; 2],
}

impl WorldConfig {
    /// Column `(x, z)` lies in a chunk of the world rectangle: the chunk of
    /// `x` is `floor(x / chunk_size)`, so this is the same as comparing chunk
    /// indices.
    pub open spec fn in_world(&self, x: int, z: int) -> bool {
        let cs = self.chunk_size as int;
        &&& self.min_chunk[0] * cs <= x < (self.max_chunk[0] + 1) * cs
        &&& self.min_chunk[1] * cs <= z < (self.max_chunk[1] + 1) * cs
    }

    pub fn in_world_exec(&self, x: i64, z: i64) -> (r: bool)
        ensures
            r == self.in_world(x as int, z as int),
    {
        let cs = self.chunk_size as i128;
        proof {
            let c = cs as int;
            let a = self.max_chunk[0] as int + 1;
            let b = self.max_chunk[1] as int + 1;
            let e = self.min_chunk[0] as int;
            let f = self.min_chunk[1] as int;
            assert(-0x1_0000_0000 * 0x1_0000_0000_0000_0000 <= a * c <= 0x1_0000_0000
                * 0x1_0000_0000_0000_0000) by (nonlinear_arith)
                requires
                    0 <= c < 0x1_0000_0000_0000_0000,
                    -0x1_0000_0000 <= a <= 0x1_0000_0000,
            ;
            assert(-0x1_0000_0000 * 0x1_0000_0000_0000_0000 <= b * c <= 0x1_0000_0000
                * 0x1_0000_0000_0000_0000) by (nonlinear_arith)
                requires
                    0 <= c < 0x1_0000_0000_0000_0000,
                    -0x1_0000_0000 <= b <= 0x1_0000_0000,
            ;
            assert(-0x1_0000_0000 * 0x1_0000_0000_0000_0000 <= e * c <= 0x1_0000_0000
                * 0x1_0000_0000_0000_0000) by (nonlinear_arith)
                requires
                    0 <= c < 0x1_0000_0000_0000_0000,
                    -0x1_0000_0000 <= e <= 0x1_0000_0000,
            ;
            assert(-0x1_0000_0000 * 0x1_0000_0000_0000_0000 <= f * c <= 0x1_0000_0000
                * 0x1_0000_0000_0000_0000) by (nonlinear_arith)
                requires
                    0 <= c < 0x1_0000_0000_0000_0000,
                    -0x1_0000_0000 <= f <= 0x1_0000_0000,
            ;
        }
        let x = x as i128;
        let z = z as i128;
        let lo_x = self.min_chunk[0] as i128 * cs;
        let hi_x = (self.max_chunk[0] as i128 + 1) * cs;
        let lo_z = self.min_chunk[1] as i128 * cs;
        let hi_z = (self.max_chunk[1] as i128 + 1) * cs;
        lo_x <= x && x < hi_x && lo_z <= z && z < hi_z
    }
}

/// The four light levels of one voxel.
#[derive(Clone, Copy, Debug, PartialEq, Eq, Structural)]
pub struct LightCell {
    pub sun: u32,
    pub red: u32,
    pub green: u32,
    pub blue: u32,
}

/// A box of voxels `[min_x, min_x + width) x [0, height) x [min_z, min_z + depth)`
/// with a block id and four light channels per voxel, stored column by column.
pub struct Space {
    pub min_x: i32,
    pub min_z: i32,
    pub width: usize,
    pub depth: usize,
    pub height: usize,
    pub voxels: Vec<u32>,
    pub sun: Vec<u32>,
    pub red: Vec<u32>,
    pub green: Vec<u32>,
    pub blue: Vec<u32>,
}

pub open spec fn cell_count(w: int, d: int, h: int) -> int {
    w * d * h
}


proof fn lemma_chunk_index(lx: int, lz: int, y: int, lx2: int, lz2: int, y2: int, cs: int, h: int)
    requires
        0 <= lx < cs,
        0 <= lz < cs,
        0 <= y < h,
        0 <= lx2 < cs,
        0 <= lz2 < cs,
        0 <= y2 < h,
        (lx2 * cs + lz2) * h + y2 == (lx * cs + lz) * h + y,
    ensures
        lx2 == lx && lz2 == lz && y2 == y,
{
    let n = (lx * cs + lz) * h + y;
    let u1 = lx2 * cs + lz2;
    let u2 = lx * cs + lz;
    assert(0 <= u1 && 0 <= u2) by (nonlinear_arith)
        requires 0 <= lx2, 0 <= lz2, 0 <= lx, 0 <= lz, 0 <= cs, u1 == lx2 * cs + lz2, u2 == lx * cs + lz;
    lemma_fundamental_div_mod_converse_div(n, h, u1, y2);
    lemma_fundamental_div_mod_converse_div(n, h, u2, y);
    lemma_fundamental_div_mod_converse_mod(n, h, u1, y2);
    lemma_fundamental_div_mod_converse_mod(n, h, u2, y);
    lemma_fundamental_div_mod_converse_div(u1, cs, lx2, lz2);
    lemma_fundamental_div_mod_converse_div(u1, cs, lx, lz);
    lemma_fundamental_div_mod_converse_mod(u1, cs, lx2, lz2);
    lemma_fundamental_div_mod_converse_mod(u1, cs, lx, lz);
}

impl Space {
    pub open spec fn wf(&self) -> bool {
        let n = cell_count(self.width as int, self.depth as int, self.height as int);
        &&& self.voxels@.len() == n
        &&& self.sun@.len() == n
        &&& self.red@.len() == n
        &&& self.green@.len() == n
        &&& self.blue@.len() == n
        &&& self.min_x + self.width <= i32::MAX
        &&& self.min_z + self.depth <= i32::MAX
        &&& self.height <= i32::MAX
    }

    pub open spec fn contains(&self, x: int, y: int, z: int) -> bool {
        &&& self.min_x <= x < self.min_x + self.width
        &&& 0 <= y < self.height
        &&& self.min_z <= z < self.min_z + self.depth
    }

    pub open spec fn idx(&self, x: int, y: int, z: int) -> int {
        ((x - self.min_x) * self.depth + (z - self.min_z)) * self.height + y
    }

    pub open spec fn chan(&self, c: LightColor) -> Seq<u32> {
        match c {
            LightColor::Sunlight => self.sun@,
            LightColor::Red => self.red@,
            LightColor::Green => self.green@,
            LightColor::Blue => self.blue@,
        }
    }

    /// Light level of a voxel on a channel; zero outside the box.
    pub open spec fn light(&self, c: LightColor, x: int, y: int, z: int) -> int {
        if self.contains(x, y, z) {
            self.chan(c)[self.idx(x, y, z)] as int
        } else {
            0
        }
    }

    /// Block id of a voxel; zero outside the box.
    pub open spec fn voxel(&self, x: int, y: int, z: int) -> int {
        if self.contains(x, y, z) {
            self.voxels@[self.idx(x, y, z)] as int
        } else {
            0
        }
    }

    /// Every stored level of every channel is at most `max_level`.
    pub open spec fn levels_within(&self, max_level: int) -> bool {
        forall|c: LightColor, i: int|
            0 <= i < self.chan(c).len() ==> #[trigger] self.chan(c)[i] <= max_level
    }

    /// Every stored block id names a block of the registry.
    pub open spec fn ids_valid(&self, registry: &Registry) -> bool {
        forall|i: int|
            0 <= i < self.voxels@.len() ==> #[trigger] self.voxels@[i] < registry.blocks@.len()
    }

    /// Two spaces with the same box and the same blocks.
    pub open spec fn same_blocks(&self, other: &Space) -> bool {
        &&& self.min_x == other.min_x
        &&& self.min_z == other.min_z
        &&& self.width == other.width
        &&& self.depth == other.depth
        &&& self.height == other.height
        &&& self.voxels@ == other.voxels@
    }

    pub proof fn lemma_idx(&self, x: int, y: int, z: int)
        requires
            self.wf(),
            self.contains(x, y, z),
        ensures
            0 <= self.idx(x, y, z) < self.voxels@.len(),
    {
        let a = x - self.min_x;
        let b = z - self.min_z;
        let w = self.width as int;
        let d = self.depth as int;
        let h = self.height as int;
        assert(0 <= a * d + b < w * d) by (nonlinear_arith)
            requires
                0 <= a < w,
                0 <= b < d,
        ;
        assert(0 <= (a * d + b) * h + y < (w * d) * h) by (nonlinear_arith)
            requires
                0 <= a * d + b < w * d,
                0 <= y < h,
        ;
    }

    pub proof fn lemma_idx_inj(&self, x1: int, y1: int, z1: int, x2: int, y2: int, z2: int)
        requires
            self.wf(),
            self.contains(x1, y1, z1),
            self.contains(x2, y2, z2),
            self.idx(x1, y1, z1) == self.idx(x2, y2, z2),
        ensures
            x1 == x2 && y1 == y2 && z1 == z2,
    {
        let d = self.depth as int;
        let h = self.height as int;
        let u1 = (x1 - self.min_x) * d + (z1 - self.min_z);
        let u2 = (x2 - self.min_x) * d + (z2 - self.min_z);
        let i = self.idx(x1, y1, z1);
        lemma_fundamental_div_mod_converse_div(i, h, u1, y1);
        lemma_fundamental_div_mod_converse_div(i, h, u2, y2);
        lemma_fundamental_div_mod_converse_mod(i, h, u1, y1);
        lemma_fundamental_div_mod_converse_mod(i, h, u2, y2);
        lemma_fundamental_div_mod_converse_div(u1, d, x1 - self.min_x, z1 - self.min_z);
        lemma_fundamental_div_mod_converse_div(u1, d, x2 - self.min_x, z2 - self.min_z);
        lemma_fundamental_div_mod_converse_mod(u1, d, x1 - self.min_x, z1 - self.min_z);
        lemma_fundamental_div_mod_converse_mod(u1, d, x2 - self.min_x, z2 - self.min_z);
    }

    /// Position in storage of a voxel, if it lies in the box.
    pub fn index_of(&self, x: i64, y: i64, z: i64) -> (r: Option<usize>)
        requires
            self.wf(),
        ensures
            match r {
                Some(i) => {
                    &&& self.contains(x as int, y as int, z as int)
                    &&& i as int == self.idx(x as int, y as int, z as int)
                    &&& i < self.voxels@.len()
                },
                None => !self.contains(x as int, y as int, z as int),
            },
    {
        let n = self.voxels.len();
        if x < self.min_x as i64 || x >= self.min_x as i64 + self.width as i64 || y < 0
            || y >= self.height as i64 || z < self.min_z as i64 || z >= self.min_z as i64
            + self.depth as i64 {
            return None;
        }
        proof {
            self.lemma_idx(x as int, y as int, z as int);
            let a = x - self.min_x;
            let b = z - self.min_z;
            let w = self.width as int;
            let d = self.depth as int;
            let h = self.height as int;
            assert(0 <= a * d <= a * d + b <= w * d && (a * d + b) * h <= (w * d) * h && w
                * d <= (w * d) * h) by (nonlinear_arith)
                requires
                    0 <= a < w,
                    0 <= b < d,
                    1 <= h,
            ;
        }
        let a = (x - self.min_x as i64) as usize;
        let b = (z - self.min_z as i64) as usize;
        Some((a * self.depth + b) * self.height + y as usize)
    }

    /// A box of air (block id 0) with every light channel at zero.
    pub fn new(min_x: i32, min_z: i32, width: usize, depth: usize, height: usize) -> (r: Space)
        requires
            min_x + width <= i32::MAX,
            min_z + depth <= i32::MAX,
            height <= i32::MAX,
            width * depth * height <= usize::MAX,
        ensures
            r.wf(),
            r.min_x == min_x && r.min_z == min_z,
            r.width == width && r.depth == depth && r.height == height,
            forall|x: int, y: int, z: int| #[trigger] r.voxel(x, y, z) == 0,
            forall|c: LightColor, x: int, y: int, z: int| #[trigger] r.light(c, x, y, z) == 0,
    {
        proof {
            if height >= 1 {
                assert(width * depth <= width * depth * height) by (nonlinear_arith)
                    requires
                        height >= 1,
                ;
            }
        }
        let n: usize = if height == 0 { 0 } else { width * depth * height };
        let mut zeros: Vec<u32> = Vec::new();
        let mut k: usize = 0;
        while k < n
            invariant
                k <= n,
                zeros@.len() == k,
                forall|j: int| 0 <= j < k ==> #[trigger] zeros@[j] == 0,
            decreases n - k,
        {
            zeros.push(0);
            k += 1;
        }
        proof {
            assert(n == cell_count(width as int, depth as int, height as int)) by (nonlinear_arith)
                requires
                    n == if height == 0 { 0 } else { width * depth * height },
            ;
        }
        let r = Space {
            min_x,
            min_z,
            width,
            depth,
            height,
            voxels: zeros.clone(),
            sun: zeros.clone(),
            red: zeros.clone(),
            green: zeros.clone(),
            blue: zeros,
        };
        proof {
            assert forall|x: int, y: int, z: int| #[trigger] r.voxel(x, y, z) == 0 by {
                if r.contains(x, y, z) {
                    r.lemma_idx(x, y, z);
                }
            }
            assert forall|c: LightColor, x: int, y: int, z: int| #[trigger] r.light(c, x, y, z) == 0 by {
                if r.contains(x, y, z) {
                    r.lemma_idx(x, y, z);
                }
            }
        }
        r
    }

    /// Writes the block id of one voxel; a voxel outside the box is left alone.
    pub fn set_voxel(&mut self, x: i32, y: i32, z: i32, id: u32)
        requires
            old(self).wf(),
        ensures
            final(self).wf(),
            forall|c: LightColor| #[trigger] final(self).chan(c) == old(self).chan(c),
            final(self).min_x == old(self).min_x && final(self).min_z == old(self).min_z,
            final(self).width == old(self).width && final(self).depth == old(self).depth,
            final(self).height == old(self).height,
            forall|x2: int, y2: int, z2: int|
                #[trigger] final(self).voxel(x2, y2, z2) == if x2 == x && y2 == y && z2 == z
                    && old(self).contains(x2, y2, z2) {
                    id as int
                } else {
                    old(self).voxel(x2, y2, z2)
                },
    {
        match self.index_of(x as i64, y as i64, z as i64) {
            Some(i) => self.voxels.set(i, id),
            None => {},
        }
        proof {
            assert forall|x2: int, y2: int, z2: int|
                #[trigger] self.voxel(x2, y2, z2) == if x2 == x && y2 == y && z2 == z && old(
                    self,
                ).contains(x2, y2, z2) {
                    id as int
                } else {
                    old(self).voxel(x2, y2, z2)
                } by {
                if old(self).contains(x2, y2, z2) {
                    old(self).lemma_idx(x2, y2, z2);
                    if old(self).contains(x as int, y as int, z as int) {
                        old(self).lemma_idx(x as int, y as int, z as int);
                        if old(self).idx(x2, y2, z2) == old(self).idx(x as int, y as int, z as int) {
                            old(self).lemma_idx_inj(x2, y2, z2, x as int, y as int, z as int);
                        }
                    }
                }
            }
        }
    }

    /// The four levels of a voxel.
    pub open spec fn cell(&self, x: int, y: int, z: int) -> LightCell {
        LightCell {
            sun: self.light(LightColor::Sunlight, x, y, z) as u32,
            red: self.light(LightColor::Red, x, y, z) as u32,
            green: self.light(LightColor::Green, x, y, z) as u32,
            blue: self.light(LightColor::Blue, x, y, z) as u32,
        }
    }

    /// Chunk `(cx, cz)`, over the world's height, lies in the box.
    pub open spec fn holds_chunk(&self, cx: int, cz: int, config: &WorldConfig) -> bool {
        let cs = config.chunk_size as int;
        &&& self.min_x <= cx * cs
        &&& cx * cs + cs <= self.min_x + self.width
        &&& self.min_z <= cz * cs
        &&& cz * cs + cs <= self.min_z + self.depth
        &&& config.max_height <= self.height
    }

    /// The light of chunk `(cx, cz)`, one cell per voxel, ordered by x, then z,
    /// then height; `None` where the chunk does not lie in the box.
    pub fn get_lights(&self, cx: i32, cz: i32, config: &WorldConfig) -> (r: Option<Vec<LightCell>>)
        requires
            self.wf(),
        ensures
            r.is_some() == self.holds_chunk(cx as int, cz as int, config),
            r matches Some(v) ==> {
                let cs = config.chunk_size as int;
                let h = config.max_height as int;
                &&& v@.len() == cs * cs * h
                &&& forall|lx: int, lz: int, y: int|
                    0 <= lx < cs && 0 <= lz < cs && 0 <= y < h ==> #[trigger] v@[(lx * cs + lz) * h + y]
                        == self.cell(cx * cs + lx, y, cz * cs + lz)
            },
    {
        let cs = config.chunk_size;
        let h = config.max_height;
        proof {
            assert(-0x8000_0000 * 0x1_0000_0000_0000_0000 <= cx * cs <= 0x8000_0000 * 0x1_0000_0000_0000_0000) by (nonlinear_arith)
                requires -0x8000_0000 <= cx <= 0x8000_0000, 0 <= cs <= 0x1_0000_0000_0000_0000;
            assert(-0x8000_0000 * 0x1_0000_0000_0000_0000 <= cz * cs <= 0x8000_0000 * 0x1_0000_0000_0000_0000) by (nonlinear_arith)
                requires -0x8000_0000 <= cz <= 0x8000_0000, 0 <= cs <= 0x1_0000_0000_0000_0000;
        }
        let x0 = cx as i128 * cs as i128;
        let z0 = cz as i128 * cs as i128;
        if x0 < self.min_x as i128 || x0 + cs as i128 > self.min_x as i128 + self.width as i128
            || z0 < self.min_z as i128 || z0 + cs as i128 > self.min_z as i128 + self.depth as i128
            || h > self.height {
            return None;
        }
        let x0 = x0 as i64;
        let z0 = z0 as i64;
        let ghost total = cs * cs * h;
        proof {
            let (w, d, hh) = (self.width as int, self.depth as int, self.height as int);
            assert(cs * cs * h <= w * d * hh) by (nonlinear_arith)
                requires 0 <= cs <= w, 0 <= cs <= d, 0 <= h <= hh;
            assert(self.voxels@.len() == self.voxels.len());
        }
        let mut v: Vec<LightCell> = Vec::new();
        let mut lx: usize = 0;
        while lx < cs
            invariant
                lx <= cs,
                v@.len() == (lx * cs) * h,
                cs * cs * h <= usize::MAX,
                x0 == cx * cs && z0 == cz * cs,
                self.holds_chunk(cx as int, cz as int, config),
                self.wf(),
                cs == config.chunk_size && h == config.max_height,
                forall|lx2: int, lz2: int, y2: int|
                    0 <= lx2 < cs && 0 <= lz2 < cs && 0 <= y2 < h && (lx2 * cs + lz2) * h + y2 < v@.len()
                        ==> #[trigger] v@[(lx2 * cs + lz2) * h + y2] == self.cell(x0 + lx2, y2, z0 + lz2),
            decreases cs - lx,
        {
            let mut lz: usize = 0;
            while lz < cs
                invariant
                    lx < cs,
                    lz <= cs,
                    v@.len() == (lx * cs + lz) * h,
                    cs * cs * h <= usize::MAX,
                    x0 == cx * cs && z0 == cz * cs,
                    self.holds_chunk(cx as int, cz as int, config),
                    self.wf(),
                    cs == config.chunk_size && h == config.max_height,
                    forall|lx2: int, lz2: int, y2: int|
                        0 <= lx2 < cs && 0 <= lz2 < cs && 0 <= y2 < h && (lx2 * cs + lz2) * h + y2 < v@.len()
                            ==> #[trigger] v@[(lx2 * cs + lz2) * h + y2] == self.cell(x0 + lx2, y2, z0 + lz2),
                decreases cs - lz,
            {
                let mut y: usize = 0;
                while y < h
                    invariant
                        lx < cs,
                        lz < cs,
                        y <= h,
                        v@.len() == (lx * cs + lz) * h + y,
                        cs * cs * h <= usize::MAX,
                        x0 == cx * cs && z0 == cz * cs,
                        self.holds_chunk(cx as int, cz as int, config),
                        self.wf(),
                        cs == config.chunk_size && h == config.max_height,
                        forall|lx2: int, lz2: int, y2: int|
                            0 <= lx2 < cs && 0 <= lz2 < cs && 0 <= y2 < h && (lx2 * cs + lz2) * h + y2 < v@.len()
                                ==> #[trigger] v@[(lx2 * cs + lz2) * h + y2] == self.cell(x0 + lx2, y2, z0 + lz2),
                    decreases h - y,
                {
                    let (x, yy, z) = ((x0 + lx as i64) as i32, y as i32, (z0 + lz as i64) as i32);
                    let cell = LightCell {
                        sun: self.get_light(x, yy, z, &LightColor::Sunlight),
                        red: self.get_light(x, yy, z, &LightColor::Red),
                        green: self.get_light(x, yy, z, &LightColor::Green),
                        blue: self.get_light(x, yy, z, &LightColor::Blue),
                    };
                    proof {
                        assert((lx * cs + lz) * h + y < cs * cs * h) by (nonlinear_arith)
                            requires lx < cs, lz < cs, y < h;
                    }
                    let ghost old_v = v@;
                    v.push(cell);
                    proof {
                        assert forall|lx2: int, lz2: int, y2: int|
                            0 <= lx2 < cs && 0 <= lz2 < cs && 0 <= y2 < h && (lx2 * cs + lz2) * h + y2
                                < v@.len() implies #[trigger] v@[(lx2 * cs + lz2) * h + y2] == self.cell(
                            x0 + lx2,
                            y2,
                            z0 + lz2,
                        ) by {
                            if (lx2 * cs + lz2) * h + y2 == old_v.len() {
                                lemma_chunk_index(lx as int, lz as int, y as int, lx2, lz2, y2, cs as int, h as int);
                            } else {
                                assert(v@[(lx2 * cs + lz2) * h + y2] == old_v[(lx2 * cs + lz2) * h + y2]);
                            }
                        }
                    }
                    y += 1;
                }
                proof {
                    assert((lx * cs + lz) * h + h == (lx * cs + (lz + 1)) * h) by (nonlinear_arith);
                }
                lz += 1;
            }
            proof {
                assert((lx * cs + cs) * h == ((lx + 1) * cs) * h) by (nonlinear_arith);
            }
            lx += 1;
        }
        proof {
            assert forall|lx2: int, lz2: int, y2: int|
                0 <= lx2 < cs && 0 <= lz2 < cs && 0 <= y2 < h implies #[trigger] v@[(lx2 * cs + lz2) * h + y2]
                    == self.cell(x0 + lx2, y2, z0 + lz2) by {
                assert((lx2 * cs + lz2) * h + y2 < cs * cs * h) by (nonlinear_arith)
                    requires 0 <= lx2 < cs, 0 <= lz2 < cs, 0 <= y2 < h;
                assert((cs * cs) * h == cs * cs * h) by (nonlinear_arith);
            }
        }
        Some(v)
    }

    pub fn get_voxel(&self, x: i32, y: i32, z: i32) -> (r: u32)
        requires
            self.wf(),
        ensures
            r == self.voxel(x as int, y as int, z as int),
    {
        match self.index_of(x as i64, y as i64, z as i64) {
            Some(i) => self.voxels[i],
            None => 0,
        }
    }

    pub fn get_light(&self, x: i32, y: i32, z: i32, color: &LightColor) -> (r: u32)
        requires
            self.wf(),
        ensures
            r == self.light(*color, x as int, y as int, z as int),
    {
        match self.index_of(x as i64, y as i64, z as i64) {
            Some(i) => match color {
                LightColor::Sunlight => self.sun[i],
                LightColor::Red => self.red[i],
                LightColor::Green => self.green[i],
                LightColor::Blue => self.blue[i],
            },
            None => 0,
        }
    }

    /// Writes one channel of one voxel; a voxel outside the box is left alone.
    pub fn set_light(&mut self, x: i32, y: i32, z: i32, level: u32, color: &LightColor)
        requires
            old(self).wf(),
        ensures
            final(self).wf(),
            final(self).same_blocks(old(self)),
            old(self).contains(x as int, y as int, z as int) ==> final(self).chan(*color)
                == old(self).chan(*color).update(
                old(self).idx(x as int, y as int, z as int),
                level,
            ),
            !old(self).contains(x as int, y as int, z as int) ==> final(self).chan(*color)
                == old(self).chan(*color),
            forall|c: LightColor| c != *color ==> final(self).chan(c) == old(self).chan(c),
            forall|c: LightColor, x2: int, y2: int, z2: int|
                #[trigger] final(self).light(c, x2, y2, z2) == if c == *color && x2 == x && y2
                    == y && z2 == z && old(self).contains(x2, y2, z2) {
                    level as int
                } else {
                    old(self).light(c, x2, y2, z2)
                },
    {
        match self.index_of(x as i64, y as i64, z as i64) {
            Some(i) => match color {
                LightColor::Sunlight => self.sun.set(i, level),
                LightColor::Red => self.red.set(i, level),
                LightColor::Green => self.green.set(i, level),
                LightColor::Blue => self.blue.set(i, level),
            },
            None => {},
        }
        proof {
            assert forall|c: LightColor, x2: int, y2: int, z2: int|
                #[trigger] self.light(c, x2, y2, z2) == if c == *color && x2 == x && y2 == y
                    && z2 == z && old(self).contains(x2, y2, z2) {
                    level as int
                } else {
                    old(self).light(c, x2, y2, z2)
                } by {
                if old(self).contains(x2, y2, z2) {
                    old(self).lemma_idx(x2, y2, z2);
                    if old(self).contains(x as int, y as int, z as int) {
                        old(self).lemma_idx(x as int, y as int, z as int);
                        if old(self).idx(x2, y2, z2) == old(self).idx(x as int, y as int, z as int) {
                            old(self).lemma_idx_inj(x2, y2, z2, x as int, y as int, z as int);
                        }
                    }
                }
            }
        }
    }
}

} // verus!
