//! Levels of detail: how far a raster is decimated, in powers of two, to
//! match the resolution that a view can resolve.

use vstd::arithmetic::logarithm::{lemma_log0, lemma_log_s, log};
use vstd::arithmetic::power2::{lemma2_to64, lemma_pow2_strictly_increases, lemma_pow2_unfold, pow2};
use vstd::prelude::*;

verus! {

/// Side length in pixels of a full orthoimage.
pub const ORTHOIMAGE_RESOLUTION_PX: u32 = 10_000;

/// Coarsest level that an elevation raster is stored at.
pub const ELEVATION_MAX_LOD: usize = 2;

/// Coarsest level that an orthoimage is stored at.
pub const ORTHOIMAGE_MAX_LOD: usize = 5;

/// Most cells along one side of a mesh that a view may ask for.
pub const MESH_MAX_RESOLUTION: u32 = 4000;

/// Fewest cells along one side of a mesh that a view may ask for.
pub const MESH_MIN_RESOLUTION: u32 = 2;

/// Most mip levels that a texture gets.
pub const MIP_LEVEL_COUNT: u32 = 5;

/// The coarsest ground resolution that a view can ask for, in millimetres
/// per pixel: a tile of two cells a side.
pub const COARSEST_RESOLUTION_MM: u64 = 500_000;

/// The level for a raster of `image_resolution` pixels a side that must
/// keep `target_resolution`: the number of times the whole quotient of the
/// two can be halved before it drops below two.
pub open spec fn spec_calc_lod(image_resolution: int, target_resolution: int) -> int {
    log(2, image_resolution / target_resolution)
}

/// `p` is the smallest power of two that is not below `n`.
pub open spec fn is_next_power_of_two(n: int, p: int) -> bool {
    &&& exists|k: nat| p == pow2(k)
    &&& n <= p
    &&& (p == 1 || p < 2 * n)
}

/// Cells along one side that a ground resolution in millimetres per pixel
/// asks of a one-kilometre tile: the tile side over the resolution, rounded
/// up, and no fewer than two. A resolution of zero asks for the most that
/// the number can hold.
pub open spec fn spec_target_resolution(resolution_mm: int) -> int {
    if resolution_mm == 0 {
        u32::MAX as int
    } else {
        let cells = (1_000_000 + resolution_mm - 1) / resolution_mm;
        if cells < 2 {
            2
        } else {
            cells
        }
    }
}

/// `v` cut to the range from `lo` to `hi`.
pub open spec fn clamp(v: int, lo: int, hi: int) -> int {
    if v < lo {
        lo
    } else if v > hi {
        hi
    } else {
        v
    }
}

/// The whole-number logarithm brackets its argument between two powers of two.
pub proof fn lemma_log2_brackets(q: int)
    requires
        q >= 1,
    ensures
        log(2, q) >= 0,
        pow2(log(2, q) as nat) <= q < pow2((log(2, q) + 1) as nat),
    decreases q,
{
    lemma2_to64();
    if q < 2 {
        lemma_log0(2, q);
    } else {
        lemma_log_s(2, q);
        lemma_log2_brackets(q / 2);
        let l = log(2, q / 2);
        lemma_pow2_unfold((l + 1) as nat);
        lemma_pow2_unfold((l + 2) as nat);
    }
}

/// The level is the largest that keeps the target: halving the raster that
/// many times leaves at least `target_resolution` pixels a side, once more
/// would not. A raster smaller than the target is kept whole.
pub proof fn lemma_calc_lod_keeps_target(image_resolution: int, target_resolution: int)
    requires
        image_resolution >= 0,
        target_resolution > 0,
    ensures
        spec_calc_lod(image_resolution, target_resolution) >= 0,
        image_resolution < target_resolution ==> spec_calc_lod(
            image_resolution,
            target_resolution,
        ) == 0,
        image_resolution >= target_resolution ==> {
            let lod = spec_calc_lod(image_resolution, target_resolution) as nat;
            target_resolution * pow2(lod) <= image_resolution < target_resolution * pow2(lod + 1)
        },
{
    let q = image_resolution / target_resolution;
    assert(q >= 0 && q * target_resolution <= image_resolution < (q + 1) * target_resolution
        && (image_resolution < target_resolution ==> q == 0) && (image_resolution
        >= target_resolution ==> q >= 1)) by (nonlinear_arith)
        requires
            q == image_resolution / target_resolution,
            image_resolution >= 0,
            target_resolution > 0,
    ;
    if q < 1 {
        lemma_log0(2, q);
    } else {
        lemma_log2_brackets(q);
        let lod = log(2, q) as nat;
        let lo = pow2(lod) as int;
        let hi = pow2(lod + 1) as int;
        assert(target_resolution * lo <= image_resolution < target_resolution * hi)
            by (nonlinear_arith)
            requires
                lo <= q,
                q + 1 <= hi,
                q * target_resolution <= image_resolution < (q + 1) * target_resolution,
                target_resolution > 0,
        ;
    }
}

/// Only one number is the smallest power of two not below `n`.
pub proof fn lemma_next_power_of_two_unique(n: int, one: int, other: int)
    requires
        is_next_power_of_two(n, one),
        is_next_power_of_two(n, other),
    ensures
        one == other,
{
    let k1 = choose|k: nat| one == pow2(k);
    let k2 = choose|k: nat| other == pow2(k);
    lemma2_to64();
    if k1 < k2 {
        lemma_pow2_unfold(k2);
        if k1 < k2 - 1 {
            lemma_pow2_strictly_increases(k1, (k2 - 1) as nat);
        }
        if k1 > 0 {
            lemma_pow2_unfold(k1);
        }
    } else if k2 < k1 {
        lemma_pow2_unfold(k1);
        if k2 < k1 - 1 {
            lemma_pow2_strictly_increases(k2, (k1 - 1) as nat);
        }
        if k2 > 0 {
            lemma_pow2_unfold(k2);
        }
    }
}

/// Given the side of a raster in pixels, the smallest power-of-two level
/// that still satisfies the target resolution: with a raster of 1024 and a
/// target of 256 the level is 2.
pub fn calc_lod(image_resolution: u32, target_resolution: u32) -> (lod: usize)
    requires
        target_resolution > 0,
    ensures
        lod == spec_calc_lod(image_resolution as int, target_resolution as int),
        lod <= 31,
        pow2(lod as nat) <= u32::MAX,
{
    let mut q: u32 = image_resolution / target_resolution;
    let mut lod: usize = 0;
    proof {
        lemma2_to64();
    }
    while q >= 2
        invariant
            lod <= 31,
            q < pow2((32 - lod) as nat),
            pow2(lod as nat) * pow2((32 - lod) as nat) == 0x1_0000_0000,
            spec_calc_lod(image_resolution as int, target_resolution as int) == lod + log(
                2,
                q as int,
            ),
        decreases q,
    {
        proof {
            lemma2_to64();
            lemma_log_s(2, q as int);
            lemma_pow2_unfold((32 - lod) as nat);
            lemma_pow2_unfold((lod + 1) as nat);
            let a = pow2(lod as nat) as int;
            let b = pow2((31 - lod) as nat) as int;
            assert((2 * a) * b == a * (2 * b)) by (nonlinear_arith);
        }
        q = q / 2;
        lod = lod + 1;
    }
    proof {
        lemma_log0(2, q as int);
        let a = pow2(lod as nat) as int;
        let b = pow2((32 - lod) as nat) as int;
        assert(a <= 0x1_0000_0000 - 1) by (nonlinear_arith)
            requires
                a * b == 0x1_0000_0000,
                b >= 2,
                a >= 0,
        {
        }
    }
    lod
}

/// Two to the power of `lod`.
fn power_of_two(lod: usize) -> (p: u32)
    requires
        lod <= 31,
    ensures
        p == pow2(lod as nat),
        p >= 1,
{
    let mut p: u32 = 1;
    let mut i: usize = 0;
    proof {
        lemma2_to64();
    }
    while i < lod
        invariant
            i <= lod <= 31,
            p == pow2(i as nat),
            p >= 1,
        decreases lod - i,
    {
        proof {
            lemma2_to64();
            lemma_pow2_unfold((i + 1) as nat);
            if i < 30 {
                lemma_pow2_strictly_increases(i as nat, 30);
            }
        }
        p = p * 2;
        i = i + 1;
    }
    p
}

/// The smallest power of two that is not below `n`; one for zero.
pub fn next_power_of_two(n: u32) -> (p: u32)
    requires
        n <= 0x8000_0000,
    ensures
        is_next_power_of_two(n as int, p as int),
{
    let mut p: u32 = 1;
    let ghost mut k: nat = 0;
    proof {
        lemma2_to64();
    }
    while p < n
        invariant
            n <= 0x8000_0000,
            p == pow2(k),
            p >= 1,
            p == 1 || p < 2 * n,
        decreases 0x1_0000_0000 - p,
    {
        proof {
            lemma2_to64();
            lemma_pow2_unfold(k + 1);
            if k > 31 {
                lemma_pow2_strictly_increases(31, k);
            }
            if k < 30 {
                lemma_pow2_strictly_increases(k, 30);
            }
            k = k + 1;
        }
        p = p * 2;
    }
    p
}

/// The cells along one side that a ground resolution asks for.
pub fn target_resolution(resolution_mm: u64) -> (cells: u32)
    ensures
        cells == spec_target_resolution(resolution_mm as int),
        cells >= 2,
{
    if resolution_mm == 0 {
        u32::MAX
    } else if resolution_mm >= 1_000_000 {
        assert((1_000_000 + resolution_mm - 1) / (resolution_mm as int) <= 1) by (nonlinear_arith)
            requires
                resolution_mm >= 1_000_000,
        ;
        2
    } else {
        let cells: u64 = (1_000_000 + resolution_mm - 1) / resolution_mm;
        assert(cells <= 1_000_000) by (nonlinear_arith)
            requires
                cells == (1_000_000 + resolution_mm - 1) / (resolution_mm as int),
                1 <= resolution_mm < 1_000_000,
        ;
        if cells < 2 {
            2
        } else {
            cells as u32
        }
    }
}

/// How one elevation tile is to be read and meshed.
#[derive(Debug, Copy, Clone, PartialEq, Eq, Structural)]
pub struct ElevationPlan {
    /// Cells along one side that the view asked for, at least two.
    pub resolution: u32,
    /// Level that the raster could be decimated to and still keep the
    /// resolution asked for.
    pub lod: usize,
    /// Level to read: `lod`, but no coarser than the coarsest level stored.
    pub level: usize,
    /// Cells along one side of the mesh, a power of two.
    pub mesh_resolution: usize,
}

impl ElevationPlan {
    /// `self` is the plan for a view that resolves `resolution_mm`
    /// millimetres per pixel on a raster of `source_width` pixels a side.
    ///
    /// The resolution asked for is cut to the range that meshes may have;
    /// the level follows from it by `spec_calc_lod`; and the mesh takes the
    /// raster's side at that level, rounded up to a power of two, so that
    /// tiles planned apart still agree on a family of resolutions.
    pub open spec fn is_plan_for(self, resolution_mm: int, source_width: int) -> bool {
        let asked = clamp(
            spec_target_resolution(resolution_mm),
            MESH_MIN_RESOLUTION as int,
            MESH_MAX_RESOLUTION as int,
        );
        &&& self.resolution == spec_target_resolution(resolution_mm)
        &&& self.lod == spec_calc_lod(source_width, asked)
        &&& self.level == (if self.lod < ELEVATION_MAX_LOD {
            self.lod
        } else {
            ELEVATION_MAX_LOD
        })
        &&& is_next_power_of_two(
            source_width / (pow2(self.lod as nat) as int),
            self.mesh_resolution as int,
        )
    }

    /// Plans the reading of one elevation tile.
    pub fn new(resolution_mm: u64, source_width: u32) -> (plan: ElevationPlan)
        ensures
            plan.is_plan_for(resolution_mm as int, source_width as int),
            1 <= plan.mesh_resolution <= 8192,
    {
        let resolution = target_resolution(resolution_mm);
        let capped: u32 = if resolution > MESH_MAX_RESOLUTION {
            MESH_MAX_RESOLUTION
        } else {
            resolution
        };
        let asked: u32 = if capped < MESH_MIN_RESOLUTION {
            MESH_MIN_RESOLUTION
        } else {
            capped
        };
        let lod = calc_lod(source_width, asked);
        let divisor = power_of_two(lod);
        let width_at_lod: u32 = source_width / divisor;
        proof {
            lemma_calc_lod_keeps_target(source_width as int, asked as int);
            if source_width >= asked {
                let hi = pow2((lod + 1) as nat) as int;
                lemma_pow2_unfold((lod + 1) as nat);
                assert(width_at_lod < 2 * asked) by (nonlinear_arith)
                    requires
                        width_at_lod == source_width as int / divisor as int,
                        source_width < asked * (2 * divisor),
                        divisor >= 1,
                        asked >= 1,
                ;
            } else {
                lemma2_to64();
                assert(divisor == 1);
            }
            assert(width_at_lod < 8000);
        }
        let mesh = next_power_of_two(width_at_lod);
        proof {
            lemma2_to64();
            let k = choose|k: nat| mesh as int == pow2(k);
            if k > 13 {
                lemma_pow2_strictly_increases(13, k);
                if k > 14 {
                    lemma_pow2_strictly_increases(14, k);
                }
            } else if k < 13 {
                lemma_pow2_strictly_increases(k, 13);
            }
        }
        ElevationPlan {
            resolution,
            lod,
            level: if lod < ELEVATION_MAX_LOD {
                lod
            } else {
                ELEVATION_MAX_LOD
            },
            mesh_resolution: mesh as usize,
        }
    }

    /// Plans the reading of one elevation tile for a view whose ground
    /// resolution may be unknown: a view that could not be estimated, because
    /// the tile lies outside the camera's field of view, gets the coarsest
    /// mesh.
    pub fn for_estimate(estimate_mm: Option<u64>, source_width: u32) -> (plan: ElevationPlan)
        ensures
            plan.is_plan_for(
                match estimate_mm {
                    Some(resolution_mm) => resolution_mm as int,
                    None => COARSEST_RESOLUTION_MM as int,
                },
                source_width as int,
            ),
            1 <= plan.mesh_resolution <= 8192,
    {
        match estimate_mm {
            Some(resolution_mm) => ElevationPlan::new(resolution_mm, source_width),
            None => ElevationPlan::new(COARSEST_RESOLUTION_MM, source_width),
        }
    }

    /// Whether a raster of `width` by `height` pixels, as read at the
    /// planned level, has to be resampled to the mesh before it is used.
    pub fn needs_resampling(&self, width: u32, height: u32) -> (needed: bool)
        ensures
            needed == (width != self.mesh_resolution || height != self.mesh_resolution),
    {
        width as usize != self.mesh_resolution || height as usize != self.mesh_resolution
    }
}

/// Which orthoimage a tile loads, and at what resolution it is shown.
#[derive(Debug, Copy, Clone, PartialEq, Eq, Structural)]
pub struct TexturePlan {
    /// Pixels along one side that the texture should resolve.
    pub resolution: u32,
    /// Level of the orthoimage to load.
    pub lod: usize,
    /// Pixels along one side of the finest image level in use.
    pub cap: u32,
}

/// What is done to a loaded orthoimage before it becomes a texture.
#[derive(Debug, Copy, Clone, PartialEq, Eq, Structural)]
pub struct TextureSteps {
    /// Levels that the image spans above the resolution to resolve, the
    /// image itself counted.
    pub max_lod: u32,
    /// Mip levels that the texture gets.
    pub mip_level_count: u32,
    /// Side to which an image finer than the cap is scaled down, before it
    /// is scaled back up to its own size.
    pub soften_to: Option<u32>,
    /// Side to which the image is scaled down where it has a single level.
    pub shrink_to: Option<u32>,
}

impl TexturePlan {
    /// What `new` gives for its arguments.
    ///
    /// The resolution is that of the tile, but no more than the finest
    /// image level in use has. The level follows from it by
    /// `spec_calc_lod`, and is then cut to the levels from the finest in
    /// use to the coarsest stored. A finest level so coarse that it has
    /// no pixel left gives no plan.
    pub open spec fn spec_new(resolution: u32, image_max_lod: usize) -> Option<TexturePlan> {
        if image_max_lod >= 14 {
            None
        } else {
            let cap = ORTHOIMAGE_RESOLUTION_PX as int / (pow2(image_max_lod as nat) as int);
            let shown = if resolution < cap {
                resolution as int
            } else {
                cap
            };
            let lod = spec_calc_lod(ORTHOIMAGE_RESOLUTION_PX as int, shown);
            Some(
                TexturePlan {
                    resolution: shown as u32,
                    lod: clamp(
                        if lod < image_max_lod {
                            image_max_lod as int
                        } else {
                            lod
                        },
                        0,
                        ORTHOIMAGE_MAX_LOD as int,
                    ) as usize,
                    cap: cap as u32,
                },
            )
        }
    }

    /// What `steps` gives for an image of `image_width` pixels a side.
    pub open spec fn spec_steps(self, image_width: u32) -> TextureSteps {
        let max_lod = spec_calc_lod(image_width as int, self.resolution as int) + 1;
        TextureSteps {
            max_lod: max_lod as u32,
            mip_level_count: (if max_lod < MIP_LEVEL_COUNT {
                max_lod
            } else {
                MIP_LEVEL_COUNT as int
            }) as u32,
            soften_to: if image_width > self.cap {
                Some(self.cap)
            } else {
                None
            },
            shrink_to: if max_lod == 1 && self.resolution < ORTHOIMAGE_RESOLUTION_PX {
                Some(self.resolution)
            } else {
                None
            },
        }
    }

    /// Plans the texture of a tile that was asked for at `resolution`, with
    /// `image_max_lod` as the finest image level in use.
    pub fn new(resolution: u32, image_max_lod: usize) -> (plan: Option<TexturePlan>)
        requires
            resolution >= 1,
        ensures
            plan == Self::spec_new(resolution, image_max_lod),
            plan matches Some(p) ==> p.resolution >= 1,
    {
        if image_max_lod >= 14 {
            return None;
        }
        let divisor = power_of_two(image_max_lod);
        proof {
            lemma2_to64();
            if image_max_lod < 13 {
                lemma_pow2_strictly_increases(image_max_lod as nat, 13);
            }
            assert(10_000int / (divisor as int) >= 1) by (nonlinear_arith)
                requires
                    1 <= divisor <= 8192,
            ;
        }
        let cap: u32 = ORTHOIMAGE_RESOLUTION_PX / divisor;
        let shown: u32 = if resolution < cap {
            resolution
        } else {
            cap
        };
        let lod = calc_lod(ORTHOIMAGE_RESOLUTION_PX, shown);
        let raised: usize = if lod < image_max_lod {
            image_max_lod
        } else {
            lod
        };
        let lod: usize = if raised > ORTHOIMAGE_MAX_LOD {
            ORTHOIMAGE_MAX_LOD
        } else {
            raised
        };
        Some(TexturePlan { resolution: shown, lod, cap })
    }

    /// Decides what is done to the loaded image.
    pub fn steps(&self, image_width: u32) -> (steps: TextureSteps)
        requires
            self.resolution >= 1,
        ensures
            steps == self.spec_steps(image_width),
    {
        let max_lod: u32 = calc_lod(image_width, self.resolution) as u32 + 1;
        TextureSteps {
            max_lod,
            mip_level_count: if max_lod < MIP_LEVEL_COUNT {
                max_lod
            } else {
                MIP_LEVEL_COUNT
            },
            soften_to: if image_width > self.cap {
                Some(self.cap)
            } else {
                None
            },
            shrink_to: if max_lod == 1 && self.resolution < ORTHOIMAGE_RESOLUTION_PX {
                Some(self.resolution)
            } else {
                None
            },
        }
    }
}

} // verus!
