//! Sizes and mip chains of the image-based-lighting textures.
use vstd::prelude::*;

use vstd::arithmetic::div_mod::{lemma_div_denominator, lemma_div_pos_is_pos};
use vstd::arithmetic::power2::{pow2, lemma2_to64, lemma_pow2_adds, lemma_pow2_pos, lemma_pow2_unfold, lemma_pow2_strictly_increases};
use vstd::bits::lemma_u32_shr_is_div;

verus! {

/// The size of mip level `level` of a texture of size `source`: the size
/// halved `level` times, rounded down, and never below one texel.
pub open spec fn spec_mip_size(source: nat, level: nat) -> nat {
    let s = source / pow2(level);
    if s < 1 {
        1
    } else {
        s
    }
}

/// A full mip chain of a texture of `size` texels has `levels` levels: as many
/// as there are halvings from `size` down to one texel, counting the
/// full-size level; a texture of size zero has none.
pub open spec fn is_mip_level_count(size: nat, levels: nat) -> bool {
    if size == 0 {
        levels == 0
    } else {
        levels >= 1 && pow2((levels - 1) as nat) <= size < pow2(levels)
    }
}

/// A full mip chain ends at one texel: in a chain of `levels` levels for a
/// texture of `size` texels, the last level is one texel and every level
/// before it at least two.
pub proof fn lemma_mip_chain_ends_at_one_texel(size: nat, levels: nat, level: nat)
    requires
        size > 0,
        is_mip_level_count(size, levels),
        level < levels,
    ensures
        level == levels - 1 ==> spec_mip_size(size, level) == 1,
        level < levels - 1 ==> spec_mip_size(size, level) >= 2,
{
    let last = (levels - 1) as nat;
    lemma_pow2_pos(last);
    lemma_pow2_unfold(levels);
    if level == last {
        let p = pow2(last);
        assert(size / p == 1) by (nonlinear_arith)
            requires
                p > 0,
                p <= size,
                size < 2 * p,
        ;
    } else {
        let d = (last - level) as nat;
        lemma_pow2_adds(level, d);
        lemma_pow2_pos(level);
        lemma_pow2_unfold(d);
        lemma_pow2_pos((d - 1) as nat);
        assert(level + d == last);
        let p = pow2(level);
        let q = pow2(d);
        assert(size / p >= 2) by (nonlinear_arith)
            requires
                p > 0,
                q >= 2,
                p * q <= size,
        ;
    }
}

/// Each mip level halves the one above it: level 0 is the full size (at
/// least one texel), and level `level + 1` is level `level` halved, rounded
/// down, but never below one texel.
pub proof fn lemma_mip_size_halves(source: nat, level: nat)
    ensures
        spec_mip_size(source, 0) == if source < 1 {
            1
        } else {
            source
        },
        spec_mip_size(source, level + 1) == if spec_mip_size(source, level) / 2 < 1 {
            1
        } else {
            spec_mip_size(source, level) / 2
        },
{
    lemma2_to64();
    lemma_pow2_unfold(level + 1);
    lemma_pow2_pos(level);
    lemma_div_denominator(source as int, pow2(level) as int, 2);
    assert(pow2(level) * 2 == pow2(level + 1));
}

/// The size of mip level `mip_level` of a texture whose full size is `source`.
pub fn mip_size(source: u32, mip_level: u32) -> (r: u32)
    ensures
        r == spec_mip_size(source as nat, mip_level as nat),
{
    if mip_level >= 32 {
        proof {
            lemma2_to64();
            if mip_level > 32 {
                lemma_pow2_strictly_increases(32, mip_level as nat);
            }
            assert(source as nat / pow2(mip_level as nat) == 0) by (nonlinear_arith)
                requires
                    source < pow2(mip_level as nat),
            ;
        }
        1
    } else {
        let s = source >> mip_level;
        proof {
            lemma_u32_shr_is_div(source, mip_level);
        }
        if s == 0 {
            1
        } else {
            s
        }
    }
}

/// The number of mip levels of a full mip chain for a texture of size `texture_size`.
pub fn mip_levels(texture_size: u32) -> (r: u32)
    ensures
        is_mip_level_count(texture_size as nat, r as nat),
        r <= 32,
{
    let mut s = texture_size;
    let mut count: u32 = 0;
    proof {
        lemma2_to64();
    }
    while s > 0
        invariant
            count <= 32,
            s as nat == texture_size as nat / pow2(count as nat),
            count > 0 ==> pow2((count - 1) as nat) <= texture_size,
            texture_size < pow2(32),
        decreases s,
    {
        proof {
            lemma_pow2_pos(count as nat);
            assert(texture_size as nat >= pow2(count as nat)) by (nonlinear_arith)
                requires
                    texture_size as nat / pow2(count as nat) >= 1,
                    pow2(count as nat) > 0,
            ;
            if count >= 32 {
                if count > 32 {
                    lemma_pow2_strictly_increases(32, count as nat);
                }
            }
            lemma_div_denominator(texture_size as int, pow2(count as nat) as int, 2);
            lemma_pow2_unfold((count + 1) as nat);
            assert(pow2(count as nat) * 2 == pow2((count + 1) as nat));
        }
        s = s / 2;
        count = count + 1;
    }
    proof {
        lemma_pow2_pos(count as nat);
        if texture_size > 0 {
            assert(count > 0);
            assert((texture_size as nat) < pow2(count as nat)) by (nonlinear_arith)
                requires
                    texture_size as nat / pow2(count as nat) == 0,
                    pow2(count as nat) > 0,
            ;
        } else {
            assert(count == 0);
        }
    }
    count
}

/// The texel formats of the image-based-lighting textures.
#[derive(Clone, Copy, Debug, PartialEq, Eq, Structural)]
pub enum IblFormat {
    /// Two 16-bit float channels.
    Rg16Float,
    /// Four 16-bit float channels.
    Rgba16Float,
}

/// A two-dimensional texture an IBL builder renders: its side in texels, its
/// mip level count, its texel format, and its array layers (six for a cube,
/// one for a flat texture).
#[derive(Clone, Copy, Debug, PartialEq, Eq, Structural)]
pub struct TexturePlan {
    pub size: u32,
    pub mip_level_count: u32,
    pub format: IblFormat,
    pub layers: u32,
}

/// The size of the cube map the environment is projected onto.
pub const SKYBOX_CUBE_SIZE: u32 = 512;

/// Renders the split-sum BRDF lookup table.
pub struct BRDFLUTBuilder {}

impl BRDFLUTBuilder {
    /// A flat 512 x 512 two-channel float texture with a single mip level.
    pub fn plan() -> (p: TexturePlan)
        ensures
            p == (TexturePlan { size: 512, mip_level_count: 1, format: IblFormat::Rg16Float, layers: 1 }),
    {
        TexturePlan { size: 512, mip_level_count: 1, format: IblFormat::Rg16Float, layers: 1 }
    }
}

/// Renders the specular prefiltered environment cube.
pub struct PrefilterMap {}

impl PrefilterMap {
    /// A 128-texel four-channel float cube with its mip chain capped to five
    /// levels, one per roughness step.
    pub fn plan() -> (p: TexturePlan)
        ensures
            p == (TexturePlan { size: 128, mip_level_count: 5, format: IblFormat::Rgba16Float, layers: 6 }),
    {
        TexturePlan { size: 128, mip_level_count: 5, format: IblFormat::Rgba16Float, layers: 6 }
    }
}

/// Projects an equirectangular HDR image onto a cube.
pub struct EquirectangularToCubemap {}

impl EquirectangularToCubemap {
    /// A four-channel float cube of `cube_size` texels with a full mip chain.
    pub fn plan(cube_size: u32) -> (p: TexturePlan)
        ensures
            p.size == cube_size,
            is_mip_level_count(cube_size as nat, p.mip_level_count as nat),
            p.format == IblFormat::Rgba16Float,
            p.layers == 6,
    {
        TexturePlan {
            size: cube_size,
            mip_level_count: mip_levels(cube_size),
            format: IblFormat::Rgba16Float,
            layers: 6,
        }
    }
}

/// Renders the diffuse irradiance cube.
pub struct IrrarianceMap {}

impl IrrarianceMap {
    /// A 32-texel four-channel float cube with a single mip level.
    pub fn plan() -> (p: TexturePlan)
        ensures
            p == (TexturePlan { size: 32, mip_level_count: 1, format: IblFormat::Rgba16Float, layers: 6 }),
    {
        TexturePlan { size: 32, mip_level_count: 1, format: IblFormat::Rgba16Float, layers: 6 }
    }
}

/// The number of faces of a cube map.
pub const CUBE_FACES: u32 = 6;

/// One render of a cube-map builder: a face of a mip level, at that level's size.
#[derive(Clone, Copy, Debug, PartialEq, Eq, Structural)]
pub struct CubeRenderStep {
    pub mip_level: u32,
    pub face: u32,
    pub capture_size: u32,
}

/// The renders that fill a cube map: for each mip level in turn, each of the six
/// faces, at the level's size.
pub open spec fn spec_cube_render_steps(plan: TexturePlan) -> Seq<CubeRenderStep> {
    Seq::new(
        (plan.mip_level_count * CUBE_FACES) as nat,
        |k: int|
            CubeRenderStep {
                mip_level: (k / CUBE_FACES as int) as u32,
                face: (k % CUBE_FACES as int) as u32,
                capture_size: spec_mip_size(plan.size as nat, (k / CUBE_FACES as int) as nat) as u32,
            },
    )
}

/// The renders that fill a cube map described by `plan`.
pub fn cube_render_steps(plan: TexturePlan) -> (steps: Vec<CubeRenderStep>)
    requires
        plan.mip_level_count * CUBE_FACES <= usize::MAX,
    ensures
        steps@ == spec_cube_render_steps(plan),
{
    let mut steps: Vec<CubeRenderStep> = Vec::new();
    for mip_level in 0..plan.mip_level_count
        invariant
            plan.mip_level_count * CUBE_FACES <= usize::MAX,
            steps@.len() == mip_level * CUBE_FACES,
            forall|k: int| 0 <= k < steps@.len() ==> #[trigger] steps@[k] == spec_cube_render_steps(plan)[k],
    {
        let capture_size = mip_size(plan.size, mip_level);
        proof {
            assert(spec_mip_size(plan.size as nat, mip_level as nat) <= plan.size || plan.size == 0) by {
                lemma_pow2_pos(mip_level as nat);
                assert(plan.size as nat / pow2(mip_level as nat) <= plan.size) by (nonlinear_arith)
                    requires
                        pow2(mip_level as nat) > 0,
                ;
            }
        }
        for face in 0..CUBE_FACES
            invariant
                plan.mip_level_count * CUBE_FACES <= usize::MAX,
                mip_level < plan.mip_level_count,
                capture_size == spec_mip_size(plan.size as nat, mip_level as nat),
                steps@.len() == mip_level * CUBE_FACES + face,
                forall|k: int| 0 <= k < steps@.len() ==> #[trigger] steps@[k] == spec_cube_render_steps(plan)[k],
        {
            let ghost k = steps@.len() as int;
            steps.push(CubeRenderStep { mip_level, face, capture_size });
            proof {
                assert(k / 6 == mip_level as int && k % 6 == face as int) by (nonlinear_arith)
                    requires
                        k == mip_level * 6 + face,
                        0 <= face < 6,
                ;
                assert(k < plan.mip_level_count * 6) by (nonlinear_arith)
                    requires
                        k == mip_level * 6 + face,
                        0 <= face < 6,
                        mip_level < plan.mip_level_count,
                ;
            }
        }
    }
    steps
}

/// The side of the square of texels one compute workgroup covers.
pub const WORKGROUP_TILE: u32 = 16;

/// The number of workgroups that cover `extent` texels along one axis.
pub fn dispatch_size(extent: u32) -> (r: u32)
    ensures
        r as int == (extent as int + WORKGROUP_TILE - 1) / WORKGROUP_TILE as int,
{
    let whole = extent / WORKGROUP_TILE;
    if extent % WORKGROUP_TILE != 0 {
        whole + 1
    } else {
        whole
    }
}

/// One step of building a mip chain: level `dst` is filtered down from level `src`.
#[derive(Clone, Copy, Debug, PartialEq, Eq, Structural)]
pub struct MipStep {
    pub src: u32,
    pub dst: u32,
}

/// The steps that fill the mip levels from 2 on, each from the level above it
/// (levels 0 and 1 are filled together from the scene); none for a texture
/// with fewer than three levels.
pub fn mip_chain_steps(mip_level_count: u32) -> (steps: Vec<MipStep>)
    ensures
        steps@.len() == if mip_level_count > 2 {
            mip_level_count - 2
        } else {
            0
        },
        forall|k: int| 0 <= k < steps@.len() ==> #[trigger] steps@[k] == (MipStep { src: (k + 1) as u32, dst: (k + 2) as u32 }),
{
    let mut steps: Vec<MipStep> = Vec::new();
    if mip_level_count <= 2 {
        return steps;
    }
    for mip in 2..mip_level_count
        invariant
            mip_level_count > 2,
            steps@.len() == mip - 2,
            forall|k: int| 0 <= k < steps@.len() ==> #[trigger] steps@[k] == (MipStep { src: (k + 1) as u32, dst: (k + 2) as u32 }),
    {
        steps.push(MipStep { src: mip - 1, dst: mip });
    }
    steps
}

} // verus!
