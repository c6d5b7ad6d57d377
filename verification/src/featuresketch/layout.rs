use rand::rngs::Xoshiro256PlusPlus;
use vstd::prelude::*;

use crate::error::{RcfError, Result};
use crate::outside::{hash_with_seeds, next_u64};

verus! {

/// Version of the persisted FeatureSketch state.
pub const FORMAT_VERSION: u32 = 1;

/// Four hashing keys.
#[derive(Clone, Copy, Debug, PartialEq, Eq, Structural)]
pub struct Seed4(pub u64, pub u64, pub u64, pub u64);

impl Seed4 {
    /// Four consecutive draws of `rng`. The drawn values, and how `rng`
    /// advances, are not stated: they depend on the generator's hidden state.
    pub fn from_rng(rng: &mut Xoshiro256PlusPlus) -> (s: Self) {
        let a = next_u64(rng);
        let b = next_u64(rng);
        let c = next_u64(rng);
        let d = next_u64(rng);
        Seed4(a, b, c, d)
    }

    /// Hash `x` under these keys. The value is not stated: it comes from
    /// `ahash`, whose output differs between machines.
    pub fn hash<H: core::hash::Hash>(&self, x: H) -> (h: u64) {
        hash_with_seeds(self.0, self.1, self.2, self.3, x)
    }
}

/// Keys of the random projections: value coefficients, presence
/// coefficients, and the two halves of a feature name's hash.
#[derive(Clone, Copy, Debug)]
pub struct ProjectionSeeds {
    pub value: Seed4,
    pub presence: Seed4,
    pub feature_lo: Seed4,
    pub feature_hi: Seed4,
}

impl ProjectionSeeds {
    /// Sixteen draws of `rng`, in field order. The drawn values are not
    /// stated: they depend on the generator's hidden state.
    pub fn new(rng: &mut Xoshiro256PlusPlus) -> (s: Self) {
        let value = Seed4::from_rng(rng);
        let presence = Seed4::from_rng(rng);
        let feature_lo = Seed4::from_rng(rng);
        let feature_hi = Seed4::from_rng(rng);
        ProjectionSeeds { value, presence, feature_lo, feature_hi }
    }
}

/// A 128-bit feature identity built from two keyed hashes of its name.
#[derive(Clone, Copy, Debug)]
pub struct FeatureHash {
    pub lo: u64,
    pub hi: u64,
}

/// Hash a feature name with the two feature keys. The halves are not
/// stated: they come from `ahash`, whose output differs between machines.
pub fn feature_hash(name: &str, seeds: &ProjectionSeeds) -> (h: FeatureHash) {
    FeatureHash { lo: seeds.feature_lo.hash(name), hi: seeds.feature_hi.hash(name) }
}

/// Sign of a sparse projection coefficient, from a keyed hash `h` of
/// (feature, dimension): `+1` when `h % 6 == 0`, `-1` when `h % 6 == 1`,
/// otherwise `0` (the coefficient is `sign * sqrt(3)`).
pub fn coefficient_sign_from_hash(h: u64) -> (s: i8)
    ensures
        s == if h % 6 == 0 {
            1i8
        } else if h % 6 == 1 {
            -1i8
        } else {
            0i8
        },
{
    let r = h % 6;
    if r == 0 {
        1
    } else if r == 1 {
        -1
    } else {
        0
    }
}

/// Sign of the projection coefficient of `feature` on dimension `dim`:
/// [`coefficient_sign_from_hash`] of a keyed hash, whose value is not stated
/// (it comes from `ahash`, whose output differs between machines).
pub fn coefficient_sign(seed: Seed4, feature: FeatureHash, dim: usize) -> (s: i8)
    ensures
        s == 1 || s == 0 || s == -1,
{
    let h = seed.hash((feature.lo, feature.hi, dim as u64));
    coefficient_sign_from_hash(h)
}

/// One level of a projection chain, as drawn: the dimension it bins, whether
/// that dimension is the feature-count signal, and the raw draw from which
/// its random bin offset is made.
#[derive(Clone, Copy, Debug, PartialEq, Eq, Structural)]
pub struct ChainLevelDraw {
    pub dimension: usize,
    pub feature_count: bool,
    pub level: usize,
    pub offset_bits: u64,
}

/// Number of dimensions a chain level can bin: the projected ones, plus the
/// feature-count signal when it is included.
pub open spec fn level_dims(projection_dims: usize, include_feature_count: bool) -> int {
    projection_dims + if include_feature_count {
        1int
    } else {
        0int
    }
}

/// The level made from the draws `x` (dimension) and `offset_bits`: dimension
/// `x % dims`, which is the feature-count signal exactly when it is the last
/// one and that signal is included.
pub open spec fn chain_level(
    x: u64,
    offset_bits: u64,
    level: usize,
    projection_dims: usize,
    include_feature_count: bool,
) -> ChainLevelDraw {
    let dimension = ((x as int) % level_dims(projection_dims, include_feature_count)) as usize;
    ChainLevelDraw {
        dimension,
        feature_count: include_feature_count && dimension == projection_dims,
        level,
        offset_bits,
    }
}

/// `d` is the level made at position `level` from some dimension draw and
/// its own offset bits.
pub open spec fn chain_level_drawn(
    d: ChainLevelDraw,
    level: usize,
    projection_dims: usize,
    include_feature_count: bool,
) -> bool {
    exists|x: u64|
        #[trigger] chain_level(x, d.offset_bits, level, projection_dims, include_feature_count)
            == d
}

/// The chain level made from a dimension draw `x` and offset draw
/// `offset_bits`.
pub fn level_from_draws(
    x: u64,
    offset_bits: u64,
    level: usize,
    projection_dims: usize,
    include_feature_count: bool,
) -> (d: ChainLevelDraw)
    requires
        projection_dims + 1 <= usize::MAX,
        projection_dims > 0 || include_feature_count,
    ensures
        d == chain_level(x, offset_bits, level, projection_dims, include_feature_count),
{
    let dims: usize = projection_dims + if include_feature_count {
        1
    } else {
        0
    };
    let dimension = (x % (dims as u64)) as usize;
    ChainLevelDraw {
        dimension,
        feature_count: include_feature_count && dimension == projection_dims,
        level,
        offset_bits,
    }
}

/// Draw the levels of `chains` chains of `depth` levels each over
/// `projection_dims` projected dimensions (plus the feature-count signal
/// when `include_feature_count`), chain after chain. Each level takes two
/// draws of `rng`, the dimension draw then the offset bits, and is made from
/// them by [`level_from_draws`]; the drawn values are not stated (they depend
/// on the generator's hidden state).
pub fn draw_chain_levels(
    chains: usize,
    depth: usize,
    projection_dims: usize,
    include_feature_count: bool,
    rng: &mut Xoshiro256PlusPlus,
) -> (levels: Vec<ChainLevelDraw>)
    requires
        chains * depth <= usize::MAX,
        projection_dims + 1 <= usize::MAX,
        projection_dims > 0 || include_feature_count,
    ensures
        levels@.len() == chains * depth,
        forall|i: int|
            0 <= i < levels@.len() ==> {
                let d = #[trigger] levels@[i];
                &&& d.dimension < projection_dims + if include_feature_count {
                    1int
                } else {
                    0int
                }
                &&& d.feature_count == (include_feature_count && d.dimension == projection_dims)
                &&& d.level == i % (depth as int)
                &&& chain_level_drawn(d, d.level, projection_dims, include_feature_count)
            },
{
    let dims: usize = projection_dims + if include_feature_count {
        1
    } else {
        0
    };
    let mut levels: Vec<ChainLevelDraw> = Vec::new();
    let mut c: usize = 0;
    while c < chains
        invariant
            chains * depth <= usize::MAX,
            dims == projection_dims + if include_feature_count {
                1int
            } else {
                0int
            },
            dims > 0,
            projection_dims + 1 <= usize::MAX,
            projection_dims > 0 || include_feature_count,
            c <= chains,
            levels@.len() == c * depth,
            forall|i: int|
                0 <= i < levels@.len() ==> {
                    let d = #[trigger] levels@[i];
                    &&& d.dimension < dims
                    &&& d.feature_count == (include_feature_count && d.dimension
                        == projection_dims)
                    &&& d.level == i % (depth as int)
                    &&& chain_level_drawn(d, d.level, projection_dims, include_feature_count)
                },
        decreases chains - c,
    {
        let mut l: usize = 0;
        proof {
            assert(c * depth + depth == (c + 1) * depth) by (nonlinear_arith);
        }
        while l < depth
            invariant
                dims == projection_dims + if include_feature_count {
                    1int
                } else {
                    0int
                },
                dims > 0,
                projection_dims + 1 <= usize::MAX,
                projection_dims > 0 || include_feature_count,
                l <= depth,
                levels@.len() == c * depth + l,
                forall|i: int|
                    0 <= i < levels@.len() ==> {
                        let d = #[trigger] levels@[i];
                        &&& d.dimension < dims
                        &&& d.feature_count == (include_feature_count && d.dimension
                            == projection_dims)
                        &&& d.level == i % (depth as int)
                        &&& chain_level_drawn(d, d.level, projection_dims, include_feature_count)
                    },
            decreases depth - l,
        {
            let x = next_u64(rng);
            let offset_bits = next_u64(rng);
            let d = level_from_draws(x, offset_bits, l, projection_dims, include_feature_count);
            proof {
                vstd::arithmetic::div_mod::lemma_fundamental_div_mod_converse(
                    c * depth + l,
                    depth as int,
                    c as int,
                    l as int,
                );
                assert(chain_level(x, d.offset_bits, l, projection_dims, include_feature_count)
                    == d);
            }
            levels.push(d);
            l = l + 1;
        }
        c = c + 1;
    }
    levels
}

/// Row keys of a level sketch: one `Seed4` per row, drawn in row order.
pub fn draw_row_seeds(rows: usize, rng: &mut Xoshiro256PlusPlus) -> (seeds: Vec<Seed4>)
    ensures
        seeds@.len() == rows,
{
    let mut seeds: Vec<Seed4> = Vec::new();
    let mut r: usize = 0;
    while r < rows
        invariant
            r <= rows,
            seeds@.len() == r,
        decreases rows - r,
    {
        seeds.push(Seed4::from_rng(rng));
        r = r + 1;
    }
    seeds
}

/// Cell of bin `bin` in row `row` of a `rows x buckets` level sketch stored
/// row after row: [`cell_of_hash`] of the row's keyed hash of `(row, bin)`.
/// The hash value is not stated: it comes from `ahash`, whose output
/// differs between machines.
pub fn cell_index(row_seeds: &[Seed4], row: usize, bin: i64, buckets: usize) -> (idx: usize)
    requires
        row < row_seeds@.len(),
        buckets > 0,
        row_seeds@.len() * buckets <= usize::MAX,
    ensures
        row * buckets <= idx < (row + 1) * buckets,
{
    let seed = row_seeds[row];
    let h = seed.hash((row as u64, bin));
    proof {
        assert((row + 1) * buckets <= row_seeds@.len() * buckets) by (nonlinear_arith)
            requires
                row + 1 <= row_seeds@.len(),
        ;
    }
    cell_of_hash(h, row, buckets)
}

/// Cell of row `row` in a sketch of `buckets` buckets per row stored row
/// after row, for the keyed hash `h`: bucket `h % buckets` of that row.
pub fn cell_of_hash(h: u64, row: usize, buckets: usize) -> (idx: usize)
    requires
        buckets > 0,
        (row + 1) * buckets <= usize::MAX,
    ensures
        idx == row * buckets + (h as int) % (buckets as int),
        row * buckets <= idx < (row + 1) * buckets,
{
    let bucket = (h % (buckets as u64)) as usize;
    proof {
        assert(row * buckets + buckets == (row + 1) * buckets) by (nonlinear_arith);
    }
    row * buckets + bucket
}

/// The epoch and event count after one more update; fails with `Overflow`
/// (naming the counter) when either would exceed `u64::MAX`.
pub fn advance_counters(epoch: u64, entries_seen: u64) -> (r: Result<(u64, u64)>)
    ensures
        epoch == u64::MAX ==> (r matches Err(e) && e matches RcfError::Overflow(m) && m@
            == "FeatureSketch epoch overflow"@),
        epoch < u64::MAX && entries_seen == u64::MAX ==> (r matches Err(e)
            && e matches RcfError::Overflow(m) && m@ == "FeatureSketch entries_seen overflow"@),
        epoch < u64::MAX && entries_seen < u64::MAX ==> r == Ok::<(u64, u64), RcfError>(
            ((epoch + 1) as u64, (entries_seen + 1) as u64),
        ),
{
    let next_epoch = match epoch.checked_add(1) {
        Some(v) => v,
        None => {
            return Err(RcfError::overflow("FeatureSketch epoch overflow"));
        },
    };
    let next_entries = match entries_seen.checked_add(1) {
        Some(v) => v,
        None => {
            return Err(RcfError::overflow("FeatureSketch entries_seen overflow"));
        },
    };
    Ok((next_epoch, next_entries))
}

/// Accept only state written in the current format version.
pub fn validate_format_version(version: u32) -> (r: Result<()>)
    ensures
        version == FORMAT_VERSION ==> r is Ok,
        version != FORMAT_VERSION ==> (r matches Err(e) && e matches RcfError::InvalidArgument(m)
            && m@ == "invalid FeatureSketch JSON: unsupported format version"@),
{
    if version != FORMAT_VERSION {
        return Err(
            RcfError::invalid_argument("invalid FeatureSketch JSON: unsupported format version"),
        );
    }
    Ok(())
}

} // verus!
