use rand::rngs::Xoshiro256PlusPlus;
use vstd::arithmetic::div_mod::lemma_mod_bound;
use vstd::arithmetic::power2::{lemma_pow2_unfold, pow2};
use vstd::prelude::*;

use crate::error::{RcfError, Result};
use crate::outside::{array_contents, array_from_vec, array_get, array_to_vec, hash_with_seeds, CoefficientArray};
use crate::seeding::draw_seeds;

verus! {

/// Number of bits needed to name `value` buckets: the least `b` with
/// `2^b >= value`. Fails with `InvalidArgument` below two buckets.
pub fn ceil_log2(value: usize) -> (r: Result<usize>)
    ensures
        value < 2 ==> (r matches Err(e) && e matches RcfError::InvalidArgument(m)
            && m@ == "num_buckets must be >= 2"@),
        value >= 2 ==> (r matches Ok(b) && b >= 1 && pow2((b - 1) as nat) < value <= pow2(b as nat)),
{
    if value < 2 {
        return Err(RcfError::invalid_argument("num_buckets must be >= 2"));
    }
    let target = value - 1;
    let mut x = target;
    let mut b: usize = 0;
    proof {
        vstd::arithmetic::power2::lemma2_to64();
    }
    while x > 0
        invariant
            target >= 1,
            b <= 64,
            x as int == target as int / pow2(b as nat) as int,
            b > 0 ==> pow2((b - 1) as nat) <= target,
            pow2(b as nat) > 0,
            target < pow2(64),
        decreases x,
    {
        proof {
            lemma_pow2_unfold((b + 1) as nat);
            vstd::arithmetic::div_mod::lemma_div_denominator(
                target as int,
                pow2(b as nat) as int,
                2,
            );
            assert(pow2(b as nat) <= target) by {
                vstd::arithmetic::div_mod::lemma_div_is_ordered_by_denominator(
                    target as int,
                    1,
                    pow2(b as nat) as int,
                );
                if pow2(b as nat) > target {
                    vstd::arithmetic::div_mod::lemma_basic_div(
                        target as int,
                        pow2(b as nat) as int,
                    );
                }
            }
            if b >= 64 {
                vstd::arithmetic::power2::lemma2_to64_rest();
                if b > 64 {
                    vstd::arithmetic::power2::lemma_pow2_strictly_increases(64, b as nat);
                }
            }
        }
        x = x / 2;
        b = b + 1;
    }
    proof {
        assert(target < pow2(b as nat)) by {
            if target >= pow2(b as nat) {
                vstd::arithmetic::div_mod::lemma_div_is_ordered(
                    pow2(b as nat) as int,
                    target as int,
                    pow2(b as nat) as int,
                );
                vstd::arithmetic::div_mod::lemma_div_by_self(pow2(b as nat) as int);
            }
        }
    }
    Ok(b)
}

/// `(lhs + rhs) % num_buckets`, computed without overflowing.
pub fn modular_bucket_sum(lhs: usize, rhs: usize, num_buckets: usize) -> (r: usize)
    requires
        num_buckets > 0,
    ensures
        r == (lhs + rhs) % (num_buckets as int),
{
    let s: u128 = lhs as u128 + rhs as u128;
    let m: u128 = s % (num_buckets as u128);
    m as usize
}

/// Sum of `s`.
pub open spec fn sum_u64(s: Seq<u64>) -> int
    decreases s.len(),
{
    if s.len() == 0 {
        0
    } else {
        sum_u64(s.drop_last()) + s.last()
    }
}

/// Fold `hashes` into one bucket: `(sum of hashes) % num_buckets`, reducing
/// after every addition.
pub fn bucket_from_hashes(hashes: &[u64], num_buckets: usize) -> (r: usize)
    requires
        num_buckets > 0,
    ensures
        r == sum_u64(hashes@) % (num_buckets as int),
        r < num_buckets,
{
    let nb: u128 = num_buckets as u128;
    let mut resid: u128 = 0;
    let mut i: usize = 0;
    proof {
        assert(hashes@.subrange(0, 0) =~= Seq::<u64>::empty());
        vstd::arithmetic::div_mod::lemma_small_mod(0, nb as nat);
    }
    while i < hashes.len()
        invariant
            nb == num_buckets,
            nb > 0,
            i <= hashes@.len(),
            resid < nb,
            resid == sum_u64(hashes@.subrange(0, i as int)) % (nb as int),
        decreases hashes.len() - i,
    {
        proof {
            let pre = hashes@.subrange(0, i as int);
            let post = hashes@.subrange(0, i + 1);
            assert(post.drop_last() =~= pre);
            vstd::arithmetic::div_mod::lemma_add_mod_noop_right(
                hashes@[i as int] as int,
                sum_u64(pre),
                nb as int,
            );
            lemma_mod_bound(resid as int + hashes@[i as int] as int, nb as int);
        }
        resid = (resid + hashes[i] as u128) % nb;
        i = i + 1;
    }
    proof {
        assert(hashes@.subrange(0, hashes@.len() as int) =~= hashes@);
    }
    resid as usize
}

/// The bucket that hash `h` falls into among `n`: `h % n`.
pub fn bucket_of_hash(h: u64, n: usize) -> (b: usize)
    requires
        n > 0,
    ensures
        b == (h as int) % (n as int),
        b < n,
{
    (h % (n as u64)) as usize
}

/// Hash the categorical values of a record for one sketch row: each column
/// is hashed with its own seeds and the hashes are summed modulo
/// `num_buckets`. Only the first `min(coeffs_row.len(), categorical.len())`
/// columns take part: the bucket is [`bucket_from_hashes`] of their hashes.
/// The hash values are not stated (they come from `ahash`, whose output
/// differs between machines), so the bucket is known exactly only when no
/// column takes part (0).
pub fn categorical_hash_resid(coeffs_row: &[i64], categorical: &[i64], row: usize, num_buckets: usize) -> (r: usize)
    requires
        num_buckets > 0,
    ensures
        r < num_buckets,
        coeffs_row@.len() == 0 || categorical@.len() == 0 ==> r == 0,
        exists|hs: Seq<u64>|
            hs.len() == (if coeffs_row@.len() < categorical@.len() {
                coeffs_row@.len()
            } else {
                categorical@.len()
            }) && r == #[trigger] sum_u64(hs) % (num_buckets as int),
{
    let mut hashes: Vec<u64> = Vec::new();
    let mut col: usize = 0;
    while col < categorical.len() && col < coeffs_row.len()
        invariant
            hashes@.len() == col,
            col <= categorical@.len(),
            col <= coeffs_row@.len(),
            coeffs_row@.len() == 0 || categorical@.len() == 0 ==> col == 0,
        decreases categorical.len() - col,
    {
        let h = hash_with_seeds(
            coeffs_row[col] as u64,
            row as u64,
            col as u64,
            num_buckets as u64,
            categorical[col],
        );
        hashes.push(h);
        col = col + 1;
    }
    proof {
        if coeffs_row@.len() == 0 || categorical@.len() == 0 {
            assert(hashes@ =~= Seq::<u64>::empty());
            assert(sum_u64(hashes@) == 0);
            vstd::arithmetic::div_mod::lemma_small_mod(0, num_buckets as nat);
        }
    }
    bucket_from_hashes(hashes.as_slice(), num_buckets)
}

/// Value of the bit pattern that has bit `i` set exactly when `signs[i]`.
pub open spec fn bits_value(signs: Seq<bool>) -> nat
    decreases signs.len(),
{
    if signs.len() == 0 {
        0
    } else {
        bits_value(signs.drop_last()) + if signs.last() {
            pow2((signs.len() - 1) as nat)
        } else {
            0
        }
    }
}

proof fn lemma_bits_value_bound(signs: Seq<bool>)
    ensures
        bits_value(signs) < pow2(signs.len()),
    decreases signs.len(),
{
    if signs.len() > 0 {
        lemma_bits_value_bound(signs.drop_last());
        lemma_pow2_unfold(signs.len());
    } else {
        vstd::arithmetic::power2::lemma2_to64();
    }
}

/// Pack the hyperplane signs of a record into a bucket number: bit `i` is
/// set when the record lies strictly on the positive side of plane `i`.
pub fn hash_bits_from_signs(signs: &[bool]) -> (r: usize)
    requires
        signs@.len() <= usize::BITS,
    ensures
        r == bits_value(signs@),
{
    proof {
        vstd::arithmetic::power2::lemma2_to64();
        vstd::arithmetic::power2::lemma2_to64_rest();
        if usize::BITS == 32 {
            assert(usize::MAX == 0xffff_ffff);
        } else {
            assert(usize::MAX == 0xffff_ffff_ffff_ffff);
        }
    }
    let mut bits: usize = 0;
    let mut p: usize = 1;
    let mut i: usize = 0;
    while i < signs.len()
        invariant
            signs@.len() <= usize::BITS,
            usize::MAX == pow2(usize::BITS as nat) - 1,
            i <= signs@.len(),
            i < signs@.len() ==> p == pow2(i as nat),
            bits == bits_value(signs@.subrange(0, i as int)),
        decreases signs.len() - i,
    {
        proof {
            let pre = signs@.subrange(0, i as int);
            assert(signs@.subrange(0, i + 1).drop_last() =~= pre);
            lemma_bits_value_bound(pre);
            lemma_pow2_unfold((i + 1) as nat);
            if i + 1 < usize::BITS {
                vstd::arithmetic::power2::lemma_pow2_strictly_increases(
                    (i + 1) as nat,
                    usize::BITS as nat,
                );
            }
        }
        if signs[i] {
            bits = bits + p;
        }
        if i + 1 < signs.len() {
            p = p * 2;
        }
        i = i + 1;
    }
    proof {
        assert(signs@.subrange(0, signs@.len() as int) =~= signs@);
    }
    bits
}

/// The hash coefficients of a categorical sketch row: `hash_a` in
/// `[1, num_buckets - 1]` and `hash_b` in `[0, num_buckets - 1]`, drawn from
/// `rng` (all `hash_a` values first, then all `hash_b` values).
#[derive(Clone, Debug)]
pub struct CategoricalHasher {
    num_rows: usize,
    num_buckets: usize,
    hash_a: CoefficientArray,
    hash_b: CoefficientArray,
}

impl CategoricalHasher {
    pub closed spec fn spec_num_rows(&self) -> nat {
        self.num_rows as nat
    }

    pub closed spec fn spec_num_buckets(&self) -> nat {
        self.num_buckets as nat
    }

    pub closed spec fn spec_hash_a(&self) -> Seq<i64> {
        array_contents(self.hash_a)
    }

    pub closed spec fn spec_hash_b(&self) -> Seq<i64> {
        array_contents(self.hash_b)
    }

    pub closed spec fn wf(&self) -> bool {
        &&& self.num_buckets >= 2
        &&& self.spec_hash_a().len() == self.num_rows
        &&& self.spec_hash_b().len() == self.num_rows
    }

    /// Draw the coefficients of `num_rows` rows from `rng`.
    pub fn new(num_rows: usize, num_buckets: usize, rng: &mut Xoshiro256PlusPlus) -> (h: Self)
        requires
            num_buckets >= 2,
        ensures
            h.wf(),
            h.spec_num_rows() == num_rows,
            h.spec_num_buckets() == num_buckets,
            num_buckets <= i64::MAX ==> forall|i: int|
                0 <= i < num_rows ==> 1 <= #[trigger] h.spec_hash_a()[i] < num_buckets,
            num_buckets <= i64::MAX ==> forall|i: int|
                0 <= i < num_rows ==> 0 <= #[trigger] h.spec_hash_b()[i] < num_buckets,
    {
        let hash_a = array_from_vec(draw_coefficients(num_rows, num_buckets, true, rng));
        let hash_b = array_from_vec(draw_coefficients(num_rows, num_buckets, false, rng));
        CategoricalHasher { num_rows, num_buckets, hash_a, hash_b }
    }

    /// Rebuild a hasher from stored coefficients.
    pub fn from_parts(num_buckets: usize, hash_a: Vec<i64>, hash_b: Vec<i64>) -> (r: Option<Self>)
        ensures
            r is Some <==> num_buckets >= 2 && hash_a@.len() == hash_b@.len(),
            r matches Some(h) ==> h.wf() && h.spec_hash_a() == hash_a@ && h.spec_hash_b()
                == hash_b@ && h.spec_num_buckets() == num_buckets && h.spec_num_rows()
                == hash_a@.len(),
    {
        if num_buckets < 2 || hash_a.len() != hash_b.len() {
            return None;
        }
        let num_rows = hash_a.len();
        Some(
            CategoricalHasher {
                num_rows,
                num_buckets,
                hash_a: array_from_vec(hash_a),
                hash_b: array_from_vec(hash_b),
            },
        )
    }

    pub fn num_rows(&self) -> (n: usize)
        ensures
            n == self.spec_num_rows(),
    {
        self.num_rows
    }

    pub fn num_buckets(&self) -> (n: usize)
        ensures
            n == self.spec_num_buckets(),
    {
        self.num_buckets
    }

    pub fn hash_a(&self) -> (s: Vec<i64>)
        ensures
            s@ == self.spec_hash_a(),
    {
        array_to_vec(&self.hash_a)
    }

    pub fn hash_b(&self) -> (s: Vec<i64>)
        ensures
            s@ == self.spec_hash_b(),
    {
        array_to_vec(&self.hash_b)
    }

    /// Bucket of `value` in sketch row `row`: [`bucket_of_hash`] of the row's
    /// keyed hash of `value`. The hash value is not stated (it comes from
    /// `ahash`, whose output differs between machines), so only the bucket's
    /// range is.
    pub fn hash(&self, value: i64, row: usize) -> (bucket: usize)
        requires
            self.wf(),
            row < self.spec_num_rows(),
        ensures
            bucket < self.spec_num_buckets(),
    {
        let h = hash_with_seeds(
            array_get(&self.hash_a, row) as u64,
            array_get(&self.hash_b, row) as u64,
            row as u64,
            self.num_buckets as u64,
            value,
        );
        bucket_of_hash(h, self.num_buckets)
    }

    /// Bucket of `value` in every sketch row, in row order.
    pub fn buckets(&self, value: i64) -> (b: Vec<usize>)
        requires
            self.wf(),
        ensures
            b@.len() == self.spec_num_rows(),
            forall|i: int| 0 <= i < b@.len() ==> #[trigger] b@[i] < self.spec_num_buckets(),
    {
        let mut out: Vec<usize> = Vec::new();
        let mut row: usize = 0;
        while row < self.num_rows
            invariant
                self.wf(),
                row <= self.num_rows,
                out@.len() == row,
                forall|i: int| 0 <= i < out@.len() ==> #[trigger] out@[i] < self.num_buckets,
            decreases self.num_rows - row,
        {
            out.push(self.hash(value, row));
            row = row + 1;
        }
        out
    }
}

/// The hash coefficient made from draw `x`: `x % (num_buckets - 1) + 1`
/// when it must be nonzero, else `x % num_buckets`.
pub open spec fn coefficient_value(x: u64, num_buckets: usize, nonzero: bool) -> int {
    if nonzero {
        (x as int) % ((num_buckets - 1) as int) + 1
    } else {
        (x as int) % (num_buckets as int)
    }
}

/// The coefficient made from draw `x`, stored as `i64`.
pub fn coefficient_from_draw(x: u64, num_buckets: usize, nonzero: bool) -> (c: i64)
    requires
        num_buckets >= 2,
    ensures
        c == coefficient_value(x, num_buckets, nonzero) as i64,
        num_buckets <= i64::MAX ==> (if nonzero { 1int } else { 0int }) <= c < num_buckets,
{
    let nb = num_buckets as u64;
    let v: u64 = if nonzero {
        x % (nb - 1) + 1
    } else {
        x % nb
    };
    v as i64
}

/// The coefficients made from `draws`, one each, all nonzero or not.
pub fn coefficients_from_draws(draws: &[u64], num_buckets: usize, nonzero: bool) -> (v: Vec<i64>)
    requires
        num_buckets >= 2,
    ensures
        v@.len() == draws@.len(),
        forall|i: int| 0 <= i < draws@.len() ==> #[trigger] v@[i] == coefficient_value(draws@[i], num_buckets, nonzero) as i64,
{
    let mut v: Vec<i64> = Vec::new();
    let mut i: usize = 0;
    while i < draws.len()
        invariant
            num_buckets >= 2,
            i <= draws@.len(),
            v@.len() == i,
            forall|j: int| 0 <= j < i ==> #[trigger] v@[j] == coefficient_value(draws@[j], num_buckets, nonzero) as i64,
        decreases draws.len() - i,
    {
        v.push(coefficient_from_draw(draws[i], num_buckets, nonzero));
        i = i + 1;
    }
    v
}

/// `n` coefficients drawn from `rng`, one draw each (see
/// [`coefficients_from_draws`]). The draws themselves are not stated: they
/// depend on the generator's hidden state.
pub fn draw_coefficients(n: usize, num_buckets: usize, nonzero: bool, rng: &mut Xoshiro256PlusPlus) -> (v: Vec<i64>)
    requires
        num_buckets >= 2,
    ensures
        v@.len() == n,
        exists|d: Seq<u64>|
            d.len() == n && forall|i: int| 0 <= i < n ==> #[trigger] v@[i] == coefficient_value(d[i], num_buckets, nonzero) as i64,
        num_buckets <= i64::MAX ==> forall|i: int|
            0 <= i < n ==> (if nonzero { 1int } else { 0int }) <= #[trigger] v@[i] < num_buckets,
{
    let draws = draw_seeds(n, rng);
    let v = coefficients_from_draws(draws.as_slice(), num_buckets, nonzero);
    proof {
        assert forall|i: int| 0 <= i < n && num_buckets <= i64::MAX implies (if nonzero { 1int } else { 0int }) <= #[trigger] v@[i] < num_buckets by {
            lemma_coefficient_range(draws@[i], num_buckets, nonzero);
        }
    }
    v
}

/// A coefficient lies below the bucket count, and is positive when it must
/// be nonzero.
proof fn lemma_coefficient_range(x: u64, num_buckets: usize, nonzero: bool)
    requires
        2 <= num_buckets <= i64::MAX,
    ensures
        (if nonzero { 1int } else { 0int }) <= (coefficient_value(x, num_buckets, nonzero) as i64) < num_buckets,
{
    let c = coefficient_value(x, num_buckets, nonzero);
    assert(0 <= c < num_buckets);
    assert(c as i64 == c);
}

/// Row `row` of record coefficients is made from `draws`, one each: every
/// column but the last takes a nonzero coefficient.
pub open spec fn record_row_made(row: Seq<i64>, draws: Seq<u64>, num_buckets: usize) -> bool {
    &&& row.len() == draws.len()
    &&& forall|c: int|
        0 <= c < draws.len() ==> #[trigger] row[c] == coefficient_value(
            draws[c],
            num_buckets,
            c + 1 < draws.len(),
        ) as i64
}

/// Row `row` of record coefficients is made from some draws, one each (see
/// [`record_row_made`]).
pub open spec fn record_row_drawn(row: Seq<i64>, num_buckets: usize) -> bool {
    exists|d: Seq<u64>| #[trigger] record_row_made(row, d, num_buckets)
}

/// One row of record coefficients made from `draws`: every column but the
/// last takes a nonzero coefficient.
pub fn record_row_from_draws(draws: &[u64], num_buckets: usize) -> (row: Vec<i64>)
    requires
        num_buckets >= 2,
    ensures
        record_row_made(row@, draws@, num_buckets),
{
    let mut row: Vec<i64> = Vec::new();
    let mut c: usize = 0;
    while c < draws.len()
        invariant
            num_buckets >= 2,
            c <= draws@.len(),
            row@.len() == c,
            forall|j: int|
                0 <= j < c ==> #[trigger] row@[j] == coefficient_value(
                    draws@[j],
                    num_buckets,
                    j + 1 < draws@.len(),
                ) as i64,
        decreases draws.len() - c,
    {
        row.push(coefficient_from_draw(draws[c], num_buckets, c + 1 < draws.len()));
        c = c + 1;
    }
    row
}

/// The categorical coefficients of a record sketch, one row after the
/// other, each row made from its own `categorical_dim` draws (see
/// [`record_row_from_draws`]). The draws themselves are not stated: they
/// depend on the generator's hidden state.
pub fn draw_record_coefficients(
    num_rows: usize,
    categorical_dim: usize,
    num_buckets: usize,
    rng: &mut Xoshiro256PlusPlus,
) -> (rows: Vec<Vec<i64>>)
    requires
        num_buckets >= 2,
    ensures
        rows@.len() == num_rows,
        forall|r: int| 0 <= r < num_rows ==> (#[trigger] rows@[r])@.len() == categorical_dim,
        forall|k: int| 0 <= k < num_rows ==> #[trigger] record_row_drawn(rows@[k]@, num_buckets),
        num_buckets <= i64::MAX ==> forall|r: int, c: int|
            0 <= r < num_rows && 0 <= c < categorical_dim ==> {
                &&& 0 <= #[trigger] rows@[r]@[c] < num_buckets
                &&& c + 1 < categorical_dim ==> 1 <= rows@[r]@[c]
            },
{
    let mut rows: Vec<Vec<i64>> = Vec::new();
    let ghost mut all_draws: Seq<Seq<u64>> = Seq::empty();
    let mut r: usize = 0;
    while r < num_rows
        invariant
            num_buckets >= 2,
            r <= num_rows,
            rows@.len() == r,
            forall|k: int| 0 <= k < r ==> (#[trigger] rows@[k])@.len() == categorical_dim,
            all_draws.len() == r,
            forall|k: int| 0 <= k < r ==> #[trigger] record_row_made(rows@[k]@, all_draws[k], num_buckets),
            num_buckets <= i64::MAX ==> forall|k: int, c: int|
                0 <= k < r && 0 <= c < categorical_dim ==> {
                    &&& 0 <= #[trigger] rows@[k]@[c] < num_buckets
                    &&& c + 1 < categorical_dim ==> 1 <= rows@[k]@[c]
                },
        decreases num_rows - r,
    {
        let draws = draw_seeds(categorical_dim, rng);
        let row = record_row_from_draws(draws.as_slice(), num_buckets);
        proof {
            if num_buckets <= i64::MAX {
                assert forall|c: int| 0 <= c < categorical_dim implies {
                    &&& 0 <= #[trigger] row@[c] < num_buckets
                    &&& c + 1 < categorical_dim ==> 1 <= row@[c]
                } by {
                    lemma_coefficient_range(draws@[c], num_buckets, c + 1 < categorical_dim);
                }
            }
        }
        let ghost old_rows = rows@;
        rows.push(row);
        proof {
            assert(rows@[r as int] == row);
            assert forall|k: int| 0 <= k < r implies rows@[k] == old_rows[k] by {}
            all_draws = all_draws.push(draws@);
        }
        r = r + 1;
    }
    proof {
        assert forall|k: int| 0 <= k < num_rows implies #[trigger] record_row_drawn(rows@[k]@, num_buckets) by {
            assert(record_row_made(rows@[k]@, all_draws[k], num_buckets));
        }
    }
    rows
}

/// Bucket of a record in one sketch row: the hyperplane bits of its
/// numerical part plus the hash of its categorical part, modulo
/// `num_buckets`. A record with no categorical aspects contributes 0.
pub fn record_bucket(
    numeric_bits: usize,
    coeffs_row: &[i64],
    categorical: &[i64],
    row: usize,
    num_buckets: usize,
) -> (r: usize)
    requires
        num_buckets > 0,
    ensures
        r < num_buckets,
        coeffs_row@.len() == 0 ==> r == (numeric_bits as int) % (num_buckets as int),
        coeffs_row@.len() > 0 ==> exists|hs: Seq<u64>|
            hs.len() == (if coeffs_row@.len() < categorical@.len() {
                coeffs_row@.len()
            } else {
                categorical@.len()
            }) && r == (numeric_bits + #[trigger] sum_u64(hs) % (num_buckets as int)) % (
            num_buckets as int),
{
    let cat = if coeffs_row.len() == 0 {
        0
    } else {
        categorical_hash_resid(coeffs_row, categorical, row, num_buckets)
    };
    modular_bucket_sum(numeric_bits, cat, num_buckets)
}

} // verus!
