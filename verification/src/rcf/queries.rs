use vstd::prelude::*;

use crate::decimal::push_decimal;
use crate::error::{RcfError, Result};
use crate::rcf::config::RcfConfig;

verus! {

/// Index of the first entry of `missing` that is not below `dim`, if any.
pub open spec fn first_out_of_range(missing: Seq<usize>, dim: nat) -> Option<int> {
    if exists|k: int| 0 <= k < missing.len() && missing[k] >= dim {
        Some(
            choose|k: int|
                0 <= k < missing.len() && missing[k] >= dim && forall|j: int|
                    0 <= j < k ==> missing[j] < dim,
        )
    } else {
        None
    }
}

proof fn lemma_first_out_of_range(missing: Seq<usize>, dim: nat, k: int)
    requires
        0 <= k < missing.len(),
        missing[k] >= dim,
        forall|j: int| 0 <= j < k ==> missing[j] < dim,
    ensures
        first_out_of_range(missing, dim) == Some(k),
{
    let w = choose|k2: int|
        0 <= k2 < missing.len() && missing[k2] >= dim && forall|j: int|
            0 <= j < k2 ==> missing[j] < dim;
    assert(0 <= w < missing.len() && missing[w] >= dim && forall|j: int|
        0 <= j < w ==> missing[j] < dim);
    if w < k {
        assert(missing[w] < dim);
    }
    if w > k {
        assert(missing[k] < dim);
    }
}

/// Set `flags[i]` for every index `i` listed in `missing`, clearing the
/// others. Fails with `IndexOutOfBounds` at the first index not below
/// `flags.len()`; the flags before it have then been set.
pub fn fill_missing_flags(missing: &[usize], flags: &mut Vec<bool>) -> (r: Result<()>)
    ensures
        final(flags)@.len() == old(flags)@.len(),
        match first_out_of_range(missing@, old(flags)@.len()) {
            None => {
                &&& r is Ok
                &&& forall|i: int|
                    0 <= i < final(flags)@.len() ==> #[trigger] final(flags)@[i]
                        == missing@.contains(i as usize)
            },
            Some(k) => {
                &&& r matches Err(e) && e matches RcfError::IndexOutOfBounds(i) && i
                    == missing@[k]
                &&& forall|i: int|
                    0 <= i < final(flags)@.len() ==> #[trigger] final(flags)@[i]
                        == missing@.subrange(0, k).contains(i as usize)
            },
        },
{
    let n = flags.len();
    let mut c: usize = 0;
    while c < n
        invariant
            n == flags@.len(),
            n == old(flags)@.len(),
            c <= n,
            forall|i: int| 0 <= i < c ==> !#[trigger] flags@[i],
        decreases n - c,
    {
        flags.set(c, false);
        c = c + 1;
    }
    let mut k: usize = 0;
    while k < missing.len()
        invariant
            n == flags@.len(),
            n == old(flags)@.len(),
            k <= missing@.len(),
            forall|j: int| 0 <= j < k ==> #[trigger] missing@[j] < n,
            forall|i: int|
                0 <= i < n ==> #[trigger] flags@[i] == missing@.subrange(0, k as int).contains(
                    i as usize,
                ),
        decreases missing.len() - k,
    {
        let i = missing[k];
        if i >= n {
            proof {
                lemma_first_out_of_range(missing@, n as nat, k as int);
            }
            return Err(RcfError::IndexOutOfBounds(i));
        }
        let ghost before = flags@;
        flags.set(i, true);
        proof {
            assert forall|x: int| 0 <= x < n implies #[trigger] flags@[x] == missing@.subrange(
                0,
                k + 1,
            ).contains(x as usize) by {
                let pre = missing@.subrange(0, k as int);
                let post = missing@.subrange(0, k + 1);
                assert(post =~= pre.push(i));
                if x == i {
                    assert(post[k as int] == i);
                } else {
                    assert(flags@[x] == before[x]);
                }
                if post.contains(x as usize) && x != i {
                    let j = choose|j: int| 0 <= j < post.len() && post[j] == x as usize;
                    assert(pre[j] == x as usize);
                }
                if pre.contains(x as usize) {
                    let j = choose|j: int| 0 <= j < pre.len() && pre[j] == x as usize;
                    assert(post[j] == x as usize);
                }
            }
        }
        k = k + 1;
    }
    proof {
        assert(missing@.subrange(0, missing@.len() as int) =~= missing@);
        assert(!(exists|j: int| 0 <= j < missing@.len() && missing@[j] >= n));
    }
    Ok(())
}

/// Flags of length `dim` marking the indices listed in `missing`; fails
/// with `IndexOutOfBounds` at the first index not below `dim`.
pub fn make_missing_flags(missing: &[usize], dim: usize) -> (r: Result<Vec<bool>>)
    ensures
        match first_out_of_range(missing@, dim as nat) {
            None => r matches Ok(flags) && flags@.len() == dim && forall|i: int|
                0 <= i < dim ==> #[trigger] flags@[i] == missing@.contains(i as usize),
            Some(k) => r matches Err(e) && e matches RcfError::IndexOutOfBounds(i) && i
                == missing@[k],
        },
{
    let mut flags: Vec<bool> = Vec::new();
    let mut c: usize = 0;
    while c < dim
        invariant
            c <= dim,
            flags@.len() == c,
        decreases dim - c,
    {
        flags.push(false);
        c = c + 1;
    }
    fill_missing_flags(missing, &mut flags)?;
    Ok(flags)
}

/// Check an imputation request: `missing` must list at least one index,
/// `query` must have `dim` values, and every missing index must be below
/// `dim`. Returns the missing-index flags.
pub fn validate_impute(query_len: usize, missing: &[usize], dim: usize) -> (r: Result<Vec<bool>>)
    ensures
        missing@.len() == 0 ==> (r matches Err(e) && e matches RcfError::InvalidArgument(m) && m@
            == "missing list is empty"@),
        missing@.len() > 0 && query_len != dim ==> (r matches Err(e)
            && e matches RcfError::DimensionMismatch { expected, got } && expected == dim && got
            == query_len),
        missing@.len() > 0 && query_len == dim ==> match first_out_of_range(missing@, dim as nat) {
            None => r matches Ok(flags) && flags@.len() == dim && forall|i: int|
                0 <= i < dim ==> #[trigger] flags@[i] == missing@.contains(i as usize),
            Some(k) => r matches Err(e) && e matches RcfError::IndexOutOfBounds(i) && i
                == missing@[k],
        },
{
    if missing.len() == 0 {
        return Err(RcfError::invalid_argument("missing list is empty"));
    }
    if query_len != dim {
        return Err(RcfError::DimensionMismatch { expected: dim, got: query_len });
    }
    make_missing_flags(missing, dim)
}

/// The message with which a `look_ahead` beyond the shingle is refused,
/// naming both values.
pub open spec fn look_ahead_rejection(look_ahead: usize, shingle_size: usize) -> Seq<char> {
    "extrapolation requires look_ahead <= shingle_size (got "@ + crate::decimal::decimal(
        look_ahead as nat,
    ) + ", shingle_size="@ + crate::decimal::decimal(shingle_size as nat) + ")"@
}

/// Check an extrapolation request against the configuration and return
/// the number of base observations to predict.
///
/// Extrapolation needs internal shingling, a shingle of at least two
/// observations and `look_ahead <= shingle_size`; a zero `look_ahead`
/// predicts nothing.
pub fn validate_extrapolation(config: &RcfConfig, look_ahead: usize) -> (r: Result<usize>)
    ensures
        !config.internal_shingling ==> (r matches Err(e) && e matches RcfError::InvalidArgument(m)
            && m@ == "extrapolation requires internal_shingling = true"@),
        config.internal_shingling && config.shingle_size <= 1 ==> (r matches Err(e)
            && e matches RcfError::InvalidArgument(m) && m@
            == "extrapolation requires shingle_size > 1"@),
        config.internal_shingling && config.shingle_size > 1 && look_ahead == 0 ==> r == Ok::<
            usize,
            RcfError,
        >(0),
        config.internal_shingling && config.shingle_size > 1 && look_ahead > 0 ==> {
            if look_ahead > config.shingle_size {
                r matches Err(e) && e matches RcfError::InvalidArgument(m) && m@
                    == look_ahead_rejection(look_ahead, config.shingle_size)
            } else {
                r == Ok::<usize, RcfError>(look_ahead)
            }
        },
{
    if !config.internal_shingling {
        return Err(
            RcfError::invalid_argument("extrapolation requires internal_shingling = true"),
        );
    }
    if config.shingle_size <= 1 {
        return Err(RcfError::invalid_argument("extrapolation requires shingle_size > 1"));
    }
    if look_ahead == 0 {
        return Ok(0);
    }
    if look_ahead > config.shingle_size {
        let mut m = "extrapolation requires look_ahead <= shingle_size (got ".to_owned();
        push_decimal(&mut m, look_ahead as u64);
        m.append(", shingle_size=");
        push_decimal(&mut m, config.shingle_size as u64);
        m.append(")");
        return Err(RcfError::InvalidArgument(m));
    }
    Ok(look_ahead)
}

/// Check the length of an update input: one base observation of
/// `input_dim` values with internal shingling, otherwise a full point of
/// `input_dim * shingle_size` values.
pub fn validate_update_input(config: &RcfConfig, base_len: usize) -> (r: Result<()>)
    requires
        config.input_dim * config.shingle_size <= usize::MAX,
    ensures
        ({
            let expected = if config.internal_shingling {
                config.input_dim as int
            } else {
                config.input_dim * config.shingle_size
            };
            &&& r is Ok <==> base_len == expected
            &&& r matches Err(e) ==> e matches RcfError::DimensionMismatch { expected: x, got }
                && x == expected && got == base_len
        }),
{
    let expected = if config.internal_shingling {
        config.input_dim
    } else {
        config.dim()
    };
    if base_len != expected {
        return Err(RcfError::DimensionMismatch { expected, got: base_len });
    }
    Ok(())
}

/// Turn a query into a full-dimensional point.
///
/// With internal shingling a base observation (`input_dim` values) replaces
/// the newest slot of the current shingle; a query of `full_dim` values is
/// used as given; any other length fails with `DimensionMismatch`.
pub fn prepare_query<T: Copy>(
    shingle: &[T],
    query: &[T],
    input_dim: usize,
    full_dim: usize,
    internal_shingling: bool,
) -> (r: Result<Vec<T>>)
    requires
        shingle@.len() == full_dim,
        input_dim <= full_dim,
    ensures
        query@.len() == input_dim && internal_shingling ==> r == Ok::<Vec<T>, RcfError>(r->Ok_0)
            && r->Ok_0@ == shingle@.subrange(0, full_dim - input_dim) + query@,
        !(query@.len() == input_dim && internal_shingling) && query@.len() == full_dim ==> r
            is Ok && r->Ok_0@ == query@,
        !(query@.len() == input_dim && internal_shingling) && query@.len() != full_dim ==> (r
            matches Err(e) && e matches RcfError::DimensionMismatch { expected, got } && expected
            == full_dim && got == query@.len()),
{
    if query.len() == input_dim && internal_shingling {
        let start = full_dim - input_dim;
        let mut buf: Vec<T> = Vec::new();
        let mut i: usize = 0;
        while i < start
            invariant
                start == full_dim - input_dim,
                shingle@.len() == full_dim,
                i <= start,
                buf@ == shingle@.subrange(0, i as int),
            decreases start - i,
        {
            buf.push(shingle[i]);
            i = i + 1;
            assert(buf@ =~= shingle@.subrange(0, i as int));
        }
        let mut j: usize = 0;
        while j < input_dim
            invariant
                query@.len() == input_dim,
                j <= input_dim,
                buf@ == shingle@.subrange(0, start as int) + query@.subrange(0, j as int),
            decreases input_dim - j,
        {
            buf.push(query[j]);
            j = j + 1;
            assert(buf@ =~= shingle@.subrange(0, start as int) + query@.subrange(0, j as int));
        }
        assert(query@.subrange(0, input_dim as int) =~= query@);
        Ok(buf)
    } else if query.len() == full_dim {
        Ok(crate::rcf::point_store::copy_slice(query))
    } else {
        Err(RcfError::DimensionMismatch { expected: full_dim, got: query.len() })
    }
}

} // verus!
