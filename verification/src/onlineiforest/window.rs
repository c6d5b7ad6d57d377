use std::collections::VecDeque;

use vstd::arithmetic::power2::{lemma2_to64, lemma_pow2_unfold, pow2};
use vstd::prelude::*;

verus! {

/// The last `n` items of `s` (all of `s` when it is shorter).
pub open spec fn last_n<T>(s: Seq<T>, n: nat) -> Seq<T> {
    if s.len() <= n {
        s
    } else {
        s.subrange(s.len() - n, s.len() as int)
    }
}

/// The contents of a window of size `n` after `history` was pushed into an
/// empty window, one item at a time.
pub open spec fn window_after<T>(n: nat, history: Seq<T>) -> Seq<T>
    decreases history.len(),
{
    if history.len() == 0 {
        Seq::empty()
    } else {
        let before = window_after(n, history.drop_last());
        let pushed = before.push(history.last());
        if pushed.len() > n {
            pushed.drop_first()
        } else {
            pushed
        }
    }
}

/// The points of the stream that the detector still remembers: at most
/// `window_size` of them, oldest first.
#[derive(Clone, Debug)]
pub struct SlidingWindow<T> {
    items: VecDeque<T>,
    window_size: usize,
}

impl<T> SlidingWindow<T> {
    pub closed spec fn spec_items(&self) -> Seq<T> {
        self.items@
    }

    pub closed spec fn spec_window_size(&self) -> nat {
        self.window_size as nat
    }

    pub open spec fn wf(&self) -> bool {
        &&& self.spec_items().len() <= self.spec_window_size()
        &&& self.spec_window_size() < usize::MAX
    }

    /// An empty window that retains up to `window_size` items.
    pub fn new(window_size: usize) -> (w: Self)
        requires
            window_size < usize::MAX,
        ensures
            w.wf(),
            w.spec_items() == Seq::<T>::empty(),
            w.spec_window_size() == window_size,
    {
        SlidingWindow { items: VecDeque::with_capacity(window_size + 1), window_size }
    }

    /// Number of items retained.
    pub fn len(&self) -> (n: usize)
        ensures
            n == self.spec_items().len(),
    {
        self.items.len()
    }

    /// Maximum number of items retained.
    pub fn window_size(&self) -> (n: usize)
        ensures
            n == self.spec_window_size(),
    {
        self.window_size
    }

    /// The `i`-th retained item, oldest first.
    pub fn get(&self, i: usize) -> (r: &T)
        requires
            i < self.spec_items().len(),
        ensures
            *r == self.spec_items()[i as int],
    {
        &self.items[i]
    }

    /// Append `item`; once the window holds more than `window_size` items the
    /// oldest one is removed and returned.
    pub fn push(&mut self, item: T) -> (evicted: Option<T>)
        requires
            old(self).wf(),
        ensures
            final(self).wf(),
            final(self).spec_window_size() == old(self).spec_window_size(),
            final(self).spec_items() == last_n(
                old(self).spec_items().push(item),
                old(self).spec_window_size(),
            ),
            ({
                let pushed = old(self).spec_items().push(item);
                if pushed.len() > old(self).spec_window_size() {
                    evicted == Some(pushed[0]) && final(self).spec_items() == pushed.drop_first()
                } else {
                    evicted is None && final(self).spec_items() == pushed
                }
            }),
    {
        self.items.push_back(item);
        if self.items.len() > self.window_size {
            let front = self.items.pop_front();
            assert(self.items@ =~= old(self).items@.push(item).drop_first());
            front
        } else {
            None
        }
    }
}

/// A window of size `n` fed `history` from empty holds the last `n` items of
/// `history`, in arrival order.
pub proof fn lemma_window_keeps_latest<T>(n: nat, history: Seq<T>)
    ensures
        window_after(n, history) == last_n(history, n),
    decreases history.len(),
{
    if history.len() > 0 {
        lemma_window_keeps_latest(n, history.drop_last());
        let before = last_n(history.drop_last(), n);
        let pushed = before.push(history.last());
        if pushed.len() > n {
            assert(pushed.drop_first() =~= last_n(history, n));
        } else {
            assert(pushed =~= last_n(history, n));
        }
    }
}

/// `1 << (depth as u32)` saturated to `usize::MAX` when the shift is at
/// least `usize::BITS`, times `max_leaf_samples`, saturating.
pub open spec fn spec_split_threshold(max_leaf_samples: usize, depth: usize) -> nat {
    let shift = (depth as int) % 0x1_0000_0000;
    if shift < usize::BITS {
        if max_leaf_samples * pow2(shift as nat) > usize::MAX {
            usize::MAX as nat
        } else {
            (max_leaf_samples * pow2(shift as nat)) as nat
        }
    } else if max_leaf_samples == 0 {
        0
    } else {
        usize::MAX as nat
    }
}

/// Number of samples a leaf at `depth` must hold before it splits:
/// `max_leaf_samples * 2^depth`, saturating at `usize::MAX`.
pub fn split_threshold(max_leaf_samples: usize, depth: usize) -> (r: usize)
    ensures
        r == spec_split_threshold(max_leaf_samples, depth),
{
    let shift: u64 = (depth as u64) % 0x1_0000_0000u64;
    let bits: u64 = usize::BITS as u64;
    proof {
        lemma2_to64();
        vstd::arithmetic::power2::lemma2_to64_rest();
        assert(bits == 32 || bits == 64);
        if bits == 32 {
            assert(usize::MAX == 0xffff_ffff);
        } else {
            assert(usize::MAX == 0xffff_ffff_ffff_ffff);
        }
    }
    if shift >= bits {
        if max_leaf_samples == 0 {
            return 0;
        }
        return usize::MAX;
    }
    let mut p: usize = 1;
    let mut i: u64 = 0;
    while i < shift
        invariant
            shift < bits,
            bits == usize::BITS,
            i <= shift,
            p as nat == pow2(i as nat),
            pow2((bits - 1) as nat) <= usize::MAX,
        decreases shift - i,
    {
        proof {
            lemma_pow2_unfold((i + 1) as nat);
            if i + 1 < bits - 1 {
                vstd::arithmetic::power2::lemma_pow2_strictly_increases(
                    (i + 1) as nat,
                    (bits - 1) as nat,
                );
            }
        }
        p = p * 2;
        i = i + 1;
    }
    match max_leaf_samples.checked_mul(p) {
        Some(v) => v,
        None => usize::MAX,
    }
}

} // verus!
