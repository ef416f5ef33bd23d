//! `QuickSelect`: the `TopK` capability by randomized quickselect.
use vstd::prelude::*;
use vstd::seq_lib::{lemma_multiset_commutative, to_multiset_update};

use crate::{is_top_k, ranks_split, selected_len, Ranked, TopK, TopKErr};

verus! {

/// Relies on rand's `thread_rng` and `Rng::gen_range` over the inclusive range
/// `lo..=hi`: the index drawn lies within the bounds. `gen_range` panics only on
/// an empty range, which `requires` leaves out.
#[verifier::external_body]
fn random_index(lo: usize, hi: usize) -> (r: usize)
    requires
        lo <= hi,
    ensures
        lo <= r <= hi,
{
    rand::Rng::gen_range(&mut rand::thread_rng(), lo..=hi)
}

/// Swapping two positions keeps the multiset of a sequence.
proof fn lemma_swap_multiset<A>(s: Seq<A>, i: int, j: int)
    requires
        0 <= i < s.len(),
        0 <= j < s.len(),
    ensures
        s.update(i, s[j]).update(j, s[i]).to_multiset() == s.to_multiset(),
{
    broadcast use vstd::multiset::group_multiset_axioms;

    broadcast use vstd::seq_lib::to_multiset_contains;

    let t = s.update(i, s[j]);
    to_multiset_update(s, i, s[j]);
    to_multiset_update(t, j, s[i]);
    if i == j {
        assert(t.update(j, s[i]) =~= s);
    } else {
        assert(t[j] == s[j]);
        assert(s.contains(s[i]));
        let m0 = s.to_multiset();
        let m1 = m0.insert(s[j]);
        assert(m1.count(s[i]) > 0);
        assert(m1.remove(s[i]).insert(s[i]) =~= m1);
        assert(m1.remove(s[j]) =~= m0);
    }
}

/// When every item before `n - m` ranks at or below every item from there on, the
/// last `m` items are a valid top-`m` of the sequence.
pub proof fn lemma_suffix_is_top_k<I: Ranked>(p: Seq<I>, m: nat)
    requires
        m <= p.len(),
        ranks_split(p, p.len() - m),
    ensures
        is_top_k(p, p.subrange(p.len() - m, p.len() as int), m),
{
    broadcast use vstd::multiset::group_multiset_axioms;
    broadcast use vstd::seq_lib::to_multiset_contains;

    let n = p.len() as int;
    let at = n - m;
    let pre = p.subrange(0, at);
    let suf = p.subrange(at, n);
    assert(p == pre + suf);
    lemma_multiset_commutative(pre, suf);
    assert(p.to_multiset().sub(suf.to_multiset()) =~= pre.to_multiset());
    assert forall|x: I, y: I|
        #![trigger suf.to_multiset().count(x), p.to_multiset().sub(suf.to_multiset()).count(y)]
        suf.to_multiset().count(x) > 0 && p.to_multiset().sub(suf.to_multiset()).count(y) > 0
            implies y.rank_of() <= x.rank_of() by {
        assert(suf.contains(x));
        assert(pre.contains(y));
        let b = choose|b: int| 0 <= b < suf.len() && suf[b] == x;
        let a = choose|a: int| 0 <= a < pre.len() && pre[a] == y;
        assert(p[a] == y);
        assert(p[at + b] == x);
    }
}

/// A valid top-`k` depends on the items only through their multiset.
pub proof fn lemma_top_k_of_permutation<I: Ranked>(s: Seq<I>, p: Seq<I>, r: Seq<I>, k: nat)
    requires
        s.to_multiset() == p.to_multiset(),
        is_top_k(p, r, k),
    ensures
        is_top_k(s, r, k),
{
    vstd::seq_lib::to_multiset_len(s);
    vstd::seq_lib::to_multiset_len(p);
    assert(s.len() == p.len());
    assert(s.to_multiset().sub(r.to_multiset()) == p.to_multiset().sub(r.to_multiset()));
}

/// Top-`k` selection by randomized quickselect over an owned buffer.
pub struct QuickSelect<I: Ranked> {
    items: Vec<I>,
    k: usize,
}

impl<I: Ranked> QuickSelect<I> {
    /// Exchanges the items at two positions of the buffer.
    fn swap(&mut self, i: usize, j: usize)
        requires
            i < old(self).items@.len(),
            j < old(self).items@.len(),
        ensures
            final(self).k == old(self).k,
            final(self).items@ == old(self).items@.update(i as int, old(self).items@[j as int]).update(
                j as int,
                old(self).items@[i as int],
            ),
            final(self).items@.to_multiset() == old(self).items@.to_multiset(),
    {
        proof {
            lemma_swap_multiset(self.items@, i as int, j as int);
        }
        let a = self.items[i];
        let b = self.items[j];
        self.items.set(i, b);
        self.items.set(j, a);
    }

    /// A copy of the buffer from position `from` to its end.
    fn copy_from(&self, from: usize) -> (r: Vec<I>)
        requires
            from <= self.items@.len(),
        ensures
            r@ == self.items@.subrange(from as int, self.items@.len() as int),
    {
        let mut r: Vec<I> = Vec::new();
        let mut t: usize = from;
        while t < self.items.len()
            invariant
                from <= t <= self.items@.len(),
                r@ == self.items@.subrange(from as int, t as int),
            decreases self.items@.len() - t,
        {
            r.push(self.items[t]);
            assert(self.items@.subrange(from as int, t + 1) == self.items@.subrange(
                from as int,
                t as int,
            ).push(self.items@[t as int]));
            t = t + 1;
        }
        r
    }

    /// Rearranges the buffer, without changing its multiset, so that the `k`
    /// items of highest rank stand last: every item before position `len - k`
    /// ranks at or below every item from there on.
    fn partition_top(&mut self)
        requires
            0 < old(self).k < old(self).items@.len(),
        ensures
            final(self).k == old(self).k,
            final(self).items@.len() == old(self).items@.len(),
            final(self).items@.to_multiset() == old(self).items@.to_multiset(),
            ranks_split(final(self).items@, final(self).items@.len() - final(self).k),
    {
        let n = self.items.len();
        let ghost ms = self.items@.to_multiset();
        let mut left: usize = 0;
        let mut right: usize = n - 1;
        let mut k: usize = self.k;
        // Ranks below the window are at most `lo`; ranks above it at least `hi`.
        let ghost mut lo: int = 0;
        let ghost mut hi: int = u64::MAX as int;
        loop
            invariant
                self.items@.len() == n,
                self.items@.to_multiset() == ms,
                0 < self.k < n,
                self.k == old(self).k,
                left <= right < n,
                1 <= k <= right - left + 1,
                (n - 1 - right) + k == self.k,
                forall|a: int| 0 <= a < left ==> #[trigger] self.items@[a].rank_of() <= lo,
                forall|b: int|
                    left <= b <= right ==> lo <= #[trigger] self.items@[b].rank_of() <= hi,
                forall|c: int| right < c < n ==> hi <= #[trigger] self.items@[c].rank_of(),
            ensures
                self.items@.len() == n,
                self.items@.to_multiset() == ms,
                self.k == old(self).k,
                ranks_split(self.items@, n - self.k),
            decreases right - left,
        {
            let index = random_index(left, right);
            self.swap(index, right);
            let pivot = self.items[right].rank();
            let mut i: usize = left;
            let mut j: usize = left;
            while j < right
                invariant
                    self.items@.len() == n,
                    self.items@.to_multiset() == ms,
                    0 < self.k < n,
                    self.k == old(self).k,
                    left <= i <= j <= right < n,
                    1 <= k <= right - left + 1,
                    (n - 1 - right) + k == self.k,
                    self.items@[right as int].rank_of() == pivot,
                    forall|a: int| 0 <= a < left ==> #[trigger] self.items@[a].rank_of() <= lo,
                    forall|b: int|
                        left <= b <= right ==> lo <= #[trigger] self.items@[b].rank_of() <= hi,
                    forall|c: int| right < c < n ==> hi <= #[trigger] self.items@[c].rank_of(),
                    forall|a: int| left <= a < i ==> #[trigger] self.items@[a].rank_of() <= pivot,
                    forall|b: int| i <= b < j ==> pivot < #[trigger] self.items@[b].rank_of(),
                decreases right - j,
            {
                if self.items[j].rank() <= pivot {
                    self.swap(i, j);
                    i = i + 1;
                }
                j = j + 1;
            }
            self.swap(i, right);
            // Now the pivot stands at `i`, the window's items below it rank at most
            // `pivot`, and those above it rank above `pivot`.
            let top = right - i + 1;
            if top == k {
                proof {
                    assert forall|a: int, b: int|
                        0 <= a < n - self.k <= b < n implies #[trigger] self.items@[a].rank_of()
                        <= #[trigger] self.items@[b].rank_of() by {
                        assert(self.items@[a].rank_of() <= pivot);
                        assert(pivot <= self.items@[b].rank_of());
                    }
                }
                break;
            }
            if top > k {
                proof {
                    lo = pivot as int;
                }
                left = i + 1;
            } else {
                proof {
                    hi = pivot as int;
                }
                k = k - top;
                right = i - 1;
            }
        }
    }
}

impl<I: Ranked> TopK<I> for QuickSelect<I> {
    closed spec fn target(&self) -> nat {
        self.k as nat
    }

    closed spec fn pool(&self) -> Seq<I> {
        self.items@
    }

    fn new(k: usize) -> (r: Self) {
        QuickSelect { items: Vec::new(), k }
    }

    fn add_item(&mut self, item: I) {
        self.items.push(item);
    }

    fn reset(&mut self) {
        self.items.clear();
    }

    /// Quickselect with a pivot drawn at random from the current window. The
    /// result is the last `k` items of the rearranged buffer: among items that
    /// tie with the `k`-th highest rank, which ones are taken depends on the
    /// pivots drawn.
    fn top_k(&mut self) -> (r: Result<Vec<I>, TopKErr>)
        ensures
            old(self).pool().len() > 0 && old(self).target() >= old(self).pool().len() ==> r is Ok
                && r->Ok_0@ == old(self).pool(),
    {
        let n = self.items.len();
        if n == 0 {
            return Err(TopKErr::ItemsEmpty);
        }
        let ghost before = self.items@;
        if self.k >= n {
            let r = self.copy_from(0);
            proof {
                assert(self.items@.subrange(0, n as int) == self.items@);
                lemma_suffix_is_top_k(self.items@, n as nat);
            }
            return Ok(r);
        }
        if self.k > 0 {
            self.partition_top();
        }
        let r = self.copy_from(n - self.k);
        proof {
            lemma_suffix_is_top_k(self.items@, self.k as nat);
            lemma_top_k_of_permutation(before, self.items@, r@, self.k as nat);
        }
        Ok(r)
    }
}

} // verus!
