//! Top-K selection: the `TopK` capability, a randomized quickselect that
//! implements it, and the two-level shard/merge reduction built on top of it.
use vstd::multiset::Multiset;
use vstd::prelude::*;

pub mod quick_select;
pub mod shard;

verus! {

/// The one failure of a selection: it was asked of an empty buffer.
#[derive(Debug, PartialEq, Eq, Structural)]
pub enum TopKErr {
    ItemsEmpty,
}

/// An item that can be selected: it is ordered solely by a non-negative rank
/// (for frequency-tagged items, the frequency). Items of equal rank are equal
/// for ordering purposes, whatever else they carry.
pub trait Ranked: Copy {
    /// The rank of the item, as the contracts speak of it.
    spec fn rank_of(&self) -> u64;

    /// The rank of the item.
    fn rank(&self) -> (r: u64)
        ensures
            r == self.rank_of(),
    ;
}

impl Ranked for u64 {
    open spec fn rank_of(&self) -> u64 {
        *self
    }

    fn rank(&self) -> (r: u64) {
        *self
    }
}

impl Ranked for usize {
    open spec fn rank_of(&self) -> u64 {
        *self as u64
    }

    fn rank(&self) -> (r: u64) {
        *self as u64
    }
}

/// `min(k, n)`: how many items a selection of `k` out of `n` hands back.
pub open spec fn selected_len(k: nat, n: nat) -> nat {
    if k <= n {
        k
    } else {
        n
    }
}

/// Every item before position `at` ranks at or below every item from `at` on.
pub open spec fn ranks_split<I: Ranked>(s: Seq<I>, at: int) -> bool {
    forall|a: int, b: int| 0 <= a < at <= b < s.len() ==> #[trigger] s[a].rank_of() <= #[trigger] s[b].rank_of()
}

/// `r` is a valid top-`k` of `s`: it holds `min(k, |s|)` of the items of `s`, and
/// no item of `s` left out ranks above an item taken.
pub open spec fn is_top_k<I: Ranked>(s: Seq<I>, r: Seq<I>, k: nat) -> bool {
    &&& r.len() == selected_len(k, s.len())
    &&& r.to_multiset().subset_of(s.to_multiset())
    &&& forall|x: I, y: I|
        #![trigger r.to_multiset().count(x), s.to_multiset().sub(r.to_multiset()).count(y)]
        r.to_multiset().count(x) > 0 && s.to_multiset().sub(r.to_multiset()).count(y) > 0
            ==> y.rank_of() <= x.rank_of()
}

/// When `k` is at least the number of items, a valid top-`k` holds every item,
/// each as often as it occurs.
pub proof fn lemma_top_k_takes_all<I: Ranked>(s: Seq<I>, r: Seq<I>, k: nat)
    requires
        is_top_k(s, r, k),
        k >= s.len(),
    ensures
        r.to_multiset() == s.to_multiset(),
{
    broadcast use vstd::multiset::group_multiset_axioms;
    broadcast use vstd::multiset::lemma_multiset_empty_len;
    broadcast use vstd::seq_lib::to_multiset_len;

    let d = s.to_multiset().sub(r.to_multiset());
    assert(d.len() == 0);
    assert(d =~= Multiset::empty());
    assert forall|v: I| #[trigger] r.to_multiset().count(v) == s.to_multiset().count(v) by {
        assert(d.count(v) == 0);
    }
    assert(r.to_multiset() =~= s.to_multiset());
}

/// Ties are settled only at the boundary: an item that ranks strictly above some
/// item taken into a valid top-`k` is taken every time it occurs. Which items are
/// taken among those tied with the lowest rank taken is left open.
pub proof fn lemma_top_k_boundary<I: Ranked>(s: Seq<I>, r: Seq<I>, k: nat, x: I, y: I)
    requires
        is_top_k(s, r, k),
        r.to_multiset().count(x) > 0,
        y.rank_of() > x.rank_of(),
    ensures
        r.to_multiset().count(y) == s.to_multiset().count(y),
{
    broadcast use vstd::multiset::group_multiset_axioms;

    assert(s.to_multiset().sub(r.to_multiset()).count(y) == 0);
}

/// A left-out item of a shard ranks at or below all of that shard's `k` winners.
/// Were it to rank above an item `x` of the merged result, every winner of the
/// shard would rank above `x` too and so be in the merged result beside `x`:
/// `k + 1` items in a result of at most `k`.
proof fn lemma_left_out_not_above<I: Ranked>(
    s: Seq<I>,
    r: Seq<I>,
    pool: Seq<I>,
    g: Seq<I>,
    k: nat,
    x: I,
    y: I,
)
    requires
        is_top_k(s, r, k),
        is_top_k(pool, g, k),
        r.to_multiset().subset_of(pool.to_multiset()),
        s.to_multiset().sub(r.to_multiset()).count(y) > 0,
        g.to_multiset().count(x) > 0,
    ensures
        y.rank_of() <= x.rank_of(),
{
    broadcast use vstd::multiset::group_multiset_axioms;
    broadcast use vstd::seq_lib::to_multiset_len;

    if y.rank_of() > x.rank_of() {
        let ms = s.to_multiset();
        let mr = r.to_multiset();
        let mg = g.to_multiset();
        let mp = pool.to_multiset();
        assert(ms.sub(mr).len() > 0);
        assert(r.len() == k);
        assert(mr.count(x) == 0);
        assert forall|z: I| #[trigger] mr.insert(x).count(z) <= mg.count(z) by {
            if z != x && mr.count(z) > mg.count(z) {
                assert(mp.sub(mg).count(z) > 0);
            }
        }
        assert(mr.insert(x).subset_of(mg));
        assert(mg.sub(mr.insert(x)).len() == mg.len() - mr.insert(x).len());
        assert(mg.len() >= k + 1);
    }
}

/// Each of `locals` is a valid top-`k` of the shard at the same position.
pub open spec fn all_top_k<I: Ranked>(shards: Seq<Seq<I>>, locals: Seq<Seq<I>>, k: nat) -> bool {
    &&& shards.len() == locals.len()
    &&& forall|i: int| 0 <= i < shards.len() ==> is_top_k(#[trigger] shards[i], locals[i], k)
}

/// What the pool of local winners keeps of the shards: it holds some of their
/// items, enough to fill a top-`k`, each shard's winners among them, and an
/// item it holds less often than the shards do was left out by some shard.
proof fn lemma_pool_of_locals<I: Ranked>(shards: Seq<Seq<I>>, locals: Seq<Seq<I>>, k: nat)
    requires
        all_top_k(shards, locals, k),
    ensures
        locals.flatten().to_multiset().subset_of(shards.flatten().to_multiset()),
        selected_len(k, locals.flatten().len()) == selected_len(k, shards.flatten().len()),
        forall|i: int|
            0 <= i < locals.len() ==> (#[trigger] locals[i]).to_multiset().subset_of(
                locals.flatten().to_multiset(),
            ),
        forall|y: I|
            #[trigger] shards.flatten().to_multiset().count(y) > locals.flatten().to_multiset().count(
                y,
            ) ==> exists|i: int|
                0 <= i < shards.len() && (#[trigger] shards[i]).to_multiset().sub(
                    locals[i].to_multiset(),
                ).count(y) > 0,
    decreases shards.len(),
{
    broadcast use vstd::multiset::group_multiset_axioms;
    broadcast use vstd::seq_lib::to_multiset_len;

    if shards.len() > 0 {
        let (s0, r0) = (shards.first(), locals.first());
        let (ss, rs) = (shards.drop_first(), locals.drop_first());
        assert(is_top_k(shards[0], locals[0], k));
        assert forall|i: int| 0 <= i < ss.len() implies is_top_k(#[trigger] ss[i], rs[i], k) by {
            assert(is_top_k(shards[i + 1], locals[i + 1], k));
        }
        lemma_pool_of_locals(ss, rs, k);
        vstd::seq_lib::lemma_multiset_commutative(s0, ss.flatten());
        vstd::seq_lib::lemma_multiset_commutative(r0, rs.flatten());
        let m = shards.flatten().to_multiset();
        let p = locals.flatten().to_multiset();
        assert forall|i: int| 0 <= i < locals.len() implies (
        #[trigger] locals[i]).to_multiset().subset_of(p) by {
            if i > 0 {
                assert(locals[i] == rs[i - 1]);
                assert(rs[i - 1].to_multiset().subset_of(rs.flatten().to_multiset()));
            }
        }
        assert forall|y: I| #[trigger] m.count(y) > p.count(y) implies exists|i: int|
            0 <= i < shards.len() && (#[trigger] shards[i]).to_multiset().sub(
                locals[i].to_multiset(),
            ).count(y) > 0 by {
            if s0.to_multiset().count(y) > r0.to_multiset().count(y) {
                assert(shards[0].to_multiset().sub(locals[0].to_multiset()).count(y) > 0);
            } else {
                assert(ss.flatten().to_multiset().count(y) > rs.flatten().to_multiset().count(y));
                let i = choose|i: int|
                    0 <= i < ss.len() && (#[trigger] ss[i]).to_multiset().sub(
                        rs[i].to_multiset(),
                    ).count(y) > 0;
                assert(shards[i + 1] == ss[i] && locals[i + 1] == rs[i]);
            }
        }
    }
}

/// The two-level reduction is sound item by item: when each of `locals` is a
/// valid top-`k` of its shard and `g` is a valid top-`k` of the pool of all the
/// local winners, then `g` is a valid top-`k` of all the shards' items taken
/// together. Items are taken as they come: equal keys from different shards are
/// not summed, so a key whose occurrences are spread over shards ranks by each
/// shard's count alone, and may be missed although its total ranks high.
pub proof fn lemma_merge_sound<I: Ranked>(
    shards: Seq<Seq<I>>,
    locals: Seq<Seq<I>>,
    g: Seq<I>,
    k: nat,
)
    requires
        all_top_k(shards, locals, k),
        is_top_k(locals.flatten(), g, k),
    ensures
        is_top_k(shards.flatten(), g, k),
{
    broadcast use vstd::multiset::group_multiset_axioms;

    lemma_pool_of_locals(shards, locals, k);
    let m = shards.flatten().to_multiset();
    let p = locals.flatten().to_multiset();
    let mg = g.to_multiset();
    assert forall|x: I, y: I|
        #![trigger mg.count(x), m.sub(mg).count(y)]
        mg.count(x) > 0 && m.sub(mg).count(y) > 0 implies y.rank_of() <= x.rank_of() by {
        if p.sub(mg).count(y) == 0 {
            assert(m.count(y) > p.count(y));
            let i = choose|i: int|
                0 <= i < shards.len() && (#[trigger] shards[i]).to_multiset().sub(
                    locals[i].to_multiset(),
                ).count(y) > 0;
            assert(is_top_k(shards[i], locals[i], k));
            assert(locals[i].to_multiset().subset_of(p));
            lemma_left_out_not_above(shards[i], locals[i], locals.flatten(), g, k, x, y);
        }
    }
}

/// The capability of a top-`k` selector: collect items, then hand back the `k`
/// of highest rank.
pub trait TopK<I: Ranked>: Sized {
    /// The number of items a selection asks for.
    spec fn target(&self) -> nat;

    /// The items collected so far, in buffer order.
    spec fn pool(&self) -> Seq<I>;

    /// An empty selector that will select `k` items.
    fn new(k: usize) -> (r: Self)
        ensures
            r.target() == k,
            r.pool() == Seq::<I>::empty(),
    ;

    /// Appends one item to the buffer.
    fn add_item(&mut self, item: I)
        ensures
            final(self).target() == old(self).target(),
            final(self).pool() == old(self).pool().push(item),
    ;

    /// Appends the items in order, one at a time.
    fn add_items(&mut self, items: Vec<I>)
        ensures
            final(self).target() == old(self).target(),
            final(self).pool() == old(self).pool() + items@,
    {
        let mut t: usize = 0;
        while t < items.len()
            invariant
                t <= items@.len(),
                self.target() == old(self).target(),
                self.pool() == old(self).pool() + items@.subrange(0, t as int),
            decreases items@.len() - t,
        {
            self.add_item(items[t]);
            assert(items@.subrange(0, t + 1) == items@.subrange(0, t as int).push(items@[t as int]));
            t = t + 1;
        }
        assert(items@.subrange(0, items@.len() as int) == items@);
    }

    /// Empties the buffer; the target stays.
    fn reset(&mut self)
        ensures
            final(self).target() == old(self).target(),
            final(self).pool() == Seq::<I>::empty(),
    ;

    /// Selects the `target()` items of highest rank (all of them when there are
    /// fewer), or fails when the buffer is empty. The buffer may be reordered.
    fn top_k(&mut self) -> (r: Result<Vec<I>, TopKErr>)
        ensures
            final(self).target() == old(self).target(),
            final(self).pool().to_multiset() == old(self).pool().to_multiset(),
            old(self).pool().len() == 0 <==> r is Err,
            r is Err ==> r == Err::<Vec<I>, TopKErr>(TopKErr::ItemsEmpty),
            r is Ok ==> is_top_k(old(self).pool(), r->Ok_0@, old(self).target()),
    ;
}

} // verus!
