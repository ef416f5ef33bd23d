//! The two-level reduction: a local top-`k` per shard over a frequency table of
//! its keys, then a global top-`k` over the pool of every shard's winners.
use vstd::multiset::Multiset;
use vstd::prelude::*;

use crate::quick_select::QuickSelect;
use crate::{is_top_k, Ranked, TopK, TopKErr};

verus! {

/// A key paired with how often it occurred. It ranks by its frequency alone.
/// The key is borrowed from the buffer that holds it.
#[derive(Clone, Copy, Debug)]
pub struct RankedItem<'a> {
    pub key: &'a String,
    pub frequency: u64,
}

impl<'a> RankedItem<'a> {
    /// The item for `key` with `frequency`.
    pub fn new(key: &'a String, frequency: u64) -> (r: Self)
        ensures
            r.key == key,
            r.frequency == frequency,
    {
        RankedItem { key, frequency }
    }

    /// The key.
    pub fn key(&self) -> (r: &'a String)
        ensures
            r == self.key,
    {
        self.key
    }

    /// The frequency.
    pub fn frequency(&self) -> (r: u64)
        ensures
            r == self.frequency,
    {
        self.frequency
    }
}

impl<'a> Ranked for RankedItem<'a> {
    open spec fn rank_of(&self) -> u64 {
        self.frequency
    }

    fn rank(&self) -> (r: u64) {
        self.frequency
    }
}

/// How many of `keys` equal `key`.
pub open spec fn occurrences(keys: Seq<String>, key: Seq<char>) -> nat
    decreases keys.len(),
{
    if keys.len() == 0 {
        0
    } else {
        occurrences(keys.drop_last(), key) + if keys.last()@ == key {
            1nat
        } else {
            0nat
        }
    }
}

/// `t` is a frequency table of `keys`: one entry per distinct key, each with the
/// number of times its key occurs.
pub open spec fn is_frequency_table(keys: Seq<String>, t: Seq<RankedItem>) -> bool {
    &&& forall|i: int, j: int| 0 <= i < j < t.len() ==> (#[trigger] t[i]).key@ != (#[trigger] t[j]).key@
    &&& forall|i: int| 0 <= i < t.len() ==> (#[trigger] t[i]).frequency == occurrences(keys, t[i].key@)
    &&& forall|p: int|
        0 <= p < keys.len() ==> exists|i: int| 0 <= i < t.len() && (#[trigger] t[i]).key@ == (
        #[trigger] keys[p])@
}

/// `w` holds the pool's entries in order, each with its key borrowed.
pub open spec fn borrows_pool(pool: Seq<(String, u64)>, w: Seq<RankedItem>) -> bool {
    &&& w.len() == pool.len()
    &&& forall|i: int| 0 <= i < w.len() ==> (#[trigger] w[i]).key@ == pool[i].0@ && w[i].frequency == pool[i].1
}

proof fn lemma_occurrences_bound(keys: Seq<String>, key: Seq<char>)
    ensures
        occurrences(keys, key) <= keys.len(),
    decreases keys.len(),
{
    if keys.len() > 0 {
        lemma_occurrences_bound(keys.drop_last(), key);
    }
}

proof fn lemma_occurrences_present(keys: Seq<String>, key: Seq<char>)
    requires
        occurrences(keys, key) > 0,
    ensures
        exists|p: int| 0 <= p < keys.len() && (#[trigger] keys[p])@ == key,
    decreases keys.len(),
{
    if keys.last()@ != key {
        lemma_occurrences_present(keys.drop_last(), key);
        let p = choose|p: int| 0 <= p < keys.len() - 1 && (#[trigger] keys.drop_last()[p])@ == key;
        assert(keys[p] == keys.drop_last()[p]);
    } else {
        assert(keys[keys.len() - 1]@ == key);
    }
}

/// The frequency table of `keys`, in the order in which each key first occurs.
pub fn count_frequencies<'a>(keys: &'a Vec<String>) -> (r: Vec<RankedItem<'a>>)
    ensures
        is_frequency_table(keys@, r@),
{
    let mut r: Vec<RankedItem<'a>> = Vec::new();
    let mut t: usize = 0;
    while t < keys.len()
        invariant
            t <= keys@.len(),
            is_frequency_table(keys@.subrange(0, t as int), r@),
        decreases keys@.len() - t,
    {
        let key: &'a String = &keys[t];
        let ghost done = keys@.subrange(0, t as int);
        let ghost next = keys@.subrange(0, t + 1);
        assert(next.drop_last() == done);
        let mut i: usize = 0;
        let mut found = false;
        while !found && i < r.len()
            invariant
                i <= r@.len(),
                found ==> i < r@.len() && r@[i as int].key@ == key@,
                forall|j: int| 0 <= j < i ==> (#[trigger] r@[j]).key@ != key@,
            decreases r@.len() - i + if found {
                0int
            } else {
                1int
            },
        {
            if *r[i].key == *key {
                found = true;
            } else {
                i = i + 1;
            }
        }
        let ghost before = r@;
        if found {
            let item = r[i];
            proof {
                lemma_occurrences_bound(done, key@);
            }
            r.set(i, RankedItem { key: item.key, frequency: item.frequency + 1 });
        } else {
            proof {
                if occurrences(done, key@) > 0 {
                    lemma_occurrences_present(done, key@);
                    let p = choose|p: int| 0 <= p < done.len() && (#[trigger] done[p])@ == key@;
                    assert(exists|j: int| 0 <= j < r@.len() && (#[trigger] r@[j]).key@ == done[p]@);
                }
            }
            r.push(RankedItem { key, frequency: 1 });
        }
        proof {
            assert forall|p: int| 0 <= p < next.len() implies exists|j: int|
                0 <= j < r@.len() && (#[trigger] r@[j]).key@ == (#[trigger] next[p])@ by {
                if p < t {
                    assert(next[p] == done[p]);
                    let j = choose|j: int| 0 <= j < before.len() && (#[trigger] before[j]).key@ == done[p]@;
                    assert(r@[j].key@ == before[j].key@);
                } else {
                    assert(r@[i as int].key@ == next[p]@);
                }
            }
        }
        t = t + 1;
    }
    assert(keys@.subrange(0, keys@.len() as int) == keys@);
    r
}

/// The local top-`k` of one shard: its keys are counted, and the `k` entries of
/// highest frequency in the table are returned (every entry when there are
/// fewer; none for an empty shard).
pub fn shard_top_k<'a>(keys: &'a Vec<String>, k: usize) -> (r: Vec<RankedItem<'a>>)
    ensures
        exists|t: Seq<RankedItem>| is_frequency_table(keys@, t) && is_top_k(t, r@, k as nat),
{
    let table = count_frequencies(keys);
    let ghost t = table@;
    let mut selector: QuickSelect<RankedItem<'a>> = QuickSelect::new(k);
    selector.add_items(table);
    match selector.top_k() {
        Ok(r) => r,
        Err(_) => {
            let r: Vec<RankedItem<'a>> = Vec::new();
            assert(is_top_k(t, r@, k as nat)) by {
                broadcast use vstd::seq_lib::group_to_multiset_ensures;
                broadcast use vstd::multiset::group_multiset_axioms;

                assert(t.len() == 0);
                assert(r@.to_multiset() =~= Multiset::empty());
                assert(t.to_multiset() =~= Multiset::empty());
            }
            r
        },
    }
}

/// Copies the keys of a shard's winners into owned strings, so that they outlive
/// the shard's buffer.
pub fn promote(local: &Vec<RankedItem>) -> (r: Vec<(String, u64)>)
    ensures
        r@.len() == local@.len(),
        forall|i: int|
            0 <= i < r@.len() ==> (#[trigger] r@[i]).0@ == local@[i].key@ && r@[i].1
                == local@[i].frequency,
{
    let mut r: Vec<(String, u64)> = Vec::new();
    let mut t: usize = 0;
    while t < local.len()
        invariant
            t <= local@.len(),
            r@.len() == t,
            forall|i: int|
                0 <= i < t ==> (#[trigger] r@[i]).0@ == local@[i].key@ && r@[i].1
                    == local@[i].frequency,
        decreases local@.len() - t,
    {
        let item = local[t];
        r.push((item.key.clone(), item.frequency));
        t = t + 1;
    }
    r
}

/// The global top-`k` over the pool of every shard's winners. Entries with
/// equal keys from different shards stay apart: their counts are not summed.
/// Fails with `ItemsEmpty` when the pool is empty.
pub fn merge_top_k<'a>(pool: &'a Vec<(String, u64)>, k: usize) -> (r: Result<
    Vec<RankedItem<'a>>,
    TopKErr,
>)
    ensures
        pool@.len() == 0 <==> r is Err,
        r is Err ==> r == Err::<Vec<RankedItem<'a>>, TopKErr>(TopKErr::ItemsEmpty),
        r is Ok ==> exists|w: Seq<RankedItem>| borrows_pool(pool@, w) && is_top_k(w, r->Ok_0@, k as nat),
{
    let mut selector: QuickSelect<RankedItem<'a>> = QuickSelect::new(k);
    let mut t: usize = 0;
    while t < pool.len()
        invariant
            t <= pool@.len(),
            selector.target() == k,
            borrows_pool(pool@.subrange(0, t as int), selector.pool()),
        decreases pool@.len() - t,
    {
        let entry: &'a (String, u64) = &pool[t];
        selector.add_item(RankedItem { key: &entry.0, frequency: entry.1 });
        t = t + 1;
    }
    let ghost w = selector.pool();
    assert(pool@.subrange(0, pool@.len() as int) == pool@);
    selector.top_k()
}

} // verus!
