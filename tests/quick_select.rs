use rand::Rng;
use top_k::quick_select::QuickSelect;
use top_k::shard::RankedItem;
use top_k::{TopK, TopKErr};

#[test]
fn simple_test_quick_selection() -> Result<(), TopKErr> {
    let mut qs = QuickSelect::<usize>::new(2);
    qs.add_items(vec![1, 2, 4, 5, 7, 0, 9, 3]);
    let res = qs.top_k()?;
    if res != vec![7, 9] && res != vec![9, 7] {
        panic!("test quick selection top k failed, res: {:?}.", res);
    }
    Ok(())
}

#[test]
fn large_test_quick_selection() -> Result<(), TopKErr> {
    let mut qs = QuickSelect::<usize>::new(50);
    let mut data = Vec::new();
    let mut random = rand::thread_rng();
    for _ in 0..1000 {
        data.push(random.gen_range(0..1000));
    }
    qs.add_items(data.clone());
    data.sort();
    for item in qs.top_k()? {
        if item < data[950] {
            panic!("item {} in result is not the top k.", item)
        }
    }
    Ok(())
}

#[test]
fn impl_item_test() -> Result<(), TopKErr> {
    let key = String::from("item");
    let mut qs = QuickSelect::<RankedItem>::new(2);
    let mut data = Vec::new();
    let mut rand = rand::thread_rng();
    for _ in 0..20 {
        data.push(RankedItem::new(&key, rand.gen_range(0..20)));
    }
    for d in &data {
        qs.add_item(d.clone());
    }
    let res = qs.top_k()?;
    data.sort_by_key(|d| d.frequency());
    for item in res {
        if item.frequency() < data[18].frequency() {
            panic!("item {:?} in result is not the top k.", item)
        }
    }
    Ok(())
}

fn sorted(mut v: Vec<u64>) -> Vec<u64> {
    v.sort();
    v
}

#[test]
fn empty_buffer_fails() {
    let mut qs = QuickSelect::<u64>::new(3);
    assert!(matches!(qs.top_k(), Err(TopKErr::ItemsEmpty)));
    let mut zero = QuickSelect::<u64>::new(0);
    assert_eq!(zero.top_k(), Err(TopKErr::ItemsEmpty));
}

#[test]
fn zero_k_gives_empty_success() {
    let mut qs = QuickSelect::<u64>::new(0);
    qs.add_items(vec![5, 1, 3]);
    assert_eq!(qs.top_k(), Ok(vec![]));
}

#[test]
fn large_k_returns_everything() {
    let mut qs = QuickSelect::<u64>::new(10);
    qs.add_items(vec![4, 8, 1, 8]);
    assert_eq!(qs.top_k(), Ok(vec![4, 8, 1, 8]));
    let mut exact = QuickSelect::<u64>::new(4);
    exact.add_items(vec![4, 8, 1, 8]);
    assert_eq!(sorted(exact.top_k().unwrap()), vec![1, 4, 8, 8]);
}

#[test]
fn selection_takes_highest_ranks() {
    for _ in 0..50 {
        let mut qs = QuickSelect::<u64>::new(3);
        qs.add_items(vec![10, 2, 7, 7, 3, 9, 1, 0, 4]);
        assert_eq!(sorted(qs.top_k().unwrap()), vec![7, 9, 10]);
    }
}

#[test]
fn ties_fill_exactly_k_slots() {
    for _ in 0..50 {
        let mut qs = QuickSelect::<u64>::new(3);
        qs.add_items(vec![5, 5, 5, 5, 1, 9]);
        assert_eq!(sorted(qs.top_k().unwrap()), vec![5, 5, 9]);
    }
}

#[test]
fn tied_keys_keep_frequencies() {
    let a = String::from("a");
    let b = String::from("b");
    let c = String::from("c");
    let mut qs = QuickSelect::<RankedItem>::new(2);
    qs.add_item(RankedItem::new(&a, 4));
    qs.add_item(RankedItem::new(&b, 4));
    qs.add_item(RankedItem::new(&c, 4));
    let res = qs.top_k().unwrap();
    assert_eq!(res.len(), 2);
    assert!(res.iter().all(|r| r.frequency() == 4));
}

#[test]
fn reset_behaves_like_new() {
    let mut qs = QuickSelect::<u64>::new(2);
    qs.add_items(vec![3, 1, 2]);
    assert_eq!(sorted(qs.top_k().unwrap()), vec![2, 3]);
    qs.reset();
    assert_eq!(qs.top_k(), Err(TopKErr::ItemsEmpty));
    qs.add_items(vec![6, 4]);
    let mut fresh = QuickSelect::<u64>::new(2);
    fresh.add_items(vec![6, 4]);
    assert_eq!(qs.top_k(), fresh.top_k());
}

#[test]
fn top_k_permutes_buffer_only() {
    let mut qs = QuickSelect::<u64>::new(2);
    qs.add_items(vec![9, 1, 8, 2, 7]);
    assert_eq!(sorted(qs.top_k().unwrap()), vec![8, 9]);
    assert_eq!(sorted(qs.top_k().unwrap()), vec![8, 9]);
}
