use rze_core::order::{arrange, stable_order_of};

#[test]
fn stable_order_of_keys() {
    assert_eq!(stable_order_of(&vec![]), Vec::<usize>::new());
    assert_eq!(stable_order_of(&vec![7]), vec![0]);
    assert_eq!(stable_order_of(&vec![3, 1, 2]), vec![1, 2, 0]);
    assert_eq!(stable_order_of(&vec![5, 1, 5, 1, 5]), vec![1, 3, 0, 2, 4]);
}

#[test]
fn arrange_keeps_the_order_of_equal_keys() {
    let items = vec!['a', 'b', 'c', 'd', 'e', 'f'];
    let keys = vec![2u128, 1, 2, 0, 1, 2];
    assert_eq!(arrange(&items, &keys), vec!['d', 'b', 'e', 'a', 'c', 'f']);
}

#[test]
fn arrange_many_items() {
    let n = 10_000u128;
    let keys: Vec<u128> = (0..n).map(|i| (i * 7919) % 1009).collect();
    let items: Vec<u128> = (0..n).collect();
    let out = arrange(&items, &keys);
    assert_eq!(out.len(), items.len());
    for w in out.windows(2) {
        let (a, b) = (w[0] as usize, w[1] as usize);
        assert!(keys[a] < keys[b] || (keys[a] == keys[b] && a < b));
    }
}
