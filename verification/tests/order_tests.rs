use match_engine::order::{OidPrice, Order, OrderKey, OrderPool};
use std::cmp::Ordering;
use std::collections::BTreeMap;
use std::mem;

#[test]
fn order_cmp() {
    let or1 = Order::new(1, 1, true, 10000, 100);
    let or2 = Order::new(2, 1, true, 11000, 50);
    let or3 = Order::new(3, 1, true, 10000, 30);
    let mut or4 = Order::new(4, 1, false, 12000, 70);
    assert!(or1 != or2);
    assert!(or1 != or3);
    let op1 = or1.to_OidPrice();
    let op2 = or2.to_OidPrice();
    let op3 = or3.to_OidPrice();
    assert!(op1 > op2);
    assert!(op1 < op3);
    assert!(op2 < op3);
    assert_eq!(op1.cmp(&op2), Ordering::Greater);
    assert_eq!(op1.cmp(&op3), Ordering::Less);
    assert!(or1.is_buy());
    assert!(or2.is_buy());
    assert!(or3.is_buy());
    assert!(!or4.is_buy());
    assert!(!or1.is_filled());
    assert!(!or2.is_filled());
    assert!(!or3.is_filled());
    assert!(!or4.is_filled());
    assert_eq!(or1.oid(), 1);
    assert_eq!(or2.oid(), 2);
    assert_eq!(or3.oid(), 3);
    assert_eq!(or4.oid(), 4);
    assert_eq!(or1.remain_qty(), 100);
    assert_eq!(or2.remain_qty(), 50);
    assert_eq!(or3.remain_qty(), 30);
    assert_eq!(or4.remain_qty(), 70);
    assert!(or4.fill(30, 12500));
    assert_eq!(or4.remain_qty(), 40);
    or4.cancel();
    assert_eq!(or4.remain_qty(), 0);
    println!("sizeof Order: {}", mem::size_of::<Order>());
    println!("sizeof OidPrice: {}", mem::size_of::<OidPrice>());
    println!("sizeof OrderKey: {}", mem::size_of::<OrderKey>());
}

#[test]
fn order_btree() {
    let or1 = Order::new(1, 1, true, 10000, 100);
    let or2 = Order::new(2, 1, true, 11000, 50);
    let or3 = Order::new(3, 1, true, 10000, 30);
    let op1 = or1.to_OidPrice();
    let mut or_maps = BTreeMap::<OidPrice, Box<Order>>::new();
    or_maps.insert(or1.to_OidPrice(), Box::new(or1));
    assert_eq!(or_maps.len(), 1);
    or_maps.insert(or2.to_OidPrice(), Box::new(or2));
    or_maps.insert(or3.to_OidPrice(), Box::new(or3));
    assert_eq!(or_maps.len(), 3);
    let mut it = or_maps.iter_mut();
    let (_, ord) = it.next().unwrap();
    assert_eq!(ord.oid(), 2);
    assert_eq!(ord.qty(), 50);
    let (_, ord) = it.next().unwrap();
    assert_eq!(ord.oid(), 1);
    assert_eq!(ord.qty(), 100);
    let (_, ord) = it.next().unwrap();
    assert_eq!(ord.oid(), 3);
    assert_eq!(ord.qty(), 30);
    assert!(ord.fill(10, 10000));
    assert_eq!(ord.remain_qty(), 20);
    assert!(or_maps.remove(&op1).is_some());
    let mut it = or_maps.iter();
    let (_, ord) = it.next().unwrap();
    assert_eq!(ord.oid(), 2);
    let (_, ord) = it.next().unwrap();
    assert!(!ord.is_filled());
    assert_eq!(ord.oid(), 3);
    assert_eq!(ord.remain_qty(), 20);

    for (_, ord) in or_maps.iter() {
        println!("{}: {}", ord.oid(), ord.status())
    }
}

#[test]
fn orderpool_test() {
    let mut pool = OrderPool::new();
    let id1 = pool.new_order(1, true, 10000, 100).unwrap();
    let or1 = pool.get(OrderKey::from(id1)).unwrap();
    let oid1 = or1.oid();
    let key = or1.key();
    let ret = pool.get(key);
    assert!(ret.is_some());
    assert!(ret.unwrap().oid() == oid1);
}
