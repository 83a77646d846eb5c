use match_engine::measure::Measure;
use match_engine::order::{OrderKey, OrderPool};
use match_engine::order_book::OrderBook;
use rand::RngExt;

#[test]
fn test_orderbook() {
    println!("build orderBook");
    let mut pool = OrderPool::new();
    let mut orb = OrderBook::new(1, "cu1906");
    let mut rng = rand::rng();
    let mut measure = Measure::start("orderbook bench");
    const N: u32 = 2_000;
    for _it in 0..N {
        let price = rng.random::<i32>();
        let mut qty: u32 = rng.random::<u32>();
        let b_buy: bool = (rng.random::<u32>() & 1) != 0;
        qty %= 1000;
        qty += 1;
        let id = pool.new_order(1, b_buy, price, qty).unwrap();
        let ord = pool.get(OrderKey::from(id)).unwrap();
        orb.insert(b_buy, ord);
    }
    measure.stop();
    let ns_ops = measure.as_ns() / (N as u64);
    assert!(ns_ops < 10_000);
    let (blen, alen) = orb.len();
    assert_eq!(orb.len(), (orb.bids.len(), orb.asks.len()));
    println!(
        "build orderBook cost {} us, bids: {}, asks: {}",
        measure.as_us(),
        blen,
        alen
    );
    println!("orderBook insert cost {} ns per Op", ns_ops);
    assert!(orb.validate(&pool), "orderBook disorder");
}

#[test]
fn test_orderbook_pv() {
    println!("build orderBook");
    let mut pool = OrderPool::new();
    let mut orb = OrderBook::new(1, "cu1906");
    let b_buy = true;
    let id = pool.new_order(1, b_buy, 30000, 10).unwrap();
    orb.insert(b_buy, pool.get(OrderKey::from(id)).unwrap());
    let id = pool.new_order(1, b_buy, 30000, 15).unwrap();
    orb.insert(b_buy, pool.get(OrderKey::from(id)).unwrap());
    let id = pool.new_order(1, b_buy, 31000, 18).unwrap();
    orb.insert(b_buy, pool.get(OrderKey::from(id)).unwrap());
    let mut pv_it = orb.pv_iter(b_buy, &pool);
    let opv = pv_it.next();
    assert!(opv.is_some());
    let (prc, vol) = opv.unwrap();
    assert_eq!(prc, 31000);
    assert_eq!(vol, 18);
    let opv = pv_it.next();
    assert!(opv.is_some());
    let (prc, vol) = opv.unwrap();
    assert_eq!(prc, 30000);
    assert_eq!(vol, 25);
    assert!(pv_it.next().is_none());
}

#[test]
fn book_retain_and_validate() {
    // inserts and cancels keep both sides strictly ordered, and trimming
    // behind a partly consumed order keeps it at the front
    let mut pool = OrderPool::new();
    let mut orb = OrderBook::new(1, "cu1906");
    let id1 = pool.new_order(1, true, 42000, 10).unwrap();
    orb.insert(true, pool.get(OrderKey::from(id1)).unwrap());
    let id2 = pool.new_order(1, true, 43000, 20).unwrap();
    orb.insert(true, pool.get(OrderKey::from(id2)).unwrap());
    let id3 = pool.new_order(1, true, 43000, 30).unwrap();
    orb.insert(true, pool.get(OrderKey::from(id3)).unwrap());
    assert!(orb.validate(&pool));
    // best bid first: 43000 (id2), 43000 (id3), 42000 (id1)
    assert_eq!(orb.len(), (3, 0));
    // cancel one; the side stays ordered and still validates
    pool.get_mut(OrderKey::from(id2)).unwrap().cancel();
    assert!(orb.validate(&pool));
    // partially fill the best live order and trim the consumed prefix
    pool.get_mut(OrderKey::from(id3)).unwrap().fill(10, 43000);
    orb.retain(true, OrderKey::from(id3), &pool);
    // id2 (better key) was trimmed, id3 remains in front of id1
    assert_eq!(orb.len(), (2, 0));
    let mut pv = orb.pv_iter(true, &pool);
    assert_eq!(pv.next(), Some((43000, 20)));
    assert_eq!(pv.next(), Some((42000, 10)));
    assert!(pv.next().is_none());
    assert!(orb.validate(&pool));
}
