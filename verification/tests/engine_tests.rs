use match_engine::deal::Deal;
use match_engine::engine::{get_match_qty, get_mid_price, is_price_better, may_match, MatchEngine};
use match_engine::state::State;

const ORDERS1: &str = "1, 42000, 10, 1\n\
2,43000,20,1\n\
3,41000,30,1\n\
4,44000,50,1\n\
5,45000,10,0\n\
6,48000,20,0\n\
7,46000,30,0\n\
8,43500,45,0\n\
9,43900,25,1\n\
10,43200,10,0\n\
11,43800,15,1\n\
12,43200,20,0\n";

#[test]
fn test_inlines() {
    println!("test may_match");
    assert!(may_match(true, 34000, 34000));
    assert!(may_match(true, 34000, 33000));
    assert!(may_match(false, 34000, 34000));
    assert!(may_match(false, 34000, 34500));
    println!("test is_price_better");
    assert!(!is_price_better(true, 34000, 34000));
    assert!(is_price_better(true, 34000, 33000));
    assert!(!is_price_better(false, 34000, 34000));
    assert!(is_price_better(false, 34000, 34500));
    println!("test get_mid_price");
    assert_eq!(get_mid_price(32000, 30000, 31000), 31000);
    assert_eq!(get_mid_price(32000, 30000, 29000), 30000);
    assert_eq!(get_mid_price(32000, 30000, 33000), 32000);
    assert_eq!(get_mid_price(32000, 30000, 32000), 32000);
}

#[test]
fn test_trading() {
    let mut me = MatchEngine::new();
    assert!(me.state.eq(&State::StateIdle));
    assert!(me.begin_market());
    assert!(me.start_market());
    assert!(me.call_auction());
    assert!(me.start_trading());
    let orders = me.build_orders(1, ORDERS1.as_bytes());
    assert_eq!(orders.len(), 12);
    let deals1 = vec![
        Deal::new(1, 1, orders[3] as u32, 43500, 45),
        Deal::new(2, 1, orders[7] as u32, 43500, 45),
        Deal::new(3, 2, orders[3] as u32, 43200, 5),
        Deal::new(4, 2, orders[9] as u32, 43200, 5),
        Deal::new(5, 3, orders[8] as u32, 43200, 5),
        Deal::new(6, 3, orders[9] as u32, 43200, 5),
        Deal::new(7, 4, orders[8] as u32, 43200, 20),
        Deal::new(8, 4, orders[11] as u32, 43200, 20),
    ];
    assert!(me.deals.eq(&deals1));
}

#[test]
fn test_cross() {
    let orders2 = "1, 43000, 20, 1\n\
2, 44000, 50, 1\n\
3, 45000, 10, 0\n\
4, 43500, 45, 0\n\
5, 43200, 10, 0\n\
6, 43900, 25, 1\n\
7, 43200, 20, 0\n";
    let orders3 = "1, 43000, 20, 1\n\
2, 44000, 50, 1\n\
3, 43900, 15, 1\n\
4, 45000, 10, 0\n\
5, 43500, 45, 0\n\
6, 43200, 10, 0\n\
7, 43200, 20, 0\n";
    let mut me = MatchEngine::new();
    assert!(me.state.eq(&State::StateIdle));
    assert!(me.begin_market());
    assert!(me.start_market());
    assert_eq!(me.build_orders(1, ORDERS1.as_bytes()).len(), 12);
    let orb = me.book(1);
    assert!(orb.is_some());
    let mc_ret = me.match_cross(1, 40000);
    assert!(mc_ret == Some((43900, 75, 0)));
    let mc_ret = me.match_cross(1, 50000);
    assert!(mc_ret == Some((43900, 75, 0)));
    assert!(me.stop_trading());
    assert!(me.init_market());
    assert!(me.begin_market());
    assert!(me.start_market());
    assert!(me.build_orders(1, orders2.as_bytes()).len() == 7);
    let orb = me.book(1);
    assert!(orb.is_some());
    let mc_ret = me.match_cross(1, 40000);
    assert!(mc_ret == Some((43500, 75, 0)));
    let mc_ret = me.match_cross(1, 50000);
    assert!(mc_ret == Some((43900, 75, 0)));
    assert!(me.stop_trading());
    assert!(me.init_market());
    assert!(me.begin_market());
    assert!(me.start_market());
    assert_eq!(me.build_orders(1, orders3.as_bytes()).len(), 7);
    let orb = me.book(1);
    assert!(orb.is_some());
    let mc_ret = me.match_cross(1, 40000);
    assert!(mc_ret == Some((43900, 65, 10)));
    let mc_ret = me.match_cross(1, 50000);
    assert!(mc_ret == Some((43900, 65, 10)));
}

#[test]
fn session_transitions() {
    // from Idle the full opening sequence succeeds; from Trading a second
    // call auction is rejected and the state stays Trading
    let mut me = MatchEngine::new();
    assert!(me.begin_market());
    assert!(me.start_market());
    assert!(me.call_auction());
    assert!(me.start_trading());
    assert!(!me.call_auction());
    assert!(me.state.eq(&State::StateTrading));
}

#[test]
fn uncross_executes_auction() {
    // price the auction, execute it, and check the printed deals: one match
    // group for the whole uncross, sequence numbers from 1 without gaps
    let mut me = MatchEngine::new();
    assert!(me.begin_market());
    assert!(me.start_market());
    assert_eq!(me.build_orders(1, ORDERS1.as_bytes()).len(), 12);
    let (last, qty, rem) = me.match_cross(1, 40000).unwrap();
    assert_eq!((last, qty, rem), (43900, 75, 0));
    assert!(me.uncross(1, last, qty));
    let n = me.deals.v.len();
    assert!(n > 0);
    let mid0 = me.deals.v[0].mid();
    for i in 0..n {
        let d = &me.deals.v[i];
        assert_eq!(d.no(), (i as u64) + 1);
        assert_eq!(d.mid(), mid0);
        assert_eq!(d.price(), 43900);
    }
    // the crossed volume appears once per side on the tape
    let total: u64 = me.deals.v.iter().map(|d| d.qty() as u64).sum();
    assert_eq!(total, 2 * (qty as u64));
    // after the uncross both sides validate and the book is thinner
    let orb = me.book(1).unwrap();
    assert!(orb.validate(&me.pool));
}

#[test]
fn volume_is_conserved() {
    // sum of original quantities equals open quantity plus what traded
    let mut me = MatchEngine::new();
    assert!(me.begin_market());
    assert!(me.start_market());
    assert!(me.call_auction());
    assert!(me.start_trading());
    let orders = me.build_orders(1, ORDERS1.as_bytes());
    assert_eq!(orders.len(), 12);
    let sum_qty: u64 = me.pool.v.iter().map(|o| o.qty() as u64).sum();
    let sum_remain: u64 = me.pool.v.iter().map(|o| o.remain_qty() as u64).sum();
    let sum_deals: u64 = me.deals.v.iter().map(|d| d.qty() as u64).sum();
    assert_eq!(sum_qty, sum_remain + sum_deals);
    // and the remaining quantity on the books agrees with the arena
    let orb = me.book(1).unwrap();
    let mut book_remain: u64 = 0;
    for buy in [true, false] {
        let mut pv = orb.pv_iter(buy, &me.pool);
        while let Some((_, v)) = pv.next() {
            book_remain += v as u64;
        }
    }
    assert_eq!(sum_qty, book_remain + sum_deals);
}

#[test]
fn match_depth() {
    let mut me = MatchEngine::new();
    assert!(me.begin_market());
    assert!(me.start_market());
    assert_eq!(me.build_orders(1, ORDERS1.as_bytes()).len(), 12);
    let orb = me.book(1).unwrap();
    // bids at or above 43800: 50 @44000 + 25 @43900 + 15 @43800
    assert_eq!(get_match_qty(orb, &me.pool, true, 43800, 1000), 90);
    // stop as soon as the requested depth is covered
    assert_eq!(get_match_qty(orb, &me.pool, true, 41000, 30), 50);
    // asks at or below 43500: 45 @43500 + 10 @43200 + 20 @43200
    assert_eq!(get_match_qty(orb, &me.pool, false, 43500, 1000), 75);
}

#[test]
fn load_plain_orders() {
    let mut me = MatchEngine::new();
    assert!(me.begin_market());
    assert!(me.start_market());
    assert!(me.load_orders(1, ORDERS1.as_bytes(), false));
    assert_eq!(me.pool.len(), 12);
    assert_eq!(me.match_cross(1, 40000), Some((43900, 75, 0)));
    // malformed lines are skipped silently
    let mut me2 = MatchEngine::new();
    assert!(me2.begin_market());
    assert!(me2.start_market());
    assert!(me2.load_orders(1, b"junk\n1,42000,10,1\n,,,\n", false));
    assert_eq!(me2.pool.len(), 1);
    // outside a booking window nothing loads
    let mut me3 = MatchEngine::new();
    assert!(!me3.load_orders(1, ORDERS1.as_bytes(), false));
    assert_eq!(me3.pool.len(), 0);
    // bytes that are not text are rejected
    let mut me4 = MatchEngine::new();
    assert!(me4.begin_market());
    assert!(me4.start_market());
    assert!(!me4.load_orders(1, &[0xff, 0xfe, 0x00], false));
    assert_eq!(me4.pool.len(), 0);
}

#[test]
fn load_compressed_orders() {
    let packed = zstd::stream::encode_all(ORDERS1.as_bytes(), 3).unwrap();
    let mut me = MatchEngine::new();
    assert!(me.begin_market());
    assert!(me.start_market());
    assert!(me.load_orders(1, packed.as_slice(), true));
    assert_eq!(me.pool.len(), 12);
    assert_eq!(me.match_cross(1, 40000), Some((43900, 75, 0)));
    // bytes that are no zstd stream are rejected
    let mut me2 = MatchEngine::new();
    assert!(me2.begin_market());
    assert!(me2.start_market());
    assert!(!me2.load_orders(1, b"not compressed", true));
    assert_eq!(me2.pool.len(), 0);
}
