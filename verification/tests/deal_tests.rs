use match_engine::deal::{Deal, DealPool};
use match_engine::deal_log as dl;
use match_engine::deal_log::Deals;

#[test]
fn test_dealv() {
    let mut deals = DealPool::new();
    let deals1 = vec![
        Deal::new(1, 0, 4, 43500, 45),
        Deal::new(2, 0, 8, 43500, 45),
        Deal::new(3, 0, 4, 43500, 5),
        Deal::new(0, 0, 0, 0, 0),
    ];
    for de in &deals1 {
        if de.no() == 0 {
            break;
        }
        deals.push_deal(de.oid(), de.price(), de.qty());
    }
    assert!(deals.eq(&deals1));
}

#[test]
fn deal_test_dealv() {
    let mut deals = Deals::new();
    let deals1 = vec![
        dl::Deal::new(1, 4, 43500, 45),
        dl::Deal::new(2, 8, 43500, 45),
        dl::Deal::new(3, 4, 43500, 5),
        dl::Deal::new(0, 0, 0, 0),
    ];
    for de in &deals1 {
        if de.no() == 0 {
            break;
        }
        deals.push_deal(de.oid(), de.price(), de.qty());
    }
    assert!(deals.eq(&deals1));
}

#[test]
fn deal_log_numbering() {
    // the tape is strictly monotonic in `no`, starting from 1, with no gaps
    let mut deals = DealPool::new();
    deals.new_match();
    assert!(deals.push_deal(4, 43500, 45));
    assert!(deals.push_deal(8, 43500, 45));
    deals.new_match();
    assert!(deals.push_deal(9, 43200, 5));
    for no in 1..=3u64 {
        let d = deals.get(no).unwrap();
        assert_eq!(d.no(), no);
    }
    assert!(deals.get(0).is_none());
    assert!(deals.get(4).is_none());
    assert_eq!(deals.get(1).unwrap().mid(), 1);
    assert_eq!(deals.get(2).unwrap().mid(), 1);
    assert_eq!(deals.get(3).unwrap().mid(), 2);
    deals.clear();
    assert!(deals.get(1).is_none());
}
