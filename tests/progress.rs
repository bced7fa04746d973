use timely::antichain::Antichain;
use timely::change_batch::ChangeBatch;
use timely::mutable_antichain::MutableAntichain;
use timely::order::Product;

fn p(outer: u64, inner: u64) -> Product {
    Product::new(outer, inner)
}

#[test]
fn product_order_is_partial() {
    assert!(p(1, 2).less_equal(&p(1, 3)));
    assert!(!p(1, 2).less_equal(&p(0, 3)));
    assert!(!p(0, 3).less_equal(&p(1, 2)));
    assert!(Product::minimum().less_equal(&p(0, 0)));
}

#[test]
fn summaries_apply_and_compose() {
    assert_eq!(p(1, 0).results_in(&p(4, 2)), Some(p(5, 2)));
    assert_eq!(p(1, 0).results_in(&p(u64::MAX, 0)), None);
    assert_eq!(p(1, 0).followed_by(&p(0, 2)), Some(p(1, 2)));
}

#[test]
fn antichain_insert_removes_dominated() {
    let mut a = Antichain::new();
    assert!(a.is_empty());
    assert!(a.insert(p(2, 2)));
    assert!(a.insert(p(3, 1)));
    assert!(!a.insert(p(3, 3)));
    assert_eq!(a.elements().len(), 2);
    assert!(a.insert(p(1, 1)));
    assert_eq!(a.elements(), &vec![p(1, 1)]);
    assert!(a.less_equal(&p(5, 5)));
    assert!(!a.less_equal(&p(0, 5)));
    let b = a.duplicate();
    assert_eq!(b.elements(), a.elements());
}

#[test]
fn change_batch_consolidates() {
    let mut b = ChangeBatch::new();
    b.update(p(1, 0), 3);
    b.update(p(2, 0), 1);
    b.update(p(1, 0), -3);
    assert_eq!(b.to_vec(), vec![(p(2, 0), 1)]);
    assert_eq!(b.get(&p(1, 0)), 0);
    b.update(p(2, 0), -1);
    assert!(b.is_empty());
}

#[test]
fn change_batch_drain_moves_counts() {
    let mut a = ChangeBatch::new();
    a.update(p(1, 0), 2);
    let mut b = ChangeBatch::new();
    b.update(p(1, 0), 1);
    b.update(p(0, 0), -1);
    a.drain_into(&mut b);
    assert!(a.is_empty());
    assert_eq!(b.get(&p(1, 0)), 3);
    assert_eq!(b.get(&p(0, 0)), -1);
    let n = b.negated();
    assert_eq!(n.get(&p(1, 0)), -3);
    b.clear();
    assert!(b.is_empty());
}

#[test]
fn mutable_antichain_tracks_minimal_elements() {
    let mut m = MutableAntichain::new();
    assert!(m.is_empty());
    let mut u = ChangeBatch::new();
    u.update(p(2, 0), 1);
    u.update(p(0, 3), 1);
    u.update(p(3, 3), 1);
    let changes = m.update_iter(&u);
    assert_eq!(m.frontier().len(), 2);
    assert!(m.less_equal(&p(3, 3)));
    assert!(!m.less_equal(&p(1, 0)));
    assert_eq!(changes.get(&p(2, 0)), 1);
    assert_eq!(changes.get(&p(0, 3)), 1);
    assert_eq!(changes.get(&p(3, 3)), 0);
    let mut v = ChangeBatch::new();
    v.update(p(0, 3), -1);
    let changes = m.update_iter(&v);
    assert_eq!(m.frontier(), &vec![p(2, 0)]);
    assert_eq!(changes.get(&p(0, 3)), -1);
    assert_eq!(changes.get(&p(2, 0)), 0);
}

#[test]
fn frontier_does_not_retreat() {
    let mut m = MutableAntichain::new();
    let mut u = ChangeBatch::new();
    u.update(p(1, 1), 1);
    m.update_iter(&u);
    let mut v = ChangeBatch::new();
    v.update(p(1, 1), -1);
    v.update(p(2, 1), 1);
    v.update(p(1, 4), 1);
    m.update_iter(&v);
    for f in m.frontier() {
        assert!(p(1, 1).less_equal(f));
    }
    assert_eq!(m.frontier().len(), 2);
}

#[test]
fn frontier_drains_to_empty() {
    let mut m = MutableAntichain::new();
    let mut u = ChangeBatch::new();
    u.update(p(4, 0), 2);
    m.update_iter(&u);
    let mut v = ChangeBatch::new();
    v.update(p(4, 0), -2);
    let changes = m.update_iter(&v);
    assert!(m.is_empty());
    assert_eq!(changes.get(&p(4, 0)), -1);
}

#[test]
fn delay_by_one_advances_sink_frontier() {
    // An input at `t` passes a delay of one epoch before the sink.
    let delay = p(1, 0);
    let mut sink = MutableAntichain::new();
    let mut hold = ChangeBatch::new();
    hold.update(delay.results_in(&Product::minimum()).unwrap(), 1);
    sink.update_iter(&hold);
    for t in 0..5u64 {
        let mut step = ChangeBatch::new();
        step.update(delay.results_in(&p(t, 0)).unwrap(), -1);
        step.update(delay.results_in(&p(t + 1, 0)).unwrap(), 1);
        sink.update_iter(&step);
        assert_eq!(sink.frontier(), &vec![p(t + 2, 0)]);
    }
}
