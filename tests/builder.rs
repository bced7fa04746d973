use timely::builder::{OperatorBuilder, Pact, Scope, Stream};
use timely::operator::{CapabilityError, SharedProgress};
use timely::order::Product;
use timely::antichain::Antichain;
use timely::change_batch::ChangeBatch;

fn scope() -> Scope {
    Scope::new(vec![0], 1, 0)
}

#[test]
fn correct_capabilities() {
    let mut scope = scope();
    let mut builder = OperatorBuilder::new("Failure".to_owned(), &mut scope);
    let (output1, _stream1) = builder.new_output();
    let (output2, _stream2) = builder.new_output();
    let (mut op, capabilities) = builder.build(|caps| caps);
    assert_eq!(capabilities.len(), 2);
    assert_eq!(op.give(output1, &capabilities[0], 1), Ok(()));
    assert_eq!(op.give(output2, &capabilities[1], 1), Ok(()));
}

#[test]
fn builder_allocates_indices_and_addresses() {
    let mut scope = Scope::new(vec![3], 2, 10);
    let first = OperatorBuilder::new("a".to_owned(), &mut scope);
    let second = OperatorBuilder::new("b".to_owned(), &mut scope);
    assert_eq!(first.index(), 1);
    assert_eq!(second.index(), 2);
    assert_eq!(first.global(), 10);
    assert_eq!(second.global(), 11);
    let info = second.operator_info();
    assert_eq!(info.local_id, 2);
    assert_eq!(info.global_id, 11);
    assert_eq!(info.address, vec![3, 2]);
    assert_eq!(second.shape().name(), "b");
    assert_eq!(second.shape().peers(), 2);
}

#[test]
fn builder_counts_ports_and_notify() {
    let mut scope = scope();
    let mut builder = OperatorBuilder::new("ports".to_owned(), &mut scope);
    assert!(builder.shape().notify());
    builder.set_notify(false);
    assert!(!builder.shape().notify());
    let source = Stream { operator: 7, port: 0 };
    assert_eq!(builder.new_input(&source, Pact::Pipeline), 0);
    let (o, s) = builder.new_output();
    assert_eq!(o, 0);
    assert_eq!(s, Stream { operator: 1, port: 0 });
    assert_eq!(builder.new_input_connection(&source, Pact::Exchange, vec![(0, Antichain::new())]), 1);
    let (o2, _) = builder.new_output_connection(vec![(1, Antichain::from_elem(Product::new(0, 1)))]);
    assert_eq!(o2, 1);
    assert_eq!(builder.shape().inputs(), 2);
    assert_eq!(builder.shape().outputs(), 2);
}

#[test]
fn build_reschedule_heeds_answer() {
    let mut scope = scope();
    let mut builder = OperatorBuilder::new("again".to_owned(), &mut scope);
    builder.new_output();
    let (op, _caps) = builder.build_reschedule(|caps| caps);
    assert!(op.reschedule(true));
    assert!(!op.reschedule(false));
    let mut scope2 = Scope::new(vec![0], 1, 0);
    let mut builder2 = OperatorBuilder::new("once".to_owned(), &mut scope2);
    builder2.new_output();
    let (op2, _caps2) = builder2.build(|caps| caps);
    assert!(!op2.reschedule(true));
}

#[test]
fn initial_capability_is_live_at_minimum() {
    let mut scope = scope();
    let mut builder = OperatorBuilder::new("caps".to_owned(), &mut scope);
    builder.new_output();
    let (op, caps) = builder.build(|caps| caps);
    assert_eq!(caps[0].time(), Product::minimum());
    assert_eq!(caps[0].port(), 0);
    assert_eq!(op.held(0, &Product::minimum()), 1);
    let mut progress = SharedProgress::new(0, 1);
    let mut op = op;
    op.publish(&mut progress);
    assert!(progress.internals[0].is_empty());
}

#[test]
fn delayed_and_dropped_capabilities_are_published() {
    let mut scope = scope();
    let mut builder = OperatorBuilder::new("delay".to_owned(), &mut scope);
    builder.new_output();
    let (mut op, mut caps) = builder.build(|caps| caps);
    let cap = caps.pop().unwrap();
    let later = op.delayed(&cap, Product::new(3, 0)).unwrap();
    assert_eq!(later.time(), Product::new(3, 0));
    assert_eq!(op.delayed(&later, Product::new(2, 0)).err(), Some(CapabilityError::NotLater));
    assert_eq!(op.drop_capability(cap), Ok(()));
    assert_eq!(op.held(0, &Product::minimum()), 0);
    let mut progress = SharedProgress::new(0, 1);
    op.publish(&mut progress);
    assert_eq!(progress.internals[0].get(&Product::new(3, 0)), 1);
    assert_eq!(progress.internals[0].get(&Product::minimum()), -1);
    let stale = op.delayed(&later, Product::new(4, 0)).unwrap();
    assert_eq!(op.drop_capability(later), Ok(()));
    assert_eq!(op.drop_capability(stale), Ok(()));
    assert!(op.holds_nothing());
}

#[test]
fn dropped_capability_cannot_produce() {
    let mut scope = scope();
    let mut builder = OperatorBuilder::new("spent".to_owned(), &mut scope);
    builder.new_output();
    let (mut op, mut caps) = builder.build(|caps| caps);
    let cap = caps.pop().unwrap();
    let copy = op.delayed(&cap, Product::minimum()).unwrap();
    assert_eq!(op.drop_capability(cap), Ok(()));
    assert_eq!(op.give(0, &copy, 2), Ok(()));
    assert_eq!(op.drop_capability(copy), Ok(()));
    let mut other = OperatorBuilder::new("other".to_owned(), &mut scope);
    other.new_output();
    let (_op2, caps2) = other.build(|caps| caps);
    assert_eq!(op.give(0, &caps2[0], 1), Err(CapabilityError::NotHeld));
}

#[test]
fn produced_and_consumed_counts_are_published() {
    let mut scope = scope();
    let mut builder = OperatorBuilder::new("count".to_owned(), &mut scope);
    builder.new_input(&Stream { operator: 0, port: 0 }, Pact::Pipeline);
    builder.new_output();
    let (mut op, caps) = builder.build(|caps| caps);
    assert_eq!(op.give(0, &caps[0], 5), Ok(()));
    assert_eq!(op.consume(0, Product::new(1, 0), 4), Ok(()));
    let mut progress = SharedProgress::new(1, 1);
    op.publish(&mut progress);
    assert_eq!(progress.produceds[0].get(&Product::minimum()), 5);
    assert_eq!(progress.consumeds[0].get(&Product::new(1, 0)), 4);
    op.publish(&mut progress);
    assert_eq!(progress.produceds[0].get(&Product::minimum()), 5);
}

#[test]
fn frontiers_refresh_from_progress() {
    let mut scope = scope();
    let mut builder = OperatorBuilder::new("front".to_owned(), &mut scope);
    builder.new_input(&Stream { operator: 0, port: 0 }, Pact::Pipeline);
    let (mut op, _caps) = builder.build(|caps| caps);
    let mut progress = SharedProgress::new(1, 0);
    progress.frontiers[0].update(Product::new(2, 0), 1);
    assert!(op.refresh_frontiers(&mut progress));
    assert_eq!(op.frontiers()[0].frontier(), &vec![Product::new(2, 0)]);
    assert!(progress.frontiers[0].is_empty());
    assert!(!op.refresh_frontiers(&mut progress));
    let mut batch = ChangeBatch::new();
    batch.update(Product::new(2, 0), -1);
    batch.update(Product::new(5, 0), 1);
    batch.drain_into(&mut progress.frontiers[0]);
    assert!(op.refresh_frontiers(&mut progress));
    assert_eq!(op.frontiers()[0].frontier(), &vec![Product::new(5, 0)]);
}
