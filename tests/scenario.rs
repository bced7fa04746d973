use timely::builder::{OperatorBuilder, Pact, Scope};
use timely::channel::Channel;
use timely::operator::SharedProgress;
use timely::order::Product;
use timely::routing::RecordMap;

#[test]
fn channel_counts_pushed_and_pulled() {
    let mut c: Channel<u64> = Channel::new();
    let t = Product::new(1, 0);
    assert_eq!(c.push(t, vec![1, 2, 3]), Ok(()));
    assert_eq!(c.push(Product::minimum(), vec![9]), Ok(()));
    assert_eq!(c.pushed_count(&t), 3);
    assert_eq!(c.pull(), Some((t, vec![1, 2, 3])));
    assert_eq!(c.pulled_count(&t), 3);
    assert_eq!(c.pull(), Some((Product::minimum(), vec![9])));
    assert_eq!(c.pull(), None);
    assert_eq!(c.pushed_count(&Product::minimum()), c.pulled_count(&Product::minimum()));
}

#[test]
fn single_worker_map_plus_one() {
    let mut scope = Scope::new(vec![0], 1, 0);
    let mut input = OperatorBuilder::new("input".to_owned(), &mut scope);
    let (_, stream) = input.new_output();
    let (mut input_op, mut input_caps) = input.build(|caps| caps);
    let mut map = OperatorBuilder::new("map".to_owned(), &mut scope);
    map.new_input(&stream, Pact::Pipeline);
    map.new_output();
    let (mut map_op, mut map_caps) = map.build(|caps| caps);

    let mut edge: Channel<u64> = Channel::new();
    let mut capture: Channel<u64> = Channel::new();
    let t = Product::minimum();

    // The input's capability holds the map's input frontier at the minimum.
    let mut map_progress = SharedProgress::new(1, 1);
    map_progress.frontiers[0].update(t, 1);
    assert!(map_op.refresh_frontiers(&mut map_progress));
    assert_eq!(map_op.frontiers()[0].frontier(), &vec![t]);

    let records: Vec<u64> = (0..10).collect();
    assert_eq!(input_op.give(0, &input_caps[0], records.len() as u32), Ok(()));
    assert_eq!(edge.push(t, records), Ok(()));

    while let Some((time, batch)) = edge.pull() {
        assert_eq!(map_op.consume(0, time, batch.len() as u32), Ok(()));
        let out = batch.map(|x: u64| x + 1);
        assert_eq!(map_op.give(0, &map_caps[0], out.len() as u32), Ok(()));
        assert_eq!(capture.push(time, out), Ok(()));
    }

    let mut captured = Vec::new();
    while let Some((_, batch)) = capture.pull() {
        captured.extend(batch);
    }
    assert_eq!(captured, (1..11).collect::<Vec<u64>>());

    // The input closes: its capability goes, and the map's frontier drains.
    let cap = input_caps.pop().unwrap();
    assert_eq!(input_op.drop_capability(cap), Ok(()));
    let mut input_progress = SharedProgress::new(0, 1);
    input_op.publish(&mut input_progress);
    assert_eq!(input_progress.produceds[0].get(&t), 10);
    input_progress.internals[0].drain_into(&mut map_progress.frontiers[0]);
    assert!(map_op.refresh_frontiers(&mut map_progress));
    assert!(map_op.frontiers()[0].is_empty());

    let cap = map_caps.pop().unwrap();
    assert_eq!(map_op.drop_capability(cap), Ok(()));
    map_op.publish(&mut map_progress);
    assert_eq!(map_progress.consumeds[0].get(&t), 10);
    assert_eq!(map_progress.produceds[0].get(&t), 10);
    assert_eq!(edge.pushed_count(&t), edge.pulled_count(&t));
}
