use timely::builder::{OperatorBuilder, Pact, Scope, Stream};
use timely::dataflow::Dataflow;

fn build_dataflow(scope: &mut Scope, id: usize) -> Dataflow {
    let mut dataflow = Dataflow::new(id);
    let mut input = OperatorBuilder::new("input".to_owned(), scope);
    let (_, stream) = input.new_output();
    let (input_op, _caps) = input.build(|caps| caps);
    dataflow.add_operator(input_op);
    let mut map = OperatorBuilder::new("map".to_owned(), scope);
    map.new_input(&stream, Pact::Pipeline);
    map.new_output();
    let (map_op, _caps) = map.build(|caps| caps);
    dataflow.add_operator(map_op);
    dataflow
}

#[test]
fn drop_dataflow_twice_is_a_no_op() {
    let mut scope = Scope::new(vec![0], 1, 0);
    let mut dataflow = build_dataflow(&mut scope, 0);
    assert!(!dataflow.holds_no_capabilities());
    let first = dataflow.drop_dataflow();
    assert_eq!(first.len(), 2);
    assert_eq!(first[0][0].get(&timely::order::Product::minimum()), -1);
    assert!(dataflow.is_dropped());
    assert!(dataflow.holds_no_capabilities());
    let second = dataflow.drop_dataflow();
    assert!(second.is_empty());
    assert!(dataflow.holds_no_capabilities());
}

#[test]
fn repeated_dataflows_leave_no_capabilities() {
    let mut scope = Scope::new(vec![0], 2, 0);
    for round in 0..1000usize {
        let mut dataflow = build_dataflow(&mut scope, round);
        assert_eq!(dataflow.id(), round);
        dataflow.drop_dataflow();
        assert!(dataflow.holds_no_capabilities());
    }
}

#[test]
fn edges_record_sources() {
    let mut scope = Scope::new(vec![0], 1, 0);
    let dataflow = build_dataflow(&mut scope, 4);
    assert_eq!(dataflow.operators().len(), 2);
    assert_eq!(dataflow.operators()[1].index(), 2);
    assert_eq!(dataflow.operators()[1].shape().inputs(), 1);
    let _ = Stream { operator: 1, port: 0 };
}
