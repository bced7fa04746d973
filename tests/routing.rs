use timely::routing::{route, Exchange, RecordMap};
use timely::wire::{decode, encode, frame, read_header, MessageHeader};

#[test]
fn route_takes_remainder() {
    assert_eq!(route(10, 4), 2);
    assert_eq!(route(3, 1), 0);
}

#[test]
fn exchange_sends_each_record_to_its_worker() {
    let data: Vec<u64> = (0..8).collect();
    let parts = data.exchange(4, |x: &u64| *x);
    assert_eq!(parts.len(), 4);
    assert_eq!(parts[0], vec![0, 4]);
    assert_eq!(parts[1], vec![1, 5]);
    assert_eq!(parts[2], vec![2, 6]);
    assert_eq!(parts[3], vec![3, 7]);
}

#[test]
fn exchange_across_four_workers_counts_eight_each() {
    let mut received = vec![0usize; 4];
    for _worker in 0..4 {
        let data: Vec<u64> = (0..8).collect();
        let parts = data.exchange(4, |x: &u64| *x);
        for (w, part) in parts.iter().enumerate() {
            for k in part {
                assert_eq!(*k as usize % 4, w);
            }
            received[w] += part.len();
        }
    }
    assert_eq!(received, vec![8, 8, 8, 8]);
    assert_eq!(received.iter().sum::<usize>(), 32);
}

#[test]
fn map_adds_one() {
    let data: Vec<u64> = (0..10).collect();
    let out = data.map(|x: u64| x + 1);
    assert_eq!(out, (1..11).collect::<Vec<u64>>());
}

#[test]
fn flat_map_concatenates() {
    let data: Vec<u64> = vec![0, 1, 2, 3];
    let out = data.flat_map(|x: u64| (0..x).collect::<Vec<u64>>());
    assert_eq!(out, vec![0, 0, 1, 0, 1, 2]);
}

#[test]
fn container_round_trip() {
    let records: Vec<u64> = vec![0, 1, 255, 256, u64::MAX, 0x0102030405060708];
    let bytes = encode(&records);
    assert_eq!(bytes.len(), 48);
    assert_eq!(&bytes[40..48], &[8, 7, 6, 5, 4, 3, 2, 1]);
    assert_eq!(decode(&bytes), Some(records));
    assert_eq!(decode(&vec![1, 2, 3]), None);
    assert_eq!(decode(&Vec::new()), Some(Vec::new()));
}

#[test]
fn framed_header_reads_back() {
    let payload = vec![9u8, 8, 7];
    let bytes = frame(5, 1, 2, &payload);
    assert_eq!(bytes.len(), 35);
    assert_eq!(read_header(&bytes), Some(MessageHeader { channel: 5, source: 1, target: 2, length: 3 }));
    assert_eq!(&bytes[32..], &[9, 8, 7]);
    assert_eq!(read_header(&vec![0u8; 31]), None);
}

use timely::change_batch::ChangeBatch;
use timely::observer::{Capture, Observer, ObserverHelper, OutputPort, OutputPortFlattener};
use timely::order::Product;

fn values(c: &Capture<u64>) -> Vec<u64> {
    c.records().iter().map(|(_, d)| *d).collect()
}

#[test]
fn flattener_passes_records_in_order_and_stashes_batches() {
    let mut flat = OutputPortFlattener::new(Capture::new(), Vec::new());
    flat.open(&Product::new(1, 0));
    flat.give(vec![3, 1, 2]);
    flat.show(&vec![7]);
    flat.shut(&Product::new(1, 0));
    assert_eq!(values(flat.inner()), vec![3, 1, 2, 7]);
    assert_eq!(flat.inner().records()[0], (Product::new(1, 0), 3));
    assert_eq!(flat.inner().opened(), &vec![Product::new(1, 0)]);
    assert_eq!(flat.inner().closed(), &vec![Product::new(1, 0)]);
    assert_eq!(flat.take_stashed(), Some(Vec::new()));
    assert_eq!(flat.take_stashed(), None);
}

#[test]
fn observer_helper_counts_records_per_time() {
    let mut helper = ObserverHelper::new(Capture::new());
    helper.open(&Product::new(2, 0));
    helper.give(4);
    helper.show(&5);
    helper.shut(&Product::new(2, 0));
    helper.give(6);
    helper.shut(&Product::new(3, 0));
    assert_eq!(values(helper.inner()), vec![4, 5, 6]);
    assert_eq!(helper.inner().opened().len(), 1);
    assert_eq!(helper.inner().closed(), &vec![Product::new(2, 0), Product::new(3, 0)]);
    let mut updates = ChangeBatch::new();
    helper.pull_progress(&mut updates);
    assert_eq!(updates.get(&Product::new(2, 0)), 2);
    assert_eq!(updates.get(&Product::new(3, 0)), 1);
    let mut again = ChangeBatch::new();
    helper.pull_progress(&mut again);
    assert!(again.is_empty());
}

#[test]
fn output_port_hands_batches_to_every_observer() {
    let mut port: OutputPort<u64, OutputPortFlattener<Capture<u64>>> = OutputPort::new();
    port.add_observer(OutputPortFlattener::new(Capture::new(), Vec::new()));
    port.add_observer(OutputPortFlattener::new(Capture::new(), Vec::new()));
    port.open(&Product::minimum());
    for x in 0..256u64 {
        port.give(x);
    }
    assert!(port.observers()[0].inner().records().is_empty());
    port.give(256);
    assert_eq!(port.observers()[0].inner().records().len(), 257);
    assert_eq!(port.observers()[1].inner().records().len(), 257);
    for x in 257..300u64 {
        port.show(&x);
    }
    port.shut(&Product::minimum());
    let expected: Vec<u64> = (0..300).collect();
    for o in port.observers() {
        assert_eq!(values(o.inner()), expected);
        assert_eq!(o.inner().opened().len(), 1);
        assert_eq!(o.inner().closed().len(), 1);
    }
}
