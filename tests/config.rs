use timely::config::{Config, ConfigError, WorkerBuilder};

#[test]
fn one_thread_by_default() {
    let c = Config::from_values(1, 0, 1, false, false, None).unwrap();
    assert!(matches!(c, Config::Thread));
    assert_eq!(c.try_build().unwrap(), vec![WorkerBuilder::Thread]);
}

#[test]
fn several_threads_make_a_process() {
    let c = Config::from_values(3, 0, 1, false, false, None).unwrap();
    assert!(matches!(c, Config::Process(3)));
    let b = c.try_build().unwrap();
    assert_eq!(b[2], WorkerBuilder::Process { index: 2, peers: 3 });
    let z = Config::from_values(2, 0, 1, false, true, None).unwrap();
    assert!(matches!(z, Config::ProcessBinary(2)));
    assert_eq!(z.try_build().unwrap()[1], WorkerBuilder::ProcessBinary { index: 1, peers: 2 });
}

#[test]
fn cluster_gets_local_addresses() {
    let c = Config::from_values(2, 1, 2, false, true, None).unwrap();
    match &c {
        Config::Cluster { threads, process, addresses, report, zerocopy } => {
            assert_eq!(*threads, 2);
            assert_eq!(*process, 1);
            assert_eq!(addresses, &vec!["localhost:2101".to_string(), "localhost:2102".to_string()]);
            assert!(!*report);
            assert!(*zerocopy);
        },
        _ => panic!("expected a cluster"),
    }
    let b = c.try_build().unwrap();
    assert_eq!(b, vec![
        WorkerBuilder::ZeroCopyBinary { index: 2, peers: 4 },
        WorkerBuilder::ZeroCopyBinary { index: 3, peers: 4 },
    ]);
}

#[test]
fn cluster_takes_listed_hosts() {
    let hosts = vec!["a:1".to_string(), "b:2".to_string(), "c:3".to_string()];
    let c = Config::from_values(1, 0, 2, true, false, Some(hosts)).unwrap();
    match &c {
        Config::Cluster { addresses, report, .. } => {
            assert_eq!(addresses, &vec!["a:1".to_string(), "b:2".to_string()]);
            assert!(*report);
        },
        _ => panic!("expected a cluster"),
    }
    assert_eq!(c.try_build().unwrap(), vec![WorkerBuilder::ZeroCopy { index: 0, peers: 2 }]);
}

#[test]
fn too_few_hosts_is_an_error() {
    let r = Config::from_values(1, 0, 3, false, false, Some(vec!["a:1".to_string()]));
    assert_eq!(r.err(), Some(ConfigError::TooFewAddresses { read: 1, wanted: 3 }));
}

#[test]
fn bad_process_index_is_an_error() {
    let c = Config::Cluster { threads: 1, process: 2, addresses: vec!["a".to_string()], report: false, zerocopy: false };
    assert_eq!(c.try_build().err(), Some(ConfigError::BadProcessIndex { process: 2, processes: 1 }));
}

#[test]
fn too_many_workers_is_an_error() {
    let c = Config::Cluster {
        threads: usize::MAX,
        process: 0,
        addresses: vec!["a".to_string(), "b".to_string()],
        report: false,
        zerocopy: false,
    };
    assert_eq!(c.try_build().err(), Some(ConfigError::TooManyWorkers));
}
