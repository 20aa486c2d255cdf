use asa_graphs::element::ElementPool;
use asa_graphs::fixed::{INTERELEMENT_ACTIVATION_THRESHOLD, MICRO};
use rand::Rng;
use asa_graphs::graph::ASAGraph;
use asa_graphs::types::{ConnectionKind, DataCategory, SensorError};

fn act_f32<const ORDER: usize>(graph: &ASAGraph<ORDER>, eid: usize) -> f32 {
    graph.element(eid).unwrap().activation as f32 / MICRO as f32
}

#[test]
fn it_works() {
    let result = 2 + 2;
    assert_eq!(result, 4);
}

#[test]
fn create_empty_graph() {
    ASAGraph::<3>::new("test", DataCategory::Numerical);
}

#[test]
fn create_100_elements_graph() {
    let mut rng = rand::thread_rng();

    let start = std::time::Instant::now();

    let mut graph = Box::new(ASAGraph::<3>::new("test", DataCategory::Numerical));

    let n = 1_000;
    for _ in 0..n {
        let number: i32 = rng.gen();
        graph.insert(&number);
    }

    let duration = start.elapsed();

    println!("Time elapsed for ASAGraph insertion of {} elements is is: {:?}", n, duration);
}

#[test]
fn insert_3_degree() {
    let mut graph = ASAGraph::<3>::new("test", DataCategory::Numerical);

    for i in 1..=250 {
        graph.insert(&i);
    }

    for i in (150..=500).rev() {
        graph.insert(&i);
    }

    assert_eq!(graph.count_elements_unique(), 500);
    assert_eq!(graph.count_elements_agg(), 601);

    let root_first_key = graph.root_first_key().unwrap();
    assert_eq!(root_first_key, 128);
    assert_eq!(graph.key_min().unwrap(), 1);
    assert_eq!(graph.element(graph.element_min().unwrap()).unwrap().key, 1);
    assert_eq!(graph.key_max().unwrap(), 500);
    assert_eq!(graph.element(graph.element_max().unwrap()).unwrap().key, 500);

    println!("{}", graph.print_graph());
}

#[test]
fn insert_25_degree() {
    let mut graph = ASAGraph::<25>::new("test", DataCategory::Numerical);

    for i in 1..=250 {
        graph.insert(&i);
    }

    for i in (150..=500).rev() {
        graph.insert(&i);
    }

    assert_eq!(graph.count_elements_unique(), 500);
    assert_eq!(graph.count_elements_agg(), 601);

    let root_first_key = graph.root_first_key().unwrap();
    assert_eq!(root_first_key, 169);
    assert_eq!(graph.key_min().unwrap(), 1);
    assert_eq!(graph.element(graph.element_min().unwrap()).unwrap().key, 1);
    assert_eq!(graph.key_max().unwrap(), 500);
    assert_eq!(graph.element(graph.element_max().unwrap()).unwrap().key, 500);

    println!("{}", graph.print_graph());
}

#[test]
fn search() {
    let mut graph = ASAGraph::<3>::new("test", DataCategory::Numerical);

    let n = 100;
    for i in 0..n {
        graph.insert(&i);
    }

    for i in 0..n {
        let result = graph.search(&i);
        assert!(result.is_some());
        assert_eq!(graph.element(result.unwrap()).unwrap().key, i);
    }

    assert!(graph.search(&101).is_none());
    assert!(graph.search(&-1).is_none());
}

#[test]
fn test_connections() {
    let mut graph = ASAGraph::<3>::new("test", DataCategory::Numerical);

    let n = 50;
    for i in 1..=n {
        graph.insert(&i);
    }

    let mut current = graph.element_min().unwrap();
    for i in 1..=n {
        let element = graph.element(current).unwrap();
        assert_eq!(element.key, i);
        let prev = element.prev;
        let next = element.next;
        if i == 1 {
            assert!(prev.is_none());
            assert_eq!(graph.element(next.unwrap().to).unwrap().key, 2);
        } else if i == n {
            assert_eq!(graph.element(prev.unwrap().to).unwrap().key, n - 1);
            assert!(next.is_none());
            break;
        } else {
            assert_eq!(graph.element(prev.unwrap().to).unwrap().key, i - 1);
            assert_eq!(graph.element(next.unwrap().to).unwrap().key, i + 1);
        }
        current = next.unwrap().to;
    }
}

#[test]
fn test_connections_rev() {
    let mut graph = ASAGraph::<3>::new("test", DataCategory::Numerical);

    let n = 50;
    for i in (1..=n).rev() {
        graph.insert(&i);
    }

    let mut current = graph.element_min().unwrap();
    for i in 1..=n {
        let element = graph.element(current).unwrap();
        assert_eq!(element.key, i);
        let prev = element.prev;
        let next = element.next;
        if i == 1 {
            assert!(prev.is_none());
            assert_eq!(graph.element(next.unwrap().to).unwrap().key, 2);
        } else if i == n {
            assert_eq!(graph.element(prev.unwrap().to).unwrap().key, n - 1);
            assert!(next.is_none());
            break;
        } else {
            assert_eq!(graph.element(prev.unwrap().to).unwrap().key, i - 1);
            assert_eq!(graph.element(next.unwrap().to).unwrap().key, i + 1);
        }
        current = next.unwrap().to;
    }
}

#[test]
fn iterator_test() {
    let mut graph = ASAGraph::<3>::new("test", DataCategory::Numerical);
    let n = 50;
    for i in (0..=n).rev() {
        graph.insert(&i);
    }
    for (i, eid) in graph.ordered_elements().into_iter().enumerate() {
        assert_eq!(graph.element(eid).unwrap().key, i as i32);
    }
    assert_eq!(graph.key_min().unwrap(), 0i32);
}

#[test]
fn sensor() {
    assert_eq!(INTERELEMENT_ACTIVATION_THRESHOLD as f32 / MICRO as f32, 0.8f32);

    let mut graph = ASAGraph::<3>::new("test", DataCategory::Numerical);
    for i in (1..=9).rev() {
        graph.insert(&i);
    }

    assert_eq!(graph.name(), "test");
    assert_eq!(graph.data_category(), DataCategory::Numerical);

    let neurons = graph.activate(&5, MICRO, true, true);
    assert!(neurons.is_ok());
    assert_eq!(neurons.unwrap().neurons.len(), 0);

    for (i, eid) in graph.ordered_elements().into_iter().enumerate() {
        let activation = act_f32(&graph, eid);
        match i + 1 {
            1 => assert_eq!(activation, 0.0f32),
            2 => assert_eq!(activation, 0.0f32),
            3 => assert_eq!(activation, 0.765625f32),
            4 => assert_eq!(activation, 0.875f32),
            5 => assert_eq!(activation, 1.0f32),
            6 => assert_eq!(activation, 0.875f32),
            7 => assert_eq!(activation, 0.765625f32),
            8 => assert_eq!(activation, 0.0f32),
            9 => assert_eq!(activation, 0.0f32),
            _ => {},
        };
    }
    let result = graph.deactivate(&4, true, true);
    assert!(result.is_ok());
    for eid in graph.ordered_elements() {
        assert_eq!(act_f32(&graph, eid), 0.0f32);
    }

    let neurons = graph.activate(&5, MICRO, true, true);
    assert!(neurons.is_ok());
    for (i, eid) in graph.ordered_elements().into_iter().enumerate() {
        let activation = act_f32(&graph, eid);
        match i + 1 {
            1 => assert_eq!(activation, 0.0f32),
            2 => assert_eq!(activation, 0.0f32),
            3 => assert_eq!(activation, 0.765625f32),
            4 => assert_eq!(activation, 0.875f32),
            5 => assert_eq!(activation, 1.0f32),
            6 => assert_eq!(activation, 0.875f32),
            7 => assert_eq!(activation, 0.765625f32),
            8 => assert_eq!(activation, 0.0f32),
            9 => assert_eq!(activation, 0.0f32),
            _ => {},
        };
    }
    graph.deactivate_sensor();
    for eid in graph.ordered_elements() {
        assert_eq!(act_f32(&graph, eid), 0.0f32);
    }

    let neurons = graph.activate(&5, MICRO, false, false);
    assert!(neurons.is_ok());
    let neurons = graph.activate(&8, MICRO, false, false);
    assert!(neurons.is_ok());
    assert_eq!(neurons.unwrap().neurons.len(), 0);
    for (i, eid) in graph.ordered_elements().into_iter().enumerate() {
        let activation = act_f32(&graph, eid);
        match i + 1 {
            1 => assert_eq!(activation, 0.0f32),
            2 => assert_eq!(activation, 0.0f32),
            3 => assert_eq!(activation, 0.0f32),
            4 => assert_eq!(activation, 0.0f32),
            5 => assert_eq!(activation, 1.0f32),
            6 => assert_eq!(activation, 0.0f32),
            7 => assert_eq!(activation, 0.0f32),
            8 => assert_eq!(activation, 1.0f32),
            9 => assert_eq!(activation, 0.0f32),
            _ => {},
        };
    }
    let result = graph.deactivate(&5, false, false);
    assert!(result.is_ok());
    for (i, eid) in graph.ordered_elements().into_iter().enumerate() {
        let activation = act_f32(&graph, eid);
        let n = i + 1;
        if n == 8 {
            assert_eq!(activation, 1.0f32)
        } else {
            assert_eq!(activation, 0.0f32)
        }
    }
}

#[test]
fn element_set_connections() {
    let mut pool = ElementPool::new();
    let e1 = pool.create(1);
    let e2 = pool.create(2);
    let e3 = pool.create(3);

    assert!(pool.element(e1).unwrap().prev.is_none());
    assert!(pool.element(e1).unwrap().next.is_none());
    assert!(pool.element(e2).unwrap().prev.is_none());
    assert!(pool.element(e2).unwrap().next.is_none());
    assert!(pool.element(e3).unwrap().prev.is_none());
    assert!(pool.element(e3).unwrap().next.is_none());

    pool.set_connections(e2, Some(e1), None, 2);

    assert!(pool.element(e1).unwrap().prev.is_none());
    assert_eq!(
        pool.element(pool.element(e1).unwrap().next.unwrap().to).unwrap().key,
        pool.element(e2).unwrap().key
    );
    assert!(pool.element(e2).unwrap().next.is_none());
    assert!(pool.element(e3).unwrap().prev.is_none());
    assert!(pool.element(e3).unwrap().next.is_none());

    pool.set_connections(e2, None, Some(e3), 2);

    assert!(pool.element(e1).unwrap().prev.is_none());
    assert_eq!(
        pool.element(pool.element(e1).unwrap().next.unwrap().to).unwrap().key,
        pool.element(e2).unwrap().key
    );
    assert!(pool.element(e2).unwrap().prev.is_none());
    assert_eq!(
        pool.element(pool.element(e2).unwrap().next.unwrap().to).unwrap().key,
        pool.element(e3).unwrap().key
    );
    assert_eq!(
        pool.element(pool.element(e3).unwrap().prev.unwrap().to).unwrap().key,
        pool.element(e2).unwrap().key
    );
    assert!(pool.element(e3).unwrap().next.is_none());

    pool.set_connections(e1, None, None, 2);
    pool.set_connections(e2, None, None, 2);
    pool.set_connections(e3, None, None, 2);

    assert!(pool.element(e1).unwrap().prev.is_none());
    assert!(pool.element(e1).unwrap().next.is_none());
    assert!(pool.element(e2).unwrap().prev.is_none());
    assert!(pool.element(e2).unwrap().next.is_none());
    assert!(pool.element(e3).unwrap().prev.is_none());
    assert!(pool.element(e3).unwrap().next.is_none());
}

#[test]
fn element_parent_name() {
    let graph = ASAGraph::<3>::new("test", DataCategory::Numerical);
    assert_eq!(graph.name(), "test");
}

#[test]
fn empty_graph_behaviour() {
    let graph = ASAGraph::<3>::new("test", DataCategory::Numerical);
    assert!(graph.search(&7).is_none());
    assert!(graph.range().is_none());
    assert!(graph.key_min().is_none());
    assert!(graph.key_max().is_none());
    assert_eq!(graph.count_elements_unique(), 0);
    assert_eq!(graph.count_elements_agg(), 0);
}

#[test]
fn count_conservation() {
    let mut graph = ASAGraph::<3>::new("test", DataCategory::Numerical);
    let mut inserts = 0;
    for i in 0..40 {
        graph.insert(&(i % 10));
        inserts += 1;
    }
    assert_eq!(graph.count_elements_agg(), inserts);
    assert_eq!(graph.count_elements_unique(), 10);
}

#[test]
fn extrema_tracking() {
    let mut graph = ASAGraph::<3>::new("test", DataCategory::Numerical);
    for k in [5, -3, 12, 0, 12, -3, 44, -17] {
        graph.insert(&k);
    }
    assert_eq!(graph.key_min().unwrap(), -17);
    assert_eq!(graph.key_max().unwrap(), 44);
    assert_eq!(graph.element(graph.element_min().unwrap()).unwrap().key, -17);
    assert_eq!(graph.element(graph.element_max().unwrap()).unwrap().key, 44);
}

#[test]
fn weight_consistency() {
    let mut graph = ASAGraph::<3>::new("test", DataCategory::Numerical);
    for i in 1..=50 {
        graph.insert(&i);
    }
    // range = 49, every adjacent distance is 1: weight = 48/49 on both sides
    assert_eq!(graph.range().unwrap(), 49);
    let ids = graph.ordered_elements();
    for w in ids.windows(2) {
        let a = graph.element(w[0]).unwrap();
        let b = graph.element(w[1]).unwrap();
        let nw = a.next.unwrap().weight;
        let pw = b.prev.unwrap().weight;
        assert_eq!(nw.num, 48);
        assert_eq!(nw.den, 49);
        assert_eq!(pw.num, 48);
        assert_eq!(pw.den, 49);
    }
    // a spread-out insert: keys 0 and 100, then 90: edge 90-100 has weight 1 - 10/100
    let mut g2 = ASAGraph::<3>::new("test", DataCategory::Numerical);
    g2.insert(&0);
    g2.insert(&100);
    g2.insert(&90);
    let e90 = g2.search(&90).unwrap();
    let w = g2.element(e90).unwrap().next.unwrap().weight;
    assert_eq!(w.num, 90);
    assert_eq!(w.den, 100);
}

#[test]
fn chain_is_sorted() {
    let mut rng = rand::thread_rng();
    let mut graph = ASAGraph::<5>::new("test", DataCategory::Numerical);
    for _ in 0..200 {
        let number: i32 = rng.gen_range(-50..=50);
        graph.insert(&number);
    }
    let ids = graph.ordered_elements();
    for w in ids.windows(2) {
        assert!(graph.element(w[0]).unwrap().key < graph.element(w[1]).unwrap().key);
    }
}

#[test]
fn activation_roundtrip() {
    let mut graph = ASAGraph::<3>::new("test", DataCategory::Numerical);
    for i in 1..=9 {
        graph.insert(&i);
    }
    graph.activate(&5, MICRO, true, true).unwrap();
    graph.activate(&2, 3 * MICRO, false, false).unwrap();
    graph.deactivate_sensor();
    for eid in graph.ordered_elements() {
        assert_eq!(graph.element(eid).unwrap().activation, 0);
    }
}

#[test]
fn activation_errors() {
    let mut graph = ASAGraph::<3>::new("test", DataCategory::Categorical);
    graph.insert(&1);
    assert_eq!(
        graph.activate(&7, MICRO, true, true).unwrap_err(),
        SensorError::ActivationMissingCategorical(7)
    );

    let mut g2 = ASAGraph::<3>::new("test", DataCategory::Numerical);
    g2.insert(&1);
    assert_eq!(
        g2.activate(&7, MICRO, false, false).unwrap_err(),
        SensorError::ActivationMissingNonCategorical(7)
    );
    assert_eq!(
        g2.deactivate(&7, false, false).unwrap_err(),
        SensorError::DeactivationMissing(7)
    );
    // a numerical sensor inserts the missing key when propagating
    let before = g2.count_elements_unique();
    assert!(g2.activate(&7, MICRO, true, false).is_ok());
    assert_eq!(g2.count_elements_unique(), before + 1);
    assert_eq!(g2.element(g2.search(&7).unwrap()).unwrap().activation, MICRO);
}

#[test]
fn connections_and_harvest() {
    let mut graph = ASAGraph::<3>::new("test", DataCategory::Numerical);
    for i in 1..=9 {
        graph.insert(&i);
    }
    let e5 = graph.search(&5).unwrap();
    assert_eq!(
        graph.connect(e5, 77, ConnectionKind::Explanatory).unwrap_err(),
        SensorError::UnsupportedConnection
    );
    graph.connect(e5, 77, ConnectionKind::Defining).unwrap();
    let out = graph.activate(&5, MICRO, true, true).unwrap();
    assert_eq!(out.neurons, vec![77]);
    assert_eq!(out.source_activation, MICRO);
    let defs = graph.deactivate(&5, true, true).unwrap();
    assert_eq!(defs, vec![77]);
}

#[test]
fn simple_activation_accumulates() {
    let mut graph = ASAGraph::<3>::new("test", DataCategory::Numerical);
    graph.insert(&1);
    graph.activate(&1, MICRO / 2, false, false).unwrap();
    graph.activate(&1, MICRO / 4, false, false).unwrap();
    let eid = graph.search(&1).unwrap();
    assert_eq!(graph.element(eid).unwrap().activation, MICRO / 2 + MICRO / 4);
}

#[test]
fn print_graph() {
    let mut rng = rand::thread_rng();

    let mut graph = ASAGraph::<5>::new("test", DataCategory::Numerical);

    for _ in 0..50 {
        let number: i32 = rng.gen_range(1..=20);
        graph.insert(&number);
    }

    graph.print_graph();
}

#[test]
fn print_empty_graph() {
    let graph = ASAGraph::<3>::new("test", DataCategory::Numerical);
    assert_eq!(graph.print_graph(), "||| \n");
}

#[test]
fn print_small_graph() {
    let mut graph = ASAGraph::<3>::new("test", DataCategory::Numerical);
    for i in 1..=3 {
        graph.insert(&i);
    }
    graph.insert(&1);
    // root promoted key 2, leaves 1 (twice) and 3
    assert_eq!(graph.print_graph(), "||2:1|| \n||1:2|| ||3:1|| \n");
}

#[test]
fn sensor_identity() {
    let graph = ASAGraph::<3>::new("test", DataCategory::Ordinal);
    assert_eq!(graph.id(), "test");
    assert_eq!(graph.data_type(), asa_graphs::types::DataType::I32);
    assert_eq!(graph.data_category(), DataCategory::Ordinal);
}

#[test]
fn neuron_identity() {
    let mut graph = ASAGraph::<3>::new("test", DataCategory::Numerical);
    let eid = graph.insert(&-42);
    let id = graph.neuron_id(eid).unwrap();
    assert_eq!(id.id, "-42");
    assert_eq!(id.parent_id, "test");
    assert!(graph.neuron_id(usize::MAX).is_none());
}
