use zeusi::ranking::{dashboard_stats, tri_tri};
use zeusi::server::{
    find_random, on_worker_line, random_vector, record_result, remove_worker, result_of_line,
    stats_snapshot, worker_from_connect_line, create_vector,
};
use zeusi::types::{AlgoType, StatsMessage};
use zeusi::worker::{algo_fits, algo_from_name, worker_reply};

fn stats(name: &str, algo: AlgoType, time: u128, count: u64) -> StatsMessage {
    StatsMessage { name: name.to_string(), type_algo: algo, result: (time, count) }
}

#[test]
fn generator_steps() {
    let mut seed: u128 = 0;
    assert_eq!(find_random(&mut seed), 223);
    assert_eq!(seed, 1013904223);
    let mut seed2: u128 = 1013904223;
    let expected_state = (1013904223u128 * 1664525 + 1013904223) % 4294967296;
    assert_eq!(find_random(&mut seed2), (expected_state % 1000) as u64);
    assert_eq!(seed2, expected_state);
}

#[test]
fn random_vector_follows_generator() {
    let v = random_vector(3, 0);
    let mut seed: u128 = 0;
    let expected: Vec<u64> = (0..3).map(|_| find_random(&mut seed)).collect();
    assert_eq!(v, expected);
    assert!(random_vector(0, 5).is_empty());
}

#[test]
fn create_vector_has_length() {
    let v = create_vector(50);
    assert_eq!(v.len(), 50);
    assert!(v.iter().all(|x| *x < 1000));
}

#[test]
fn connect_line_registers_worker() {
    let s = worker_from_connect_line(&"CONNECT|Alice|INSERTION\n".to_string());
    assert_eq!(s.name, "Alice");
    assert_eq!(s.type_algo, AlgoType::Insertionsort);
    assert_eq!(s.result, (0, 0));
    let d = worker_from_connect_line(&"CONNECT|Dash|Dash\n".to_string());
    assert_eq!(d.type_algo, AlgoType::Bubblesort);
}

#[test]
fn result_lines() {
    assert_eq!(result_of_line(&"RESULT|120|6\n".to_string()), Some((120, 6)));
    assert_eq!(result_of_line(&"HELLO\n".to_string()), None);
}

#[test]
fn record_updates_first_match() {
    let mut list = vec![
        (stats("A", AlgoType::Bubblesort, 0, 0), 1u8),
        (stats("B", AlgoType::Mergesort, 0, 0), 2u8),
        (stats("B", AlgoType::Mergesort, 0, 0), 3u8),
    ];
    record_result(&mut list, &"B".to_string(), (5, 9));
    assert_eq!(list[0].0.result, (0, 0));
    assert_eq!(list[1].0.result, (5, 9));
    assert_eq!(list[1].1, 2);
    assert_eq!(list[2].0.result, (0, 0));
    record_result(&mut list, &"Z".to_string(), (1, 1));
    assert_eq!(list[0].0.result, (0, 0));
}

#[test]
fn snapshot_leaves_out_dashboard() {
    let list = vec![
        (stats("Dash", AlgoType::Bubblesort, 0, 0), ()),
        (stats("A", AlgoType::Mergesort, 3, 4), ()),
    ];
    let snap = stats_snapshot(&list);
    assert_eq!(snap.len(), 1);
    assert_eq!(snap[0].name, "A");
    assert_eq!(snap[0].result, (3, 4));
}

#[test]
fn removing_worker_keeps_others() {
    let mut list = vec![
        (stats("A", AlgoType::Bubblesort, 0, 0), 'a'),
        (stats("B", AlgoType::Mergesort, 0, 0), 'b'),
        (stats("A", AlgoType::Mergesort, 0, 0), 'c'),
        (stats("C", AlgoType::Mergesort, 0, 0), 'd'),
    ];
    remove_worker(&mut list, &"A".to_string());
    let tags: Vec<char> = list.iter().map(|e| e.1).collect();
    assert_eq!(tags, vec!['b', 'd']);
}

#[test]
fn worker_line_updates_and_reports() {
    let mut list = vec![
        (stats("Dash", AlgoType::Bubblesort, 0, 0), ()),
        (stats("A", AlgoType::Mergesort, 0, 0), ()),
    ];
    let out = on_worker_line(&mut list, &"A".to_string(), &"RESULT|77|12\n".to_string());
    assert_eq!(out.len(), 1);
    assert_eq!(out[0].result, (77, 12));
    let again = on_worker_line(&mut list, &"A".to_string(), &"PING\n".to_string());
    assert_eq!(again[0].result, (77, 12));
}

#[test]
fn ranking_is_stable_by_time() {
    let mut v = vec![
        stats("slow", AlgoType::Bubblesort, 30, 0),
        stats("first", AlgoType::Mergesort, 10, 0),
        stats("mid", AlgoType::Insertionsort, 20, 0),
        stats("second", AlgoType::Mergesort, 10, 0),
    ];
    tri_tri(&mut v);
    let names: Vec<&str> = v.iter().map(|s| s.name.as_str()).collect();
    assert_eq!(names, vec!["first", "second", "mid", "slow"]);
    let mut empty: Vec<StatsMessage> = vec![];
    tri_tri(&mut empty);
    assert!(empty.is_empty());
}

#[test]
fn worker_replies_to_arrays() {
    let reply = worker_reply(&"TAB|5|3|8|1\n".to_string(), AlgoType::Bubblesort, &"W".to_string()).unwrap();
    assert!(reply.starts_with("RESULT|"));
    assert!(reply.ends_with("|6\n"));
    let reply = worker_reply(&"TAB|5|3|8|1\n".to_string(), AlgoType::Insertionsort, &"W".to_string()).unwrap();
    assert!(reply.ends_with("|7\n"));
    let reply = worker_reply(&"TAB|5|3|8|1\n".to_string(), AlgoType::Mergesort, &"W".to_string()).unwrap();
    assert!(reply.ends_with("|5\n"));
    assert!(worker_reply(&"STAT|A|MERGE|1|2\n".to_string(), AlgoType::Mergesort, &"W".to_string()).is_none());
}

#[test]
fn algo_names_from_arguments() {
    assert_eq!(algo_from_name("MERGE"), AlgoType::Mergesort);
    assert_eq!(algo_from_name("INSERTION"), AlgoType::Insertionsort);
    assert_eq!(algo_from_name("BUBBLE"), AlgoType::Bubblesort);
    assert_eq!(algo_from_name("merge"), AlgoType::Bubblesort);
}

#[test]
fn dashboard_reads_statistics() {
    let v = dashboard_stats(&"STAT|A|MERGE|5|6\n".to_string()).unwrap();
    assert_eq!(v.len(), 1);
    assert_eq!(v[0].name, "A");
    assert!(dashboard_stats(&"RESULT|1|2\n".to_string()).is_none());
}

#[test]
fn algo_fits_by_length() {
    assert!(algo_fits(AlgoType::Insertionsort, 0));
    assert!(!algo_fits(AlgoType::Bubblesort, 0));
    assert!(!algo_fits(AlgoType::Mergesort, 0));
    assert!(algo_fits(AlgoType::Bubblesort, 10000));
    assert!(algo_fits(AlgoType::Mergesort, 4294967295));
    assert!(!algo_fits(AlgoType::Mergesort, 4294967296));
}
