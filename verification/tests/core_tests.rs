use zeusi::protocol::{decode_message, tcp_to_typemessage, typemessage_to_tcp};
use zeusi::types::{AlgoType, StatsMessage, TypeMessage};

#[test]
fn it_works() {
    assert_eq!(4, 4);
}

fn stats(name: &str, algo: AlgoType, time: u128, count: u64) -> StatsMessage {
    StatsMessage { name: name.to_string(), type_algo: algo, result: (time, count) }
}

#[test]
fn algo_names() {
    assert_eq!(AlgoType::Bubblesort.to_string(), "BUBBLE");
    assert_eq!(AlgoType::Insertionsort.to_string(), "INSERTION");
    assert_eq!(AlgoType::Mergesort.to_string(), "MERGE");
}

#[test]
fn write_connect() {
    let m = TypeMessage::Connexion(("Alice".to_string(), AlgoType::Insertionsort));
    assert_eq!(typemessage_to_tcp(&m), Some("CONNECT|Alice|INSERTION\n".to_string()));
}

#[test]
fn write_tab() {
    let m = TypeMessage::Tab(vec![7, 0, 123456789]);
    assert_eq!(typemessage_to_tcp(&m), Some("TAB|7|0|123456789\n".to_string()));
    let empty = TypeMessage::Tab(vec![]);
    assert_eq!(typemessage_to_tcp(&empty), Some("TAB\n".to_string()));
}

#[test]
fn write_result() {
    let m = TypeMessage::Resultmessage((340282366920938463463374607431768211455, 18446744073709551615));
    assert_eq!(
        typemessage_to_tcp(&m),
        Some("RESULT|340282366920938463463374607431768211455|18446744073709551615\n".to_string())
    );
}

#[test]
fn write_stats() {
    let m = TypeMessage::Stats(vec![
        stats("Bob", AlgoType::Mergesort, 10, 20),
        stats("Eve", AlgoType::Bubblesort, 30, 40),
    ]);
    assert_eq!(typemessage_to_tcp(&m), Some("STAT|Bob|MERGE|10|20|Eve|BUBBLE|30|40\n".to_string()));
    assert_eq!(typemessage_to_tcp(&TypeMessage::Stats(vec![])), Some("STAT\n".to_string()));
}

fn read(line: &str) -> Option<TypeMessage> {
    tcp_to_typemessage(line.to_string())
}

#[test]
fn read_connect() {
    match read("CONNECT|Alice|INSERTION\n") {
        Some(TypeMessage::Connexion((name, algo))) => {
            assert_eq!(name, "Alice");
            assert_eq!(algo, AlgoType::Insertionsort);
        }
        _ => panic!("not a connection"),
    }
    match read("CONNECT|Alice|QUICK") {
        Some(TypeMessage::Connexion((_, algo))) => assert_eq!(algo, AlgoType::Bubblesort),
        _ => panic!("not a connection"),
    }
}

#[test]
fn read_tab() {
    match read("TAB|1|+2|003\n") {
        Some(TypeMessage::Tab(v)) => assert_eq!(v, vec![1, 2, 3]),
        _ => panic!("not an array"),
    }
    match read("TAB") {
        Some(TypeMessage::Tab(v)) => assert!(v.is_empty()),
        _ => panic!("not an array"),
    }
}

#[test]
fn read_result() {
    match read("RESULT|12|34 \n") {
        Some(TypeMessage::Resultmessage((t, c))) => {
            assert_eq!(t, 12);
            assert_eq!(c, 34);
        }
        _ => panic!("not a result"),
    }
}

#[test]
fn read_stats() {
    match read("STAT|Bob|MERGE|10|20|Eve|QUICK|30|40\n") {
        Some(TypeMessage::Stats(v)) => {
            assert_eq!(v.len(), 2);
            assert_eq!(v[0].name, "Bob");
            assert_eq!(v[0].type_algo, AlgoType::Mergesort);
            assert_eq!(v[0].result, (10, 20));
            assert_eq!(v[1].name, "Eve");
            assert_eq!(v[1].type_algo, AlgoType::Mergesort);
            assert_eq!(v[1].result, (30, 40));
        }
        _ => panic!("not statistics"),
    }
}

#[test]
fn read_unknown_keyword() {
    assert!(read("HELLO|1|2\n").is_none());
    assert!(read("TAB\n").is_none());
    assert!(read("STAT\n").is_none());
}

#[test]
fn decode_refuses_broken_lines() {
    assert!(decode_message(&"CONNECT|Alice".to_string()).is_none());
    assert!(decode_message(&"RESULT|x|1\n".to_string()).is_none());
    assert!(decode_message(&"RESULT|1|18446744073709551616\n".to_string()).is_none());
    assert!(decode_message(&"TAB|1|-2|3\n".to_string()).is_none());
    assert!(decode_message(&"TAB|+\n".to_string()).is_none());
    assert!(decode_message(&"STAT|Bob|MERGE|ten|20\n".to_string()).is_none());
    assert!(matches!(decode_message(&"HELLO".to_string()), Some(None)));
}

#[test]
fn roundtrip_all_kinds() {
    let messages = vec![
        TypeMessage::Connexion(("Charlie".to_string(), AlgoType::Mergesort)),
        TypeMessage::Tab(vec![3, 1, 4, 1, 5]),
        TypeMessage::Resultmessage((99, 7)),
        TypeMessage::Stats(vec![stats("A", AlgoType::Insertionsort, 1, 2)]),
    ];
    for m in messages {
        let line = typemessage_to_tcp(&m).unwrap();
        let back = tcp_to_typemessage(line.clone()).unwrap();
        assert_eq!(typemessage_to_tcp(&back).unwrap(), line);
    }
}

#[test]
fn clone_keeps_message() {
    let m = TypeMessage::Stats(vec![stats("A", AlgoType::Bubblesort, 5, 6)]);
    let c = m.clone();
    assert_eq!(typemessage_to_tcp(&c), typemessage_to_tcp(&m));
}
