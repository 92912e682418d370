use rinha::strategy::{pick, RinhaAccountBalancer, RoundRobin, TcpRoundRobin};
use std::collections::hash_map::DefaultHasher;
use std::hash::{Hash, Hasher};
use std::sync::atomic::AtomicUsize;
use std::sync::Arc;

fn addrs() -> Vec<String> {
    vec![
        String::from("127.0.0.1:8080"),
        String::from("127.0.0.1:8081"),
        String::from("127.0.0.1:8082"),
    ]
}

#[test]
fn pick_wraps_around() {
    let addrs = addrs();
    assert_eq!(pick(&addrs, 0), "127.0.0.1:8080");
    assert_eq!(pick(&addrs, 4), "127.0.0.1:8081");
    assert_eq!(pick(&addrs, 8), "127.0.0.1:8082");
}

#[test]
fn round_robin_takes_turns() {
    let balancer = RoundRobin {
        addrs: addrs(),
        req_counter: Arc::new(AtomicUsize::new(0)),
    };
    let served: Vec<String> = (0..4).map(|_| balancer.next_server()).collect();
    assert_eq!(
        served,
        vec![
            "127.0.0.1:8080",
            "127.0.0.1:8081",
            "127.0.0.1:8082",
            "127.0.0.1:8080"
        ]
    );
}

#[test]
fn account_balancer_hashes_the_path() {
    let balancer = RinhaAccountBalancer { addrs: addrs() };
    for path in ["/clientes/1/transacoes", "/clientes/2/extrato", "/"] {
        let mut hasher = DefaultHasher::new();
        path.hash(&mut hasher);
        let expected = &balancer.addrs[hasher.finish() as usize % 3];
        assert_eq!(&balancer.next_server(path), expected);
    }
}

#[test]
fn account_balancer_is_sticky() {
    let balancer = RinhaAccountBalancer { addrs: addrs() };
    let first = balancer.next_server("/clientes/3/extrato");
    for _ in 0..10 {
        assert_eq!(balancer.next_server("/clientes/3/extrato"), first);
    }
}

#[test]
fn tcp_turns_start_at_the_first_address() {
    let mut turns = TcpRoundRobin {
        addrs: addrs(),
        counter: 0,
    };
    let served: Vec<String> = (0..4).map(|_| turns.next_server()).collect();
    assert_eq!(
        served,
        vec![
            "127.0.0.1:8080",
            "127.0.0.1:8081",
            "127.0.0.1:8082",
            "127.0.0.1:8080"
        ]
    );
    assert_eq!(turns.counter, 4);
}
