use sparse_bullshark::environment::Node;
use sparse_bullshark::initializer::{find_node, get_environment, parse_decimal, EnvironmentError};

fn nodes() -> Vec<Node> {
    (0..4u32)
        .map(|id| Node { id, host: format!("10.0.0.{}", id), port: 9000 + id as u16 })
        .collect()
}

fn args(list: &[&str]) -> Vec<String> {
    list.iter().map(|s| s.to_string()).collect()
}

#[test]
fn parse_decimal_reads_as_the_standard_library_does() {
    let texts = [
        "0", "7", "42", "007", "+5", "+0", "4294967295", "4294967296", "99999999999999999999", "", "+",
        "-", "-1", "+-1", "++1", " 1", "1 ", "1_000", "12a", "a12", "0x10", "١٢", "1.5", "18446744073709551615",
        "18446744073709551616", "00000000000000000000000001",
    ];
    for text in texts {
        assert_eq!(parse_decimal(text, u32::MAX as u64), text.parse::<u32>().ok().map(|v| v as u64), "{:?}", text);
        assert_eq!(parse_decimal(text, u64::MAX), text.parse::<u64>().ok(), "{:?}", text);
        assert_eq!(parse_decimal(text, 255), text.parse::<u8>().ok().map(|v| v as u64), "{:?}", text);
    }
    assert_eq!(parse_decimal("42", 100), Some(42));
    assert_eq!(parse_decimal("100", 100), Some(100));
    assert_eq!(parse_decimal("101", 100), None);
    assert_eq!(parse_decimal("0", 0), Some(0));
    assert_eq!(parse_decimal("1", 0), None);
}

#[test]
fn find_node_takes_the_first_with_the_id() {
    let mut list = nodes();
    list.push(Node { id: 1, host: "second".to_string(), port: 1 });
    let found = find_node(&list, 1).unwrap();
    assert_eq!(found.host, "10.0.0.1");
    assert_eq!(found.port, 9001);
    assert!(find_node(&list, 9).is_none());
    assert!(find_node(&vec![], 0).is_none());
}

#[test]
fn get_environment_builds_the_configuration() {
    let env = get_environment(args(&["node", "2", "256", "10"]), nodes()).unwrap();
    assert_eq!(env.my_node.id, 2);
    assert_eq!(env.my_node.host, "10.0.0.2");
    assert_eq!(env.my_node.port, 9002);
    assert_eq!(env.nodes.len(), 4);
    assert_eq!(env.nodes[3].id, 3);
    assert_eq!(env.transaction_size, 256);
    assert_eq!(env.n_transactions, 10);
    assert!(!env.test_flag);
}

#[test]
fn get_environment_ignores_further_arguments() {
    let env = get_environment(args(&["node", "0", "1", "2", "dense", "test"]), nodes()).unwrap();
    assert_eq!(env.my_node.id, 0);
    assert_eq!(env.transaction_size, 1);
    assert_eq!(env.n_transactions, 2);
    assert!(!env.test_flag);
}

#[test]
fn get_environment_asks_for_three_arguments() {
    for list in [vec![], vec!["node"], vec!["node", "1"], vec!["node", "1", "2"]] {
        assert_eq!(get_environment(args(&list), nodes()).unwrap_err(), EnvironmentError::Usage);
    }
    // Too few arguments come before any other fault.
    assert_eq!(get_environment(args(&["node", "x", "y"]), vec![]).unwrap_err(), EnvironmentError::Usage);
}

#[test]
fn get_environment_names_the_argument_that_is_no_number() {
    assert_eq!(
        get_environment(args(&["node", "two", "256", "10"]), nodes()).unwrap_err(),
        EnvironmentError::InvalidNodeId
    );
    assert_eq!(
        get_environment(args(&["node", "4294967296", "256", "10"]), nodes()).unwrap_err(),
        EnvironmentError::InvalidNodeId
    );
    assert_eq!(
        get_environment(args(&["node", "-1", "x", "y"]), nodes()).unwrap_err(),
        EnvironmentError::InvalidNodeId
    );
    assert_eq!(
        get_environment(args(&["node", "2", "", "10"]), nodes()).unwrap_err(),
        EnvironmentError::InvalidTransactionSize
    );
    assert_eq!(
        get_environment(args(&["node", "2", "1e3", "y"]), nodes()).unwrap_err(),
        EnvironmentError::InvalidTransactionSize
    );
    assert_eq!(
        get_environment(args(&["node", "2", "256", "ten"]), nodes()).unwrap_err(),
        EnvironmentError::InvalidTransactionCount
    );
    assert_eq!(
        get_environment(args(&["node", "9", "256", "99999999999999999999999"]), nodes()).unwrap_err(),
        EnvironmentError::InvalidTransactionCount
    );
}

#[test]
fn get_environment_asks_for_a_listed_node() {
    assert_eq!(
        get_environment(args(&["node", "4", "256", "10"]), nodes()).unwrap_err(),
        EnvironmentError::NodeNotFound
    );
    assert_eq!(
        get_environment(args(&["node", "0", "256", "10"]), vec![]).unwrap_err(),
        EnvironmentError::NodeNotFound
    );
}
