//! Building a node's configuration from its arguments and the node list.

use vstd::prelude::*;
use vstd::string::StringSliceAdditionalSpecFns;
use crate::environment::{Environment, Node};

verus! {

/// Why no configuration could be built.
#[derive(Debug, PartialEq, Eq)]
pub enum EnvironmentError {
    /// Fewer than the program name and three arguments were given.
    Usage,
    /// The node id is no decimal number of 32 bits.
    InvalidNodeId,
    /// The transaction size is no decimal number that fits a `usize`.
    InvalidTransactionSize,
    /// The number of transactions is no decimal number that fits a `usize`.
    InvalidTransactionCount,
    /// No node of the list has the id given.
    NodeNotFound,
}

/// The number that decimal digits stand for; none if a byte is no digit.
pub open spec fn digits_value(digits: Seq<u8>) -> Option<nat>
    decreases digits.len(),
{
    if digits.len() == 0 {
        Some(0)
    } else if !(0x30 <= digits.last() <= 0x39) {
        None
    } else {
        match digits_value(digits.drop_last()) {
            Some(v) => Some(v * 10 + (digits.last() - 0x30) as nat),
            None => None,
        }
    }
}

/// The number that digits stand for, if there is a digit and the number
/// is at most `max`.
pub open spec fn bounded_value(digits: Seq<u8>, max: nat) -> Option<nat> {
    if digits.len() == 0 {
        None
    } else {
        match digits_value(digits) {
            Some(v) => if v <= max {
                Some(v)
            } else {
                None
            },
            None => None,
        }
    }
}

/// The number that a text stands for: an optional plus sign, then one
/// decimal digit or more, and a value of at most `max`.
pub open spec fn decimal(text: Seq<u8>, max: nat) -> Option<nat> {
    if text.len() > 0 && text[0] == 0x2b {
        bounded_value(text.subrange(1, text.len() as int), max)
    } else {
        bounded_value(text, max)
    }
}

/// The digits up to any place stand for a number, and for no greater one,
/// if all the digits do.
proof fn lemma_digits_prefix(digits: Seq<u8>, k: int)
    requires
        0 <= k <= digits.len(),
        digits_value(digits) is Some,
    ensures
        digits_value(digits.subrange(0, k)) is Some,
        digits_value(digits.subrange(0, k)).unwrap() <= digits_value(digits).unwrap(),
    decreases digits.len(),
{
    if k == digits.len() {
        assert(digits.subrange(0, k) =~= digits);
    } else {
        assert(digits.drop_last().subrange(0, k) =~= digits.subrange(0, k));
        lemma_digits_prefix(digits.drop_last(), k);
    }
}

/// Reads a decimal number of at most `max`.
pub fn parse_decimal(text: &str, max: u64) -> (value: Option<u64>)
    ensures
        match value {
            Some(v) => decimal(text.spec_bytes(), max as nat) == Some(v as nat),
            None => decimal(text.spec_bytes(), max as nat) is None,
        },
{
    let bytes = text.as_bytes();
    let start: usize = if bytes.len() > 0 && bytes[0] == 0x2b {
        1
    } else {
        0
    };
    let ghost digits = bytes@.subrange(start as int, bytes@.len() as int);
    proof {
        if start == 0 {
            assert(digits =~= bytes@);
        }
        assert(decimal(text.spec_bytes(), max as nat) == bounded_value(digits, max as nat));
    }
    if start == bytes.len() {
        return None;
    }
    let mut acc: u64 = 0;
    let mut i: usize = start;
    assert(digits.subrange(0, 0) =~= Seq::<u8>::empty());
    while i < bytes.len()
        invariant
            start <= i <= bytes.len(),
            digits == bytes@.subrange(start as int, bytes@.len() as int),
            digits.len() > 0,
            decimal(text.spec_bytes(), max as nat) == bounded_value(digits, max as nat),
            digits_value(digits.subrange(0, i - start)) == Some(acc as nat),
            acc <= max,
        decreases bytes.len() - i,
    {
        let b = bytes[i];
        let ghost next = digits.subrange(0, i - start + 1);
        proof {
            assert(next.drop_last() =~= digits.subrange(0, i - start));
            assert(next.last() == b);
        }
        if b < 0x30 || b > 0x39 {
            proof {
                if digits_value(digits) is Some {
                    lemma_digits_prefix(digits, i - start + 1);
                }
            }
            return None;
        }
        let d: u64 = (b - 0x30) as u64;
        if d > max || acc > (max - d) / 10 {
            proof {
                assert(acc * 10 + d > max) by (nonlinear_arith)
                    requires
                        d > max || acc > (max - d) / 10,
                        d <= 9,
                        acc >= 0,
                ;
                if digits_value(digits) is Some {
                    lemma_digits_prefix(digits, i - start + 1);
                }
            }
            return None;
        }
        assert(acc * 10 + d <= max) by (nonlinear_arith)
            requires
                acc <= (max - d) / 10,
                d <= max,
        ;
        acc = acc * 10 + d;
        i += 1;
    }
    assert(digits.subrange(0, i - start) =~= digits);
    Some(acc)
}

/// The first node of the list with the id `id`.
pub open spec fn first_with_id(nodes: Seq<Node>, id: u32) -> Option<Node>
    decreases nodes.len(),
{
    if nodes.len() == 0 {
        None
    } else if nodes[0].id == id {
        Some(nodes[0])
    } else {
        first_with_id(nodes.drop_first(), id)
    }
}

/// A node found by id stands in the list.
pub proof fn lemma_first_with_id(nodes: Seq<Node>, id: u32)
    ensures
        first_with_id(nodes, id) matches Some(node) ==> node.id == id && nodes.contains(node),
    decreases nodes.len(),
{
    if nodes.len() > 0 && nodes[0].id != id {
        lemma_first_with_id(nodes.drop_first(), id);
        if first_with_id(nodes, id) is Some {
            let node = first_with_id(nodes, id).unwrap();
            let i = choose|i: int| 0 <= i < nodes.drop_first().len() && nodes.drop_first()[i] == node;
            assert(nodes[i + 1] == node);
        }
    }
}

/// The first node of the list with the id `id`.
pub fn find_node(nodes: &Vec<Node>, id: u32) -> (found: Option<Node>)
    ensures
        found == first_with_id(nodes@, id),
{
    let mut i: usize = 0;
    assert(nodes@.subrange(0, nodes@.len() as int) =~= nodes@);
    while i < nodes.len()
        invariant
            i <= nodes.len(),
            first_with_id(nodes@, id) == first_with_id(nodes@.subrange(i as int, nodes@.len() as int), id),
        decreases nodes.len() - i,
    {
        let ghost rest = nodes@.subrange(i as int, nodes@.len() as int);
        assert(rest[0] == nodes@[i as int]);
        if nodes[i].id == id {
            return Some(nodes[i].duplicate());
        }
        assert(rest.drop_first() =~= nodes@.subrange(i + 1, nodes@.len() as int));
        i += 1;
    }
    None
}

/// The number that argument `at` stands for, if it stands for one of at
/// most `max`.
pub open spec fn argument(args: Seq<String>, at: int, max: nat) -> Option<nat> {
    decimal(vstd::utf8::encode_utf8(args[at]@), max)
}

/// Builds the configuration of the node that the arguments name: the
/// program name, then the node's id, the transaction size and the number of
/// transactions per block, all decimal; further arguments are ignored. The
/// node must be one of `nodes`. Signature checks are on.
pub fn get_environment(args: Vec<String>, nodes: Vec<Node>) -> (result: Result<
    Environment,
    EnvironmentError,
>)
    ensures
        match result {
            Ok(env) => {
                &&& args@.len() >= 4
                &&& argument(args@, 1, u32::MAX as nat) == Some(env.my_node.id as nat)
                &&& argument(args@, 2, usize::MAX as nat) == Some(env.transaction_size as nat)
                &&& argument(args@, 3, usize::MAX as nat) == Some(env.n_transactions as nat)
                &&& first_with_id(nodes@, env.my_node.id) == Some(env.my_node)
                &&& env.nodes == nodes
                &&& !env.test_flag
            },
            Err(EnvironmentError::Usage) => args@.len() < 4,
            Err(EnvironmentError::InvalidNodeId) => {
                &&& args@.len() >= 4
                &&& argument(args@, 1, u32::MAX as nat) is None
            },
            Err(EnvironmentError::InvalidTransactionSize) => {
                &&& args@.len() >= 4
                &&& argument(args@, 1, u32::MAX as nat) is Some
                &&& argument(args@, 2, usize::MAX as nat) is None
            },
            Err(EnvironmentError::InvalidTransactionCount) => {
                &&& args@.len() >= 4
                &&& argument(args@, 1, u32::MAX as nat) is Some
                &&& argument(args@, 2, usize::MAX as nat) is Some
                &&& argument(args@, 3, usize::MAX as nat) is None
            },
            Err(EnvironmentError::NodeNotFound) => {
                &&& args@.len() >= 4
                &&& argument(args@, 1, u32::MAX as nat) matches Some(id)
                &&& argument(args@, 2, usize::MAX as nat) is Some
                &&& argument(args@, 3, usize::MAX as nat) is Some
                &&& first_with_id(nodes@, id as u32) is None
            },
        },
{
    if args.len() < 4 {
        return Err(EnvironmentError::Usage);
    }
    let my_id = match parse_decimal(args[1].as_str(), u32::MAX as u64) {
        Some(v) => v as u32,
        None => {
            return Err(EnvironmentError::InvalidNodeId);
        },
    };
    let transaction_size = match parse_decimal(args[2].as_str(), usize::MAX as u64) {
        Some(v) => v as usize,
        None => {
            return Err(EnvironmentError::InvalidTransactionSize);
        },
    };
    let n_transactions = match parse_decimal(args[3].as_str(), usize::MAX as u64) {
        Some(v) => v as usize,
        None => {
            return Err(EnvironmentError::InvalidTransactionCount);
        },
    };
    let test_flag = false;
    proof {
        lemma_first_with_id(nodes@, my_id);
    }
    let my_node = match find_node(&nodes, my_id) {
        Some(node) => node,
        None => {
            return Err(EnvironmentError::NodeNotFound);
        },
    };
    Ok(Environment { my_node, nodes, test_flag, transaction_size, n_transactions })
}

} // verus!
