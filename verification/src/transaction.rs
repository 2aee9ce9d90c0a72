//! Transactions of a given encoded size, the payload of blocks.

use vstd::prelude::*;
use vstd::string::StringExecFns;
use crate::codec::{encode_strings, encoded_string_len, strings_encoding};

verus! {

/// A transaction: padding and nothing else.
#[derive(Debug, Clone, PartialEq, Eq, Hash)]
pub struct Transaction {
    pub padding: String,
}

/// `n` times the letter X.
pub open spec fn padding_of(n: nat) -> Seq<char> {
    Seq::new(n, |i: int| 'X')
}

impl Transaction {
    /// A transaction padded with `padding_size` letters X.
    pub fn new(padding_size: usize) -> (tx: Transaction)
        ensures
            tx.padding@ == padding_of(padding_size as nat),
    {
        let mut padding = String::new();
        let mut i: usize = 0;
        proof {
            reveal_strlit("X");
        }
        assert(padding@ =~= padding_of(0));
        while i < padding_size
            invariant
                i <= padding_size,
                padding@ == padding_of(i as nat),
                "X"@ == seq!['X'],
            decreases padding_size - i,
        {
            padding.append("X");
            i += 1;
            assert(padding@ =~= padding_of(i as nat));
        }
        Transaction { padding }
    }
}

/// The least padding with which a transaction's encoding reaches `target`
/// bytes: the encoding is eight bytes longer than the padding.
pub open spec fn padding_for(target: nat) -> nat {
    if target <= 8 {
        0
    } else {
        (target - 8) as nat
    }
}

/// The block of `count` transactions of padding `padding`, encoded.
pub open spec fn block_of(padding: nat, count: nat) -> Seq<u8> {
    strings_encoding(Seq::new(count, |i: int| padding_of(padding)))
}

/// Makes the transactions of one block after another.
pub struct TransactionGenerator {
    /// The padding that gives a transaction its size.
    pub padding: usize,
    pub transactions_per_block: usize,
}

impl TransactionGenerator {
    /// A generator of blocks of `transactions_per_block` transactions, each
    /// with the least padding that brings its encoding to `target_size`
    /// bytes.
    pub fn new(target_size: usize, transactions_per_block: usize) -> (generator: TransactionGenerator)
        ensures
            generator.padding == padding_for(target_size as nat),
            generator.transactions_per_block == transactions_per_block,
    {
        let mut padding_size: usize = 0;
        loop
            invariant
                padding_size <= padding_for(target_size as nat),
            ensures
                padding_size == padding_for(target_size as nat),
            decreases target_size - padding_size,
        {
            let tx = Transaction::new(padding_size);
            assert(tx.padding.is_ascii()) by {
                assert forall|i: int| 0 <= i < tx.padding@.len() implies (tx.padding@[i] as nat)
                    < 128 by {}
            }
            let size = encoded_string_len(&tx.padding);
            if size >= target_size {
                break;
            }
            padding_size += 1;
        }
        TransactionGenerator { padding: padding_size, transactions_per_block }
    }

    /// The transactions of the next block.
    pub fn generate(&mut self) -> (txs: Vec<Transaction>)
        ensures
            *final(self) == *old(self),
            txs@.len() == old(self).transactions_per_block,
            forall|i: int| 0 <= i < txs@.len() ==> (#[trigger] txs@[i]).padding@ == padding_of(
                old(self).padding as nat,
            ),
    {
        let mut txs: Vec<Transaction> = Vec::new();
        let mut i: usize = 0;
        while i < self.transactions_per_block
            invariant
                i <= self.transactions_per_block,
                txs@.len() == i,
                *self == *old(self),
                forall|j: int| 0 <= j < i ==> (#[trigger] txs@[j]).padding@ == padding_of(
                    self.padding as nat,
                ),
            decreases self.transactions_per_block - i,
        {
            txs.push(Transaction::new(self.padding));
            i += 1;
        }
        txs
    }

    /// The next block: its transactions, encoded.
    pub fn generate_block(&mut self) -> (block: Vec<u8>)
        ensures
            *final(self) == *old(self),
            block@ == block_of(old(self).padding as nat, old(self).transactions_per_block as nat),
    {
        let txs = self.generate();
        let mut paddings: Vec<String> = Vec::new();
        let mut i: usize = 0;
        while i < txs.len()
            invariant
                i <= txs.len(),
                paddings@.len() == i,
                forall|j: int| 0 <= j < i ==> (#[trigger] paddings@[j])@ == txs@[j].padding@,
            decreases txs.len() - i,
        {
            paddings.push(txs[i].padding.clone());
            i += 1;
        }
        assert(Seq::new(paddings@.len(), |i: int| paddings@[i]@) =~= Seq::new(
            self.transactions_per_block as nat,
            |i: int| padding_of(self.padding as nat),
        ));
        encode_strings(&paddings)
    }
}

} // verus!
