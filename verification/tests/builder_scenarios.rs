//! Builder scenarios against a fake block source.
//!
//! Identifiers are `u64` values; `0` plays the well-known placeholder
//! identifier that a coinbase input carries.

use txgraph::builder::build_graph_from_blocks;
use txgraph::builder::build_transaction_graph;
use txgraph::builder::BlockData;
use txgraph::builder::BlockSource;
use txgraph::builder::RetrievalError;
use txgraph::builder::TransactionData;

const COINBASE: u64 = 0;

/// A fake chain: block bodies per height, starting at `start`.  Each
/// transaction is (its id, the ids its inputs spend).  The block hash
/// handle is the height itself, shifted so that it differs from it.
struct FakeChain {
    start: u64,
    blocks: Vec<Vec<(u64, Vec<u64>)>>,
    broken_block_height: Option<u64>,
}

fn to_block(txs: &Vec<(u64, Vec<u64>)>) -> BlockData<u64> {
    let mut transactions: Vec<TransactionData<u64>> = Vec::new();
    for (id, inputs) in txs {
        transactions.push(TransactionData { id: *id, input_txids: inputs.clone() });
    }
    BlockData { transactions }
}

impl BlockSource<u64> for FakeChain {
    type Hash = u64;

    fn get_block_hash(&self, height: u64) -> Option<u64> {
        if height >= self.start && height - self.start < self.blocks.len() as u64 {
            Some(height + 1_000_000)
        } else {
            None
        }
    }

    fn get_block(&self, hash: &u64) -> Option<BlockData<u64>> {
        let height = hash.checked_sub(1_000_000)?;
        if self.broken_block_height == Some(height) {
            return None;
        }
        let offset = height.checked_sub(self.start)?;
        self.blocks.get(offset as usize).map(to_block)
    }
}

/// A coinbase-only block whose coinbase transaction has the given id.
fn coinbase_block(txid: u64) -> Vec<(u64, Vec<u64>)> {
    vec![(txid, vec![COINBASE])]
}

#[test]
fn test_coinbase() {
    let number_of_blocks = 100;
    let mut blocks: Vec<Vec<(u64, Vec<u64>)>> = Vec::new();
    for h in 1..=number_of_blocks {
        blocks.push(coinbase_block(1000 + h));
    }
    let chain = FakeChain { start: 1, blocks, broken_block_height: None };

    let graph = build_transaction_graph(1, number_of_blocks, &chain).unwrap();

    // The placeholder plus one coinbase transaction per block.
    assert_eq!(1 + number_of_blocks, graph.number_of_vertices() as u64);
    assert_eq!(number_of_blocks, graph.neighbors(&COINBASE).len() as u64);
    assert_eq!(COINBASE, graph.vertices()[0]);
    for h in 1..=number_of_blocks {
        assert!(graph.contains_vertex(&(1000 + h)));
    }
}

#[test]
fn test_transactions() {
    let number_of_blocks = 102;
    let number_of_transactions = 10;

    // Heights 0..=102 carry only a coinbase; height 103 carries its
    // coinbase plus the spends, each consuming one mature coinbase.
    let mut blocks: Vec<Vec<(u64, Vec<u64>)>> = Vec::new();
    for h in 0..=number_of_blocks {
        blocks.push(coinbase_block(1000 + h));
    }
    let mut last: Vec<(u64, Vec<u64>)> = coinbase_block(1000 + number_of_blocks + 1);
    let mut spends: Vec<u64> = Vec::new();
    for i in 1..=number_of_transactions {
        last.push((2000 + i, vec![1000 + i]));
        spends.push(2000 + i);
    }
    blocks.push(last);
    let chain = FakeChain { start: 0, blocks, broken_block_height: None };

    let graph = build_transaction_graph(0, number_of_blocks + 1, &chain).unwrap();

    // Placeholder + 104 coinbases + 10 spends.
    let expected = 1 + (number_of_blocks + 2) + number_of_transactions;
    assert_eq!(expected, graph.number_of_vertices() as u64);
    for txid in spends {
        assert!(graph.contains_vertex(&txid));
    }
}

#[test]
fn test_path_exists() {
    let number_of_blocks = 102;
    let mut blocks: Vec<Vec<(u64, Vec<u64>)>> = Vec::new();
    for h in 0..=number_of_blocks {
        blocks.push(coinbase_block(1000 + h));
    }
    // The final block confirms one spend of the coinbase at height 1.
    let funding = 1000 + 1;
    let txid = 5000;
    let mut last = coinbase_block(1000 + number_of_blocks + 1);
    last.push((txid, vec![funding]));
    blocks.push(last);
    let chain = FakeChain { start: 0, blocks, broken_block_height: None };

    let graph = build_transaction_graph(0, number_of_blocks + 1, &chain).unwrap();

    assert!(graph.path_exists_between(&funding, &txid));
}

#[test]
fn one_spend_transaction_links_funder_and_spender() {
    // One ordinary transaction whose single input points at a prior
    // transaction: both become vertices, joined by a path.
    let p = 1001;
    let t = 42;
    let blocks = vec![coinbase_block(p), vec![(1002, vec![COINBASE]), (t, vec![p])]];
    let chain = FakeChain { start: 10, blocks, broken_block_height: None };

    let graph = build_transaction_graph(10, 11, &chain).unwrap();

    assert!(graph.contains_vertex(&p));
    assert!(graph.contains_vertex(&t));
    assert!(graph.path_exists_between(&p, &t));
}

#[test]
fn multi_hop_funding_is_reachable() {
    // B spends A's output and C spends B's: A reaches C with no direct
    // (A, C) edge ever inserted.
    let a = 301;
    let b = 302;
    let c = 303;
    let blocks = vec![vec![(a, vec![COINBASE])], vec![(b, vec![a])], vec![(c, vec![b])]];
    let chain = FakeChain { start: 0, blocks, broken_block_height: None };

    let graph = build_transaction_graph(0, 2, &chain).unwrap();

    assert!(graph.path_exists_between(&a, &c));
    assert!(!graph.neighbors(&a).contains(&c));
}

#[test]
fn disjoint_chains_stay_unconnected() {
    // Two unrelated funding chains in one range: no path crosses from
    // one to the other in either direction.
    let blocks = vec![
        vec![(11, vec![1]), (21, vec![2])],
        vec![(12, vec![11]), (22, vec![21])],
        vec![(13, vec![12]), (23, vec![22])],
    ];
    let chain = FakeChain { start: 5, blocks, broken_block_height: None };

    let graph = build_transaction_graph(5, 7, &chain).unwrap();

    for x in [1, 11, 12, 13] {
        for y in [2, 21, 22, 23] {
            assert!(!graph.path_exists_between(&x, &y));
            assert!(!graph.path_exists_between(&y, &x));
        }
    }
    assert!(graph.path_exists_between(&1, &13));
    assert!(graph.path_exists_between(&2, &23));
}

#[test]
fn missing_hash_aborts_the_build() {
    let chain = FakeChain { start: 0, blocks: vec![coinbase_block(7)], broken_block_height: None };
    let r = build_transaction_graph(0, 3, &chain);
    assert_eq!(Err(RetrievalError::MissingBlockHash(1)), r.map(|_| ()));
}

#[test]
fn missing_block_aborts_the_build() {
    let blocks = vec![coinbase_block(7), coinbase_block(8), coinbase_block(9)];
    let chain = FakeChain { start: 0, blocks, broken_block_height: Some(2) };
    let r = build_transaction_graph(0, 2, &chain);
    assert_eq!(Err(RetrievalError::MissingBlock(2)), r.map(|_| ()));
}

#[test]
fn build_from_blocks_inserts_every_input_edge() {
    let blocks = vec![
        to_block(&vec![(10, vec![COINBASE]), (11, vec![10, 10])]),
        to_block(&vec![(12, vec![11, 10])]),
    ];
    let graph = build_graph_from_blocks(&blocks);

    assert_eq!(4, graph.number_of_vertices());
    assert_eq!(vec![11, 11, 12], graph.neighbors(&10));
    assert_eq!(vec![12], graph.neighbors(&11));
    assert_eq!(vec![10], graph.neighbors(&COINBASE));
    assert!(graph.path_exists_between(&COINBASE, &12));
}
