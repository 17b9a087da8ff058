//! Derives the funding relation from a contiguous run of blocks.
//!
//! For every transaction in every block of an inclusive height range,
//! one edge is inserted per input, from the transaction whose output the
//! input spends to the spending transaction itself.  Blocks come from an
//! injected block source; a height or block that the source does not
//! know aborts the whole build with no partial graph.

use vstd::prelude::*;

use crate::graph::GraphStore;
use crate::graph::built_from;
use crate::graph::lemma_built_from_snoc;
use crate::graph::value_eq;

verus! {

/// One transaction, reduced to what edge derivation reads: its own
/// identifier and, for each input in input order, the identifier of the
/// transaction whose output that input consumes.  A coinbase input
/// carries the well-known placeholder identifier and is not
/// special-cased.
pub struct TransactionData<Id> {
    /// The transaction's own identifier.
    pub id: Id,
    /// The identifier referenced by each input's previous-output
    /// pointer, in input order.
    pub input_txids: Vec<Id>,
}

/// One block: its transactions, in block order.
pub struct BlockData<Id> {
    pub transactions: Vec<TransactionData<Id>>,
}

/// A block hash or block body was unavailable for a height inside the
/// requested range.  Always fatal: the build returns no partial graph.
#[derive(Clone, Copy, PartialEq, Eq, Debug)]
pub enum RetrievalError {
    /// The block source knows no block hash for this height.
    MissingBlockHash(u64),
    /// The block source knows no block body for the hash it reported at
    /// this height.
    MissingBlock(u64),
}

/// The external collaborator that supplies blocks.  The builder asks for
/// the hash at a height, then for the block carrying that hash; `None`
/// means the height or hash is unknown.  Injected by the caller, so the
/// builder runs unchanged against a node's RPC interface or a fake.
pub trait BlockSource<Id> {
    /// The opaque block-hash handle passed between the two methods.
    type Hash;

    /// The hash of the block at `height`, if the source knows one.
    fn get_block_hash(&self, height: u64) -> Option<Self::Hash>;

    /// The block carrying `hash`, if the source knows one.
    fn get_block(&self, hash: &Self::Hash) -> Option<BlockData<Id>>;
}

/// The edge insertions that one transaction contributes: one per input,
/// in input order, each from the spent transaction to this one.
pub open spec fn tx_calls<Id>(t: TransactionData<Id>) -> Seq<(Id, Id)> {
    t.input_txids@.map_values(|p: Id| (p, t.id))
}

/// The edge insertions that a run of transactions contributes, in
/// order.
pub open spec fn txs_calls<Id>(txs: Seq<TransactionData<Id>>) -> Seq<(Id, Id)>
    decreases txs.len(),
{
    if txs.len() == 0 {
        Seq::empty()
    } else {
        txs_calls(txs.drop_last()) + tx_calls(txs.last())
    }
}

/// The edge insertions that one block contributes, transactions in
/// block order.
pub open spec fn block_calls<Id>(b: BlockData<Id>) -> Seq<(Id, Id)> {
    txs_calls(b.transactions@)
}

/// The edge insertions that a run of blocks contributes, oldest block
/// first.
pub open spec fn blocks_calls<Id>(bs: Seq<BlockData<Id>>) -> Seq<(Id, Id)>
    decreases bs.len(),
{
    if bs.len() == 0 {
        Seq::empty()
    } else {
        blocks_calls(bs.drop_last()) + block_calls(bs.last())
    }
}

/// Builds the graph that a sequence of already-retrieved blocks yields:
/// exactly the edge insertions of `blocks_calls`, oldest block first,
/// transactions in block order, inputs in input order.
#[verifier::loop_isolation(false)]
pub fn build_graph_from_blocks<Id: Copy + PartialEq>(blocks: &Vec<BlockData<Id>>) -> (g:
    GraphStore<Id>)
    requires
        value_eq::<Id>(),
    ensures
        g.wf(),
        built_from(g, blocks_calls(blocks@)),
{
    let mut g = GraphStore::<Id>::new();
    let ghost mut trail = Seq::<(Id, Id)>::empty();
    proof {
        assert(built_from(g, trail));
        assert(blocks_calls(blocks@.take(0)) =~= Seq::<(Id, Id)>::empty());
    }
    let mut bi: usize = 0;
    while bi < blocks.len()
        invariant
            g.wf(),
            built_from(g, trail),
            trail == blocks_calls(blocks@.take(bi as int)),
            bi <= blocks@.len(),
        decreases blocks@.len() - bi,
    {
        let block = &blocks[bi];
        let ghost base_b = blocks_calls(blocks@.take(bi as int));
        proof {
            assert(block.transactions@.take(0) =~= Seq::<TransactionData<Id>>::empty());
            assert(trail =~= base_b + txs_calls(block.transactions@.take(0)));
        }
        let mut ti: usize = 0;
        while ti < block.transactions.len()
            invariant
                g.wf(),
                built_from(g, trail),
                trail == base_b + txs_calls(block.transactions@.take(ti as int)),
                ti <= block.transactions@.len(),
            decreases block.transactions@.len() - ti,
        {
            let tx = &block.transactions[ti];
            let ghost base_t = base_b + txs_calls(block.transactions@.take(ti as int));
            proof {
                assert(tx_calls(*tx).take(0) =~= Seq::<(Id, Id)>::empty());
                assert(trail =~= base_t + tx_calls(*tx).take(0));
            }
            let mut ii: usize = 0;
            while ii < tx.input_txids.len()
                invariant
                    g.wf(),
                    built_from(g, trail),
                    trail == base_t + tx_calls(*tx).take(ii as int),
                    ii <= tx.input_txids@.len(),
                decreases tx.input_txids@.len() - ii,
            {
                let p = tx.input_txids[ii];
                let ghost gpre = g;
                g.insert_edge(p, tx.id);
                proof {
                    lemma_built_from_snoc(gpre, g, trail, p, tx.id);
                    trail = trail.push((p, tx.id));
                    assert(tx_calls(*tx)[ii as int] == (p, tx.id));
                    assert(tx_calls(*tx).take(ii as int + 1) =~= tx_calls(*tx).take(
                        ii as int,
                    ).push((p, tx.id)));
                    assert(trail =~= base_t + tx_calls(*tx).take(ii as int + 1));
                }
                ii = ii + 1;
            }
            proof {
                assert(tx_calls(*tx).take(tx.input_txids@.len() as int) =~= tx_calls(*tx));
                let txs = block.transactions@;
                assert(txs.take(ti as int + 1).drop_last() =~= txs.take(ti as int));
                assert(txs.take(ti as int + 1).last() == txs[ti as int]);
                assert(txs_calls(txs.take(ti as int + 1)) == txs_calls(txs.take(ti as int))
                    + tx_calls(txs[ti as int]));
                assert(trail =~= base_b + txs_calls(txs.take(ti as int + 1)));
            }
            ti = ti + 1;
        }
        proof {
            let txs = block.transactions@;
            assert(txs.take(txs.len() as int) =~= txs);
            assert(blocks@.take(bi as int + 1).drop_last() =~= blocks@.take(bi as int));
            assert(blocks@.take(bi as int + 1).last() == blocks@[bi as int]);
            assert(blocks_calls(blocks@.take(bi as int + 1)) == blocks_calls(blocks@.take(
                bi as int,
            )) + block_calls(blocks@[bi as int]));
            assert(trail =~= blocks_calls(blocks@.take(bi as int + 1)));
        }
        bi = bi + 1;
    }
    proof {
        assert(blocks@.take(blocks@.len() as int) =~= blocks@);
    }
    g
}

/// `g` is the graph built, edge for edge, from some run of `n` blocks.
/// Which blocks came back is the block source's affair; this says that
/// the graph is exactly the one its answers yield, one block per height
/// of the scanned range.
pub open spec fn graph_of_some_blocks<Id: Copy + PartialEq>(g: GraphStore<Id>, n: int) -> bool {
    exists|bs: Seq<BlockData<Id>>| bs.len() == n && #[trigger] built_from(g, blocks_calls(bs))
}

/// Scans the inclusive height range `start_height..=end_height`, oldest
/// height first, and returns the funding graph of every transaction
/// seen: for each input of each transaction, one edge from the spent
/// transaction's identifier to the spending transaction's identifier.
///
/// The first height whose hash or block the source does not know aborts
/// the build: the error names that height, and no partial graph is
/// returned.
pub fn build_transaction_graph<Id: Copy + PartialEq, S: BlockSource<Id>>(
    start_height: u64,
    end_height: u64,
    source: &S,
) -> (r: Result<GraphStore<Id>, RetrievalError>)
    requires
        start_height <= end_height,
        value_eq::<Id>(),
    ensures
        r matches Ok(g) ==> g.wf() && graph_of_some_blocks(
            g,
            end_height - start_height + 1,
        ),
        r matches Err(e) ==> match e {
            RetrievalError::MissingBlockHash(h) => start_height <= h <= end_height,
            RetrievalError::MissingBlock(h) => start_height <= h <= end_height,
        },
{
    let mut blocks: Vec<BlockData<Id>> = Vec::new();
    let mut h = start_height;
    loop
        invariant_except_break
            start_height <= h <= end_height,
            blocks@.len() == h - start_height,
        ensures
            blocks@.len() == end_height - start_height + 1,
        decreases end_height - h,
    {
        let hash = match source.get_block_hash(h) {
            Some(x) => x,
            None => {
                return Err(RetrievalError::MissingBlockHash(h));
            },
        };
        let block = match source.get_block(&hash) {
            Some(b) => b,
            None => {
                return Err(RetrievalError::MissingBlock(h));
            },
        };
        blocks.push(block);
        if h == end_height {
            break ;
        }
        h = h + 1;
    }
    let g = build_graph_from_blocks(&blocks);
    proof {
        assert(blocks@.len() == end_height - start_height + 1);
        assert(built_from(g, blocks_calls(blocks@)));
        assert(graph_of_some_blocks(g, end_height - start_height + 1));
    }
    Ok(g)
}

} // verus!
