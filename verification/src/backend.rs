//! The block tree: all known blocks, their states, depths, child links and
//! canonical-chain membership, mutated only through the commit protocol.

use vstd::prelude::*;
use crate::state::MemoryState;
use crate::route::{tree_route, chain_of, lemma_chain_props, lemma_chain_take,
    lemma_canon_matches_chain};
use std::collections::HashMap;

verus! {

broadcast use vstd::std_specs::hash::group_hash_axioms;

/// Failures surfaced by the block tree.
#[derive(Clone, Copy, Debug, PartialEq, Eq, Structural)]
pub enum Error {
    /// Reserved for durable implementations of the same contract.
    IO,
    /// The operation references an unresolvable parent, reuses an existing
    /// hash, or targets a nonexistent head.
    InvalidOperation,
    /// A submitted block has no parent and is not the tree's genesis.
    ImportingGenesis,
    /// A lookup or route computation references an absent hash.
    NotExist,
}

impl Error {
    /// A human-readable description of the failure.
    pub fn as_str(&self) -> (r: &'static str)
        ensures
            r@ == match self {
                Error::IO => "IO failure"@,
                Error::InvalidOperation => "The operation provided is invalid"@,
                Error::ImportingGenesis => "Trying to import another genesis"@,
                Error::NotExist => "Block does not exist"@,
            },
    {
        match self {
            Error::IO => "IO failure",
            Error::InvalidOperation => "The operation provided is invalid",
            Error::ImportingGenesis => "Trying to import another genesis",
            Error::NotExist => "Block does not exist",
        }
    }
}

/// A block: immutable, identified by its hash, pointing to an optional
/// parent. Exactly one block per tree, the genesis, has no parent.
#[derive(Clone, Copy, Debug)]
pub struct Block {
    /// The block's own hash.
    pub hash: u64,
    /// The hash of the parent block; `None` only for the genesis.
    pub parent: Option<u64>,
}

impl Block {
    /// Builds a block from its hash and its optional parent hash.
    pub fn new(hash: u64, parent: Option<u64>) -> (r: Self)
        ensures
            r.hash == hash,
            r.parent == parent,
    {
        Block { hash, parent }
    }

    /// The block's own hash.
    pub fn hash(&self) -> (r: u64)
        ensures
            r == self.hash,
    {
        self.hash
    }

    /// The parent hash, or `None` for a genesis block.
    pub fn parent_hash(&self) -> (r: Option<u64>)
        ensures
            r == self.parent,
    {
        self.parent
    }
}

/// Everything the tree records about one block.
pub(crate) struct BlockData {
    pub(crate) block: Block,
    pub(crate) state: MemoryState,
    pub(crate) depth: usize,
    pub(crate) children: Vec<u64>,
    pub(crate) is_canon: bool,
}

/// The mathematical content of one tree node.
pub struct NodeModel {
    /// The stored block.
    pub block: Block,
    /// The stored snapshot, as a map.
    pub state: Map<Seq<u8>, Seq<u8>>,
    /// Genesis-rooted path length.
    pub depth: usize,
    /// Every hash ever imported whose parent is this node.
    pub children: Set<u64>,
    /// Whether the node lies on the canonical path.
    pub is_canon: bool,
}

/// The mathematical content of the whole tree.
pub struct TreeModel {
    /// All known nodes, keyed by block hash.
    pub nodes: Map<u64, NodeModel>,
    /// The canonical head.
    pub head: u64,
    /// The tree's genesis hash.
    pub genesis: u64,
    /// Depth-indexed view of the canonical chain.
    pub canon: Map<usize, u64>,
}

impl View for BlockData {
    type V = NodeModel;

    closed spec fn view(&self) -> NodeModel {
        NodeModel {
            block: self.block,
            state: self.state@,
            depth: self.depth,
            children: self.children@.to_set(),
            is_canon: self.is_canon,
        }
    }
}

/// Parent/depth linkage: every non-genesis node's parent is present, one
/// level shallower; the genesis is the unique parentless node at depth 0.
pub open spec fn linked(nodes: Map<u64, NodeModel>, genesis: u64) -> bool {
    &&& nodes.dom().finite()
    &&& nodes.contains_key(genesis)
    &&& nodes[genesis].depth == 0
    &&& forall|h: u64| #[trigger] nodes.contains_key(h) ==> nodes[h].block.hash == h
    &&& forall|h: u64| #[trigger] nodes.contains_key(h) ==> ((nodes[h].block.parent is None) <==> h
        == genesis)
    &&& forall|h: u64| #[trigger] nodes.contains_key(h) && h != genesis ==> {
        let p = nodes[h].block.parent.unwrap();
        &&& nodes.contains_key(p)
        &&& nodes[h].depth == nodes[p].depth + 1
    }
    &&& forall|h: u64| #[trigger] nodes.contains_key(h) ==> nodes[h].depth < nodes.dom().len()
}

/// Child links are complete and sound: each non-genesis node is recorded in
/// its parent's children, and children point back to their parent.
pub open spec fn children_ok(nodes: Map<u64, NodeModel>, genesis: u64) -> bool {
    &&& forall|h: u64| #[trigger] nodes.contains_key(h) && h != genesis
        ==> nodes[nodes[h].block.parent.unwrap()].children.contains(h)
    &&& forall|h: u64, c: u64| nodes.contains_key(h) && #[trigger] nodes[h].children.contains(c)
        ==> nodes.contains_key(c) && c != genesis && nodes[c].block.parent == Some(h)
}

/// The canonical index and the canonical flags describe one depth-contiguous
/// chain from genesis to head.
pub open spec fn canon_ok(t: TreeModel) -> bool {
    &&& t.nodes.contains_key(t.head)
    &&& forall|d: usize| #[trigger] t.canon.contains_key(d) <==> d <= t.nodes[t.head].depth
    &&& forall|d: usize| #[trigger] t.canon.contains_key(d) ==> t.nodes.contains_key(t.canon[d])
        && t.nodes[t.canon[d]].depth == d && t.nodes[t.canon[d]].is_canon
    &&& forall|h: u64| #[trigger] t.nodes.contains_key(h) ==> (t.nodes[h].is_canon <==> (
    t.canon.contains_key(t.nodes[h].depth) && t.canon[t.nodes[h].depth] == h))
    &&& forall|d: usize| 1 <= d <= t.nodes[t.head].depth
        ==> t.nodes[#[trigger] t.canon[d]].block.parent == Some(t.canon[(d - 1) as usize])
    &&& t.canon[t.nodes[t.head].depth] == t.head
}

/// All invariants of the block tree, always true between commits.
pub open spec fn wf(t: TreeModel) -> bool {
    &&& linked(t.nodes, t.genesis)
    &&& children_ok(t.nodes, t.genesis)
    &&& canon_ok(t)
}

/// Depth monotonicity: a block with a present parent sits exactly one level
/// below it.
pub proof fn lemma_depth_monotonic(t: TreeModel, h: u64)
    requires
        wf(t),
        t.nodes.contains_key(h),
        h != t.genesis,
    ensures
        t.nodes.contains_key(t.nodes[h].block.parent.unwrap()),
        t.nodes[h].depth == t.nodes[t.nodes[h].block.parent.unwrap()].depth + 1,
{
}

/// Canonical path contiguity: every depth up to the head's is canonically
/// occupied, and consecutive canonical entries are parent and child.
pub proof fn lemma_canonical_contiguity(t: TreeModel, d: usize)
    requires
        wf(t),
        d <= t.nodes[t.head].depth,
    ensures
        t.canon.contains_key(d),
        t.nodes.contains_key(t.canon[d]),
        t.nodes[t.canon[d]].is_canon,
        d >= 1 ==> t.nodes[t.canon[d]].block.parent == Some(t.canon[(d - 1) as usize]),
{
}

/// Children completeness: every non-genesis block is listed among its
/// parent's children.
pub proof fn lemma_children_complete(t: TreeModel, h: u64)
    requires
        wf(t),
        t.nodes.contains_key(h),
        h != t.genesis,
    ensures
        t.nodes[t.nodes[h].block.parent.unwrap()].children.contains(h),
{
}

/// The block tree: owns all known blocks, their states, depths, child links
/// and canonical-chain membership.
pub struct MemoryBackend {
    pub(crate) nodes: HashMap<u64, BlockData>,
    pub(crate) head: u64,
    pub(crate) genesis: u64,
    pub(crate) canon: HashMap<usize, u64>,
}

impl View for MemoryBackend {
    type V = TreeModel;

    closed spec fn view(&self) -> TreeModel {
        TreeModel {
            nodes: Map::new(
                |h: u64| self.nodes@.contains_key(h),
                |h: u64| self.nodes@[h]@,
            ),
            head: self.head,
            genesis: self.genesis,
            canon: self.canon@,
        }
    }
}

impl MemoryBackend {
    /// Representation invariants beyond the model: stored snapshots are
    /// well formed and child lists carry no duplicates.
    pub closed spec fn rep_inv(&self) -> bool {
        forall|h: u64| #[trigger] self.nodes@.contains_key(h) ==> (
        self.nodes@[h].children@.no_duplicates() && self.nodes@[h].state.inv())
    }

    /// The tree is well formed.
    pub open spec fn inv(&self) -> bool {
        self.rep_inv() && wf(self@)
    }

    /// How the model reflects the representation.
    pub(crate) proof fn lemma_view(&self)
        ensures
            forall|h: u64| #[trigger] self@.nodes.contains_key(h) <==> self.nodes@.contains_key(h),
            forall|h: u64| #[trigger] self.nodes@.contains_key(h) ==> self@.nodes[h]
                == self.nodes@[h]@,
            forall|h: u64| #[trigger] self.nodes@.contains_key(h) ==> {
                let m = self@.nodes[h];
                let d = self.nodes@[h];
                &&& m.block == d.block
                &&& m.state == d.state@
                &&& m.depth == d.depth
                &&& m.children == d.children@.to_set()
                &&& m.is_canon == d.is_canon
            },
            self@.canon == self.canon@,
            self@.head == self.head,
            self@.genesis == self.genesis,
    {
    }

    /// Creates a tree holding only the given genesis block and its state.
    /// This is the only way to create a tree.
    pub fn with_genesis(block: Block, genesis_state: MemoryState) -> (r: Self)
        requires
            block.parent is None,
            genesis_state.inv(),
        ensures
            r.inv(),
            r@.genesis == block.hash,
            r@.head == block.hash,
            forall|h: u64| #[trigger] r@.nodes.contains_key(h) <==> h == block.hash,
            r@.nodes[block.hash] == (NodeModel {
                block,
                state: genesis_state@,
                depth: 0,
                children: Set::<u64>::empty(),
                is_canon: true,
            }),
            forall|d: usize| #[trigger] r@.canon.contains_key(d) <==> d == 0,
            r@.canon[0] == block.hash,
    {
        let genesis_hash = block.hash;
        let mut nodes: HashMap<u64, BlockData> = HashMap::new();
        nodes.insert(
            genesis_hash,
            BlockData { block, state: genesis_state, depth: 0, children: Vec::new(), is_canon: true },
        );
        let mut canon: HashMap<usize, u64> = HashMap::new();
        canon.insert(0, genesis_hash);
        let r = MemoryBackend { nodes, head: genesis_hash, genesis: genesis_hash, canon };
        proof {
            assert(r.nodes@ =~= Map::<u64, BlockData>::empty().insert(genesis_hash, r.nodes@[genesis_hash]));
            assert(r.nodes@.dom() =~= Set::<u64>::empty().insert(genesis_hash));
            vstd::set_lib::lemma_set_empty_equivalency_len(Set::<u64>::empty());
            assert(r.nodes@.dom().len() == 1);
            assert(r@.nodes.dom() =~= r.nodes@.dom());
            assert(r@.nodes[genesis_hash].children =~= Set::<u64>::empty());
            assert(wf(r@));
        }
        r
    }

    /// The current canonical head.
    pub fn head(&self) -> (r: u64)
        ensures
            r == self@.head,
    {
        self.head
    }

    /// The tree's genesis hash.
    pub fn genesis(&self) -> (r: u64)
        ensures
            r == self@.genesis,
    {
        self.genesis
    }

    /// Whether a block with the given hash is present.
    pub fn contains(&self, hash: u64) -> (r: Result<bool, Error>)
        ensures
            r == Ok::<bool, Error>(self@.nodes.contains_key(hash)),
    {
        Ok(self.nodes.contains_key(&hash))
    }

    /// Whether the block lies on the canonical path; `NotExist` when absent.
    pub fn is_canon(&self, hash: u64) -> (r: Result<bool, Error>)
        ensures
            r == if self@.nodes.contains_key(hash) {
                Ok::<bool, Error>(self@.nodes[hash].is_canon)
            } else {
                Err::<bool, Error>(Error::NotExist)
            },
    {
        match self.nodes.get(&hash) {
            Some(data) => Ok(data.is_canon),
            None => Err(Error::NotExist),
        }
    }

    /// The canonical block at the given depth, or `None` when no canonical
    /// block occupies that depth.
    pub fn lookup_canon_depth(&self, depth: usize) -> (r: Result<Option<u64>, Error>)
        ensures
            r == if self@.canon.contains_key(depth) {
                Ok::<Option<u64>, Error>(Some(self@.canon[depth]))
            } else {
                Ok::<Option<u64>, Error>(None)
            },
    {
        match self.canon.get(&depth) {
            Some(h) => Ok(Some(*h)),
            None => Ok(None),
        }
    }

    /// Every hash ever imported whose parent is the given block;
    /// `NotExist` when the block is absent.
    pub fn children_at(&self, hash: u64) -> (r: Result<Vec<u64>, Error>)
        requires
            self.inv(),
        ensures
            self@.nodes.contains_key(hash) ==> (r matches Ok(v)
                && v@.to_set() == self@.nodes[hash].children && v@.no_duplicates()),
            !self@.nodes.contains_key(hash) ==> r == Err::<Vec<u64>, Error>(Error::NotExist),
    {
        match self.nodes.get(&hash) {
            Some(data) => {
                let mut v: Vec<u64> = Vec::new();
                let n = data.children.len();
                let mut i: usize = 0;
                while i < n
                    invariant
                        n == data.children@.len(),
                        i <= n,
                        v@ == data.children@.take(i as int),
                    decreases n - i,
                {
                    v.push(data.children[i]);
                    assert(v@ =~= data.children@.take(i + 1 as int));
                    i += 1;
                }
                assert(v@ =~= data.children@);
                Ok(v)
            },
            None => Err(Error::NotExist),
        }
    }

    /// The block's genesis-rooted depth; `NotExist` when absent.
    pub fn depth_at(&self, hash: u64) -> (r: Result<usize, Error>)
        ensures
            r == if self@.nodes.contains_key(hash) {
                Ok::<usize, Error>(self@.nodes[hash].depth)
            } else {
                Err::<usize, Error>(Error::NotExist)
            },
    {
        match self.nodes.get(&hash) {
            Some(data) => Ok(data.depth),
            None => Err(Error::NotExist),
        }
    }

    /// The stored block itself; `NotExist` when absent.
    pub fn block_at(&self, hash: u64) -> (r: Result<Block, Error>)
        ensures
            r == if self@.nodes.contains_key(hash) {
                Ok::<Block, Error>(self@.nodes[hash].block)
            } else {
                Err::<Block, Error>(Error::NotExist)
            },
    {
        match self.nodes.get(&hash) {
            Some(data) => Ok(data.block),
            None => Err(Error::NotExist),
        }
    }

    /// An independent copy of the block's state snapshot; `NotExist` when
    /// absent.
    pub fn state_at(&self, hash: u64) -> (r: Result<MemoryState, Error>)
        requires
            self.inv(),
        ensures
            self@.nodes.contains_key(hash) ==> (r matches Ok(s) && s@ == self@.nodes[hash].state
                && s.inv()),
            !self@.nodes.contains_key(hash) ==> r == Err::<MemoryState, Error>(Error::NotExist),
    {
        match self.nodes.get(&hash) {
            Some(data) => Ok(data.state.clone()),
            None => Err(Error::NotExist),
        }
    }
}


/// One batch item: a block together with the state snapshot produced by
/// executing it.
pub struct ImportOperation {
    /// The block to admit.
    pub block: Block,
    /// World state as of that block.
    pub state: MemoryState,
}

/// The unit of work submitted to the block tree: an unordered batch of
/// (block, state) pairs to admit, plus an optional new canonical head.
pub struct Operation {
    /// The blocks to admit, in no particular order.
    pub import_block: Vec<ImportOperation>,
    /// The hash the canonical head should move to, if any.
    pub set_head: Option<u64>,
}

/// Whether some batch item carries the given hash.
pub open spec fn batch_has_hash(b: Seq<ImportOperation>, h: u64) -> bool {
    exists|i: int| 0 <= i < b.len() && b[i].block.hash == h
}

/// The batched blocks whose parent is `h`.
pub open spec fn batch_children(b: Seq<ImportOperation>, h: u64) -> Set<u64> {
    Set::new(
        |c: u64|
            exists|i: int| 0 <= i < b.len() && b[i].block.hash == c && b[i].block.parent == Some(
                h,
            ),
    )
}

/// Whether, within `fuel` steps, the parent chain of `h` through the batch
/// reaches a block already in the tree.
pub open spec fn batch_reaches(dom: Set<u64>, b: Seq<ImportOperation>, h: u64, fuel: nat) -> bool
    decreases fuel,
{
    if dom.contains(h) {
        true
    } else if !batch_has_hash(b, h) {
        false
    } else if fuel == 0 {
        false
    } else {
        let i = choose|i: int| 0 <= i < b.len() && b[i].block.hash == h;
        match b[i].block.parent {
            None => false,
            Some(p) => batch_reaches(dom, b, p, (fuel - 1) as nat),
        }
    }
}

/// Whether the parent chain of `h` through the batch reaches the tree.
pub open spec fn grounded(dom: Set<u64>, b: Seq<ImportOperation>, h: u64) -> bool {
    exists|fuel: nat| batch_reaches(dom, b, h, fuel)
}

/// The part of validity that dependency resolution checks: every batched
/// block names a parent, hashes are new and pairwise distinct, and every
/// parent chain resolves into the tree.
pub open spec fn batch_valid(t: TreeModel, b: Seq<ImportOperation>) -> bool {
    &&& forall|i: int| 0 <= i < b.len() ==> (#[trigger] b[i]).block.parent is Some
    &&& forall|i: int, j: int| 0 <= i < j < b.len() ==> b[i].block.hash != b[j].block.hash
    &&& forall|i: int| 0 <= i < b.len() ==> !t.nodes.contains_key((#[trigger] b[i]).block.hash)
    &&& forall|i: int| 0 <= i < b.len() ==> grounded(t.nodes.dom(), b, (#[trigger] b[i]).block.hash)
}

/// When a commit is accepted: a valid batch whose requested head, if any, is
/// a known or batched block.
pub open spec fn op_valid(t: TreeModel, b: Seq<ImportOperation>, set_head: Option<u64>) -> bool {
    &&& batch_valid(t, b)
    &&& match set_head {
        Some(nh) => t.nodes.contains_key(nh) || batch_has_hash(b, nh),
        None => true,
    }
}

/// What a successful commit did: the batch was merged, child links extended,
/// and the head moved as requested. Together with `wf`, the new head pins the
/// canonical flags and the canonical index.
pub open spec fn commit_ok(
    t0: TreeModel,
    t1: TreeModel,
    b: Seq<ImportOperation>,
    set_head: Option<u64>,
) -> bool {
    &&& t1.genesis == t0.genesis
    &&& t1.head == (match set_head {
        Some(nh) => nh,
        None => t0.head,
    })
    &&& forall|h: u64| #[trigger] t1.nodes.contains_key(h) <==> (t0.nodes.contains_key(h)
        || batch_has_hash(b, h))
    &&& forall|i: int| 0 <= i < b.len() ==> ({
        let h = (#[trigger] b[i]).block.hash;
        &&& t1.nodes[h].block == b[i].block
        &&& t1.nodes[h].state == b[i].state@
        &&& t1.nodes[h].children == batch_children(b, h)
    })
    &&& forall|h: u64| #[trigger] t0.nodes.contains_key(h) ==> ({
        &&& t1.nodes[h].block == t0.nodes[h].block
        &&& t1.nodes[h].state == t0.nodes[h].state
        &&& t1.nodes[h].depth == t0.nodes[h].depth
        &&& t1.nodes[h].children == t0.nodes[h].children.union(batch_children(b, h))
    })
    &&& (set_head is None || set_head == Some(t0.head)) ==> ({
        &&& forall|h: u64| #[trigger] t0.nodes.contains_key(h) ==> t1.nodes[h].is_canon
            == t0.nodes[h].is_canon
        &&& forall|i: int| 0 <= i < b.len() ==> !t1.nodes[(#[trigger] b[i]).block.hash].is_canon
        &&& t1.canon == t0.canon
    })
}

/// Bookkeeping of the dependency-resolution rounds: `order` lists resolved
/// batch indices in resolution order, `depths` their computed depths, and
/// `resolved` maps each resolved hash to its depth.
spec fn res_inv(
    t: TreeModel,
    b: Seq<ImportOperation>,
    order: Seq<usize>,
    depths: Seq<usize>,
    resolved: Map<u64, usize>,
) -> bool {
    &&& depths.len() == order.len()
    &&& forall|k: int| 0 <= k < order.len() ==> (#[trigger] order[k]) < b.len()
    &&& forall|k: int, l: int| 0 <= k < l < order.len() ==> order[k] != order[l]
    &&& forall|k: int| 0 <= k < order.len() ==> b[#[trigger] order[k] as int].block.parent is Some
    &&& forall|k: int| 0 <= k < order.len() ==> !t.nodes.contains_key(
        b[#[trigger] order[k] as int].block.hash,
    )
    &&& forall|k: int, l: int| 0 <= k < l < order.len() ==> b[order[k] as int].block.hash
        != b[order[l] as int].block.hash
    &&& forall|h: u64| #[trigger] resolved.contains_key(h) <==> exists|k: int|
        0 <= k < order.len() && b[order[k] as int].block.hash == h
    &&& forall|k: int| 0 <= k < order.len() ==> resolved[b[#[trigger] order[k] as int].block.hash]
        == depths[k]
    &&& forall|k: int| 0 <= k < order.len() ==> {
        let p = b[#[trigger] order[k] as int].block.parent.unwrap();
        if t.nodes.contains_key(p) {
            depths[k] == t.nodes[p].depth + 1
        } else {
            exists|l: int| 0 <= l < k && b[order[l] as int].block.hash == p
                && depths[k] == depths[l] + 1
        }
    }
    &&& forall|k: int| 0 <= k < order.len() ==> (#[trigger] depths[k]) <= t.nodes.dom().len() + k
}

/// When a resolution round ends with unresolved items and no progress, no
/// fuel lets a stuck hash reach the tree.
proof fn lemma_stuck(
    dom: Set<u64>,
    b: Seq<ImportOperation>,
    resolved: Map<u64, usize>,
    order: Seq<usize>,
    next: Seq<usize>,
    h: u64,
    fuel: nat,
)
    requires
        forall|hh: u64| #[trigger] resolved.contains_key(hh) <==> exists|k: int|
            0 <= k < order.len() && b[order[k] as int].block.hash == hh,
        forall|k: int| 0 <= k < order.len() ==> (#[trigger] order[k]) < b.len(),
        forall|j: int| 0 <= j < next.len() ==> (#[trigger] next[j]) < b.len()
            && b[next[j] as int].block.parent is Some,
        forall|j: int| 0 <= j < next.len() ==> {
            let p = b[#[trigger] next[j] as int].block.parent.unwrap();
            !dom.contains(p) && !resolved.contains_key(p)
        },
        forall|idx: usize| (idx as int) < b.len() ==> order.contains(idx) || next.contains(idx),
        exists|j: int| 0 <= j < next.len() && b[next[j] as int].block.hash == h,
        !dom.contains(h),
        !resolved.contains_key(h),
        b.len() <= usize::MAX,
    ensures
        !batch_reaches(dom, b, h, fuel),
    decreases fuel,
{
    if batch_reaches(dom, b, h, fuel) {
        assert(batch_has_hash(b, h)) by {
            let j = choose|j: int| 0 <= j < next.len() && b[next[j] as int].block.hash == h;
            assert((next[j] as int) < b.len() && b[next[j] as int].block.hash == h);
        }
        assert(fuel > 0);
        let i = choose|i: int| 0 <= i < b.len() && b[i].block.hash == h;
        let iu = i as usize;
        assert(iu as int == i);
        assert(order.contains(iu) || next.contains(iu));
        if order.contains(iu) {
            let k = choose|k: int| 0 <= k < order.len() && order[k] == iu;
            assert(b[order[k] as int].block.hash == h);
            assert(resolved.contains_key(h));
            assert(false);
        }
        let j = choose|j: int| 0 <= j < next.len() && next[j] == iu;
        let p = b[i].block.parent.unwrap();
        assert(b[next[j] as int].block.parent.unwrap() == p);
        assert(!dom.contains(p) && !resolved.contains_key(p));
        assert(batch_reaches(dom, b, p, (fuel - 1) as nat));
        if batch_has_hash(b, p) {
            let i2 = choose|i2: int| 0 <= i2 < b.len() && b[i2].block.hash == p;
            let iu2 = i2 as usize;
            assert(iu2 as int == i2);
            assert(order.contains(iu2) || next.contains(iu2));
            if order.contains(iu2) {
                let k2 = choose|k2: int| 0 <= k2 < order.len() && order[k2] == iu2;
                assert(b[order[k2] as int].block.hash == p);
                assert(resolved.contains_key(p));
                assert(false);
            }
            let j2 = choose|j2: int| 0 <= j2 < next.len() && next[j2] == iu2;
            assert(b[next[j2] as int].block.hash == p);
            lemma_stuck(dom, b, resolved, order, next, p, (fuel - 1) as nat);
            assert(false);
        } else {
            assert(!batch_reaches(dom, b, p, (fuel - 1) as nat));
            assert(false);
        }
    }
}

/// Every hash the resolution rounds accepted is grounded in the tree.
proof fn lemma_resolved_grounded(
    t: TreeModel,
    b: Seq<ImportOperation>,
    order: Seq<usize>,
    depths: Seq<usize>,
    resolved: Map<u64, usize>,
    k: int,
)
    requires
        res_inv(t, b, order, depths, resolved),
        forall|i: int, j: int| 0 <= i < j < b.len() ==> b[i].block.hash != b[j].block.hash,
        0 <= k < order.len(),
    ensures
        grounded(t.nodes.dom(), b, b[order[k] as int].block.hash),
    decreases k,
{
    let dom = t.nodes.dom();
    let h = b[order[k] as int].block.hash;
    let p = b[order[k] as int].block.parent.unwrap();
    assert(batch_has_hash(b, h)) by {
        assert((order[k] as int) < b.len() && b[order[k] as int].block.hash == h);
    }
    let i = choose|i: int| 0 <= i < b.len() && b[i].block.hash == h;
    assert(i == order[k] as int) by {
        if i < order[k] as int {
            assert(b[i].block.hash != b[order[k] as int].block.hash);
        } else if i > order[k] as int {
            assert(b[order[k] as int].block.hash != b[i].block.hash);
        }
    }
    if t.nodes.contains_key(p) {
        assert(batch_reaches(dom, b, p, 0));
        assert(batch_reaches(dom, b, h, 1));
        assert(grounded(dom, b, h));
    } else {
        let l = choose|l: int|
            0 <= l < k && b[order[l] as int].block.hash == p && depths[k as int] == depths[l] + 1;
        lemma_resolved_grounded(t, b, order, depths, resolved, l);
        let fuel = choose|fuel: nat| batch_reaches(dom, b, b[order[l] as int].block.hash, fuel);
        assert(batch_reaches(dom, b, h, fuel + 1));
        assert(grounded(dom, b, h));
    }
}

/// Pushing onto a child list grows its set view by the pushed element.
proof fn lemma_push_to_set(s: Seq<u64>, x: u64)
    ensures
        s.push(x).to_set() == s.to_set().insert(x),
{
    assert forall|y: u64| s.push(x).to_set().contains(y) <==> s.to_set().insert(x).contains(
        y,
    ) by {
        assert(s.push(x)[s.len() as int] == x);
        if s.contains(y) {
            let i = choose|i: int| 0 <= i < s.len() && s[i] == y;
            assert(s.push(x)[i] == y);
        }
        if s.push(x).contains(y) {
            let i = choose|i: int| 0 <= i < s.push(x).len() && s.push(x)[i] == y;
            if i < s.len() {
                assert(s[i] == y);
            }
        }
    }
    assert(s.push(x).to_set() =~= s.to_set().insert(x));
}


impl MemoryBackend {
    /// Phase one of the commit protocol: dependency resolution in rounds,
    /// with no mutation. Each round attempts every still-unresolved item; an
    /// item resolves once its parent is known, at the parent's depth plus
    /// one; rounds repeat until all items resolve or a round makes no
    /// progress.
    #[verifier::rlimit(100)]
    fn resolve_batch(&self, batch: &Vec<ImportOperation>) -> (r: Result<
        (Vec<usize>, Vec<usize>, HashMap<u64, usize>),
        Error,
    >)
        requires
            self.inv(),
            self@.nodes.dom().len() + batch@.len() <= usize::MAX,
        ensures
            (exists|i: int|
                0 <= i < batch@.len() && (#[trigger] batch@[i]).block.parent is None) ==> r
                == Err::<(Vec<usize>, Vec<usize>, HashMap<u64, usize>), Error>(
                Error::ImportingGenesis,
            ),
            ((forall|i: int|
                0 <= i < batch@.len() ==> (#[trigger] batch@[i]).block.parent is Some)
                && !batch_valid(self@, batch@)) ==> r == Err::<
                (Vec<usize>, Vec<usize>, HashMap<u64, usize>),
                Error,
            >(Error::InvalidOperation),
            batch_valid(self@, batch@) ==> r is Ok,
            r matches Ok(v) ==> ({
                &&& res_inv(self@, batch@, v.0@, v.1@, v.2@)
                &&& forall|idx: usize| (idx as int) < batch@.len() ==> v.0@.contains(idx)
                &&& v.0@.len() <= batch@.len()
                &&& batch_valid(self@, batch@)
            }),
    {
        let ghost t0 = self@;
        let ghost b = batch@;
        let n = batch.len();
        let mut i: usize = 0;
        while i < n
            invariant
                n == b.len(),
                b == batch@,
                i <= n,
                forall|j: int| 0 <= j < i ==> (#[trigger] b[j]).block.parent is Some,
            decreases n - i,
        {
            if batch[i].block.parent.is_none() {
                return Err(Error::ImportingGenesis);
            }
            i += 1;
        }
        let mut pending: Vec<usize> = Vec::new();
        let mut i: usize = 0;
        while i < n
            invariant
                i <= n,
                pending@.len() == i,
                forall|j: int| 0 <= j < i ==> pending@[j] == j,
            decreases n - i,
        {
            pending.push(i);
            i += 1;
        }
        proof {
            assert forall|idx: usize| (idx as int) < n implies pending@.contains(idx) by {
                assert(pending@[idx as int] == idx);
            }
        }
        let mut order: Vec<usize> = Vec::new();
        let mut depths: Vec<usize> = Vec::new();
        let mut resolved: HashMap<u64, usize> = HashMap::new();
        loop
            invariant_except_break
                t0 == self@,
                self.inv(),
                b == batch@,
                n == b.len(),
                t0.nodes.dom().len() + n <= usize::MAX,
                forall|j: int| 0 <= j < n ==> (#[trigger] b[j]).block.parent is Some,
                res_inv(t0, b, order@, depths@, resolved@),
                forall|j: int| 0 <= j < pending@.len() ==> (#[trigger] pending@[j]) < n,
                forall|j: int, l: int| 0 <= j < l < pending@.len() ==> pending@[j] != pending@[l],
                forall|j: int| 0 <= j < pending@.len() ==> !order@.contains(
                    #[trigger] pending@[j],
                ),
                forall|idx: usize| (idx as int) < n ==> order@.contains(idx)
                    || pending@.contains(idx),
                order@.len() + pending@.len() <= n,
            ensures
                t0 == self@,
                b == batch@,
                res_inv(t0, b, order@, depths@, resolved@),
                forall|idx: usize| (idx as int) < n ==> order@.contains(idx),
                order@.len() <= n,
            decreases pending@.len(),
        {
            let ghost order0 = order@;
            let mut next_pending: Vec<usize> = Vec::new();
            let mut progress = false;
            let mut k: usize = 0;
            while k < pending.len()
                invariant
                    t0 == self@,
                    linked(t0.nodes, t0.genesis),
                    b == batch@,
                    n == b.len(),
                    t0.nodes.dom().len() + n <= usize::MAX,
                    forall|j: int| 0 <= j < n ==> (#[trigger] b[j]).block.parent is Some,
                    res_inv(t0, b, order@, depths@, resolved@),
                    k <= pending@.len(),
                    forall|j: int| 0 <= j < pending@.len() ==> (#[trigger] pending@[j]) < n,
                    forall|j: int, l: int| 0 <= j < l < pending@.len() ==> pending@[j]
                        != pending@[l],
                    forall|j: int| k <= j < pending@.len() ==> !order@.contains(
                        #[trigger] pending@[j],
                    ),
                    forall|j: int| 0 <= j < next_pending@.len() ==> (#[trigger] next_pending@[j])
                        < n,
                    forall|j: int, l: int| 0 <= j < l < next_pending@.len() ==> next_pending@[j]
                        != next_pending@[l],
                    forall|j: int| 0 <= j < next_pending@.len() ==> !order@.contains(
                        #[trigger] next_pending@[j],
                    ),
                    forall|j: int| 0 <= j < next_pending@.len() ==> exists|j2: int|
                        0 <= j2 < k && pending@[j2] == #[trigger] next_pending@[j],
                    forall|idx: usize| (idx as int) < n ==> order@.contains(idx)
                        || next_pending@.contains(idx) || (exists|j: int|
                        k <= j < pending@.len() && pending@[j] == idx),
                    forall|j: int| 0 <= j < next_pending@.len() ==> {
                        let p = b[#[trigger] next_pending@[j] as int].block.parent.unwrap();
                        &&& !t0.nodes.contains_key(p)
                        &&& (!progress ==> !resolved@.contains_key(p))
                    },
                    order@.len() + next_pending@.len() == order0.len() + k,
                    order0.is_prefix_of(order@),
                    progress <==> order@.len() > order0.len(),
                    order@.len() + next_pending@.len() + pending@.len() - k <= n,
                decreases pending@.len() - k,
            {
                let idx = pending[k];
                let blk = batch[idx].block;
                let p = match blk.parent {
                    Some(p) => p,
                    None => {
                        proof {
                            assert(false);
                        }
                        0u64
                    },
                };
                let parent_depth: Option<usize> = if self.nodes.contains_key(&p) {
                    match self.nodes.get(&p) {
                        Some(data) => Some(data.depth),
                        None => {
                            proof {
                                assert(false);
                            }
                            None
                        },
                    }
                } else {
                    match resolved.get(&p) {
                        Some(d) => Some(*d),
                        None => None,
                    }
                };
                match parent_depth {
                    Some(pd) => {
                        let h = blk.hash;
                        if self.nodes.contains_key(&h) || resolved.contains_key(&h) {
                            proof {
                                self.lemma_view();
                                if t0.nodes.contains_key(h) {
                                    assert(!batch_valid(t0, b)) by {
                                        assert(b[idx as int].block.hash == h);
                                    }
                                } else {
                                    let kk = choose|kk: int|
                                        0 <= kk < order@.len() && b[order@[kk] as int].block.hash
                                            == h;
                                    assert(order@.contains(order@[kk]));
                                    assert(order@[kk] != idx);
                                    assert(!batch_valid(t0, b)) by {
                                        if (order@[kk] as int) < (idx as int) {
                                            assert(b[order@[kk] as int].block.hash
                                                == b[idx as int].block.hash);
                                        } else {
                                            assert(b[idx as int].block.hash
                                                == b[order@[kk] as int].block.hash);
                                        }
                                    }
                                }
                            }
                            return Err(Error::InvalidOperation);
                        }
                        proof {
                            self.lemma_view();
                            if t0.nodes.contains_key(p) {
                                assert(pd == t0.nodes[p].depth);
                                assert(pd < t0.nodes.dom().len());
                            } else {
                                assert(resolved@.contains_key(p));
                                let l = choose|l: int|
                                    0 <= l < order@.len() && b[order@[l] as int].block.hash == p;
                                assert(resolved@[p] == depths@[l]);
                                assert(depths@[l] <= t0.nodes.dom().len() + l);
                                assert(order@.len() < n);
                            }
                            assert(pd + 1 <= usize::MAX);
                        }
                        let ghost resolved0 = resolved@;
                        let ghost order_a = order@;
                        let ghost depths_a = depths@;
                        let d = pd + 1;
                        resolved.insert(h, d);
                        order.push(idx);
                        depths.push(d);
                        progress = true;
                        proof {
                            let kn = order_a.len() as int;
                            assert(order@ == order_a.push(idx));
                            assert(order@[kn] == idx && depths@[kn] == d);
                            assert(forall|j: int| 0 <= j < kn ==> order@[j] == order_a[j]);
                            assert(forall|j: int| 0 <= j < kn ==> depths@[j] == depths_a[j]);
                            assert(order0.is_prefix_of(order@)) by {
                                assert(forall|j: int|
                                    0 <= j < order0.len() ==> order@[j] == order0[j]);
                                assert(order@.take(order0.len() as int) =~= order0);
                            }
                            assert forall|hh: u64| #[trigger] resolved@.contains_key(hh)
                                <==> exists|kk: int|
                                0 <= kk < order@.len() && b[order@[kk] as int].block.hash
                                    == hh by {
                                if hh == h {
                                    assert(resolved@.contains_key(hh));
                                    assert(b[order@[kn] as int].block.hash == hh);
                                } else {
                                    assert(resolved@.contains_key(hh) <==> resolved0.contains_key(
                                        hh,
                                    ));
                                    if resolved0.contains_key(hh) {
                                        let kk = choose|kk: int|
                                            0 <= kk < order_a.len() && b[order_a[kk] as int].block.hash
                                                == hh;
                                        assert(order@[kk] == order_a[kk]);
                                        assert(b[order@[kk] as int].block.hash == hh);
                                    }
                                    if exists|kk: int|
                                        0 <= kk < order@.len() && b[order@[kk] as int].block.hash
                                            == hh {
                                        let kk = choose|kk: int|
                                            0 <= kk < order@.len()
                                                && b[order@[kk] as int].block.hash == hh;
                                        if kk < kn {
                                            assert(b[order_a[kk] as int].block.hash == hh);
                                            assert(resolved0.contains_key(hh));
                                        } else {
                                            assert(b[order@[kn] as int].block.hash == h);
                                        }
                                    }
                                }
                            }
                            if !t0.nodes.contains_key(p) {
                                let l = choose|l: int|
                                    0 <= l < kn && b[order_a[l] as int].block.hash == p;
                                assert(b[order@[l] as int].block.hash == p);
                                assert(depths@[kn] == depths@[l] + 1);
                            }
                            assert(!resolved0.contains_key(h));
                            assert forall|kk: int| 0 <= kk < kn implies b[order@[kk] as int].block.hash
                                != h by {
                                if b[order_a[kk] as int].block.hash == h {
                                    assert(resolved0.contains_key(h));
                                }
                            }
                            assert forall|kk: int| 0 <= kk < kn implies order@[kk] != idx by {
                                if order_a[kk] == idx {
                                    assert(order_a.contains(idx));
                                }
                            }
                            assert(order@.contains(idx));
                            assert(depths@.len() == order@.len());
                            assert(forall|kk: int| 0 <= kk < order@.len() ==> (
                            #[trigger] order@[kk]) < b.len());
                            assert(forall|kk: int, ll: int|
                                0 <= kk < ll < order@.len() ==> order@[kk] != order@[ll]);
                            assert(forall|kk: int|
                                0 <= kk < order@.len()
                                    ==> b[#[trigger] order@[kk] as int].block.parent is Some);
                            assert(forall|kk: int|
                                0 <= kk < order@.len() ==> !t0.nodes.contains_key(
                                b[#[trigger] order@[kk] as int].block.hash));
                            assert(forall|kk: int, ll: int|
                                0 <= kk < ll < order@.len() ==> b[order@[kk] as int].block.hash
                                    != b[order@[ll] as int].block.hash);
                            assert(forall|kk: int|
                                0 <= kk < order@.len() ==> resolved@[b[#[trigger] order@[kk] as int].block.hash]
                                    == depths@[kk]);
                            assert forall|kk: int| 0 <= kk < order@.len() implies ({
                                let pp = b[#[trigger] order@[kk] as int].block.parent.unwrap();
                                if t0.nodes.contains_key(pp) {
                                    depths@[kk] == t0.nodes[pp].depth + 1
                                } else {
                                    exists|l: int|
                                        0 <= l < kk && b[order@[l] as int].block.hash == pp
                                            && depths@[kk] == depths@[l] + 1
                                }
                            }) by {
                                let pp = b[order@[kk] as int].block.parent.unwrap();
                                if kk < kn && !t0.nodes.contains_key(pp) {
                                    let l = choose|l: int|
                                        0 <= l < kk && b[order_a[l] as int].block.hash == pp
                                            && depths_a[kk] == depths_a[l] + 1;
                                    assert(b[order@[l] as int].block.hash == pp
                                        && depths@[kk] == depths@[l] + 1);
                                }
                            }
                            assert(forall|kk: int|
                                0 <= kk < order@.len() ==> (#[trigger] depths@[kk])
                                    <= t0.nodes.dom().len() + kk);
                            assert(res_inv(t0, b, order@, depths@, resolved@));
                        }
                    },
                    None => {
                        proof {
                            self.lemma_view();
                            assert(!t0.nodes.contains_key(p));
                            assert(!resolved@.contains_key(p));
                        }
                        let ghost next_a = next_pending@;
                        next_pending.push(idx);
                        proof {
                            assert(forall|j: int|
                                0 <= j < next_a.len() ==> next_pending@[j] == next_a[j]);
                            assert(next_pending@[next_a.len() as int] == idx);
                            assert forall|j: int| 0 <= j < next_pending@.len() implies exists|
                                j2: int,
                            |
                                0 <= j2 < k + 1 && pending@[j2] == #[trigger] next_pending@[j] by {
                                if j < next_a.len() {
                                    let j2 = choose|j2: int|
                                        0 <= j2 < k && pending@[j2] == next_a[j];
                                    assert(pending@[j2] == next_pending@[j]);
                                } else {
                                    assert(pending@[k as int] == next_pending@[j]);
                                }
                            }
                            assert forall|j: int, l: int|
                                0 <= j < l < next_pending@.len() implies next_pending@[j]
                                != next_pending@[l] by {
                                if l == next_a.len() {
                                    let j2 = choose|j2: int|
                                        0 <= j2 < k && pending@[j2] == next_a[j];
                                    assert(pending@[j2] != pending@[k as int]);
                                }
                            }
                        }
                    },
                }
                k += 1;
            }
            if next_pending.len() == 0 {
                proof {
                    assert forall|idx: usize| (idx as int) < n implies order@.contains(idx) by {
                        assert(order@.contains(idx) || next_pending@.contains(idx) || (
                        exists|j: int|
                            pending@.len() <= j < pending@.len() && pending@[j] == idx));
                    }
                }
                break ;
            }
            if !progress {
                proof {
                    if batch_valid(t0, b) {
                        let idx0 = next_pending@[0];
                        let h = b[idx0 as int].block.hash;
                        assert(!t0.nodes.contains_key(h));
                        assert(!resolved@.contains_key(h)) by {
                            if resolved@.contains_key(h) {
                                let kk = choose|kk: int|
                                    0 <= kk < order@.len() && b[order@[kk] as int].block.hash == h;
                                assert(order@.contains(order@[kk]));
                                assert(order@[kk] != idx0);
                                if (order@[kk] as int) < (idx0 as int) {
                                    assert(b[order@[kk] as int].block.hash
                                        == b[idx0 as int].block.hash);
                                } else {
                                    assert(b[idx0 as int].block.hash
                                        == b[order@[kk] as int].block.hash);
                                }
                            }
                        }
                        assert(grounded(t0.nodes.dom(), b, h));
                        let fuel = choose|fuel: nat| batch_reaches(t0.nodes.dom(), b, h, fuel);
                        assert(!t0.nodes.dom().contains(h));
                        lemma_stuck(
                            t0.nodes.dom(),
                            b,
                            resolved@,
                            order@,
                            next_pending@,
                            h,
                            fuel,
                        );
                        assert(false);
                    }
                    assert(!batch_valid(t0, b));
                }
                return Err(Error::InvalidOperation);
            }
            pending = next_pending;
        }
        proof {
            assert forall|i2: int, j2: int| 0 <= i2 < j2 < n implies b[i2].block.hash
                != b[j2].block.hash by {
                assert(order@.contains(i2 as usize));
                assert(order@.contains(j2 as usize));
                let ki = choose|ki: int| 0 <= ki < order@.len() && order@[ki] == i2 as usize;
                let kj = choose|kj: int| 0 <= kj < order@.len() && order@[kj] == j2 as usize;
                if ki < kj {
                    assert(b[order@[ki] as int].block.hash != b[order@[kj] as int].block.hash);
                } else {
                    assert(b[order@[kj] as int].block.hash != b[order@[ki] as int].block.hash);
                }
            }
            assert forall|i2: int| 0 <= i2 < n implies !t0.nodes.contains_key(
                (#[trigger] b[i2]).block.hash,
            ) && grounded(t0.nodes.dom(), b, b[i2].block.hash) by {
                assert(order@.contains(i2 as usize));
                let ki = choose|ki: int| 0 <= ki < order@.len() && order@[ki] == i2 as usize;
                lemma_resolved_grounded(t0, b, order@, depths@, resolved@, ki);
            }
            assert(batch_valid(t0, b));
        }
        Ok((order, depths, resolved))
    }
}


/// The batched blocks already merged after `k` resolution steps.
#[verifier::opaque]
spec fn children_upto(b: Seq<ImportOperation>, order: Seq<usize>, k: int, h: u64) -> Set<u64> {
    Set::new(
        |c: u64|
            exists|l: int| 0 <= l < k && b[order[l] as int].block.hash == c
                && b[order[l] as int].block.parent == Some(h),
    )
}

/// Merging one more batch item extends exactly its parent's batched
/// children.
proof fn lemma_children_upto_step(
    b: Seq<ImportOperation>,
    order: Seq<usize>,
    k: int,
    p: u64,
    h: u64,
)
    requires
        0 <= k < order.len(),
        (order[k] as int) < b.len(),
        b[order[k] as int].block.hash == h,
        b[order[k] as int].block.parent == Some(p),
    ensures
        children_upto(b, order, k + 1, p) == children_upto(b, order, k, p).insert(h),
        forall|x: u64| x != p ==> children_upto(b, order, k + 1, x) == children_upto(b, order, k, x),
{
    reveal(children_upto);
    assert(children_upto(b, order, k + 1, p) =~= children_upto(b, order, k, p).insert(h));
    assert forall|x: u64| x != p implies children_upto(b, order, k + 1, x) == children_upto(
        b,
        order,
        k,
        x,
    ) by {
        assert(children_upto(b, order, k + 1, x) =~= children_upto(b, order, k, x));
    }
}

/// A freshly merged block has no batched children among the items merged so
/// far.
proof fn lemma_new_node_childless(
    t0: TreeModel,
    b: Seq<ImportOperation>,
    order: Seq<usize>,
    depths: Seq<usize>,
    resolved: Map<u64, usize>,
    k: int,
)
    requires
        res_inv(t0, b, order, depths, resolved),
        0 <= k < order.len(),
    ensures
        children_upto(b, order, k + 1, b[order[k] as int].block.hash) == Set::<u64>::empty(),
{
    reveal(children_upto);
    let h = b[order[k] as int].block.hash;
    assert forall|c: u64| !(#[trigger] children_upto(b, order, k + 1, h).contains(c)) by {
        if children_upto(b, order, k + 1, h).contains(c) {
            let l2 = choose|l2: int|
                0 <= l2 < k + 1 && b[order[l2] as int].block.hash == c && b[order[l2] as int].block.parent
                    == Some(h);
            if l2 == k {
                assert(b[order[k] as int].block.parent == Some(h));
                assert(!t0.nodes.contains_key(h));
                let l3 = choose|l3: int|
                    0 <= l3 < k && b[order[l3] as int].block.hash == h && depths[k] == depths[l3]
                        + 1;
                assert(b[order[l3] as int].block.hash == b[order[k] as int].block.hash);
                assert(false);
            } else {
                assert(!t0.nodes.contains_key(h));
                let l3 = choose|l3: int|
                    0 <= l3 < l2 && b[order[l3] as int].block.hash == h && depths[l2] == depths[l3]
                        + 1;
                assert(b[order[l3] as int].block.hash == b[order[k] as int].block.hash);
                assert(false);
            }
        }
    }
    assert(children_upto(b, order, k + 1, h) =~= Set::<u64>::empty());
}

/// Before anything is merged, no batched child is recorded yet.
proof fn lemma_children_upto_zero(b: Seq<ImportOperation>, order: Seq<usize>)
    ensures
        forall|x: u64| #[trigger] children_upto(b, order, 0, x) == Set::<u64>::empty(),
        forall|s: Set<u64>| #[trigger] s.union(Set::<u64>::empty()) == s,
{
    reveal(children_upto);
    assert forall|x: u64| #[trigger] children_upto(b, order, 0, x) == Set::<u64>::empty() by {
        assert(children_upto(b, order, 0, x) =~= Set::<u64>::empty());
    }
    assert forall|s: Set<u64>| #[trigger] s.union(Set::<u64>::empty()) == s by {
        assert(s.union(Set::<u64>::empty()) =~= s);
    }
}

/// The node map after `k` merge steps: the old tree plus the first `k`
/// resolved items, each non-canonical and linked into its parent.
#[verifier::opaque]
spec fn merge_nodes_inv(
    t0: TreeModel,
    b: Seq<ImportOperation>,
    order: Seq<usize>,
    depths: Seq<usize>,
    k: int,
    nodes: Map<u64, NodeModel>,
) -> bool {
    &&& nodes.dom().finite()
    &&& nodes.dom().len() == t0.nodes.dom().len() + k
    &&& forall|h: u64| #[trigger] nodes.contains_key(h) <==> (t0.nodes.contains_key(h) || exists|
        l: int,
    | 0 <= l < k && b[order[l] as int].block.hash == h)
    &&& forall|l: int| 0 <= l < k ==> ({
        let h = b[#[trigger] order[l] as int].block.hash;
        &&& nodes[h].block == b[order[l] as int].block
        &&& nodes[h].state == b[order[l] as int].state@
        &&& nodes[h].depth == depths[l]
        &&& nodes[h].is_canon == false
        &&& nodes[h].children == children_upto(b, order, k, h)
    })
    &&& forall|h: u64| #[trigger] t0.nodes.contains_key(h) ==> ({
        &&& nodes[h].block == t0.nodes[h].block
        &&& nodes[h].state == t0.nodes[h].state
        &&& nodes[h].depth == t0.nodes[h].depth
        &&& nodes[h].is_canon == t0.nodes[h].is_canon
        &&& nodes[h].children == t0.nodes[h].children.union(children_upto(b, order, k, h))
    })
    &&& linked(nodes, t0.genesis)
    &&& children_ok(nodes, t0.genesis)
}

/// Before the merge starts, the old tree itself satisfies the merge
/// invariant.
proof fn lemma_merge_base(
    t0: TreeModel,
    b: Seq<ImportOperation>,
    order: Seq<usize>,
    depths: Seq<usize>,
)
    requires
        wf(t0),
    ensures
        merge_nodes_inv(t0, b, order, depths, 0, t0.nodes),
{
    reveal(merge_nodes_inv);
    lemma_children_upto_zero(b, order);
}

/// The parent of the next item to merge is already present, and the item
/// itself is not.
proof fn lemma_merge_parent_present(
    t0: TreeModel,
    b: Seq<ImportOperation>,
    order: Seq<usize>,
    depths: Seq<usize>,
    resolved: Map<u64, usize>,
    k: int,
    pre: Map<u64, NodeModel>,
)
    requires
        res_inv(t0, b, order, depths, resolved),
        0 <= k < order.len(),
        merge_nodes_inv(t0, b, order, depths, k, pre),
    ensures
        ({
            let h = b[order[k] as int].block.hash;
            let p = b[order[k] as int].block.parent.unwrap();
            &&& pre.contains_key(p)
            &&& !pre.contains_key(h)
            &&& p != h
            &&& !pre[p].children.contains(h)
            &&& pre[p].depth + 1 == depths[k]
        }),
    decreases k,
{
    reveal(merge_nodes_inv);
    let h = b[order[k] as int].block.hash;
    let p = b[order[k] as int].block.parent.unwrap();
    assert(!t0.nodes.contains_key(h));
    assert(!pre.contains_key(h)) by {
        if exists|l: int| 0 <= l < k && b[order[l] as int].block.hash == h {
            let l = choose|l: int| 0 <= l < k && b[order[l] as int].block.hash == h;
            assert(b[order[l] as int].block.hash == b[order[k] as int].block.hash);
            assert(false);
        }
    }
    if t0.nodes.contains_key(p) {
        assert(pre.contains_key(p));
        assert(pre[p].depth == t0.nodes[p].depth);
    } else {
        let l = choose|l: int|
            0 <= l < k && b[order[l] as int].block.hash == p && depths[k] == depths[l] + 1;
        assert(pre.contains_key(p));
        assert(pre[p].depth == depths[l]);
    }
    assert(!pre[p].children.contains(h)) by {
        if pre[p].children.contains(h) {
            assert(pre.contains_key(h));
        }
    }
}

/// One merge step keeps the merge invariant.
#[verifier::rlimit(100)]
proof fn lemma_merge_step(
    t0: TreeModel,
    b: Seq<ImportOperation>,
    order: Seq<usize>,
    depths: Seq<usize>,
    resolved: Map<u64, usize>,
    k: int,
    pre: Map<u64, NodeModel>,
    post: Map<u64, NodeModel>,
    nd: NodeModel,
    pd2: NodeModel,
    h: u64,
    p: u64,
)
    requires
        res_inv(t0, b, order, depths, resolved),
        0 <= k < order.len(),
        merge_nodes_inv(t0, b, order, depths, k, pre),
        h == b[order[k] as int].block.hash,
        Some(p) == b[order[k] as int].block.parent,
        nd.block == b[order[k] as int].block,
        nd.state == b[order[k] as int].state@,
        nd.depth == depths[k],
        nd.children == Set::<u64>::empty(),
        nd.is_canon == false,
        pd2.block == pre[p].block,
        pd2.state == pre[p].state,
        pd2.depth == pre[p].depth,
        pd2.is_canon == pre[p].is_canon,
        pd2.children == pre[p].children.insert(h),
        post == pre.insert(h, nd).insert(p, pd2),
    ensures
        merge_nodes_inv(t0, b, order, depths, k + 1, post),
{
    reveal(merge_nodes_inv);
    lemma_merge_parent_present(t0, b, order, depths, resolved, k, pre);
    lemma_children_upto_step(b, order, k, p, h);
    lemma_new_node_childless(t0, b, order, depths, resolved, k);
    assert(post.dom().len() == t0.nodes.dom().len() + k + 1) by {
        assert(post.dom() =~= pre.dom().insert(h));
        assert(!pre.dom().contains(h));
    }
    assert forall|x: u64| #[trigger] post.contains_key(x) <==> (t0.nodes.contains_key(x) || exists|
        l: int,
    | 0 <= l < k + 1 && b[order[l] as int].block.hash == x) by {
        if x == h {
            assert(b[order[k] as int].block.hash == x);
        } else {
            if exists|l: int| 0 <= l < k + 1 && b[order[l] as int].block.hash == x {
                let l = choose|l: int| 0 <= l < k + 1 && b[order[l] as int].block.hash == x;
                assert(l < k);
            }
        }
    }
    assert forall|l: int| 0 <= l < k + 1 implies ({
        let x = b[#[trigger] order[l] as int].block.hash;
        &&& post[x].block == b[order[l] as int].block
        &&& post[x].state == b[order[l] as int].state@
        &&& post[x].depth == depths[l]
        &&& post[x].is_canon == false
        &&& post[x].children == children_upto(b, order, k + 1, x)
    }) by {
        let x = b[order[l] as int].block.hash;
        if l == k {
            assert(x == h);
        } else {
            assert(x != h) by {
                if x == h {
                    assert(b[order[l] as int].block.hash == b[order[k] as int].block.hash);
                }
            }
            if x == p {
                assert(post[x].children == pre[p].children.insert(h));
            }
        }
    }
    assert forall|x: u64| #[trigger] t0.nodes.contains_key(x) implies ({
        &&& post[x].block == t0.nodes[x].block
        &&& post[x].state == t0.nodes[x].state
        &&& post[x].depth == t0.nodes[x].depth
        &&& post[x].is_canon == t0.nodes[x].is_canon
        &&& post[x].children == t0.nodes[x].children.union(children_upto(b, order, k + 1, x))
    }) by {
        assert(x != h);
        if x == p {
            assert(pre[p].children == t0.nodes[p].children.union(
                children_upto(b, order, k, p),
            ));
            assert(t0.nodes[p].children.union(children_upto(b, order, k, p)).insert(h)
                =~= t0.nodes[p].children.union(children_upto(b, order, k + 1, p)));
        }
    }
    assert(linked(post, t0.genesis)) by {
        assert(t0.genesis != h);
        assert(post.contains_key(t0.genesis) && post[t0.genesis].depth == 0);
        assert forall|x: u64| #[trigger] post.contains_key(x) implies post[x].block.hash == x && ((
        post[x].block.parent is None) <==> x == t0.genesis) && post[x].depth
            < post.dom().len() by {
            if x == h {
                assert(depths[k] <= t0.nodes.dom().len() + k);
            } else {
                assert(pre.contains_key(x) && pre[x].block == post[x].block && pre[x].depth
                    == post[x].depth);
            }
        }
        assert forall|x: u64| #[trigger] post.contains_key(x) && x != t0.genesis implies ({
            let pp = post[x].block.parent.unwrap();
            &&& post.contains_key(pp)
            &&& post[x].depth == post[pp].depth + 1
        }) by {
            if x == h {
                assert(post[p].depth == pre[p].depth);
            } else {
                let pp = pre[x].block.parent.unwrap();
                assert(pre.contains_key(pp));
                assert(post.contains_key(pp) && post[pp].depth == pre[pp].depth);
            }
        }
    }
    assert(children_ok(post, t0.genesis)) by {
        assert forall|x: u64| #[trigger] post.contains_key(x) && x != t0.genesis implies
            post[post[x].block.parent.unwrap()].children.contains(x) by {
            if x == h {
                assert(post[p].children.contains(h));
            } else {
                let pp = pre[x].block.parent.unwrap();
                assert(pre[pp].children.contains(x));
                if pp == p {
                    assert(post[p].children.contains(x));
                }
            }
        }
        assert forall|x: u64, c: u64|
            post.contains_key(x) && #[trigger] post[x].children.contains(c) implies
            post.contains_key(c) && c != t0.genesis && post[c].block.parent == Some(x) by {
            if x == p && c == h {
            } else {
                assert(pre.contains_key(x) && pre[x].children.contains(c));
                assert(c != h) by {
                    if c == h {
                        assert(pre.contains_key(h));
                    }
                }
            }
        }
    }
}

/// After the whole batch is merged, the batched children are complete.
proof fn lemma_merge_done(
    t0: TreeModel,
    b: Seq<ImportOperation>,
    order: Seq<usize>,
    depths: Seq<usize>,
    resolved: Map<u64, usize>,
    nodes: Map<u64, NodeModel>,
)
    requires
        res_inv(t0, b, order, depths, resolved),
        merge_nodes_inv(t0, b, order, depths, order.len() as int, nodes),
        forall|idx: usize| (idx as int) < b.len() ==> order.contains(idx),
        b.len() <= usize::MAX,
    ensures
        linked(nodes, t0.genesis),
        children_ok(nodes, t0.genesis),
        forall|h: u64| #[trigger] nodes.contains_key(h) <==> (t0.nodes.contains_key(h)
            || batch_has_hash(b, h)),
        forall|i: int| 0 <= i < b.len() ==> ({
            let h = (#[trigger] b[i]).block.hash;
            &&& nodes[h].block == b[i].block
            &&& nodes[h].state == b[i].state@
            &&& nodes[h].depth == depths[choose|l: int| 0 <= l < order.len() && order[l] == i as usize]
            &&& nodes[h].is_canon == false
            &&& nodes[h].children == batch_children(b, h)
        }),
        forall|h: u64| #[trigger] t0.nodes.contains_key(h) ==> ({
            &&& nodes[h].block == t0.nodes[h].block
            &&& nodes[h].state == t0.nodes[h].state
            &&& nodes[h].depth == t0.nodes[h].depth
            &&& nodes[h].is_canon == t0.nodes[h].is_canon
            &&& nodes[h].children == t0.nodes[h].children.union(batch_children(b, h))
        }),
{
    reveal(merge_nodes_inv);
    let m = order.len() as int;
    assert forall|x: u64| children_upto(b, order, m, x) == batch_children(b, x) by {
        reveal(children_upto);
        assert forall|c: u64| batch_children(b, x).contains(c) implies children_upto(
            b,
            order,
            m,
            x,
        ).contains(c) by {
            let i = choose|i: int|
                0 <= i < b.len() && b[i].block.hash == c && b[i].block.parent == Some(x);
            assert(order.contains(i as usize));
            let l = choose|l: int| 0 <= l < m && order[l] == i as usize;
            assert(b[order[l] as int].block.hash == c);
        }
        assert(children_upto(b, order, m, x) =~= batch_children(b, x));
    }
    assert forall|i: int| 0 <= i < b.len() implies ({
        let h = (#[trigger] b[i]).block.hash;
        &&& nodes[h].block == b[i].block
        &&& nodes[h].state == b[i].state@
        &&& nodes[h].depth == depths[choose|l: int| 0 <= l < order.len() && order[l] == i as usize]
        &&& nodes[h].is_canon == false
        &&& nodes[h].children == batch_children(b, h)
    }) by {
        assert(order.contains(i as usize));
        let l = choose|l: int| 0 <= l < order.len() && order[l] == i as usize;
        assert(b[order[l] as int].block.hash == b[i].block.hash);
    }
    assert forall|h: u64| #[trigger] nodes.contains_key(h) <==> (t0.nodes.contains_key(h)
        || batch_has_hash(b, h)) by {
        if batch_has_hash(b, h) {
            let i = choose|i: int| 0 <= i < b.len() && b[i].block.hash == h;
            assert(order.contains(i as usize));
            let l = choose|l: int| 0 <= l < order.len() && order[l] == i as usize;
            assert(b[order[l] as int].block.hash == h);
        }
    }
}

/// An unchanged canonical index still describes the old head after fresh,
/// non-canonical nodes are merged.
#[verifier::rlimit(100)]
proof fn lemma_merge_canon_ok(t0: TreeModel, t1: TreeModel, b: Seq<ImportOperation>)
    requires
        canon_ok(t0),
        t1.head == t0.head,
        t1.genesis == t0.genesis,
        t1.canon == t0.canon,
        forall|h: u64| #[trigger] t1.nodes.contains_key(h) <==> (t0.nodes.contains_key(h)
            || batch_has_hash(b, h)),
        forall|i: int| 0 <= i < b.len() ==> !t0.nodes.contains_key((#[trigger] b[i]).block.hash),
        forall|i: int| 0 <= i < b.len() ==> !t1.nodes[(#[trigger] b[i]).block.hash].is_canon,
        forall|h: u64| #[trigger] t0.nodes.contains_key(h) ==> t1.nodes[h].depth
            == t0.nodes[h].depth && t1.nodes[h].is_canon == t0.nodes[h].is_canon
            && t1.nodes[h].block == t0.nodes[h].block,
    ensures
        canon_ok(t1),
{
    assert(t1.nodes.contains_key(t1.head));
    assert(t1.nodes[t1.head].depth == t0.nodes[t0.head].depth);
    assert forall|d: usize| #[trigger] t1.canon.contains_key(d) implies t1.nodes.contains_key(
        t1.canon[d],
    ) && t1.nodes[t1.canon[d]].depth == d && t1.nodes[t1.canon[d]].is_canon by {
        assert(t0.nodes.contains_key(t0.canon[d]));
    }
    assert forall|d: usize| 1 <= d <= t1.nodes[t1.head].depth implies
        t1.nodes[#[trigger] t1.canon[d]].block.parent == Some(t1.canon[(d - 1) as usize]) by {
        assert(t0.canon.contains_key(d));
        assert(t0.nodes.contains_key(t0.canon[d]));
        assert(t1.nodes[t1.canon[d]].block == t0.nodes[t0.canon[d]].block);
    }
    assert forall|h: u64| #[trigger] t1.nodes.contains_key(h) implies (t1.nodes[h].is_canon <==> (
    t1.canon.contains_key(t1.nodes[h].depth) && t1.canon[t1.nodes[h].depth] == h)) by {
        if t0.nodes.contains_key(h) {
        } else {
            assert(batch_has_hash(b, h));
            let i = choose|i: int| 0 <= i < b.len() && b[i].block.hash == h;
            assert(!t1.nodes[b[i].block.hash].is_canon);
            assert(!t1.nodes[h].is_canon);
            if t1.canon.contains_key(t1.nodes[h].depth) {
                assert(t0.nodes.contains_key(t0.canon[t1.nodes[h].depth]));
                assert(t1.canon[t1.nodes[h].depth] != h);
            }
        }
    }
    assert(forall|d: usize| #[trigger] t1.canon.contains_key(d) <==> d <= t1.nodes[t1.head].depth);
    assert(t1.canon[t1.nodes[t1.head].depth] == t1.head);
    assert(canon_ok(t1));
}


impl MemoryBackend {
    /// Phase three of the commit protocol: merge every resolved item as a
    /// new, initially non-canonical node, and append each to its parent's
    /// children.
    #[verifier::rlimit(100)]
    fn merge_batch(
        &mut self,
        batch: &Vec<ImportOperation>,
        order: &Vec<usize>,
        depths: &Vec<usize>,
        Ghost(resolved): Ghost<Map<u64, usize>>,
    )
        requires
            old(self).inv(),
            res_inv(old(self)@, batch@, order@, depths@, resolved),
            forall|idx: usize| (idx as int) < batch@.len() ==> order@.contains(idx),
            order@.len() <= batch@.len(),
            batch@.len() <= usize::MAX,
            forall|i: int| 0 <= i < batch@.len() ==> (#[trigger] batch@[i]).state.inv(),
        ensures
            final(self).inv(),
            final(self)@.genesis == old(self)@.genesis,
            final(self)@.head == old(self)@.head,
            final(self)@.canon == old(self)@.canon,
            forall|h: u64| #[trigger] final(self)@.nodes.contains_key(h) <==> (
            old(self)@.nodes.contains_key(h) || batch_has_hash(batch@, h)),
            forall|i: int| 0 <= i < batch@.len() ==> ({
                let h = (#[trigger] batch@[i]).block.hash;
                &&& final(self)@.nodes[h].block == batch@[i].block
                &&& final(self)@.nodes[h].state == batch@[i].state@
                &&& final(self)@.nodes[h].children == batch_children(batch@, h)
                &&& final(self)@.nodes[h].is_canon == false
            }),
            forall|h: u64| #[trigger] old(self)@.nodes.contains_key(h) ==> ({
                &&& final(self)@.nodes[h].block == old(self)@.nodes[h].block
                &&& final(self)@.nodes[h].state == old(self)@.nodes[h].state
                &&& final(self)@.nodes[h].depth == old(self)@.nodes[h].depth
                &&& final(self)@.nodes[h].is_canon == old(self)@.nodes[h].is_canon
                &&& final(self)@.nodes[h].children == old(self)@.nodes[h].children.union(
                    batch_children(batch@, h),
                )
            }),
    {
        let ghost t0 = old(self)@;
        let ghost b = batch@;
        proof {
            lemma_merge_base(t0, b, order@, depths@);
        }
        let m = order.len();
        let mut k: usize = 0;
        while k < m
            invariant
                t0 == old(self)@,
                b == batch@,
                res_inv(t0, b, order@, depths@, resolved),
                forall|i: int| 0 <= i < b.len() ==> (#[trigger] b[i]).state.inv(),
                m == order@.len(),
                k <= m,
                merge_nodes_inv(t0, b, order@, depths@, k as int, self@.nodes),
                self@.head == t0.head,
                self@.genesis == t0.genesis,
                self@.canon == t0.canon,
                self.rep_inv(),
            decreases m - k,
        {
            let ghost pre = self@.nodes;
            let idx = order[k];
            let blk = batch[idx].block;
            let h = blk.hash;
            let d = depths[k];
            proof {
                lemma_merge_parent_present(t0, b, order@, depths@, resolved, k as int, pre);
                self.lemma_view();
            }
            let st = batch[idx].state.clone();
            let nd = BlockData {
                block: blk,
                state: st,
                depth: d,
                children: Vec::new(),
                is_canon: false,
            };
            let ghost ndv = nd@;
            let ghost pre_exec = self.nodes@;
            self.nodes.insert(h, nd);
            let p = match blk.parent {
                Some(p) => p,
                None => {
                    proof {
                        assert(false);
                    }
                    0u64
                },
            };
            proof {
                assert(pre.contains_key(p) && p != h);
                assert(pre_exec.contains_key(p));
                assert(self.nodes@.contains_key(p));
            }
            let mut pdata = self.nodes.remove(&p).unwrap();
            let ghost pch = pdata.children@;
            pdata.children.push(h);
            proof {
                lemma_push_to_set(pch, h);
            }
            let ghost pd2v = pdata@;
            self.nodes.insert(p, pdata);
            proof {
                self.lemma_view();
                assert(ndv.children =~= Set::<u64>::empty());
                assert(pd2v.block == pre[p].block && pd2v.state == pre[p].state && pd2v.depth
                    == pre[p].depth && pd2v.is_canon == pre[p].is_canon);
                assert(pd2v.children == pre[p].children.insert(h));
                assert(self@.nodes =~= pre.insert(h, ndv).insert(p, pd2v));
                lemma_merge_step(
                    t0,
                    b,
                    order@,
                    depths@,
                    resolved,
                    k as int,
                    pre,
                    self@.nodes,
                    ndv,
                    pd2v,
                    h,
                    p,
                );
                assert(pch.push(h).no_duplicates()) by {
                    assert(!pch.contains(h)) by {
                        if pch.contains(h) {
                            assert(pch.to_set().contains(h));
                            assert(pre[p].children.contains(h));
                        }
                    }
                }
                assert forall|x: u64| #[trigger] self.nodes@.contains_key(x) implies (
                self.nodes@[x].children@.no_duplicates() && self.nodes@[x].state.inv()) by {
                    if x == h {
                    } else if x == p {
                    } else {
                        assert(pre_exec.contains_key(x) && self.nodes@[x] == pre_exec[x]);
                    }
                }
            }
            k += 1;
        }
        proof {
            lemma_merge_done(t0, b, order@, depths@, resolved, self@.nodes);
            assert forall|i: int| 0 <= i < b.len() implies !t0.nodes.contains_key(
                (#[trigger] b[i]).block.hash,
            ) by {
                assert(order@.contains(i as usize));
                let l = choose|l: int| 0 <= l < order@.len() && order@[l] == i as usize;
                assert(!t0.nodes.contains_key(b[order@[l] as int].block.hash));
            }
            lemma_merge_canon_ok(t0, self@, b);
        }
    }
}


/// Everything the reorganization proof carries about the tree it started
/// from: both endpoint chains, the canonical identity of the old head's
/// chain, their shared prefix, and the route's retract and enact lists.
#[verifier::opaque]
spec fn reorg_ctx(
    tmid: TreeModel,
    h0: u64,
    nh: u64,
    cf: Seq<u64>,
    ct: Seq<u64>,
    dca: int,
    df: int,
    dt: int,
    rr: Seq<u64>,
    ee: Seq<u64>,
) -> bool {
    &&& canon_ok(tmid)
    &&& tmid.head == h0
    &&& tmid.nodes.contains_key(h0)
    &&& tmid.nodes.contains_key(nh)
    &&& df == tmid.nodes[h0].depth
    &&& dt == tmid.nodes[nh].depth
    &&& 0 <= dca <= df
    &&& dca <= dt
    &&& cf.len() == df + 1
    &&& ct.len() == dt + 1
    &&& forall|i: int| 0 <= i <= df ==> tmid.nodes.contains_key(#[trigger] cf[i])
        && tmid.nodes[cf[i]].depth == i
    &&& forall|i: int| 0 <= i <= dt ==> tmid.nodes.contains_key(#[trigger] ct[i])
        && tmid.nodes[ct[i]].depth == i
    &&& forall|i: int| 1 <= i <= dt ==> tmid.nodes[#[trigger] ct[i]].block.parent == Some(ct[i - 1])
    &&& ct[dt] == nh
    &&& cf[df] == h0
    &&& forall|d: int| 0 <= d <= df ==> tmid.canon[(d as usize)] == #[trigger] cf[d]
    &&& forall|i: int| 0 <= i <= dca ==> cf[i] == #[trigger] ct[i]
    &&& rr.len() == df - dca
    &&& forall|i: int| 0 <= i < rr.len() ==> #[trigger] rr[i] == cf[df - i]
    &&& ee.len() == dt - dca
    &&& forall|i: int| 0 <= i < ee.len() ==> #[trigger] ee[i] == ct[dca + 1 + i]
}

/// What a retract step needs of its block.
proof fn lemma_reorg_at_retract(
    tmid: TreeModel,
    h0: u64,
    nh: u64,
    cf: Seq<u64>,
    ct: Seq<u64>,
    dca: int,
    df: int,
    dt: int,
    rr: Seq<u64>,
    ee: Seq<u64>,
    k: int,
)
    requires
        reorg_ctx(tmid, h0, nh, cf, ct, dca, df, dt, rr, ee),
        0 <= k < rr.len(),
    ensures
        tmid.nodes.contains_key(rr[k]),
        tmid.nodes[rr[k]].depth == df - k,
{
    reveal(reorg_ctx);
    assert(rr[k] == cf[df - k]);
}

/// What an enact step needs of its block.
proof fn lemma_reorg_at_enact(
    tmid: TreeModel,
    h0: u64,
    nh: u64,
    cf: Seq<u64>,
    ct: Seq<u64>,
    dca: int,
    df: int,
    dt: int,
    rr: Seq<u64>,
    ee: Seq<u64>,
    k: int,
)
    requires
        reorg_ctx(tmid, h0, nh, cf, ct, dca, df, dt, rr, ee),
        0 <= k < ee.len(),
    ensures
        tmid.nodes.contains_key(ee[k]),
        tmid.nodes[ee[k]].depth == dca + 1 + k,
        ee[k] == ct[dca + 1 + k],
{
    reveal(reorg_ctx);
}

/// The old canonical entries up to the common ancestor already spell out the
/// new head's chain.
proof fn lemma_reorg_prefix(
    tmid: TreeModel,
    h0: u64,
    nh: u64,
    cf: Seq<u64>,
    ct: Seq<u64>,
    dca: int,
    df: int,
    dt: int,
    rr: Seq<u64>,
    ee: Seq<u64>,
    d: int,
)
    requires
        reorg_ctx(tmid, h0, nh, cf, ct, dca, df, dt, rr, ee),
        0 <= d <= dca,
    ensures
        tmid.canon[(d as usize)] == ct[d],
{
    reveal(reorg_ctx);
    assert(tmid.canon[(d as usize)] == cf[d]);
}

/// Linkage and child links ignore the canonical flags.
proof fn lemma_frame(n1: Map<u64, NodeModel>, n2: Map<u64, NodeModel>, genesis: u64)
    requires
        forall|h: u64| #[trigger] n1.contains_key(h) <==> n2.contains_key(h),
        forall|h: u64| #[trigger] n1.contains_key(h) ==> n2[h].block == n1[h].block && n2[h].depth
            == n1[h].depth && n2[h].children == n1[h].children,
        linked(n1, genesis),
        children_ok(n1, genesis),
    ensures
        linked(n2, genesis),
        children_ok(n2, genesis),
{
    assert(n1.dom() =~= n2.dom());
    assert forall|h: u64| #[trigger] n2.contains_key(h) && h != genesis implies ({
        let p = n2[h].block.parent.unwrap();
        &&& n2.contains_key(p)
        &&& n2[h].depth == n2[p].depth + 1
    }) by {
        let p = n1[h].block.parent.unwrap();
        assert(n1.contains_key(p));
    }
    assert forall|h: u64, c: u64|
        n2.contains_key(h) && #[trigger] n2[h].children.contains(c) implies n2.contains_key(c) && c
        != genesis && n2[c].block.parent == Some(h) by {
        assert(n1[h].children.contains(c));
    }
}


/// Packages the route's output and the chains into the reorganization
/// context.
#[verifier::rlimit(100)]
proof fn lemma_reorg_ctx_intro(
    tmid: TreeModel,
    h0: u64,
    nh: u64,
    ca: u64,
    cf: Seq<u64>,
    ct: Seq<u64>,
    dca: int,
    df: int,
    dt: int,
    rr: Seq<u64>,
    ee: Seq<u64>,
)
    requires
        wf(tmid),
        tmid.head == h0,
        tmid.nodes.contains_key(nh),
        tmid.nodes.contains_key(ca),
        cf == chain_of(tmid.nodes, h0),
        ct == chain_of(tmid.nodes, nh),
        df == tmid.nodes[h0].depth,
        dt == tmid.nodes[nh].depth,
        dca == tmid.nodes[ca].depth,
        0 <= dca <= df,
        dca <= dt,
        cf[dca] == ca,
        ct[dca] == ca,
        rr.len() == df - dca,
        forall|i: int| 0 <= i < rr.len() ==> #[trigger] rr[i] == cf[df - i],
        ee.len() == dt - dca,
        forall|i: int| 0 <= i < ee.len() ==> #[trigger] ee[i] == ct[dca + 1 + i],
    ensures
        reorg_ctx(tmid, h0, nh, cf, ct, dca, df, dt, rr, ee),
{
    lemma_chain_props(tmid.nodes, tmid.genesis, h0);
    lemma_chain_props(tmid.nodes, tmid.genesis, nh);
    assert forall|d2: int| 0 <= d2 <= df implies tmid.canon[(d2 as usize)] == #[trigger] cf[d2] by {
        lemma_canon_matches_chain(tmid, d2 as usize);
    }
    lemma_chain_take(tmid.nodes, tmid.genesis, h0, dca);
    lemma_chain_take(tmid.nodes, tmid.genesis, nh, dca);
    assert(chain_of(tmid.nodes, ca) == cf.take(dca + 1));
    assert(chain_of(tmid.nodes, ca) == ct.take(dca + 1));
    assert forall|i: int| 0 <= i <= dca implies cf[i] == #[trigger] ct[i] by {
        assert(cf.take(dca + 1)[i] == ct.take(dca + 1)[i]);
    }
    assert(reorg_ctx(tmid, h0, nh, cf, ct, dca, df, dt, rr, ee)) by {
        reveal(reorg_ctx);
    }
}

/// A reorganization to the current head changes nothing.
proof fn lemma_reorg_noop(
    tmid: TreeModel,
    t1: TreeModel,
    h0: u64,
    nh: u64,
    cf: Seq<u64>,
    ct: Seq<u64>,
    dca: int,
    df: int,
    dt: int,
    rr: Seq<u64>,
    ee: Seq<u64>,
)
    requires
        reorg_ctx(tmid, h0, nh, cf, ct, dca, df, dt, rr, ee),
        nh == tmid.head,
        rr.len() == 0,
        ee.len() == 0,
        forall|h: u64| #[trigger] tmid.nodes.contains_key(h) ==> t1.nodes[h].is_canon == ((
        tmid.nodes[h].is_canon && !(exists|i: int| 0 <= i < rr.len() && rr[i] == h)) || (exists|
            i: int,
        | 0 <= i < ee.len() && ee[i] == h)),
        forall|d: usize| #[trigger] t1.canon.contains_key(d) <==> (d as int) <= dca + ee.len(),
        forall|d: usize| #[trigger] t1.canon.contains_key(d) ==> t1.canon[d] == ct[d as int],
    ensures
        forall|h: u64| #[trigger] tmid.nodes.contains_key(h) ==> t1.nodes[h].is_canon
            == tmid.nodes[h].is_canon,
        t1.canon == tmid.canon,
{
    reveal(reorg_ctx);
    assert(dca == df && dca == dt);
    assert(t1.canon =~= tmid.canon) by {
        assert forall|d: usize| #[trigger] tmid.canon.contains_key(d) implies t1.canon.contains_key(
            d,
        ) && t1.canon[d] == tmid.canon[d] by {
            assert(d <= tmid.nodes[tmid.head].depth);
            assert((d as int) <= dca);
            assert(t1.canon.contains_key(d));
            assert(t1.canon[d] == ct[d as int]);
            assert(cf[d as int] == ct[d as int]);
            assert(tmid.canon[d] == cf[d as int]);
        }
        assert forall|d: usize| #[trigger] t1.canon.contains_key(d) implies tmid.canon.contains_key(
            d,
        ) by {
            assert((d as int) <= dt);
        }
    }
}

/// After retracting the old branch and enacting the new one, the canonical
/// index and the flags describe the chain of the new head.
#[verifier::rlimit(100)]
proof fn lemma_reorg_wf(
    tmid: TreeModel,
    t1: TreeModel,
    h0: u64,
    nh: u64,
    cf: Seq<u64>,
    ct: Seq<u64>,
    dca: int,
    df: int,
    dt: int,
    rr: Seq<u64>,
    ee: Seq<u64>,
)
    requires
        reorg_ctx(tmid, h0, nh, cf, ct, dca, df, dt, rr, ee),
        t1.head == nh,
        forall|h: u64| #[trigger] t1.nodes.contains_key(h) <==> tmid.nodes.contains_key(h),
        forall|h: u64| #[trigger] tmid.nodes.contains_key(h) ==> t1.nodes[h].block
            == tmid.nodes[h].block && t1.nodes[h].depth == tmid.nodes[h].depth,
        forall|h: u64| #[trigger] tmid.nodes.contains_key(h) ==> t1.nodes[h].is_canon == ((
        tmid.nodes[h].is_canon && !(exists|i: int| 0 <= i < rr.len() && rr[i] == h)) || (exists|
            i: int,
        | 0 <= i < ee.len() && ee[i] == h)),
        forall|d: usize| #[trigger] t1.canon.contains_key(d) <==> (d as int) <= dca + ee.len(),
        forall|d: usize| #[trigger] t1.canon.contains_key(d) ==> t1.canon[d] == ct[d as int],
    ensures
        canon_ok(t1),
{
    reveal(reorg_ctx);
    assert(t1.nodes.contains_key(nh));
    assert(t1.nodes[nh].depth == dt);
    assert(dca + ee.len() == dt);
    assert forall|h: u64| #[trigger] t1.nodes.contains_key(h) implies (t1.nodes[h].is_canon <==> (
    t1.canon.contains_key(t1.nodes[h].depth) && t1.canon[t1.nodes[h].depth] == h)) by {
        let dep = tmid.nodes[h].depth as int;
        assert(t1.nodes[h].depth == dep);
        if t1.nodes[h].is_canon {
            if exists|i: int| 0 <= i < ee.len() && ee[i] == h {
                let i = choose|i: int| 0 <= i < ee.len() && ee[i] == h;
                assert(h == ct[dca + 1 + i]);
                assert(dep == dca + 1 + i);
                assert(t1.canon.contains_key((dep as usize)));
                assert(t1.canon[(dep as usize)] == ct[dep]);
            } else {
                assert(tmid.nodes[h].is_canon);
                assert(tmid.canon.contains_key((dep as usize)) && tmid.canon[(dep as usize)]
                    == h);
                assert(dep <= df);
                assert(cf[dep] == h);
                if dep > dca {
                    let i = df - dep;
                    assert(0 <= i < rr.len());
                    assert(rr[i] == cf[df - i]);
                    assert(rr[i] == h);
                    assert(false);
                }
                assert(dep <= dca);
                assert(ct[dep] == cf[dep]);
                assert(t1.canon.contains_key((dep as usize)));
                assert(t1.canon[(dep as usize)] == ct[dep]);
            }
        }
        if t1.canon.contains_key(t1.nodes[h].depth) && t1.canon[t1.nodes[h].depth] == h {
            assert(h == ct[dep]);
            assert(dep <= dt);
            if dep > dca {
                let i = dep - dca - 1;
                assert(0 <= i < ee.len());
                assert(ee[i] == ct[dca + 1 + i]);
                assert(ee[i] == h);
                assert(t1.nodes[h].is_canon);
            } else {
                assert(cf[dep] == ct[dep]);
                assert(tmid.canon[(dep as usize)] == cf[dep]);
                assert(tmid.canon.contains_key((dep as usize)));
                assert(tmid.nodes.contains_key(tmid.canon[(dep as usize)]));
                assert(tmid.nodes[h].is_canon) by {
                    assert(tmid.nodes[tmid.canon[(dep as usize)]].is_canon);
                }
                assert(!(exists|i: int| 0 <= i < rr.len() && rr[i] == h)) by {
                    if exists|i: int| 0 <= i < rr.len() && rr[i] == h {
                        let i = choose|i: int| 0 <= i < rr.len() && rr[i] == h;
                        assert(rr[i] == cf[df - i]);
                        assert(tmid.nodes[cf[df - i]].depth == df - i);
                        assert(df - i == dep);
                        assert(df - i > dca);
                    }
                }
                assert(t1.nodes[h].is_canon);
            }
        }
    }
    assert forall|d: usize| #[trigger] t1.canon.contains_key(d) implies t1.nodes.contains_key(
        t1.canon[d],
    ) && t1.nodes[t1.canon[d]].depth == d && t1.nodes[t1.canon[d]].is_canon by {
        assert(t1.canon[d] == ct[d as int]);
        assert(tmid.nodes.contains_key(ct[d as int]) && tmid.nodes[ct[d as int]].depth
            == d as int);
        assert(t1.nodes.contains_key(ct[d as int]));
        assert(t1.nodes[ct[d as int]].depth == d as int);
        assert(t1.canon.contains_key(t1.nodes[ct[d as int]].depth));
        assert(t1.canon[t1.nodes[ct[d as int]].depth] == ct[d as int]);
        assert(t1.nodes[ct[d as int]].is_canon);
    }
    assert forall|d: usize| #[trigger] t1.canon.contains_key(d) <==> d
        <= t1.nodes[t1.head].depth by {}
    assert forall|d: usize| 1 <= d <= t1.nodes[t1.head].depth implies
        t1.nodes[#[trigger] t1.canon[d]].block.parent == Some(t1.canon[(d - 1) as usize]) by {
        assert(t1.canon.contains_key(d));
        assert(t1.canon[d] == ct[d as int]);
        assert(t1.canon.contains_key((d - 1) as usize));
        assert(t1.canon[(d - 1) as usize] == ct[d - 1]);
        assert(tmid.nodes[ct[d as int]].block.parent == Some(ct[d - 1]));
        assert(t1.nodes[ct[d as int]].block == tmid.nodes[ct[d as int]].block);
    }
    assert(t1.canon.contains_key(t1.nodes[t1.head].depth));
    assert(t1.canon[t1.nodes[t1.head].depth] == ct[dt]);
}


impl MemoryBackend {
    /// Phase four of the commit protocol: run the tree-route algorithm
    /// between the current head and the requested one, clear the retracted
    /// blocks, set the enacted ones, and move the head.
    #[verifier::rlimit(100)]
    fn apply_reorg(&mut self, nh: u64)
        requires
            old(self).inv(),
            old(self)@.nodes.contains_key(nh),
        ensures
            final(self).inv(),
            final(self)@.head == nh,
            final(self)@.genesis == old(self)@.genesis,
            forall|h: u64| #[trigger] final(self)@.nodes.contains_key(h)
                <==> old(self)@.nodes.contains_key(h),
            forall|h: u64| #[trigger] old(self)@.nodes.contains_key(h) ==> ({
                &&& final(self)@.nodes[h].block == old(self)@.nodes[h].block
                &&& final(self)@.nodes[h].state == old(self)@.nodes[h].state
                &&& final(self)@.nodes[h].depth == old(self)@.nodes[h].depth
                &&& final(self)@.nodes[h].children == old(self)@.nodes[h].children
            }),
            nh == old(self)@.head ==> ((forall|h: u64| #[trigger] old(self)@.nodes.contains_key(h)
                ==> final(self)@.nodes[h].is_canon == old(self)@.nodes[h].is_canon)
                && final(self)@.canon == old(self)@.canon),
    {
        let ghost tmid = self@;
        let h0 = self.head;
        let route = match tree_route(&*self, h0, nh) {
            Ok(route) => route,
            Err(_) => {
                proof {
                    assert(false);
                }
                return ;
            },
        };
        let ghost cf = chain_of(tmid.nodes, h0);
        let ghost ct = chain_of(tmid.nodes, nh);
        let ghost dca: int = tmid.nodes[route.common_block].depth as int;
        let ghost df: int = tmid.nodes[h0].depth as int;
        let ghost dt: int = tmid.nodes[nh].depth as int;
        let ghost rr = route.retracted@;
        let ghost ee = route.enacted@;
        proof {
            lemma_reorg_ctx_intro(
                tmid,
                h0,
                nh,
                route.common_block,
                cf,
                ct,
                dca,
                df,
                dt,
                rr,
                ee,
            );
        }
        let nr = route.retracted.len();
        let mut k: usize = 0;
        while k < nr
            invariant
                tmid == old(self)@,
                reorg_ctx(tmid, h0, nh, cf, ct, dca, df, dt, rr, ee),
                rr == route.retracted@,
                nr == rr.len(),
                k <= nr,
                nr == df - dca,
                h0 == nh ==> rr.len() == 0 && ee.len() == 0,
                0 <= dca <= df,
                self@.genesis == tmid.genesis,
                self@.head == tmid.head,
                forall|h: u64| #[trigger] self@.nodes.contains_key(h) <==> tmid.nodes.contains_key(
                    h,
                ),
                forall|h: u64| #[trigger] tmid.nodes.contains_key(h) ==> ({
                    &&& self@.nodes[h].block == tmid.nodes[h].block
                    &&& self@.nodes[h].state == tmid.nodes[h].state
                    &&& self@.nodes[h].depth == tmid.nodes[h].depth
                    &&& self@.nodes[h].children == tmid.nodes[h].children
                }),
                forall|h: u64| #[trigger] tmid.nodes.contains_key(h) ==> self@.nodes[h].is_canon
                    == (tmid.nodes[h].is_canon && !(exists|i: int| 0 <= i < k && rr[i] == h)),
                forall|d: usize| #[trigger] self@.canon.contains_key(d) <==> (d as int) <= df - k,
                forall|d: usize| #[trigger] self@.canon.contains_key(d) ==> self@.canon[d]
                    == tmid.canon[d],
                self.rep_inv(),
            decreases nr - k,
        {
            let h = route.retracted[k];
            proof {
                lemma_reorg_at_retract(tmid, h0, nh, cf, ct, dca, df, dt, rr, ee, k as int);
                assert(self@.nodes.contains_key(h));
                self.lemma_view();
            }
            let ghost pre = self@;
            let mut data = self.nodes.remove(&h).unwrap();
            data.is_canon = false;
            let dd = data.depth;
            self.nodes.insert(h, data);
            self.canon.remove(&dd);
            proof {
                self.lemma_view();
                assert(dd == df - k);
                assert forall|x: u64| #[trigger] self@.nodes.contains_key(x)
                    <==> tmid.nodes.contains_key(x) by {
                    assert(pre.nodes.contains_key(x) <==> tmid.nodes.contains_key(x));
                }
                assert forall|x: u64| #[trigger] tmid.nodes.contains_key(x) implies
                    self@.nodes[x].is_canon == (tmid.nodes[x].is_canon && !(exists|i: int|
                    0 <= i < k + 1 && rr[i] == x)) by {
                    if x == h {
                        assert(rr[k as int] == x);
                    } else {
                        assert(self@.nodes[x] == pre.nodes[x]);
                        if exists|i: int| 0 <= i < k + 1 && rr[i] == x {
                            let i = choose|i: int| 0 <= i < k + 1 && rr[i] == x;
                            assert(i < k);
                        }
                    }
                }
                assert forall|d: usize| #[trigger] self@.canon.contains_key(d) <==> (d as int) <= df
                    - (k + 1) by {
                    assert(self@.canon.contains_key(d) <==> (pre.canon.contains_key(d) && d
                        != dd));
                }
            }
            k += 1;
        }
        let ne = route.enacted.len();
        let mut k2: usize = 0;
        proof {
            assert forall|d: usize| #[trigger] self@.canon.contains_key(d) implies self@.canon[d]
                == ct[d as int] by {
                lemma_reorg_prefix(tmid, h0, nh, cf, ct, dca, df, dt, rr, ee, d as int);
            }
            assert(ne == dt - dca) by {
                reveal(reorg_ctx);
            }
        }
        while k2 < ne
            invariant
                tmid == old(self)@,
                reorg_ctx(tmid, h0, nh, cf, ct, dca, df, dt, rr, ee),
                rr == route.retracted@,
                ee == route.enacted@,
                ne == ee.len(),
                k2 <= ne,
                ne == dt - dca,
                h0 == nh ==> rr.len() == 0 && ee.len() == 0,
                0 <= dca <= dt,
                self@.genesis == tmid.genesis,
                self@.head == tmid.head,
                forall|h: u64| #[trigger] self@.nodes.contains_key(h) <==> tmid.nodes.contains_key(
                    h,
                ),
                forall|h: u64| #[trigger] tmid.nodes.contains_key(h) ==> ({
                    &&& self@.nodes[h].block == tmid.nodes[h].block
                    &&& self@.nodes[h].state == tmid.nodes[h].state
                    &&& self@.nodes[h].depth == tmid.nodes[h].depth
                    &&& self@.nodes[h].children == tmid.nodes[h].children
                }),
                forall|h: u64| #[trigger] tmid.nodes.contains_key(h) ==> self@.nodes[h].is_canon
                    == ((tmid.nodes[h].is_canon && !(exists|i: int| 0 <= i < rr.len() && rr[i]
                    == h)) || (exists|i: int| 0 <= i < k2 && ee[i] == h)),
                forall|d: usize| #[trigger] self@.canon.contains_key(d) <==> (d as int) <= dca
                    + k2,
                forall|d: usize| #[trigger] self@.canon.contains_key(d) ==> self@.canon[d]
                    == ct[d as int],
                self.rep_inv(),
            decreases ne - k2,
        {
            let h = route.enacted[k2];
            proof {
                lemma_reorg_at_enact(tmid, h0, nh, cf, ct, dca, df, dt, rr, ee, k2 as int);
                assert(self@.nodes.contains_key(h));
                self.lemma_view();
            }
            let ghost pre = self@;
            let mut data = self.nodes.remove(&h).unwrap();
            data.is_canon = true;
            let dd = data.depth;
            self.nodes.insert(h, data);
            self.canon.insert(dd, h);
            proof {
                self.lemma_view();
                assert(dd == dca + 1 + k2);
                assert forall|x: u64| #[trigger] self@.nodes.contains_key(x)
                    <==> tmid.nodes.contains_key(x) by {
                    assert(pre.nodes.contains_key(x) <==> tmid.nodes.contains_key(x));
                }
                assert forall|x: u64| #[trigger] tmid.nodes.contains_key(x) implies
                    self@.nodes[x].is_canon == ((tmid.nodes[x].is_canon && !(exists|i: int|
                    0 <= i < rr.len() && rr[i] == x)) || (exists|i: int|
                    0 <= i < k2 + 1 && ee[i] == x)) by {
                    if x == h {
                        assert(ee[k2 as int] == x);
                    } else {
                        assert(self@.nodes[x] == pre.nodes[x]);
                        if exists|i: int| 0 <= i < k2 + 1 && ee[i] == x {
                            let i = choose|i: int| 0 <= i < k2 + 1 && ee[i] == x;
                            assert(i < k2);
                        }
                    }
                }
                assert forall|d: usize| #[trigger] self@.canon.contains_key(d) <==> (d as int)
                    <= dca + (k2 + 1) by {
                    assert(self@.canon.contains_key(d) <==> (pre.canon.contains_key(d) || d
                        == dd));
                }
                assert forall|d: usize| #[trigger] self@.canon.contains_key(d) implies
                    self@.canon[d] == ct[d as int] by {
                    if d == dd {
                        assert(self@.canon[d] == h);
                        assert(h == ct[dca + 1 + k2]);
                    } else {
                        assert(self@.canon[d] == pre.canon[d]);
                    }
                }
            }
            k2 += 1;
        }
        let ghost t_end = self@;
        self.head = nh;
        proof {
            assert(self@.nodes == t_end.nodes && self@.canon == t_end.canon && self@.genesis
                == t_end.genesis && self@.head == nh);
            lemma_reorg_wf(tmid, self@, h0, nh, cf, ct, dca, df, dt, rr, ee);
            lemma_frame(tmid.nodes, self@.nodes, tmid.genesis);
            if nh == tmid.head {
                assert(rr.len() == 0 && ee.len() == 0);
                lemma_reorg_noop(tmid, self@, h0, nh, cf, ct, dca, df, dt, rr, ee);
            }
        }
    }
}


impl MemoryBackend {
    /// Submits an import operation as a single logical step: the batch is
    /// validated in full before any mutation, then merged, and, if a new head
    /// was requested, the canonical chain is switched along the tree route.
    /// A failing operation leaves the tree untouched: `ImportingGenesis` when
    /// a batched block has no parent, `InvalidOperation` when a parent is
    /// unresolvable, a hash is reused, or the requested head is neither known
    /// nor batched.
    #[verifier::rlimit(100)]
    pub fn commit(&mut self, operation: Operation) -> (r: Result<(), Error>)
        requires
            old(self).inv(),
            old(self)@.nodes.dom().len() + operation.import_block@.len() <= usize::MAX,
            forall|i: int| 0 <= i < operation.import_block@.len() ==> (
            #[trigger] operation.import_block@[i]).state.inv(),
        ensures
            final(self).inv(),
            r is Err ==> final(self)@ == old(self)@,
            (exists|i: int|
                0 <= i < operation.import_block@.len() && (
                #[trigger] operation.import_block@[i]).block.parent is None) ==> r == Err::<
                (),
                Error,
            >(Error::ImportingGenesis),
            ((forall|i: int|
                0 <= i < operation.import_block@.len() ==> (
                #[trigger] operation.import_block@[i]).block.parent is Some) && !op_valid(
                old(self)@,
                operation.import_block@,
                operation.set_head,
            )) ==> r == Err::<(), Error>(Error::InvalidOperation),
            op_valid(old(self)@, operation.import_block@, operation.set_head) ==> r is Ok,
            r is Ok ==> commit_ok(
                old(self)@,
                final(self)@,
                operation.import_block@,
                operation.set_head,
            ),
    {
        let ghost t0 = self@;
        let ghost b = operation.import_block@;
        let Operation { import_block: batch, set_head } = operation;
        let parts = match self.resolve_batch(&batch) {
            Ok(v) => v,
            Err(e) => {
                return Err(e);
            },
        };
        let (order, depths, resolved) = parts;
        match set_head {
            Some(nh) => {
                if !self.nodes.contains_key(&nh) && !resolved.contains_key(&nh) {
                    proof {
                        self.lemma_view();
                        if batch_has_hash(b, nh) {
                            let i = choose|i: int| 0 <= i < b.len() && b[i].block.hash == nh;
                            assert(order@.contains(i as usize));
                            let kk = choose|kk: int|
                                0 <= kk < order@.len() && order@[kk] == i as usize;
                            assert(b[order@[kk] as int].block.hash == nh);
                            assert(resolved@.contains_key(nh));
                            assert(false);
                        }
                        assert(!op_valid(t0, b, set_head));
                    }
                    return Err(Error::InvalidOperation);
                }
            },
            None => {},
        }
        proof {
            self.lemma_view();
            assert(op_valid(t0, b, set_head)) by {
                match set_head {
                    Some(nh) => {
                        if !t0.nodes.contains_key(nh) {
                            assert(resolved@.contains_key(nh));
                            let kk = choose|kk: int|
                                0 <= kk < order@.len() && b[order@[kk] as int].block.hash == nh;
                            assert((order@[kk] as int) < b.len());
                            assert(batch_has_hash(b, nh));
                        }
                    },
                    None => {},
                }
            }
        }
        self.merge_batch(&batch, &order, &depths, Ghost(resolved@));
        match set_head {
            None => {
                proof {
                    assert(commit_ok(t0, self@, b, set_head));
                }
                Ok(())
            },
            Some(nh) => {
                let ghost tm = self@;
                proof {
                    assert(self@.nodes.contains_key(nh)) by {
                        if !t0.nodes.contains_key(nh) {
                            assert(batch_has_hash(b, nh));
                        }
                    }
                }
                self.apply_reorg(nh);
                proof {
                    assert forall|i: int| 0 <= i < b.len() implies ({
                        let h = (#[trigger] b[i]).block.hash;
                        &&& self@.nodes[h].block == b[i].block
                        &&& self@.nodes[h].state == b[i].state@
                        &&& self@.nodes[h].children == batch_children(b, h)
                    }) by {
                        assert(tm.nodes.contains_key(b[i].block.hash)) by {
                            assert(batch_has_hash(b, b[i].block.hash));
                        }
                    }
                    assert forall|h: u64| #[trigger] t0.nodes.contains_key(h) implies ({
                        &&& self@.nodes[h].block == t0.nodes[h].block
                        &&& self@.nodes[h].state == t0.nodes[h].state
                        &&& self@.nodes[h].depth == t0.nodes[h].depth
                        &&& self@.nodes[h].children == t0.nodes[h].children.union(
                            batch_children(b, h),
                        )
                    }) by {
                        assert(tm.nodes.contains_key(h));
                    }
                    if set_head == Some(t0.head) {
                        assert(nh == tm.head);
                        assert forall|i: int| 0 <= i < b.len() implies !self@.nodes[(
                        #[trigger] b[i]).block.hash].is_canon by {
                            assert(tm.nodes.contains_key(b[i].block.hash)) by {
                                assert(batch_has_hash(b, b[i].block.hash));
                            }
                            assert(!tm.nodes[b[i].block.hash].is_canon);
                        }
                        assert(self@.canon == t0.canon);
                    }
                    assert(commit_ok(t0, self@, b, set_head));
                }
                Ok(())
            },
        }
    }
}

} // verus!
