//! The tree-route algorithm: walks two chains back to their common ancestor
//! and returns the ordered lists of blocks to retract and enact.

use vstd::prelude::*;
use crate::backend::{linked, wf, Error, MemoryBackend, NodeModel, TreeModel};

verus! {

broadcast use vstd::std_specs::hash::group_hash_axioms;

/// The genesis-rooted path ending at `h`, unwound with bounded fuel.
pub open spec fn chain(nodes: Map<u64, NodeModel>, h: u64, fuel: nat) -> Seq<u64>
    decreases fuel,
{
    if !nodes.contains_key(h) {
        seq![]
    } else {
        match nodes[h].block.parent {
            None => seq![h],
            Some(p) => if fuel == 0 {
                seq![]
            } else {
                chain(nodes, p, (fuel - 1) as nat).push(h)
            },
        }
    }
}

/// The path from the genesis to `h`, both included, index = depth.
pub open spec fn chain_of(nodes: Map<u64, NodeModel>, h: u64) -> Seq<u64> {
    chain(nodes, h, nodes[h].depth as nat)
}

/// A well-linked node's chain runs from the genesis to the node, one entry
/// per depth, consecutive entries linked parent to child.
pub proof fn lemma_chain_props(nodes: Map<u64, NodeModel>, genesis: u64, h: u64)
    requires
        linked(nodes, genesis),
        nodes.contains_key(h),
    ensures
        ({
            let c = chain_of(nodes, h);
            let depth = nodes[h].depth as int;
            &&& c.len() == depth + 1
            &&& c[depth] == h
            &&& c[0] == genesis
            &&& forall|i: int| 0 <= i <= depth ==> nodes.contains_key(#[trigger] c[i])
                && nodes[c[i]].depth == i
            &&& forall|i: int| 1 <= i <= depth ==> nodes[#[trigger] c[i]].block.parent == Some(
                c[i - 1],
            )
        }),
    decreases nodes[h].depth,
{
    let c = chain_of(nodes, h);
    let depth = nodes[h].depth as int;
    if h == genesis {
        assert(c =~= seq![h]);
    } else {
        let p = nodes[h].block.parent.unwrap();
        assert(nodes[p].depth == depth - 1);
        lemma_chain_props(nodes, genesis, p);
        let cp = chain_of(nodes, p);
        assert(c =~= cp.push(h));
        assert forall|i: int| 0 <= i <= depth implies nodes.contains_key(#[trigger] c[i])
            && nodes[c[i]].depth == i by {
            if i < depth {
                assert(c[i] == cp[i]);
            }
        }
        assert forall|i: int| 1 <= i <= depth implies nodes[#[trigger] c[i]].block.parent == Some(
            c[i - 1],
        ) by {
            if i < depth {
                assert(c[i] == cp[i] && c[i - 1] == cp[i - 1]);
            } else {
                assert(c[depth] == h && c[depth - 1] == cp[depth - 1]);
            }
        }
    }
}

/// The chain of the entry at index `i` of a chain is that chain's prefix.
pub proof fn lemma_chain_take(nodes: Map<u64, NodeModel>, genesis: u64, h: u64, i: int)
    requires
        linked(nodes, genesis),
        nodes.contains_key(h),
        0 <= i <= nodes[h].depth,
    ensures
        chain_of(nodes, chain_of(nodes, h)[i]) == chain_of(nodes, h).take(i + 1),
    decreases nodes[h].depth,
{
    let c = chain_of(nodes, h);
    let depth = nodes[h].depth as int;
    lemma_chain_props(nodes, genesis, h);
    if i == depth {
        assert(c[i] == h);
        assert(c.take(i + 1) =~= c);
    } else {
        let p = nodes[h].block.parent.unwrap();
        lemma_chain_props(nodes, genesis, p);
        let cp = chain_of(nodes, p);
        assert(c =~= cp.push(h));
        lemma_chain_take(nodes, genesis, p, i);
        assert(c[i] == cp[i]);
        assert(cp.take(i + 1) =~= c.take(i + 1));
    }
}

/// In a well-formed tree the canonical index spells out the head's chain.
pub proof fn lemma_canon_matches_chain(t: TreeModel, d: usize)
    requires
        wf(t),
        d <= t.nodes[t.head].depth,
    ensures
        t.canon[d] == chain_of(t.nodes, t.head)[d as int],
    decreases t.nodes[t.head].depth - d,
{
    let c = chain_of(t.nodes, t.head);
    let hd = t.nodes[t.head].depth;
    lemma_chain_props(t.nodes, t.genesis, t.head);
    if d == hd {
        assert(t.canon[d] == t.head);
    } else {
        lemma_canon_matches_chain(t, (d + 1) as usize);
        assert(t.nodes[t.canon[(d + 1) as usize]].block.parent == Some(t.canon[d]));
        assert(t.nodes[c[d + 1]].block.parent == Some(c[d as int]));
    }
}

/// In a well-formed tree a block is canonical exactly when it lies on the
/// head's chain.
pub proof fn lemma_canon_is_chain(t: TreeModel, h: u64)
    requires
        wf(t),
        t.nodes.contains_key(h),
    ensures
        t.nodes[h].is_canon <==> chain_of(t.nodes, t.head).contains(h),
{
    let c = chain_of(t.nodes, t.head);
    lemma_chain_props(t.nodes, t.genesis, t.head);
    if t.nodes[h].is_canon {
        let d = t.nodes[h].depth;
        assert(t.canon.contains_key(d) && t.canon[d] == h);
        assert(d <= t.nodes[t.head].depth);
        lemma_canon_matches_chain(t, d);
        assert(c[d as int] == h);
    }
    if c.contains(h) {
        let i = choose|i: int| 0 <= i < c.len() && c[i] == h;
        assert(t.nodes[c[i]].depth == i);
        lemma_canon_matches_chain(t, t.nodes[h].depth);
    }
}

/// What `lemma_chain_props` gives about one endpoint, bundled so the walk's
/// loop invariants can carry it.
pub(crate) open spec fn chain_facts(t: TreeModel, h: u64, c: Seq<u64>, depth: usize) -> bool {
    &&& t.nodes.contains_key(h)
    &&& depth == t.nodes[h].depth
    &&& c == chain_of(t.nodes, h)
    &&& c.len() == depth + 1
    &&& c[depth as int] == h
    &&& c[0] == t.genesis
    &&& forall|i: int| 0 <= i <= depth ==> t.nodes.contains_key(#[trigger] c[i])
        && t.nodes[c[i]].depth == i
    &&& forall|i: int| 1 <= i <= depth ==> t.nodes[#[trigger] c[i]].block.parent == Some(c[i - 1])
}

/// The path between two blocks through their common ancestor.
pub struct TreeRoute {
    /// The deepest block lying on both paths.
    pub common_block: u64,
    /// The path from `from` back to, but excluding, the common ancestor,
    /// deepest first.
    pub retracted: Vec<u64>,
    /// The path from, but excluding, the common ancestor to `to`,
    /// shallowest first.
    pub enacted: Vec<u64>,
}

/// The parent of a block known to have one.
fn parent_of(backend: &MemoryBackend, h: u64) -> (r: u64)
    requires
        backend@.nodes.contains_key(h),
        backend@.nodes[h].block.parent is Some,
    ensures
        Some(r) == backend@.nodes[h].block.parent,
{
    proof {
        backend.lemma_view();
    }
    match backend.nodes.get(&h) {
        Some(data) => match data.block.parent {
            Some(p) => p,
            None => {
                proof {
                    assert(false);
                }
                h
            },
        },
        None => {
            proof {
                assert(false);
            }
            h
        },
    }
}

/// Walks `from` and `to` back to their common ancestor. Both blocks must
/// exist, else `NotExist`. The retracted list runs from `from` toward the
/// ancestor, deepest first; the enacted list runs from the ancestor toward
/// `to`, shallowest first; both exclude the ancestor, and both are empty when
/// the two blocks coincide.
#[verifier::rlimit(100)]
pub fn tree_route(backend: &MemoryBackend, from: u64, to: u64) -> (r: Result<TreeRoute, Error>)
    requires
        backend.inv(),
    ensures
        ({
            let t = backend@;
            match r {
                Ok(route) => {
                    let cf = chain_of(t.nodes, from);
                    let ct = chain_of(t.nodes, to);
                    let df = t.nodes[from].depth as int;
                    let dt = t.nodes[to].depth as int;
                    let d = t.nodes[route.common_block].depth as int;
                    &&& t.nodes.contains_key(from) && t.nodes.contains_key(to)
                    &&& t.nodes.contains_key(route.common_block)
                    &&& d <= df && d <= dt
                    &&& cf[d] == route.common_block && ct[d] == route.common_block
                    &&& forall|i: int| d < i <= df && i <= dt ==> cf[i] != ct[i]
                    &&& route.retracted@.len() == df - d
                    &&& forall|i: int| 0 <= i < df - d ==> route.retracted@[i] == cf[df - i]
                    &&& route.enacted@.len() == dt - d
                    &&& forall|i: int| 0 <= i < dt - d ==> route.enacted@[i] == ct[d + 1 + i]
                    &&& chain_of(t.nodes, route.common_block) + route.enacted@ == ct
                    &&& (from == to ==> route.common_block == from && route.retracted@
                        == Seq::<u64>::empty() && route.enacted@ == Seq::<u64>::empty())
                },
                Err(e) => e == Error::NotExist && !(t.nodes.contains_key(from)
                    && t.nodes.contains_key(to)),
            }
        }),
{
    proof {
        backend.lemma_view();
    }
    let from_depth = match backend.nodes.get(&from) {
        Some(data) => data.depth,
        None => {
            return Err(Error::NotExist);
        },
    };
    let to_depth = match backend.nodes.get(&to) {
        Some(data) => data.depth,
        None => {
            return Err(Error::NotExist);
        },
    };
    let ghost t = backend@;
    let ghost cf = chain_of(t.nodes, from);
    let ghost ct = chain_of(t.nodes, to);
    proof {
        lemma_chain_props(t.nodes, t.genesis, from);
        lemma_chain_props(t.nodes, t.genesis, to);
        assert(chain_facts(t, from, cf, from_depth));
        assert(chain_facts(t, to, ct, to_depth));
    }
    let mut f = from;
    let mut fd = from_depth;
    let mut retracted: Vec<u64> = Vec::new();
    while fd > to_depth
        invariant
            t == backend@,
            chain_facts(t, from, cf, from_depth),
            chain_facts(t, to, ct, to_depth),
            fd <= from_depth,
            fd >= to_depth || fd == from_depth,
            f == cf[fd as int],
            retracted@.len() == from_depth - fd,
            forall|i: int| 0 <= i < retracted@.len() ==> retracted@[i] == cf[from_depth - i],
        decreases fd,
    {
        proof {
            assert(t.nodes.contains_key(cf[fd as int]) && t.nodes[cf[fd as int]].depth == fd);
            assert(t.nodes[cf[fd as int]].block.parent == Some(cf[fd - 1]));
        }
        retracted.push(f);
        f = parent_of(backend, f);
        fd = fd - 1;
    }
    let mut tc = to;
    let mut td = to_depth;
    let mut enacted_rev: Vec<u64> = Vec::new();
    while td > fd
        invariant
            t == backend@,
            chain_facts(t, from, cf, from_depth),
            chain_facts(t, to, ct, to_depth),
            fd <= from_depth,
            f == cf[fd as int],
            td <= to_depth,
            td >= fd || td == to_depth,
            tc == ct[td as int],
            enacted_rev@.len() == to_depth - td,
            forall|i: int| 0 <= i < enacted_rev@.len() ==> enacted_rev@[i] == ct[to_depth - i],
        decreases td,
    {
        proof {
            assert(t.nodes.contains_key(ct[td as int]) && t.nodes[ct[td as int]].depth == td);
            assert(t.nodes[ct[td as int]].block.parent == Some(ct[td - 1]));
        }
        enacted_rev.push(tc);
        tc = parent_of(backend, tc);
        td = td - 1;
    }
    let ghost m0: int = if from_depth <= to_depth {
        from_depth as int
    } else {
        to_depth as int
    };
    proof {
        assert(fd == td);
        assert(fd <= m0);
    }
    while f != tc
        invariant
            t == backend@,
            chain_facts(t, from, cf, from_depth),
            chain_facts(t, to, ct, to_depth),
            m0 == if from_depth <= to_depth { from_depth as int } else { to_depth as int },
            fd == td,
            fd <= m0,
            f == cf[fd as int],
            tc == ct[td as int],
            retracted@.len() == from_depth - fd,
            forall|i: int| 0 <= i < retracted@.len() ==> retracted@[i] == cf[from_depth - i],
            enacted_rev@.len() == to_depth - td,
            forall|i: int| 0 <= i < enacted_rev@.len() ==> enacted_rev@[i] == ct[to_depth - i],
            forall|i: int| fd < i <= m0 ==> cf[i] != ct[i],
        decreases fd,
    {
        proof {
            assert(fd > 0) by {
                if fd == 0 {
                    assert(f == cf[0] && tc == ct[0]);
                }
            }
            assert(t.nodes.contains_key(cf[fd as int]) && t.nodes[cf[fd as int]].depth == fd);
            assert(t.nodes.contains_key(ct[td as int]) && t.nodes[ct[td as int]].depth == td);
            assert(t.nodes[cf[fd as int]].block.parent == Some(cf[fd - 1]));
            assert(t.nodes[ct[td as int]].block.parent == Some(ct[td - 1]));
        }
        retracted.push(f);
        enacted_rev.push(tc);
        f = parent_of(backend, f);
        tc = parent_of(backend, tc);
        fd = fd - 1;
        td = td - 1;
    }
    let mut enacted: Vec<u64> = Vec::new();
    let mut i = enacted_rev.len();
    while i > 0
        invariant
            i <= enacted_rev@.len(),
            enacted@.len() == enacted_rev@.len() - i,
            forall|j: int| 0 <= j < enacted@.len()
                ==> enacted@[j] == enacted_rev@[enacted_rev@.len() - 1 - j],
        decreases i,
    {
        i = i - 1;
        enacted.push(enacted_rev[i]);
    }
    let route = TreeRoute { common_block: f, retracted, enacted };
    proof {
        lemma_chain_props(t.nodes, t.genesis, from);
        lemma_chain_props(t.nodes, t.genesis, to);
        let d = fd as int;
        assert(t.nodes.contains_key(f) && t.nodes[f].depth == d);
        assert(ct[d] == tc && tc == f);
        assert forall|j: int| 0 <= j < route.enacted@.len() implies route.enacted@[j]
            == ct[d + 1 + j] by {
            assert(route.enacted@[j] == enacted_rev@[enacted_rev@.len() - 1 - j]);
            assert(enacted_rev@[enacted_rev@.len() - 1 - j] == ct[to_depth - (enacted_rev@.len()
                - 1 - j)]);
        }
        lemma_chain_take(t.nodes, t.genesis, to, d);
        assert(chain_of(t.nodes, f) == ct.take(d + 1));
        assert(chain_of(t.nodes, f) + route.enacted@ =~= ct);
        if from == to {
            assert(cf == ct);
            assert(d == from_depth) by {
                if d < from_depth {
                    assert(cf[from_depth as int] != ct[from_depth as int]);
                }
            }
            assert(route.retracted@ =~= Seq::<u64>::empty());
            assert(route.enacted@ =~= Seq::<u64>::empty());
            assert(route.common_block == cf[from_depth as int]);
        }
    }
    Ok(route)
}

} // verus!
