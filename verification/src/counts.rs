use vstd::prelude::*;
use vstd::set_lib::lemma_len_subset;
use crate::graph::{BlockView, GcovEdge, GcovFunction, BlockList, EdgeList, flag_on_tree, blocks_view, block_list, block_list_slice, edge_list, edge_list_slice, edge_list_set, index_list_slice, visited_set, visited_insert};
use rustc_hash::FxHashSet;
use crate::graph::{Stack, PendingLists, ArcList, stack_list, stack_new, stack_push, stack_pop, stack_clear, stack_remove, stack_slice, pending_list, pending_new, pending_push, pending_clear, pending_remove, pending_at, pending_len, index_list, index_list_new, GCOV_ARC_ON_TREE, FunView, graph_wf, block_list_at, edge_list_push, index_list_insert, index_list_push, visited_new};
use crate::reader::{Gcno, with_destination, with_source, insert_pos};
use crate::graph::{line_counts, line_counts_insert, line_counts_or_zero, line_blocks, line_blocks_new, line_blocks_add, line_blocks_entries, block_lines, line_list_slice};

verus! {

/// The block numbers below `n`.
pub open spec fn usize_range(n: int) -> Set<usize> {
    Set::new(|x: usize| x < n)
}

/// The block numbers below `n` are `n` in all.
pub proof fn lemma_usize_range(n: int)
    requires
        0 <= n <= usize::MAX + 1,
    ensures
        usize_range(n).finite(),
        usize_range(n).len() == n,
    decreases n,
{
    if n == 0 {
        assert(usize_range(0) =~= Set::<usize>::empty());
    } else {
        lemma_usize_range(n - 1);
        assert(usize_range(n) =~= usize_range(n - 1).insert((n - 1) as usize));
    }
}

/// A set of block numbers of a function with `n` blocks: finite, each below `n`.
pub open spec fn blocks_set(n: int, v: Set<usize>) -> bool {
    v.finite() && v.subset_of(usize_range(n))
}

/// Such a set holds at most `n` numbers.
pub proof fn lemma_blocks_set_len(n: int, v: Set<usize>)
    requires
        0 <= n <= usize::MAX + 1,
        blocks_set(n, v),
    ensures
        v.len() <= n,
{
    lemma_usize_range(n);
    lemma_len_subset(v, usize_range(n));
}

/// Whether two arc lists differ at most in the counts of the arcs.
pub open spec fn same_shape(a: Seq<GcovEdge>, b: Seq<GcovEdge>) -> bool {
    &&& a.len() == b.len()
    &&& forall|i: int| 0 <= i < a.len() ==> (#[trigger] a[i]).source == b[i].source
        && a[i].destination == b[i].destination && a[i].flags == b[i].flags
}

/// What a propagation leaves: the arcs with the counts it deduced, the
/// blocks visited, the excess it found, and whether it stopped short.
pub struct Prop {
    pub edges: Seq<GcovEdge>,
    pub visited: Set<usize>,
    pub excess: int,
    pub panics: bool,
}

/// Deducing the counts of the spanning-tree arcs around block `b`, entered by
/// arc `pred` if any. By Kirchhoff's law the counts into a block add up to
/// those out of it; each tree arc gets the difference of the other counts
/// around the block behind it, found depth first, each block visited once.
pub open spec fn propagate(blocks: Seq<BlockView>, edges: Seq<GcovEdge>, b: usize, pred: Option<usize>, visited: Set<usize>) -> Prop
    decreases blocks.len() - visited.len(), 0int, 0int
    when blocks_set(blocks.len() as int, visited) && blocks.len() <= usize::MAX
{
    if visited.contains(b) {
        Prop { edges, visited, excess: 0, panics: false }
    } else if b >= blocks.len() {
        Prop { edges, visited: visited.insert(b), excess: 0, panics: true }
    } else {
        let v1 = visited.insert(b);
        proof {
            assert(v1.subset_of(usize_range(blocks.len() as int)));
            lemma_blocks_set_len(blocks.len() as int, v1);
        }
        let s = propagate_sum(blocks, edges, blocks[b as int].source, 0, pred, v1, true);
        if s.panics {
            s
        } else if !(blocks_set(blocks.len() as int, s.visited) && v1.subset_of(s.visited)) {
            Prop { panics: true, ..s }
        } else {
            proof {
                lemma_len_subset(v1, s.visited);
                lemma_blocks_set_len(blocks.len() as int, s.visited);
                assert(v1.len() == visited.len() + 1);
            }
            let d = propagate_sum(blocks, s.edges, blocks[b as int].destination, 0, pred, s.visited, false);
            if d.panics || s.excess > u64::MAX || d.excess > u64::MAX {
                Prop { panics: true, ..d }
            } else {
                let excess = if s.excess >= d.excess { s.excess - d.excess } else { d.excess - s.excess };
                match pred {
                    Some(id) => {
                        if id >= d.edges.len() {
                            Prop { panics: true, ..d }
                        } else {
                            Prop {
                                edges: d.edges.update(id as int, GcovEdge { counter: #[verifier::truncate] (excess as u64), ..d.edges[id as int] }),
                                excess,
                                ..d
                            }
                        }
                    },
                    None => Prop { excess, ..d },
                }
            }
        }
    }
}

/// The sum, over the arcs `ids[k..]` other than `pred`, of the count of each
/// arc not on the tree and of the excess propagated through each tree arc
/// (to its source if `incoming`, else to its end).
pub open spec fn propagate_sum(
    blocks: Seq<BlockView>,
    edges: Seq<GcovEdge>,
    ids: Seq<usize>,
    k: nat,
    pred: Option<usize>,
    visited: Set<usize>,
    incoming: bool,
) -> Prop
    decreases blocks.len() - visited.len(), 1int, ids.len() - k
    when blocks_set(blocks.len() as int, visited) && blocks.len() <= usize::MAX
{
    if k >= ids.len() {
        Prop { edges, visited, excess: 0, panics: false }
    } else {
        let id = ids[k as int];
        if pred == Some(id) {
            propagate_sum(blocks, edges, ids, k + 1, pred, visited, incoming)
        } else if id >= edges.len() {
            Prop { edges, visited, excess: 0, panics: true }
        } else {
            let e = edges[id as int];
            if flag_on_tree(e.flags) {
                let r = propagate(blocks, edges, if incoming { e.source } else { e.destination }, Some(id), visited);
                if r.panics {
                    r
                } else if !(blocks_set(blocks.len() as int, r.visited) && visited.subset_of(r.visited)) {
                    Prop { panics: true, ..r }
                } else {
                    proof {
                        lemma_len_subset(visited, r.visited);
                        lemma_blocks_set_len(blocks.len() as int, r.visited);
                    }
                    let rest = propagate_sum(blocks, r.edges, ids, k + 1, pred, r.visited, incoming);
                    Prop { excess: r.excess + rest.excess, ..rest }
                }
            } else {
                let rest = propagate_sum(blocks, edges, ids, k + 1, pred, visited, incoming);
                Prop { excess: e.counter + rest.excess, ..rest }
            }
        }
    }
}


/// Every excess found is at least zero.
pub proof fn lemma_excess_nonneg(blocks: Seq<BlockView>)
    ensures
        forall|edges: Seq<GcovEdge>, b: usize, pred: Option<usize>, visited: Set<usize>|
            blocks_set(blocks.len() as int, visited) && blocks.len() <= usize::MAX
            ==> #[trigger] propagate(blocks, edges, b, pred, visited).excess >= 0,
        forall|edges: Seq<GcovEdge>, ids: Seq<usize>, k: nat, pred: Option<usize>, visited: Set<usize>, incoming: bool|
            blocks_set(blocks.len() as int, visited) && blocks.len() <= usize::MAX
            ==> #[trigger] propagate_sum(blocks, edges, ids, k, pred, visited, incoming).excess >= 0,
{
    assert forall|edges: Seq<GcovEdge>, b: usize, pred: Option<usize>, visited: Set<usize>|
        blocks_set(blocks.len() as int, visited) && blocks.len() <= usize::MAX
        implies #[trigger] propagate(blocks, edges, b, pred, visited).excess >= 0 by {
        lemma_excess_prop(blocks, edges, b, pred, visited);
    }
    assert forall|edges: Seq<GcovEdge>, ids: Seq<usize>, k: nat, pred: Option<usize>, visited: Set<usize>, incoming: bool|
        blocks_set(blocks.len() as int, visited) && blocks.len() <= usize::MAX
        implies #[trigger] propagate_sum(blocks, edges, ids, k, pred, visited, incoming).excess >= 0 by {
        lemma_excess_sum(blocks, edges, ids, k, pred, visited, incoming);
    }
}

proof fn lemma_excess_prop(blocks: Seq<BlockView>, edges: Seq<GcovEdge>, b: usize, pred: Option<usize>, visited: Set<usize>)
    requires
        blocks_set(blocks.len() as int, visited),
        blocks.len() <= usize::MAX,
    ensures
        propagate(blocks, edges, b, pred, visited).excess >= 0,
    decreases blocks.len() - visited.len(), 0int, 0int,
{
    if !visited.contains(b) && b < blocks.len() {
        let v1 = visited.insert(b);
        assert(v1.subset_of(usize_range(blocks.len() as int)));
        lemma_blocks_set_len(blocks.len() as int, v1);
        lemma_excess_sum(blocks, edges, blocks[b as int].source, 0, pred, v1, true);
        let s = propagate_sum(blocks, edges, blocks[b as int].source, 0, pred, v1, true);
        if !s.panics && blocks_set(blocks.len() as int, s.visited) && v1.subset_of(s.visited) {
            lemma_len_subset(v1, s.visited);
            lemma_blocks_set_len(blocks.len() as int, s.visited);
            lemma_excess_sum(blocks, s.edges, blocks[b as int].destination, 0, pred, s.visited, false);
        }
    }
}

proof fn lemma_excess_sum(blocks: Seq<BlockView>, edges: Seq<GcovEdge>, ids: Seq<usize>, k: nat, pred: Option<usize>, visited: Set<usize>, incoming: bool)
    requires
        blocks_set(blocks.len() as int, visited),
        blocks.len() <= usize::MAX,
    ensures
        propagate_sum(blocks, edges, ids, k, pred, visited, incoming).excess >= 0,
    decreases blocks.len() - visited.len(), 1int, ids.len() - k,
{
    if k < ids.len() {
        let id = ids[k as int];
        if pred == Some(id) {
            lemma_excess_sum(blocks, edges, ids, k + 1, pred, visited, incoming);
        } else if id < edges.len() {
            let e = edges[id as int];
            if flag_on_tree(e.flags) {
                let nxt = if incoming { e.source } else { e.destination };
                lemma_excess_prop(blocks, edges, nxt, Some(id), visited);
                let r = propagate(blocks, edges, nxt, Some(id), visited);
                if !r.panics && blocks_set(blocks.len() as int, r.visited) && visited.subset_of(r.visited) {
                    lemma_len_subset(visited, r.visited);
                    lemma_blocks_set_len(blocks.len() as int, r.visited);
                    lemma_excess_sum(blocks, r.edges, ids, k + 1, pred, r.visited, incoming);
                }
            } else {
                lemma_excess_sum(blocks, edges, ids, k + 1, pred, visited, incoming);
            }
        }
    }
}


/// Propagating through every block in turn, from `k` on, with one set of
/// visited blocks.
pub open spec fn propagate_all(blocks: Seq<BlockView>, edges: Seq<GcovEdge>, k: nat, visited: Set<usize>) -> Prop
    decreases blocks.len() - k,
    when blocks_set(blocks.len() as int, visited) && blocks.len() <= usize::MAX
{
    if k >= blocks.len() {
        Prop { edges, visited, excess: 0, panics: false }
    } else {
        let r = propagate(blocks, edges, k as usize, None, visited);
        if r.panics {
            r
        } else if !(blocks_set(blocks.len() as int, r.visited)) {
            Prop { panics: true, ..r }
        } else {
            propagate_all(blocks, r.edges, k + 1, r.visited)
        }
    }
}

/// Adding the count of each tree arc to its source block, the arcs taken from
/// the `i`-th backwards; `None` where a count overflows or a block is missing.
pub open spec fn add_tree_counts(blocks: Seq<BlockView>, edges: Seq<GcovEdge>, i: int) -> Option<Seq<BlockView>>
    decreases i,
{
    if i <= 0 {
        Some(blocks)
    } else {
        let e = edges[i - 1];
        if flag_on_tree(e.flags) {
            if e.source >= blocks.len() || blocks[e.source as int].counter + e.counter > u64::MAX {
                None
            } else {
                let b = blocks[e.source as int];
                add_tree_counts(blocks.update(e.source as int, BlockView { counter: (b.counter + e.counter) as u64, ..b }), edges, i - 1)
            }
        } else {
            add_tree_counts(blocks, edges, i - 1)
        }
    }
}

/// A function with the arc from its exit block back to its entry added to
/// the spanning tree: block 1 is the exit from version 4.8 on, the last block
/// before.
pub open spec fn with_back_arc(f: FunView, version: u32) -> FunView {
    let sink = if version < 48 { (f.blocks.len() - 1) as usize } else { 1usize };
    let e = f.edges.len() as usize;
    let edges = f.edges.push(GcovEdge { source: sink, destination: 0, flags: 1, counter: 0, cycles: 0 });
    let blocks = f.blocks.update(sink as int, with_destination(f.blocks[sink as int], e, edges, 0));
    FunView { edges, blocks: blocks.update(0, with_source(blocks[0], e)), ..f }
}

/// A function once the counts of its spanning tree are deduced: with a back
/// arc from exit to entry, every tree arc gets its count, and every block the
/// counts of the tree arcs out of it. `None` where they cannot be deduced.
pub open spec fn counted_on_tree(f: FunView, version: u32) -> Option<FunView> {
    if f.blocks.len() < 2 {
        Some(f)
    } else {
        let g = with_back_arc(f, version);
        let p = propagate_all(g.blocks, g.edges, 0, Set::empty());
        if p.panics || g.blocks.len() > usize::MAX {
            None
        } else {
            match add_tree_counts(g.blocks, p.edges, p.edges.len() as int) {
                Some(blocks) => Some(FunView { blocks, edges: p.edges, ..g }),
                None => None,
            }
        }
    }
}

impl GcovFunction {
    /// Sums, over the arcs `ids` other than `pred_arc`, the counts of the
    /// arcs off the tree and the excess propagated through the tree arcs;
    /// `None` where the arcs cannot be walked or the sum exceeds `u64::MAX`.
    fn propagate_sum(
        blocks: &BlockList,
        edges: &mut EdgeList,
        ids: &[usize],
        pred_arc: Option<usize>,
        visited: &mut FxHashSet<usize>,
        incoming: bool,
        Ghost(bound): Ghost<int>,
    ) -> (r: Option<u64>)
        requires
            blocks_set(blocks_view(*blocks).len() as int, visited_set(*old(visited))),
            blocks_view(*blocks).len() <= usize::MAX,
            blocks_view(*blocks).len() - visited_set(*old(visited)).len() <= bound,
            walkable(blocks_view(*blocks), edge_list(*old(edges))),
        ensures
            ({
                let p = propagate_sum(blocks_view(*blocks), edge_list(*old(edges)), ids@, 0, pred_arc, visited_set(*old(visited)), incoming);
                &&& r is None ==> p.panics || p.excess > u64::MAX
                &&& r is Some ==> !p.panics && edge_list(*final(edges)) == p.edges
                    && visited_set(*final(visited)) == p.visited && r->0 == p.excess
            }),
            r is Some ==> blocks_set(blocks_view(*blocks).len() as int, visited_set(*final(visited))),
            r is Some ==> visited_set(*old(visited)).subset_of(visited_set(*final(visited))),
            same_shape(edge_list(*old(edges)), edge_list(*final(edges))),
        decreases bound, 1int,
    {
        let ghost bv = blocks_view(*blocks);
        let ghost target = propagate_sum(bv, edge_list(*edges), ids@, 0, pred_arc, visited_set(*visited), incoming);
        proof {
            lemma_excess_nonneg(bv);
        }
        let mut total: u64 = 0;
        let mut k: usize = 0;
        while k < ids.len()
            invariant
                k <= ids@.len(),
                bv == blocks_view(*blocks),
                bv.len() - visited_set(*old(visited)).len() <= bound,
                bv.len() <= usize::MAX,
                target == propagate_sum(bv, edge_list(*old(edges)), ids@, 0, pred_arc, visited_set(*old(visited)), incoming),
                blocks_set(bv.len() as int, visited_set(*visited)),
                visited_set(*old(visited)).subset_of(visited_set(*visited)),
                same_shape(edge_list(*old(edges)), edge_list(*edges)),
                walkable(bv, edge_list(*old(edges))),
                ({
                    let rest = propagate_sum(bv, edge_list(*edges), ids@, k as nat, pred_arc, visited_set(*visited), incoming);
                    &&& rest.edges == target.edges
                    &&& rest.visited == target.visited
                    &&& rest.panics == target.panics
                    &&& total + rest.excess == target.excess
                    &&& rest.excess >= 0
                }),
            decreases ids@.len() - k,
        {
            proof {
                lemma_excess_nonneg(bv);
            }
            let edge_id = ids[k];
            let skip = match pred_arc {
                Some(x) => edge_id == x,
                None => false,
            };
            if !skip {
                let es = edge_list_slice(edges);
                if edge_id >= es.len() {
                    return None;
                }
                let edge = es[edge_id];
                if edge.is_on_tree() {
                    let next = if incoming { edge.source } else { edge.destination };
                    proof {
                        lemma_len_subset(visited_set(*old(visited)), visited_set(*visited));
                        lemma_walkable_shape(bv, edge_list(*old(edges)), edge_list(*edges));
                    }
                    match Self::propagate_counts(blocks, edges, next, Some(edge_id), visited, Ghost(bound)) {
                        Some(c) => {
                            assert(propagate_sum(bv, edge_list(*edges), ids@, (k + 1) as nat, pred_arc, visited_set(*visited), incoming).excess >= 0);
                            match total.checked_add(c) {
                                Some(x) => total = x,
                                None => return None,
                            }
                        },
                        None => return None,
                    }
                } else {
                    assert(propagate_sum(bv, edge_list(*edges), ids@, (k + 1) as nat, pred_arc, visited_set(*visited), incoming).excess >= 0);
                    match total.checked_add(edge.counter) {
                        Some(x) => total = x,
                        None => return None,
                    }
                }
            }
            k += 1;
        }
        Some(total)
    }

    /// Deduces the counts of the spanning-tree arcs around block `block_no`,
    /// entered by `pred_arc` if any, and returns the block's excess; `None`
    /// where they cannot be deduced.
    fn propagate_counts(
        blocks: &BlockList,
        edges: &mut EdgeList,
        block_no: usize,
        pred_arc: Option<usize>,
        visited: &mut FxHashSet<usize>,
        Ghost(bound): Ghost<int>,
    ) -> (r: Option<u64>)
        requires
            blocks_set(blocks_view(*blocks).len() as int, visited_set(*old(visited))),
            blocks_view(*blocks).len() <= usize::MAX,
            blocks_view(*blocks).len() - visited_set(*old(visited)).len() <= bound,
            walkable(blocks_view(*blocks), edge_list(*old(edges))),
        ensures
            ({
                let p = propagate(blocks_view(*blocks), edge_list(*old(edges)), block_no, pred_arc, visited_set(*old(visited)));
                &&& r is None ==> p.panics
                &&& r is Some ==> !p.panics && edge_list(*final(edges)) == p.edges
                    && visited_set(*final(visited)) == p.visited && r->0 == p.excess
            }),
            r is Some ==> blocks_set(blocks_view(*blocks).len() as int, visited_set(*final(visited))),
            r is Some ==> visited_set(*old(visited)).subset_of(visited_set(*final(visited))),
            same_shape(edge_list(*old(edges)), edge_list(*final(edges))),
        decreases bound, 0int,
    {
        let ghost bv = blocks_view(*blocks);
        let ghost v0 = visited_set(*visited);
        if block_no >= block_list_slice(blocks).len() {
            return None;
        }
        if !visited_insert(visited, block_no) {
            return Some(0);
        }
        let bs = block_list_slice(blocks);
        proof {
            assert(bs@[block_no as int]@ == bv[block_no as int]);
            assert(visited_set(*visited).subset_of(usize_range(bv.len() as int)));
            lemma_blocks_set_len(bv.len() as int, visited_set(*visited));
        }
        let source = index_list_slice(&bs[block_no].source);
        let destination = index_list_slice(&bs[block_no].destination);
        let positive_excess = match Self::propagate_sum(blocks, edges, source, pred_arc, visited, true, Ghost(bound - 1)) {
            Some(x) => x,
            None => return None,
        };
        proof {
            lemma_len_subset(v0.insert(block_no), visited_set(*visited));
            lemma_walkable_shape(bv, edge_list(*old(edges)), edge_list(*edges));
        }
        let negative_excess = match Self::propagate_sum(blocks, edges, destination, pred_arc, visited, false, Ghost(bound - 1)) {
            Some(x) => x,
            None => return None,
        };
        let excess = if positive_excess >= negative_excess {
            positive_excess - negative_excess
        } else {
            negative_excess - positive_excess
        };
        if let Some(id) = pred_arc {
            let es = edge_list_slice(edges);
            if id >= es.len() {
                return None;
            }
            let e = es[id];
            edge_list_set(edges, id, GcovEdge {
                source: e.source,
                destination: e.destination,
                flags: e.flags,
                counter: excess,
                cycles: e.cycles,
            });
        }
        Some(excess)
    }
}

/// Arcs with the same shape can be walked alike.
proof fn lemma_walkable_shape(bv: Seq<BlockView>, a: Seq<GcovEdge>, b: Seq<GcovEdge>)
    requires
        walkable(bv, a),
        same_shape(a, b),
    ensures
        walkable(bv, b),
{
    assert forall|e: int| 0 <= e < b.len() implies #[trigger] b[e].source < bv.len()
        && b[e].destination < bv.len() by {
        assert(a[e].source == b[e].source);
    }
}

impl GcovFunction {
    /// Deduces the counts of the arcs of the spanning tree, then adds the
    /// count of each tree arc to its source block.
    pub fn count_on_tree(&mut self, version: u32) -> (ok: bool)
        requires
            graph_wf(old(self)@),
        ensures
            !ok ==> counted_on_tree(old(self)@, version) is None,
            ok ==> counted_on_tree(old(self)@, version) is Some
                && final(self)@ == counted_on_tree(old(self)@, version)->0,
            ok ==> graph_wf(final(self)@),
    {
        let nb = block_list_slice(&self.blocks).len();
        if nb >= 2 {
            let ghost f0 = self@;
            let src_no: usize = 0;
            let sink_no: usize = if version < 48 { nb - 1 } else { 1 };
            let edges_count = edge_list_slice(&self.edges).len();
            edge_list_push(&mut self.edges, GcovEdge {
                source: sink_no,
                destination: src_no,
                flags: GCOV_ARC_ON_TREE,
                counter: 0,
                cycles: 0,
            });
            assert(forall|j: int| 0 <= j < f0.blocks[sink_no as int].destination.len()
                ==> #[trigger] f0.blocks[sink_no as int].destination[j] < edge_list(self.edges).len());
            let i = Gcno::insert_position(&self.blocks, &self.edges, sink_no, src_no);
            let ghost bl0 = block_list(self.blocks);
            {
                let b = block_list_at(&mut self.blocks, sink_no);
                index_list_insert(&mut b.destination, i, edges_count);
            }
            proof {
                crate::reader::lemma_update_block(bl0, sink_no as int, block_list(self.blocks)[sink_no as int]);
            }
            let ghost bl1 = block_list(self.blocks);
            {
                let b = block_list_at(&mut self.blocks, src_no);
                index_list_push(&mut b.source, edges_count);
            }
            proof {
                crate::reader::lemma_update_block(bl1, 0, block_list(self.blocks)[0]);
            }
            let ghost g = with_back_arc(f0, version);
            assert(self@.blocks =~= g.blocks);
            assert(self@ == g);
            assert(graph_wf(g)) by {
                let p = insert_pos(f0.blocks[sink_no as int].destination, g.edges, 0);
                assert forall|b: int, j: int| 0 <= b < g.blocks.len() && 0 <= j < g.blocks[b].destination.len()
                    implies #[trigger] g.blocks[b].destination[j] < g.edges.len() by {
                    if b == sink_no as int {
                        let d0 = f0.blocks[b].destination;
                        if j < p {
                            assert(g.blocks[b].destination[j] == d0[j]);
                        } else if j > p {
                            assert(g.blocks[b].destination[j] == d0[j - 1]);
                        }
                    } else {
                        assert(g.blocks[b].destination == f0.blocks[b].destination);
                    }
                }
                assert forall|b: int, j: int| 0 <= b < g.blocks.len() && 0 <= j < g.blocks[b].source.len()
                    implies #[trigger] g.blocks[b].source[j] < g.edges.len() by {
                    if b == 0 && j == g.blocks[b].source.len() - 1 {
                    } else if b == 0 || b == sink_no as int {
                        assert(g.blocks[b].source[j] == f0.blocks[b].source[j]);
                    } else {
                        assert(g.blocks[b] == f0.blocks[b]);
                    }
                }
                assert forall|e: int| 0 <= e < g.edges.len() implies #[trigger] g.edges[e].source < g.blocks.len()
                    && g.edges[e].destination < g.blocks.len() by {
                    if e < f0.edges.len() {
                        assert(g.edges[e] == f0.edges[e]);
                    }
                }
                assert forall|b: int| 0 <= b < g.blocks.len() implies #[trigger] g.blocks[b].no < g.blocks.len() by {
                    if b != 0 && b != sink_no as int {
                        assert(g.blocks[b] == f0.blocks[b]);
                    }
                }
            }
            let ghost bv = g.blocks;
            let ghost target = propagate_all(bv, g.edges, 0, Set::empty());
            assert(walkable(bv, g.edges));
            let mut visited = visited_new();
            proof {
                assert(visited_set(visited).subset_of(usize_range(bv.len() as int)));
            }
            let mut block_no: usize = 0;
            while block_no < nb
                invariant
                    block_no <= nb,
                    nb == bv.len(),
                    bv == blocks_view(self.blocks),
                    self@ == (FunView { edges: edge_list(self.edges), ..g }),
                    target == propagate_all(bv, g.edges, 0, Set::empty()),
                    g == with_back_arc(f0, version),
                    f0 == old(self)@,
                    f0.blocks.len() >= 2,
                    bv.len() <= usize::MAX,
                    blocks_set(bv.len() as int, visited_set(visited)),
                    walkable(bv, g.edges),
                    propagate_all(bv, edge_list(self.edges), block_no as nat, visited_set(visited)) == target,
                    graph_wf(g),
                    same_shape(g.edges, edge_list(self.edges)),
                decreases nb - block_no,
            {
                proof {
                    lemma_blocks_set_len(bv.len() as int, visited_set(visited));
                }
                proof {
                    lemma_walkable_shape(bv, g.edges, edge_list(self.edges));
                }
                match Self::propagate_counts(&self.blocks, &mut self.edges, block_no, None, &mut visited, Ghost(nb as int)) {
                    Some(_) => {},
                    None => return false,
                }
                block_no += 1;
            }
            let ghost edges2 = edge_list(self.edges);
            let ne = edge_list_slice(&self.edges).len();
            let mut k = ne;
            while k > 0
                invariant
                    k <= ne,
                    ne == edges2.len(),
                    edge_list(self.edges) == edges2,
                    target == propagate_all(bv, g.edges, 0, Set::empty()),
                    edges2 == target.edges,
                    !target.panics,
                    f0 == old(self)@,
                    bv.len() <= usize::MAX,
                    g == with_back_arc(f0, version),
                    f0.blocks.len() >= 2,
                    self@ == (FunView { edges: edges2, blocks: blocks_view(self.blocks), ..g }),
                    add_tree_counts(blocks_view(self.blocks), edges2, k as int)
                        == add_tree_counts(bv, edges2, ne as int),
                    walkable(bv, g.edges),
                    graph_wf(g),
                    same_shape(g.edges, edges2),
                    bv == g.blocks,
                    blocks_view(self.blocks).len() == bv.len(),
                    forall|b: int| 0 <= b < bv.len() ==> (#[trigger] blocks_view(self.blocks)[b]) == (BlockView { counter: blocks_view(self.blocks)[b].counter, ..bv[b] }),
                decreases k,
            {
                k -= 1;
                let e = edge_list_slice(&self.edges)[k];
                if e.is_on_tree() {
                    let ghost bl = block_list(self.blocks);
                    let ghost bvo = blocks_view(self.blocks);
                    assert(g.edges[k as int].source == e.source);
                    let cur = block_list_slice(&self.blocks)[e.source].counter;
                    assert(block_list(self.blocks)[e.source as int]@ == blocks_view(self.blocks)[e.source as int]);
                    if cur.checked_add(e.counter).is_none() {
                        return false;
                    }
                    {
                        let b = block_list_at(&mut self.blocks, e.source);
                        b.counter = b.counter + e.counter;
                    }
                    proof {
                        crate::reader::lemma_update_block(bl, e.source as int, block_list(self.blocks)[e.source as int]);
                    }
                    assert(blocks_view(self.blocks) =~= bvo.update(e.source as int,
                        BlockView { counter: (bvo[e.source as int].counter + e.counter) as u64, ..bvo[e.source as int] }));
                }
            }
            assert(graph_wf(self@)) by {
                let fv = self@;
                assert forall|b: int| 0 <= b < fv.blocks.len() implies #[trigger] fv.blocks[b].source == g.blocks[b].source
                    && fv.blocks[b].destination == g.blocks[b].destination && fv.blocks[b].no == g.blocks[b].no by {
                    assert(blocks_view(self.blocks)[b] == (BlockView { counter: blocks_view(self.blocks)[b].counter, ..bv[b] }));
                }
                assert forall|e: int| 0 <= e < fv.edges.len() implies #[trigger] fv.edges[e].source < fv.blocks.len()
                    && fv.edges[e].destination < fv.blocks.len() by {
                    assert(g.edges[e].source == fv.edges[e].source);
                }
            }
        }
        true
    }
}

/// Whether two arc lists differ at most in the cycle counts of the arcs.
pub open spec fn same_but_cycles(a: Seq<GcovEdge>, b: Seq<GcovEdge>) -> bool {
    &&& a.len() == b.len()
    &&& forall|i: int| 0 <= i < a.len() ==> (#[trigger] a[i]).source == b[i].source
        && a[i].destination == b[i].destination && a[i].flags == b[i].flags && a[i].counter == b[i].counter
}

/// The least cycle count of the arcs `path[k..]`, `u64::MAX` for none.
pub open spec fn min_cycles(edges: Seq<GcovEdge>, path: Seq<usize>, k: int) -> u64
    decreases path.len() - k,
{
    if k >= path.len() {
        u64::MAX
    } else {
        let c = edges[path[k] as int].cycles;
        let m = min_cycles(edges, path, k + 1);
        if c < m { c } else { m }
    }
}

/// The arcs once `count` is taken off the cycle count of each arc of
/// `path[k..]`, one arc after the other; `None` where an arc has fewer cycles
/// left than `count` when its turn comes.
pub open spec fn take_cycles(edges: Seq<GcovEdge>, path: Seq<usize>, count: u64, k: int) -> Option<Seq<GcovEdge>>
    decreases path.len() - k,
{
    if k >= path.len() {
        Some(edges)
    } else {
        let e = edges[path[k] as int];
        if e.cycles < count {
            None
        } else {
            take_cycles(edges.update(path[k] as int, GcovEdge {
                source: e.source,
                destination: e.destination,
                flags: e.flags,
                counter: e.counter,
                cycles: (e.cycles - count) as u64,
            }), path, count, k + 1)
        }
    }
}

/// The cycle counts of all the arcs, summed.
pub open spec fn total_cycles(e: Seq<GcovEdge>) -> int
    decreases e.len(),
{
    if e.len() == 0 { 0 } else { total_cycles(e.drop_last()) + e.last().cycles }
}

proof fn lemma_total_cycles_update(e: Seq<GcovEdge>, i: int, x: GcovEdge)
    requires
        0 <= i < e.len(),
    ensures
        total_cycles(e.update(i, x)) == total_cycles(e) - e[i].cycles + x.cycles,
    decreases e.len(),
{
    let u = e.update(i, x);
    if i == e.len() - 1 {
        assert(u.drop_last() =~= e.drop_last());
    } else {
        lemma_total_cycles_update(e.drop_last(), i, x);
        assert(u.drop_last() =~= e.drop_last().update(i, x));
    }
}

proof fn lemma_take_cycles_total(e: Seq<GcovEdge>, path: Seq<usize>, c: u64, k: int)
    requires
        0 <= k <= path.len(),
        forall|i: int| 0 <= i < path.len() ==> #[trigger] path[i] < e.len(),
        take_cycles(e, path, c, k) is Some,
    ensures
        total_cycles(take_cycles(e, path, c, k)->0) == total_cycles(e) - c * (path.len() - k),
        take_cycles(e, path, c, k)->0.len() == e.len(),
    decreases path.len() - k,
{
    if k < path.len() {
        let x = e[path[k] as int];
        let y = GcovEdge {
            source: x.source,
            destination: x.destination,
            flags: x.flags,
            counter: x.counter,
            cycles: (x.cycles - c) as u64,
        };
        let u = e.update(path[k] as int, y);
        assert(x.cycles >= c);
        assert(take_cycles(e, path, c, k) == take_cycles(u, path, c, k + 1));
        lemma_total_cycles_update(e, path[k] as int, y);
        assert forall|i: int| 0 <= i < path.len() implies #[trigger] path[i] < u.len() by {
            assert(path[i] < e.len());
        }
        lemma_take_cycles_total(u, path, c, k + 1);
        let n = path.len() - k;
        assert(c * n == c * (n - 1) + c) by (nonlinear_arith);
    } else {
        let n = path.len() - k;
        assert(n == 0);
        assert(c * n == 0) by (nonlinear_arith)
            requires
                n == 0;
    }
}

/// The lists of blocks waiting on each blocked block.
pub open spec fn waits(p: Seq<ArcList>) -> Seq<Seq<usize>> {
    p.map_values(|a: ArcList| index_list(a))
}

/// The first index from `i` on where `s` holds `x`, or the length if none does.
pub open spec fn index_from(s: Seq<usize>, x: usize, i: int) -> int
    decreases s.len() - i,
{
    if i >= s.len() {
        s.len() as int
    } else if s[i] == x {
        i
    } else {
        index_from(s, x, i + 1)
    }
}

proof fn lemma_index_from(s: Seq<usize>, x: usize, i: int)
    requires
        0 <= i <= s.len(),
    ensures
        i <= index_from(s, x, i) <= s.len(),
        index_from(s, x, i) < s.len() ==> s[index_from(s, x, i)] == x,
        forall|j: int| i <= j < index_from(s, x, i) ==> s[j] != x,
    decreases s.len() - i,
{
    if i < s.len() && s[i] != x {
        lemma_index_from(s, x, i + 1);
    }
}

/// The blocked blocks and their waiting lists once `b` is unblocked: where
/// it is blocked, it is taken out with its list, and each block of the list
/// is unblocked in turn. The depth is bounded by `n`.
pub open spec fn unblocked(b: usize, bl: Seq<usize>, ws: Seq<Seq<usize>>, n: nat) -> (Seq<usize>, Seq<Seq<usize>>)
    decreases n, 1int, 0int,
{
    let i = index_from(bl, b, 0);
    if n == 0 || i >= bl.len() {
        (bl, ws)
    } else {
        unblocked_all(ws[i], 0, bl.remove(i), ws.remove(i), n)
    }
}

/// Unblocking each block of `list[j..]` in turn.
pub open spec fn unblocked_all(list: Seq<usize>, j: int, bl: Seq<usize>, ws: Seq<Seq<usize>>, n: nat) -> (Seq<usize>, Seq<Seq<usize>>)
    decreases n, 0int, list.len() - j,
{
    if n == 0 || j >= list.len() || j < 0 {
        (bl, ws)
    } else {
        let r = unblocked(list[j], bl, ws, (n - 1) as nat);
        unblocked_all(list, j + 1, r.0, r.1, n)
    }
}

impl GcovFunction {
    /// Takes the least cycle count along a path of arcs off every arc of it,
    /// and returns that count; `None` where a count would go below zero (an
    /// arc twice on the path).
    fn get_cycle_count(edges: &mut EdgeList, path: &Stack) -> (r: Option<u64>)
        requires
            forall|i: int| 0 <= i < stack_list(*path).len() ==> #[trigger] stack_list(*path)[i] < edge_list(*old(edges)).len(),
        ensures
            same_but_cycles(edge_list(*old(edges)), edge_list(*final(edges))),
            match r {
                Some(c) => c == min_cycles(edge_list(*old(edges)), stack_list(*path), 0)
                    && take_cycles(edge_list(*old(edges)), stack_list(*path), c, 0) == Some(edge_list(*final(edges)))
                    && total_cycles(edge_list(*final(edges))) == total_cycles(edge_list(*old(edges))) - c * stack_list(*path).len(),
                None => take_cycles(edge_list(*old(edges)), stack_list(*path),
                    min_cycles(edge_list(*old(edges)), stack_list(*path), 0), 0) is None,
            },
    {
        let p = stack_slice(path);
        let ghost e0 = edge_list(*edges);
        let mut count: u64 = u64::MAX;
        let mut k = p.len();
        while k > 0
            invariant
                k <= p@.len(),
                p@ == stack_list(*path),
                e0 == edge_list(*edges),
                forall|i: int| 0 <= i < p@.len() ==> #[trigger] p@[i] < e0.len(),
                count == min_cycles(e0, p@, k as int),
            decreases k,
        {
            k -= 1;
            let c = edge_list_slice(edges)[p[k]].cycles;
            if c < count {
                count = c;
            }
        }
        let mut i: usize = 0;
        while i < p.len()
            invariant
                i <= p@.len(),
                p@ == stack_list(*path),
                forall|j: int| 0 <= j < p@.len() ==> #[trigger] p@[j] < e0.len(),
                e0 == edge_list(*old(edges)),
                same_but_cycles(e0, edge_list(*edges)),
                count == min_cycles(e0, p@, 0),
                take_cycles(e0, p@, count, 0) == take_cycles(edge_list(*edges), p@, count, i as int),
            decreases p@.len() - i,
        {
            let e = edge_list_slice(edges)[p[i]];
            if e.cycles < count {
                return None;
            }
            assert(take_cycles(edge_list(*edges), p@, count, i as int) == take_cycles(edge_list(*edges).update(p@[i as int] as int, GcovEdge {
                source: e.source,
                destination: e.destination,
                flags: e.flags,
                counter: e.counter,
                cycles: (e.cycles - count) as u64,
            }), p@, count, i + 1));
            edge_list_set(edges, p[i], GcovEdge {
                source: e.source,
                destination: e.destination,
                flags: e.flags,
                counter: e.counter,
                cycles: e.cycles - count,
            });
            i += 1;
        }
        proof {
            lemma_take_cycles_total(e0, p@, count, 0);
        }
        Some(count)
    }

    /// Unblocks `block`, then, recursively, the blocks waiting on it (see
    /// [`unblocked`]; `budget` bounds the depth and is at least the number of
    /// blocked blocks).
    fn unblock(block: usize, blocked: &mut Stack, block_lists: &mut PendingLists, budget: usize)
        requires
            stack_list(*old(blocked)).len() == pending_list(*old(block_lists)).len(),
            stack_list(*old(blocked)).len() <= budget,
        ensures
            stack_list(*final(blocked)).len() == pending_list(*final(block_lists)).len(),
            stack_list(*final(blocked)).len() <= stack_list(*old(blocked)).len(),
            (stack_list(*final(blocked)), waits(pending_list(*final(block_lists))))
                == unblocked(block, stack_list(*old(blocked)), waits(pending_list(*old(block_lists))), budget as nat),
        decreases budget,
    {
        let b = stack_slice(blocked);
        let mut i: usize = 0;
        while i < b.len() && b[i] != block
            invariant
                i <= b@.len(),
                forall|j: int| 0 <= j < i ==> b@[j] != block,
            decreases b@.len() - i,
        {
            i += 1;
        }
        let ghost b0 = stack_list(*blocked);
        let ghost l0 = pending_list(*block_lists);
        proof { lemma_index_from(b0, block, 0); }
        if i < b.len() {
            assert(index_from(b0, block, 0) == i);
            stack_remove(blocked, i);
            let list = pending_remove(block_lists, i);
            assert(waits(pending_list(*block_lists)) =~= waits(l0).remove(i as int));
            let waiting = crate::graph::index_list_slice(&list);
            assert(waiting@ == waits(l0)[i as int]);
            let mut j: usize = 0;
            while j < waiting.len()
                invariant
                    j <= waiting@.len(),
                    1 <= budget,
                    stack_list(*blocked).len() == pending_list(*block_lists).len(),
                    stack_list(*blocked).len() < stack_list(*old(blocked)).len(),
                    stack_list(*old(blocked)).len() <= budget,
                    unblocked(block, b0, waits(l0), budget as nat)
                        == unblocked_all(waiting@, j as int, stack_list(*blocked), waits(pending_list(*block_lists)), budget as nat),
                decreases waiting@.len() - j,
            {
                Self::unblock(waiting[j], blocked, block_lists, budget - 1);
                j += 1;
            }
        } else {
            assert(index_from(b0, block, 0) >= b0.len());
        }
    }
}

/// Whether a slice of block numbers holds `w`.
fn holds(v: &[usize], w: usize) -> (r: bool)
    ensures
        r == v@.contains(w),
{
    let mut i: usize = 0;
    while i < v.len()
        invariant
            i <= v@.len(),
            forall|j: int| 0 <= j < i ==> v@[j] != w,
        decreases v@.len() - i,
    {
        if v[i] == w {
            return true;
        }
        i += 1;
    }
    false
}

/// The first position of `w` in a slice, if it is there.
fn position(v: &[usize], w: usize) -> (r: Option<usize>)
    ensures
        match r {
            Some(i) => i < v@.len() && v@[i as int] == w && forall|j: int| 0 <= j < i ==> v@[j] != w,
            None => !v@.contains(w),
        },
{
    let mut i: usize = 0;
    while i < v.len()
        invariant
            i <= v@.len(),
            forall|j: int| 0 <= j < i ==> v@[j] != w,
        decreases v@.len() - i,
    {
        if v[i] == w {
            return Some(i);
        }
        i += 1;
    }
    None
}

/// Whether the arcs of a function can be walked from its blocks: every arc
/// index of a block names an arc, every arc joins blocks.
pub open spec fn walkable(bv: Seq<BlockView>, edges: Seq<GcovEdge>) -> bool {
    &&& forall|b: int, j: int| 0 <= b < bv.len() && 0 <= j < bv[b].destination.len()
        ==> #[trigger] bv[b].destination[j] < edges.len()
    &&& forall|b: int, j: int| 0 <= b < bv.len() && 0 <= j < bv[b].source.len()
        ==> #[trigger] bv[b].source[j] < edges.len()
    &&& forall|e: int| 0 <= e < edges.len() ==> #[trigger] edges[e].source < bv.len()
        && edges[e].destination < bv.len()
}

/// Arcs that differ only in their cycle counts can be walked alike.
proof fn lemma_walkable_cycles(bv: Seq<BlockView>, a: Seq<GcovEdge>, b: Seq<GcovEdge>)
    requires
        walkable(bv, a),
        same_but_cycles(a, b),
    ensures
        walkable(bv, b),
{
    assert forall|e: int| 0 <= e < b.len() implies #[trigger] b[e].source < bv.len()
        && b[e].destination < bv.len() by {
        assert(a[e].source == b[e].source);
    }
}

/// Whether an arc out of block `v` leads to one of the blocks `blocks`.
pub open spec fn arcs_into(bv: Seq<BlockView>, edges: Seq<GcovEdge>, v: int, blocks: Seq<usize>) -> bool {
    exists|j: int| 0 <= j < bv[v].destination.len()
        && #[trigger] blocks.contains(edges[bv[v].destination[j] as int].destination)
}

/// Whether an arc joins two of the blocks `blocks`.
pub open spec fn inner_arcs(bv: Seq<BlockView>, edges: Seq<GcovEdge>, blocks: Seq<usize>) -> bool {
    exists|i: int| 0 <= i < blocks.len() && #[trigger] arcs_into(bv, edges, blocks[i] as int, blocks)
}

/// Which arcs join which blocks does not depend on the cycle counts.
proof fn lemma_inner_arcs_cycles(bv: Seq<BlockView>, a: Seq<GcovEdge>, c: Seq<GcovEdge>, blocks: Seq<usize>)
    requires
        same_but_cycles(a, c),
        walkable(bv, a),
        forall|i: int| 0 <= i < blocks.len() ==> #[trigger] blocks[i] < bv.len(),
    ensures
        inner_arcs(bv, a, blocks) == inner_arcs(bv, c, blocks),
        forall|v: int| 0 <= v < bv.len() ==> arcs_into(bv, a, v, blocks) == #[trigger] arcs_into(bv, c, v, blocks),
{
    assert forall|v: int| 0 <= v < bv.len() implies arcs_into(bv, a, v, blocks) == #[trigger] arcs_into(bv, c, v, blocks) by {
        if arcs_into(bv, a, v, blocks) {
            let j = choose|j: int| 0 <= j < bv[v].destination.len()
                && #[trigger] blocks.contains(a[bv[v].destination[j] as int].destination);
            assert(bv[v].destination[j] < a.len());
            assert(blocks.contains(c[bv[v].destination[j] as int].destination));
        }
        if arcs_into(bv, c, v, blocks) {
            let j = choose|j: int| 0 <= j < bv[v].destination.len()
                && #[trigger] blocks.contains(c[bv[v].destination[j] as int].destination);
            assert(bv[v].destination[j] < a.len());
            assert(blocks.contains(a[bv[v].destination[j] as int].destination));
        }
    }
    if inner_arcs(bv, a, blocks) {
        let i = choose|i: int| 0 <= i < blocks.len() && #[trigger] arcs_into(bv, a, blocks[i] as int, blocks);
        assert(arcs_into(bv, c, blocks[i] as int, blocks));
    }
    if inner_arcs(bv, c, blocks) {
        let i = choose|i: int| 0 <= i < blocks.len() && #[trigger] arcs_into(bv, c, blocks[i] as int, blocks);
        assert(arcs_into(bv, a, blocks[i] as int, blocks));
    }
}

/// Taking nothing off the cycle counts leaves the arcs as they are.
proof fn lemma_take_no_cycles(edges: Seq<GcovEdge>, path: Seq<usize>, k: int)
    requires
        0 <= k,
        forall|i: int| 0 <= i < path.len() ==> #[trigger] path[i] < edges.len(),
    ensures
        take_cycles(edges, path, 0, k) == Some(edges),
    decreases path.len() - k,
{
    if k < path.len() {
        let e = edges[path[k] as int];
        assert(path[k] < edges.len());
        assert((GcovEdge {
            source: e.source,
            destination: e.destination,
            flags: e.flags,
            counter: e.counter,
            cycles: (e.cycles - 0) as u64,
        }) == e);
        assert(edges.update(path[k] as int, GcovEdge {
            source: e.source,
            destination: e.destination,
            flags: e.flags,
            counter: e.counter,
            cycles: (e.cycles - 0) as u64,
        }) =~= edges);
        lemma_take_no_cycles(edges, path, k + 1);
    }
}

/// Where a circuit search stands: whether a circuit was found, the cycle
/// counts taken so far, the arcs, the blocked blocks and their waiting lists.
pub struct Search {
    pub found: bool,
    pub count: u64,
    pub edges: Seq<GcovEdge>,
    pub blocked: Seq<usize>,
    pub waits: Seq<Seq<usize>>,
}

/// The search for circuits through `start` going on from `v` along `path`,
/// within the blocks `blocks` (Johnson's method): `v` is blocked, each arc of
/// `v` into the blocks is followed (see [`search_arcs`]), and then `v` is
/// unblocked where a circuit was found, or put on the waiting lists of the
/// blocked blocks it leads to where none was. `None` where the search would
/// go more than `depth` calls deeper, an arc is twice on a circuit, or a
/// count overflows.
pub open spec fn search(bv: Seq<BlockView>, e: Seq<GcovEdge>, v: usize, start: usize, path: Seq<usize>,
    bl: Seq<usize>, ws: Seq<Seq<usize>>, blocks: Seq<usize>, depth: nat) -> Option<Search>
    decreases depth, 1int, 0int,
{
    let s0 = Search { found: false, count: 0, edges: e, blocked: bl.push(v), waits: ws.push(Seq::empty()) };
    match search_arcs(bv, v, start, path, blocks, depth, 0, s0) {
        None => None,
        Some(s) => if s.found {
            let u = unblocked(v, s.blocked, s.waits, s.blocked.len());
            Some(Search { blocked: u.0, waits: u.1, ..s })
        } else {
            Some(Search { waits: waited(bv[v as int].destination, s.edges, v, start, blocks, s.blocked, 0, s.waits), ..s })
        },
    }
}

/// Following the arcs `k..` of `v`: an arc back into `start` closes a
/// circuit, whose least cycle count is taken off each of its arcs and added
/// up; an arc into another unblocked block of `blocks` (not below `start`) is
/// searched on from there.
pub open spec fn search_arcs(bv: Seq<BlockView>, v: usize, start: usize, path: Seq<usize>, blocks: Seq<usize>,
    depth: nat, k: int, s: Search) -> Option<Search>
    decreases depth, 0int, bv[v as int].destination.len() - k,
{
    let dsts = bv[v as int].destination;
    if k < 0 || k >= dsts.len() {
        Some(s)
    } else {
        let a = dsts[k];
        let w = s.edges[a as int].destination;
        if w >= start && blocks.contains(w) {
            let p2 = path.push(a);
            if w == start {
                let c = min_cycles(s.edges, p2, 0);
                match take_cycles(s.edges, p2, c, 0) {
                    None => None,
                    Some(e2) => if s.count + c > u64::MAX {
                        None
                    } else {
                        search_arcs(bv, v, start, path, blocks, depth, k + 1,
                            Search { found: true, count: (s.count + c) as u64, edges: e2, ..s })
                    },
                }
            } else if !s.blocked.contains(w) {
                if depth == 0 {
                    None
                } else {
                    match search(bv, s.edges, w, start, p2, s.blocked, s.waits, blocks, (depth - 1) as nat) {
                        None => None,
                        Some(r) => if s.count + r.count > u64::MAX {
                            None
                        } else {
                            search_arcs(bv, v, start, path, blocks, depth, k + 1, Search {
                                found: s.found || r.found,
                                count: (s.count + r.count) as u64,
                                edges: r.edges,
                                blocked: r.blocked,
                                waits: r.waits,
                            })
                        },
                    }
                }
            } else {
                search_arcs(bv, v, start, path, blocks, depth, k + 1, s)
            }
        } else {
            search_arcs(bv, v, start, path, blocks, depth, k + 1, s)
        }
    }
}

/// The waiting lists once `v` is put, where it is not yet, on the list of
/// each blocked block that an arc of `dsts[k..]` leads to (not below `start`
/// or within `blocks`).
pub open spec fn waited(dsts: Seq<usize>, e: Seq<GcovEdge>, v: usize, start: usize, blocks: Seq<usize>,
    bl: Seq<usize>, k: int, ws: Seq<Seq<usize>>) -> Seq<Seq<usize>>
    decreases dsts.len() - k,
{
    if k < 0 || k >= dsts.len() {
        ws
    } else {
        let w = e[dsts[k] as int].destination;
        let i = index_from(bl, w, 0);
        let ws2 = if (w >= start || blocks.contains(w)) && i < bl.len() && !ws[i].contains(v) {
            ws.update(i, ws[i].push(v))
        } else {
            ws
        };
        waited(dsts, e, v, start, blocks, bl, k + 1, ws2)
    }
}

/// The cycle counts of the circuits searched through each block of
/// `blocks[i..]` in turn (each search starting with nothing blocked), added
/// onto `count`, with the arcs they leave; `None` where a search fails or the
/// sum overflows.
pub open spec fn cycles_from(bv: Seq<BlockView>, e: Seq<GcovEdge>, blocks: Seq<usize>, i: int, count: u64) -> Option<(u64, Seq<GcovEdge>)>
    decreases blocks.len() - i,
{
    if i < 0 || i >= blocks.len() {
        Some((count, e))
    } else {
        match search(bv, e, blocks[i], blocks[i], Seq::empty(), Seq::empty(), Seq::empty(), blocks, blocks.len() as nat) {
            None => None,
            Some(s) => if count + s.count > u64::MAX {
                None
            } else {
                cycles_from(bv, s.edges, blocks, i + 1, (count + s.count) as u64)
            },
        }
    }
}

impl GcovFunction {
    /// Searches the circuits through `start` in the blocks `blocks` that go
    /// on from `v` along `path`, blocking the blocks from which none is found
    /// (Johnson's method), and adds up the cycle counts they take: see
    /// [`search`], which it follows step by step.
    fn look_for_circuit(
        fun_edges: &mut EdgeList,
        fun_blocks: &BlockList,
        v: usize,
        start: usize,
        path: &mut Stack,
        blocked: &mut Stack,
        block_lists: &mut PendingLists,
        blocks: &[usize],
        depth: usize,
    ) -> (r: Option<(bool, u64)>)
        requires
            walkable(blocks_view(*fun_blocks), edge_list(*old(fun_edges))),
            v < blocks_view(*fun_blocks).len(),
            stack_list(*old(blocked)).len() == pending_list(*old(block_lists)).len(),
            forall|i: int| 0 <= i < stack_list(*old(path)).len() ==> #[trigger] stack_list(*old(path))[i] < edge_list(*old(fun_edges)).len(),
        ensures
            same_but_cycles(edge_list(*old(fun_edges)), edge_list(*final(fun_edges))),
            match search(blocks_view(*fun_blocks), edge_list(*old(fun_edges)), v, start, stack_list(*old(path)),
                stack_list(*old(blocked)), waits(pending_list(*old(block_lists))), blocks@, depth as nat) {
                None => r is None,
                Some(s) => r == Some((s.found, s.count))
                    && edge_list(*final(fun_edges)) == s.edges
                    && stack_list(*final(blocked)) == s.blocked
                    && waits(pending_list(*final(block_lists))) == s.waits
                    && stack_list(*final(blocked)).len() == pending_list(*final(block_lists)).len()
                    && stack_list(*final(path)) == stack_list(*old(path)),
            },
            r matches Some((found, count)) ==> (!found ==> count == 0)
                && (count == 0 ==> edge_list(*final(fun_edges)) == edge_list(*old(fun_edges)))
                && total_cycles(edge_list(*old(fun_edges))) - total_cycles(edge_list(*final(fun_edges))) >= count,
            !arcs_into(blocks_view(*fun_blocks), edge_list(*old(fun_edges)), v as int, blocks@) ==> r == Some((false, 0u64)),
        decreases depth,
    {
        let ghost bv = blocks_view(*fun_blocks);
        let ghost e0 = edge_list(*fun_edges);
        let ghost p_old = stack_list(*path);
        let ghost bl_old = stack_list(*blocked);
        let ghost ws_old = waits(pending_list(*block_lists));
        let ghost s0 = Search { found: false, count: 0, edges: e0, blocked: bl_old.push(v),
            waits: ws_old.push(Seq::empty()) };
        let mut count: u64 = 0;
        stack_push(blocked, v);
        pending_push(block_lists, index_list_new());
        assert(waits(pending_list(*block_lists)) =~= s0.waits);
        let mut found = false;
        let bs = block_list_slice(fun_blocks);
        assert(bs@[v as int]@ == bv[v as int]);
        let dsts = crate::graph::index_list_slice(&bs[v].destination);
        let mut k: usize = 0;
        while k < dsts.len()
            invariant
                k <= dsts@.len(),
                bv == blocks_view(*fun_blocks),
                dsts@ == bv[v as int].destination,
                v < bv.len(),
                walkable(bv, e0),
                same_but_cycles(e0, edge_list(*fun_edges)),
                e0 == edge_list(*old(fun_edges)),
                stack_list(*blocked).len() == pending_list(*block_lists).len(),
                stack_list(*path) == p_old,
                p_old == stack_list(*old(path)),
                forall|i: int| 0 <= i < stack_list(*path).len() ==> #[trigger] stack_list(*path)[i] < e0.len(),
                !found ==> count == 0,
                count == 0 ==> edge_list(*fun_edges) == e0,
                !arcs_into(bv, e0, v as int, blocks@) ==> !found,
                total_cycles(e0) - total_cycles(edge_list(*fun_edges)) >= count,
                bl_old == stack_list(*old(blocked)),
                ws_old == waits(pending_list(*old(block_lists))),
                s0 == (Search { found: false, count: 0, edges: e0, blocked: bl_old.push(v), waits: ws_old.push(Seq::empty()) }),
                search_arcs(bv, v, start, p_old, blocks@, depth as nat, 0, s0)
                    == search_arcs(bv, v, start, p_old, blocks@, depth as nat, k as int, Search {
                        found: found, count: count, edges: edge_list(*fun_edges),
                        blocked: stack_list(*blocked), waits: waits(pending_list(*block_lists)) }),
            decreases dsts@.len() - k,
        {
            let ghost cur = Search { found: found, count: count, edges: edge_list(*fun_edges),
                blocked: stack_list(*blocked), waits: waits(pending_list(*block_lists)) };
            assert(dsts@[k as int] < e0.len());
            let e = dsts[k];
            let w = edge_list_slice(fun_edges)[e].destination;
            assert(e0[e as int].destination == w);
            if w >= start && holds(blocks, w) {
                assert(blocks@.contains(e0[bv[v as int].destination[k as int] as int].destination));
                assert(arcs_into(bv, e0, v as int, blocks@));
                stack_push(path, e);
                if w == start {
                    let ghost ep = edge_list(*fun_edges);
                    match Self::get_cycle_count(fun_edges, path) {
                        Some(c) => {
                            proof {
                                if c == 0 {
                                    lemma_take_no_cycles(ep, stack_list(*path), 0);
                                }
                                let n = stack_list(*path).len();
                                assert(n >= 1);
                                assert(c * n >= c) by (nonlinear_arith)
                                    requires
                                        n >= 1;
                            }
                            match count.checked_add(c) {
                                Some(x) => count = x,
                                None => {
                                    proof { assert(search_arcs(bv, v, start, p_old, blocks@, depth as nat, k as int, cur) is None); }
                                    return None;
                                },
                            }
                        },
                        None => {
                            proof { assert(search_arcs(bv, v, start, p_old, blocks@, depth as nat, k as int, cur) is None); }
                            return None;
                        },
                    }
                    found = true;
                } else if !holds(stack_slice(blocked), w) {
                    if depth == 0 {
                        proof { assert(search_arcs(bv, v, start, p_old, blocks@, depth as nat, k as int, cur) is None); }
                        return None;
                    }
                    proof { lemma_walkable_cycles(bv, e0, edge_list(*fun_edges)); }
                    match Self::look_for_circuit(fun_edges, fun_blocks, w, start, path, blocked, block_lists, blocks, depth - 1) {
                        Some((f, c)) => {
                            match count.checked_add(c) {
                                Some(x) => count = x,
                                None => {
                                    proof { assert(search_arcs(bv, v, start, p_old, blocks@, depth as nat, k as int, cur) is None); }
                                    return None;
                                },
                            }
                            if f {
                                found = true;
                            }
                        },
                        None => {
                            proof { assert(search_arcs(bv, v, start, p_old, blocks@, depth as nat, k as int, cur) is None); }
                            return None;
                        },
                    }
                }
                stack_pop(path);
                assert(stack_list(*path) =~= p_old);
            }
            k += 1;
        }
        let ghost sl = Search { found: found, count: count, edges: edge_list(*fun_edges),
            blocked: stack_list(*blocked), waits: waits(pending_list(*block_lists)) };
        assert(search_arcs(bv, v, start, p_old, blocks@, depth as nat, 0, s0) == Some(sl));
        if found {
            let n = stack_slice(blocked).len();
            Self::unblock(v, blocked, block_lists, n);
        } else {
            let ghost ec = edge_list(*fun_edges);
            let ghost blk = stack_list(*blocked);
            let ghost w0 = waits(pending_list(*block_lists));
            let mut k: usize = 0;
            while k < dsts.len()
                invariant
                    k <= dsts@.len(),
                    dsts@ == bv[v as int].destination,
                    v < bv.len(),
                    walkable(bv, e0),
                    same_but_cycles(e0, edge_list(*fun_edges)),
                    ec == edge_list(*fun_edges),
                    blk == stack_list(*blocked),
                    stack_list(*blocked).len() == pending_list(*block_lists).len(),
                    waited(dsts@, ec, v, start, blocks@, blk, 0, w0)
                        == waited(dsts@, ec, v, start, blocks@, blk, k as int, waits(pending_list(*block_lists))),
                decreases dsts@.len() - k,
            {
                assert(dsts@[k as int] < e0.len());
                let w = edge_list_slice(fun_edges)[dsts[k]].destination;
                let ghost wsk = waits(pending_list(*block_lists));
                proof { lemma_index_from(blk, w, 0); }
                if w >= start || holds(blocks, w) {
                    if let Some(i) = position(stack_slice(blocked), w) {
                        assert(index_from(blk, w, 0) == i) by {
                            if index_from(blk, w, 0) < i {
                                assert(blk[index_from(blk, w, 0)] == w);
                            }
                        }
                        let ghost pl = pending_list(*block_lists);
                        let list = pending_at(block_lists, i);
                        if !holds(crate::graph::index_list_slice(list), v) {
                            crate::graph::index_list_push(list, v);
                            assert(waits(pending_list(*block_lists)) =~= wsk.update(i as int, wsk[i as int].push(v)));
                        } else {
                            assert(waits(pending_list(*block_lists)) =~= wsk);
                        }
                    } else {
                        assert(index_from(blk, w, 0) >= blk.len());
                    }
                }
                k += 1;
            }
        }
        Some((found, count))
    }

    /// Adds up the cycle counts of the circuits searched through each block
    /// of `blocks` in turn: see [`cycles_from`].
    fn get_cycles_count(fun_edges: &mut EdgeList, fun_blocks: &BlockList, blocks: &[usize]) -> (r: Option<u64>)
        requires
            walkable(blocks_view(*fun_blocks), edge_list(*old(fun_edges))),
            forall|i: int| 0 <= i < blocks@.len() ==> #[trigger] blocks@[i] < blocks_view(*fun_blocks).len(),
        ensures
            same_but_cycles(edge_list(*old(fun_edges)), edge_list(*final(fun_edges))),
            r == Some(0u64) ==> edge_list(*final(fun_edges)) == edge_list(*old(fun_edges)),
            r matches Some(c) ==> total_cycles(edge_list(*old(fun_edges))) - total_cycles(edge_list(*final(fun_edges))) >= c,
            !inner_arcs(blocks_view(*fun_blocks), edge_list(*old(fun_edges)), blocks@) ==> r == Some(0u64),
            match cycles_from(blocks_view(*fun_blocks), edge_list(*old(fun_edges)), blocks@, 0, 0) {
                None => r is None,
                Some((c, e)) => r == Some(c) && edge_list(*final(fun_edges)) == e,
            },
    {
        let ghost bv = blocks_view(*fun_blocks);
        let ghost e0 = edge_list(*fun_edges);
        let mut count: u64 = 0;
        let mut path = stack_new();
        let mut blocked = stack_new();
        let mut block_lists = pending_new();
        let mut i: usize = 0;
        while i < blocks.len()
            invariant
                i <= blocks@.len(),
                bv == blocks_view(*fun_blocks),
                forall|j: int| 0 <= j < blocks@.len() ==> #[trigger] blocks@[j] < bv.len(),
                walkable(bv, e0),
                e0 == edge_list(*old(fun_edges)),
                same_but_cycles(e0, edge_list(*fun_edges)),
                count == 0 ==> edge_list(*fun_edges) == e0,
                !inner_arcs(bv, e0, blocks@) ==> count == 0,
                total_cycles(e0) - total_cycles(edge_list(*fun_edges)) >= count,
                cycles_from(bv, e0, blocks@, 0, 0) == cycles_from(bv, edge_list(*fun_edges), blocks@, i as int, count),
            decreases blocks@.len() - i,
        {
            stack_clear(&mut path);
            stack_clear(&mut blocked);
            pending_clear(&mut block_lists);
            let b = blocks[i];
            assert(waits(pending_list(block_lists)) =~= Seq::<Seq<usize>>::empty());
            proof { lemma_walkable_cycles(bv, e0, edge_list(*fun_edges)); }
            let ghost e1 = edge_list(*fun_edges);
            proof {
                if !inner_arcs(bv, e0, blocks@) {
                    assert(!arcs_into(bv, e1, b as int, blocks@)) by {
                        if arcs_into(bv, e1, b as int, blocks@) {
                            assert(arcs_into(bv, e0, blocks@[i as int] as int, blocks@));
                        }
                    }
                }
            }
            match Self::look_for_circuit(fun_edges, fun_blocks, b, b, &mut path, &mut blocked, &mut block_lists, blocks, blocks.len()) {
                Some((_, c)) => {
                    match count.checked_add(c) {
                        Some(x) => count = x,
                        None => return None,
                    }
                },
                None => return None,
            }
            i += 1;
        }
        Some(count)
    }
}

/// The sum of the counts of the arcs `ids[..j]`.
pub open spec fn sum_counts(edges: Seq<GcovEdge>, ids: Seq<usize>, j: int) -> int
    decreases j,
{
    if j <= 0 { 0 } else { sum_counts(edges, ids, j - 1) + edges[ids[j - 1] as int].counter }
}

/// The sum of the counts of the arcs `ids[..j]` whose source is not in `bl`.
pub open spec fn sum_entering(edges: Seq<GcovEdge>, ids: Seq<usize>, bl: Seq<usize>, j: int) -> int
    decreases j,
{
    if j <= 0 {
        0
    } else {
        sum_entering(edges, ids, bl, j - 1)
            + if bl.contains(edges[ids[j - 1] as int].source) { 0 } else { edges[ids[j - 1] as int].counter as int }
    }
}

/// How many times the blocks `bl[..i]` are entered from outside them: for
/// the entry block, the counts of the arcs out of it; for another block, the
/// counts of the arcs into it from other blocks.
pub open spec fn entry_count(bv: Seq<BlockView>, edges: Seq<GcovEdge>, bl: Seq<usize>, i: int) -> int
    decreases i,
{
    if i <= 0 {
        0
    } else {
        let b = bv[bl[i - 1] as int];
        entry_count(bv, edges, bl, i - 1) + if b.no == 0 {
            sum_counts(edges, b.destination, b.destination.len() as int)
        } else {
            sum_entering(edges, b.source, bl, b.source.len() as int)
        }
    }
}

/// The entry counts do not depend on the cycle counts.
proof fn lemma_entry_count_cycles(bv: Seq<BlockView>, a: Seq<GcovEdge>, c: Seq<GcovEdge>, bl: Seq<usize>, i: int)
    requires
        same_but_cycles(a, c),
        walkable(bv, a),
        forall|j: int| 0 <= j < bl.len() ==> #[trigger] bl[j] < bv.len(),
        i <= bl.len(),
    ensures
        entry_count(bv, a, bl, i) == entry_count(bv, c, bl, i),
    decreases i,
{
    if i > 0 {
        lemma_entry_count_cycles(bv, a, c, bl, i - 1);
        let b = bv[bl[i - 1] as int];
        assert(bl[i - 1] < bv.len());
        lemma_sums_cycles(bv, a, c, bl, bl[i - 1] as int, b.destination.len() as int, 0);
        lemma_sums_cycles(bv, a, c, bl, bl[i - 1] as int, 0, b.source.len() as int);
    }
}

proof fn lemma_sums_cycles(bv: Seq<BlockView>, a: Seq<GcovEdge>, c: Seq<GcovEdge>, bl: Seq<usize>, b: int, j: int, k: int)
    requires
        same_but_cycles(a, c),
        walkable(bv, a),
        0 <= b < bv.len(),
        0 <= j <= bv[b].destination.len(),
        0 <= k <= bv[b].source.len(),
    ensures
        sum_counts(a, bv[b].destination, j) == sum_counts(c, bv[b].destination, j),
        sum_entering(a, bv[b].source, bl, k) == sum_entering(c, bv[b].source, bl, k),
    decreases j + k,
{
    if j > 0 {
        lemma_sums_cycles(bv, a, c, bl, b, j - 1, k);
        assert(bv[b].destination[j - 1] < a.len());
        assert(a[bv[b].destination[j - 1] as int].counter == c[bv[b].destination[j - 1] as int].counter);
    } else if k > 0 {
        lemma_sums_cycles(bv, a, c, bl, b, j, k - 1);
        assert(bv[b].source[k - 1] < a.len());
        assert(a[bv[b].source[k - 1] as int].counter == c[bv[b].source[k - 1] as int].counter);
        assert(a[bv[b].source[k - 1] as int].source == c[bv[b].source[k - 1] as int].source);
    }
}

proof fn lemma_sums_grow(edges: Seq<GcovEdge>, ids: Seq<usize>, bl: Seq<usize>, j: int, k: int)
    requires
        0 <= j <= k,
    ensures
        0 <= sum_counts(edges, ids, j) <= sum_counts(edges, ids, k),
        0 <= sum_entering(edges, ids, bl, j) <= sum_entering(edges, ids, bl, k),
    decreases k,
{
    if j < k {
        lemma_sums_grow(edges, ids, bl, j, k - 1);
    } else if j > 0 {
        lemma_sums_grow(edges, ids, bl, j - 1, j - 1);
    }
}

/// The entry counts of more blocks are no smaller.
proof fn lemma_entry_count_grows(bv: Seq<BlockView>, edges: Seq<GcovEdge>, bl: Seq<usize>, i: int, n: int)
    requires
        0 <= i <= n,
    ensures
        0 <= entry_count(bv, edges, bl, i) <= entry_count(bv, edges, bl, n),
    decreases n,
{
    if i < n {
        lemma_entry_count_grows(bv, edges, bl, i, n - 1);
        let b = bv[bl[n - 1] as int];
        lemma_sums_grow(edges, b.destination, bl, 0, b.destination.len() as int);
        lemma_sums_grow(edges, b.source, bl, 0, b.source.len() as int);
    } else if i > 0 {
        lemma_entry_count_grows(bv, edges, bl, i - 1, i - 1);
        let b = bv[bl[i - 1] as int];
        lemma_sums_grow(edges, b.destination, bl, 0, b.destination.len() as int);
        lemma_sums_grow(edges, b.source, bl, 0, b.source.len() as int);
    }
}

/// The arcs with the cycle count of each arc of `ds[..k]` set to its count,
/// one after the other.
pub open spec fn reset_arcs(e: Seq<GcovEdge>, ds: Seq<usize>, k: int) -> Seq<GcovEdge>
    decreases k,
{
    if k <= 0 {
        e
    } else {
        let r = reset_arcs(e, ds, k - 1);
        let d = ds[k - 1] as int;
        r.update(d, GcovEdge {
            source: r[d].source,
            destination: r[d].destination,
            flags: r[d].flags,
            counter: r[d].counter,
            cycles: r[d].counter,
        })
    }
}

/// The arcs once the cycle count of each arc out of the blocks `bl[..i]` is
/// set to its count.
pub open spec fn reset_blocks(bv: Seq<BlockView>, e: Seq<GcovEdge>, bl: Seq<usize>, i: int) -> Seq<GcovEdge>
    decreases i,
{
    if i <= 0 {
        e
    } else {
        let r = reset_blocks(bv, e, bl, i - 1);
        let ds = bv[bl[i - 1] as int].destination;
        reset_arcs(r, ds, ds.len() as int)
    }
}

/// The count of a line that the blocks `bl` hold: how often the blocks are
/// entered from outside, plus the cycle counts of the circuits among them,
/// searched once the cycle count of each arc out of them is set to its
/// count (see [`cycles_from`]); `None` where a count overflows or a search
/// fails.
pub open spec fn line_count(bv: Seq<BlockView>, e: Seq<GcovEdge>, bl: Seq<usize>) -> Option<u64> {
    let entry = entry_count(bv, e, bl, bl.len() as int);
    if entry > u64::MAX {
        None
    } else {
        match cycles_from(bv, reset_blocks(bv, e, bl, bl.len() as int), bl, 0, 0) {
            None => None,
            Some((c, _)) => if entry + c > u64::MAX { None } else { Some((entry + c) as u64) },
        }
    }
}

/// Whether arc `a` is an arc out of one of the blocks `blocks`.
spec fn out_arc(bv: Seq<BlockView>, blocks: Seq<usize>, a: int) -> bool {
    exists|j: int, k: int| 0 <= j < blocks.len() && 0 <= k < bv[blocks[j] as int].destination.len()
        && #[trigger] bv[blocks[j] as int].destination[k] == a
}

/// Whether two lists of arcs differ at most in the cycle counts of arcs that
/// are not out of `blocks`.
spec fn agree(bv: Seq<BlockView>, blocks: Seq<usize>, e1: Seq<GcovEdge>, e2: Seq<GcovEdge>) -> bool {
    &&& same_but_cycles(e1, e2)
    &&& forall|a: int| 0 <= a < e1.len() && #[trigger] out_arc(bv, blocks, a) ==> e1[a].cycles == e2[a].cycles
}

/// Whether each arc of `path` is an arc of `e` out of one of `blocks`.
spec fn path_out(bv: Seq<BlockView>, blocks: Seq<usize>, e: Seq<GcovEdge>, path: Seq<usize>) -> bool {
    forall|i: int| 0 <= i < path.len() ==> #[trigger] path[i] < e.len() && out_arc(bv, blocks, path[i] as int)
}

proof fn lemma_same_trans(a: Seq<GcovEdge>, b: Seq<GcovEdge>, c: Seq<GcovEdge>)
    requires
        same_but_cycles(a, b),
        same_but_cycles(b, c),
    ensures
        same_but_cycles(a, c),
        same_but_cycles(b, a),
{
    assert forall|i: int| 0 <= i < a.len() implies (#[trigger] a[i]).source == c[i].source
        && a[i].destination == c[i].destination && a[i].flags == c[i].flags && a[i].counter == c[i].counter by {
        assert(b[i].source == c[i].source);
    }
    assert forall|i: int| 0 <= i < b.len() implies (#[trigger] b[i]).source == a[i].source
        && b[i].destination == a[i].destination && b[i].flags == a[i].flags && b[i].counter == a[i].counter by {
        assert(a[i].source == b[i].source);
    }
}

proof fn lemma_min_agree(bv: Seq<BlockView>, blocks: Seq<usize>, e1: Seq<GcovEdge>, e2: Seq<GcovEdge>, path: Seq<usize>, k: int)
    requires
        agree(bv, blocks, e1, e2),
        path_out(bv, blocks, e1, path),
        0 <= k,
    ensures
        min_cycles(e1, path, k) == min_cycles(e2, path, k),
    decreases path.len() - k,
{
    if k < path.len() {
        assert(path[k] < e1.len() && out_arc(bv, blocks, path[k] as int));
        lemma_min_agree(bv, blocks, e1, e2, path, k + 1);
    }
}

proof fn lemma_take_agree(bv: Seq<BlockView>, blocks: Seq<usize>, e1: Seq<GcovEdge>, e2: Seq<GcovEdge>, path: Seq<usize>, c: u64, k: int)
    requires
        agree(bv, blocks, e1, e2),
        path_out(bv, blocks, e1, path),
        0 <= k,
    ensures
        (take_cycles(e1, path, c, k) is None) == (take_cycles(e2, path, c, k) is None),
        take_cycles(e1, path, c, k) is Some ==> agree(bv, blocks, take_cycles(e1, path, c, k)->0, take_cycles(e2, path, c, k)->0)
            && same_but_cycles(e1, take_cycles(e1, path, c, k)->0),
    decreases path.len() - k,
{
    if k < path.len() {
        let a = path[k] as int;
        assert(a < e1.len() && out_arc(bv, blocks, a));
        let x1 = e1[a];
        let x2 = e2[a];
        if x1.cycles >= c {
            let y1 = GcovEdge { source: x1.source, destination: x1.destination, flags: x1.flags, counter: x1.counter, cycles: (x1.cycles - c) as u64 };
            let y2 = GcovEdge { source: x2.source, destination: x2.destination, flags: x2.flags, counter: x2.counter, cycles: (x2.cycles - c) as u64 };
            let u1 = e1.update(a, y1);
            let u2 = e2.update(a, y2);
            assert(agree(bv, blocks, u1, u2)) by {
                assert forall|b: int| 0 <= b < u1.len() && #[trigger] out_arc(bv, blocks, b) implies u1[b].cycles == u2[b].cycles by {
                    if b != a {
                        assert(e1[b].cycles == e2[b].cycles);
                    }
                }
            }
            assert(path_out(bv, blocks, u1, path)) by {
                assert forall|i: int| 0 <= i < path.len() implies #[trigger] path[i] < u1.len() && out_arc(bv, blocks, path[i] as int) by {
                    assert(path[i] < e1.len() && out_arc(bv, blocks, path[i] as int));
                }
            }
            assert(same_but_cycles(e1, u1));
            lemma_take_agree(bv, blocks, u1, u2, path, c, k + 1);
            if take_cycles(u1, path, c, k + 1) is Some {
                lemma_same_trans(e1, u1, take_cycles(u1, path, c, k + 1)->0);
            }
        }
    } else {
        assert(same_but_cycles(e1, e1));
    }
}

proof fn lemma_waited_same(dsts: Seq<usize>, e1: Seq<GcovEdge>, e2: Seq<GcovEdge>, v: usize, start: usize,
    blocks: Seq<usize>, bl: Seq<usize>, k: int, ws: Seq<Seq<usize>>)
    requires
        same_but_cycles(e1, e2),
        forall|i: int| 0 <= i < dsts.len() ==> #[trigger] dsts[i] < e1.len(),
    ensures
        waited(dsts, e1, v, start, blocks, bl, k, ws) == waited(dsts, e2, v, start, blocks, bl, k, ws),
    decreases dsts.len() - k,
{
    if 0 <= k < dsts.len() {
        assert(dsts[k] < e1.len());
        let w = e1[dsts[k] as int].destination;
        let i = index_from(bl, w, 0);
        let ws2 = if (w >= start || blocks.contains(w)) && i < bl.len() && !ws[i].contains(v) {
            ws.update(i, ws[i].push(v))
        } else {
            ws
        };
        lemma_waited_same(dsts, e1, e2, v, start, blocks, bl, k + 1, ws2);
    }
}

proof fn lemma_search_agree(bv: Seq<BlockView>, e1: Seq<GcovEdge>, e2: Seq<GcovEdge>, v: usize, start: usize, path: Seq<usize>,
    bl: Seq<usize>, ws: Seq<Seq<usize>>, blocks: Seq<usize>, depth: nat)
    requires
        walkable(bv, e1),
        agree(bv, blocks, e1, e2),
        v < bv.len(),
        blocks.contains(v),
        path_out(bv, blocks, e1, path),
    ensures
        (search(bv, e1, v, start, path, bl, ws, blocks, depth) is None) == (search(bv, e2, v, start, path, bl, ws, blocks, depth) is None),
        search(bv, e1, v, start, path, bl, ws, blocks, depth) matches Some(s1) ==> ({
            let s2 = search(bv, e2, v, start, path, bl, ws, blocks, depth)->0;
            &&& s1.found == s2.found
            &&& s1.count == s2.count
            &&& s1.blocked == s2.blocked
            &&& s1.waits == s2.waits
            &&& agree(bv, blocks, s1.edges, s2.edges)
            &&& same_but_cycles(e1, s1.edges)
        }),
    decreases depth, 1int, 0int,
{
    let s01 = Search { found: false, count: 0, edges: e1, blocked: bl.push(v), waits: ws.push(Seq::empty()) };
    let s02 = Search { found: false, count: 0, edges: e2, blocked: bl.push(v), waits: ws.push(Seq::empty()) };
    lemma_arcs_agree(bv, v, start, path, blocks, depth, 0, s01, s02);
    if search_arcs(bv, v, start, path, blocks, depth, 0, s01) is Some {
        let t1 = search_arcs(bv, v, start, path, blocks, depth, 0, s01)->0;
        let t2 = search_arcs(bv, v, start, path, blocks, depth, 0, s02)->0;
        if !t1.found {
            assert forall|i: int| 0 <= i < bv[v as int].destination.len() implies #[trigger] bv[v as int].destination[i] < t1.edges.len() by {
                assert(bv[v as int].destination[i] < e1.len());
            }
            lemma_waited_same(bv[v as int].destination, t1.edges, t2.edges, v, start, blocks, t1.blocked, 0, t1.waits);
        }
    }
}

proof fn lemma_arcs_agree(bv: Seq<BlockView>, v: usize, start: usize, path: Seq<usize>, blocks: Seq<usize>,
    depth: nat, k: int, s1: Search, s2: Search)
    requires
        walkable(bv, s1.edges),
        agree(bv, blocks, s1.edges, s2.edges),
        s1.found == s2.found,
        s1.count == s2.count,
        s1.blocked == s2.blocked,
        s1.waits == s2.waits,
        v < bv.len(),
        blocks.contains(v),
        path_out(bv, blocks, s1.edges, path),
        0 <= k,
    ensures
        (search_arcs(bv, v, start, path, blocks, depth, k, s1) is None) == (search_arcs(bv, v, start, path, blocks, depth, k, s2) is None),
        search_arcs(bv, v, start, path, blocks, depth, k, s1) matches Some(t1) ==> ({
            let t2 = search_arcs(bv, v, start, path, blocks, depth, k, s2)->0;
            &&& t1.found == t2.found
            &&& t1.count == t2.count
            &&& t1.blocked == t2.blocked
            &&& t1.waits == t2.waits
            &&& agree(bv, blocks, t1.edges, t2.edges)
            &&& same_but_cycles(s1.edges, t1.edges)
        }),
    decreases depth, 0int, bv[v as int].destination.len() - k,
{
    let dsts = bv[v as int].destination;
    if k >= dsts.len() {
        assert(same_but_cycles(s1.edges, s1.edges));
    } else {
        let a = dsts[k];
        assert(a < s1.edges.len());
        let w = s1.edges[a as int].destination;
        assert(s2.edges[a as int].destination == w);
        let j = choose|j: int| 0 <= j < blocks.len() && blocks[j] == v;
        assert(bv[blocks[j] as int].destination[k] == a);
        assert(out_arc(bv, blocks, a as int));
        let p2 = path.push(a);
        assert(path_out(bv, blocks, s1.edges, p2)) by {
            assert forall|i: int| 0 <= i < p2.len() implies #[trigger] p2[i] < s1.edges.len() && out_arc(bv, blocks, p2[i] as int) by {
                if i < path.len() {
                    assert(p2[i] == path[i]);
                }
            }
        }
        if w >= start && blocks.contains(w) {
            if w == start {
                let c = min_cycles(s1.edges, p2, 0);
                lemma_min_agree(bv, blocks, s1.edges, s2.edges, p2, 0);
                lemma_take_agree(bv, blocks, s1.edges, s2.edges, p2, c, 0);
                if take_cycles(s1.edges, p2, c, 0) is Some && s1.count + c <= u64::MAX {
                    let e1 = take_cycles(s1.edges, p2, c, 0)->0;
                    let e2 = take_cycles(s2.edges, p2, c, 0)->0;
                    let n1 = Search { found: true, count: (s1.count + c) as u64, edges: e1, ..s1 };
                    let n2 = Search { found: true, count: (s2.count + c) as u64, edges: e2, ..s2 };
                    lemma_walkable_cycles(bv, s1.edges, e1);
                    assert(path_out(bv, blocks, e1, path)) by {
                        assert forall|i: int| 0 <= i < path.len() implies #[trigger] path[i] < e1.len() && out_arc(bv, blocks, path[i] as int) by {
                            assert(path[i] < s1.edges.len());
                        }
                    }
                    lemma_arcs_agree(bv, v, start, path, blocks, depth, k + 1, n1, n2);
                    if search_arcs(bv, v, start, path, blocks, depth, k + 1, n1) is Some {
                        lemma_same_trans(s1.edges, e1, search_arcs(bv, v, start, path, blocks, depth, k + 1, n1)->0.edges);
                    }
                }
            } else if !s1.blocked.contains(w) {
                if depth > 0 {
                    assert(w < bv.len());
                    lemma_search_agree(bv, s1.edges, s2.edges, w, start, p2, s1.blocked, s1.waits, blocks, (depth - 1) as nat);
                    let r = search(bv, s1.edges, w, start, p2, s1.blocked, s1.waits, blocks, (depth - 1) as nat);
                    if r is Some && s1.count + r->0.count <= u64::MAX {
                        let r1 = r->0;
                        let r2 = search(bv, s2.edges, w, start, p2, s2.blocked, s2.waits, blocks, (depth - 1) as nat)->0;
                        let n1 = Search { found: s1.found || r1.found, count: (s1.count + r1.count) as u64, edges: r1.edges, blocked: r1.blocked, waits: r1.waits };
                        let n2 = Search { found: s2.found || r2.found, count: (s2.count + r2.count) as u64, edges: r2.edges, blocked: r2.blocked, waits: r2.waits };
                        lemma_walkable_cycles(bv, s1.edges, r1.edges);
                        assert(path_out(bv, blocks, r1.edges, path)) by {
                            assert forall|i: int| 0 <= i < path.len() implies #[trigger] path[i] < r1.edges.len() && out_arc(bv, blocks, path[i] as int) by {
                                assert(path[i] < s1.edges.len());
                            }
                        }
                        lemma_arcs_agree(bv, v, start, path, blocks, depth, k + 1, n1, n2);
                        if search_arcs(bv, v, start, path, blocks, depth, k + 1, n1) is Some {
                            lemma_same_trans(s1.edges, r1.edges, search_arcs(bv, v, start, path, blocks, depth, k + 1, n1)->0.edges);
                        }
                    }
                }
            } else {
                lemma_arcs_agree(bv, v, start, path, blocks, depth, k + 1, s1, s2);
            }
        } else {
            lemma_arcs_agree(bv, v, start, path, blocks, depth, k + 1, s1, s2);
        }
    }
}

proof fn lemma_cycles_agree(bv: Seq<BlockView>, e1: Seq<GcovEdge>, e2: Seq<GcovEdge>, blocks: Seq<usize>, i: int, count: u64)
    requires
        walkable(bv, e1),
        agree(bv, blocks, e1, e2),
        forall|j: int| 0 <= j < blocks.len() ==> #[trigger] blocks[j] < bv.len(),
        0 <= i,
    ensures
        (cycles_from(bv, e1, blocks, i, count) is None) == (cycles_from(bv, e2, blocks, i, count) is None),
        cycles_from(bv, e1, blocks, i, count) matches Some((c1, _))
            ==> cycles_from(bv, e2, blocks, i, count) matches Some((c2, _)) && c1 == c2,
    decreases blocks.len() - i,
{
    if i < blocks.len() {
        let b = blocks[i];
        assert(b < bv.len());
        assert(blocks.contains(b));
        assert(path_out(bv, blocks, e1, Seq::empty()));
        lemma_search_agree(bv, e1, e2, b, b, Seq::empty(), Seq::empty(), Seq::empty(), blocks, blocks.len() as nat);
        let r = search(bv, e1, b, b, Seq::empty(), Seq::empty(), Seq::empty(), blocks, blocks.len() as nat);
        if r is Some && count + r->0.count <= u64::MAX {
            let s1 = r->0;
            let s2 = search(bv, e2, b, b, Seq::empty(), Seq::empty(), Seq::empty(), blocks, blocks.len() as nat)->0;
            lemma_walkable_cycles(bv, e1, s1.edges);
            lemma_cycles_agree(bv, s1.edges, s2.edges, blocks, i + 1, (count + s1.count) as u64);
        }
    }
}

proof fn lemma_reset_arcs(e: Seq<GcovEdge>, ds: Seq<usize>, k: int)
    requires
        forall|i: int| 0 <= i < ds.len() ==> #[trigger] ds[i] < e.len(),
        0 <= k <= ds.len(),
    ensures
        same_but_cycles(e, reset_arcs(e, ds, k)),
        forall|m: int| 0 <= m < k ==> #[trigger] reset_arcs(e, ds, k)[ds[m] as int].cycles == e[ds[m] as int].counter,
        forall|a: int| 0 <= a < e.len() && e[a].cycles == e[a].counter ==> #[trigger] reset_arcs(e, ds, k)[a].cycles == e[a].counter,
    decreases k,
{
    if k > 0 {
        lemma_reset_arcs(e, ds, k - 1);
        let r = reset_arcs(e, ds, k - 1);
        let d = ds[k - 1] as int;
        assert(d < e.len());
        let x = reset_arcs(e, ds, k);
        assert(x == r.update(d, GcovEdge { source: r[d].source, destination: r[d].destination, flags: r[d].flags, counter: r[d].counter, cycles: r[d].counter }));
        assert forall|m: int| 0 <= m < k implies #[trigger] x[ds[m] as int].cycles == e[ds[m] as int].counter by {
            assert(ds[m] < e.len());
            if ds[m] as int != d {
                assert(r[ds[m] as int].cycles == e[ds[m] as int].counter);
            }
        }
        assert forall|a: int| 0 <= a < e.len() && e[a].cycles == e[a].counter implies #[trigger] x[a].cycles == e[a].counter by {
            assert(r[a].cycles == e[a].counter);
        }
    } else {
        assert(same_but_cycles(e, e));
    }
}

proof fn lemma_reset_blocks(bv: Seq<BlockView>, e: Seq<GcovEdge>, bl: Seq<usize>, i: int)
    requires
        walkable(bv, e),
        forall|j: int| 0 <= j < bl.len() ==> #[trigger] bl[j] < bv.len(),
        0 <= i <= bl.len(),
    ensures
        same_but_cycles(e, reset_blocks(bv, e, bl, i)),
        forall|j: int, k: int| 0 <= j < i && 0 <= k < bv[bl[j] as int].destination.len()
            ==> #[trigger] reset_blocks(bv, e, bl, i)[bv[bl[j] as int].destination[k] as int].cycles
                == e[bv[bl[j] as int].destination[k] as int].counter,
    decreases i,
{
    if i > 0 {
        lemma_reset_blocks(bv, e, bl, i - 1);
        let r = reset_blocks(bv, e, bl, i - 1);
        let ds = bv[bl[i - 1] as int].destination;
        assert(bl[i - 1] < bv.len());
        lemma_walkable_cycles(bv, e, r);
        assert forall|m: int| 0 <= m < ds.len() implies #[trigger] ds[m] < r.len() by {
            assert(ds[m] < r.len());
        }
        lemma_reset_arcs(r, ds, ds.len() as int);
        let x = reset_blocks(bv, e, bl, i);
        assert(x == reset_arcs(r, ds, ds.len() as int));
        lemma_same_trans(e, r, x);
        assert forall|j: int, k: int| 0 <= j < i && 0 <= k < bv[bl[j] as int].destination.len()
            implies #[trigger] x[bv[bl[j] as int].destination[k] as int].cycles == e[bv[bl[j] as int].destination[k] as int].counter by {
            let a = bv[bl[j] as int].destination[k] as int;
            assert(bl[j] < bv.len());
            assert(a < e.len());
            if j == i - 1 {
                assert(ds[k] as int == a);
                assert(x[ds[k] as int].cycles == r[ds[k] as int].counter);
            } else {
                assert(r[a].cycles == e[a].counter);
                assert(r[a].counter == e[a].counter);
                assert(x[a].cycles == r[a].counter);
            }
        }
    }
}

/// The count of a line does not depend on the cycle counts the arcs held
/// before: they are set anew before the circuits are searched.
proof fn lemma_line_count_cycles(bv: Seq<BlockView>, e1: Seq<GcovEdge>, e2: Seq<GcovEdge>, bl: Seq<usize>)
    requires
        walkable(bv, e1),
        same_but_cycles(e1, e2),
        forall|j: int| 0 <= j < bl.len() ==> #[trigger] bl[j] < bv.len(),
    ensures
        line_count(bv, e1, bl) == line_count(bv, e2, bl),
{
    let n = bl.len() as int;
    lemma_entry_count_cycles(bv, e1, e2, bl, n);
    lemma_walkable_cycles(bv, e1, e2);
    lemma_reset_blocks(bv, e1, bl, n);
    lemma_reset_blocks(bv, e2, bl, n);
    let r1 = reset_blocks(bv, e1, bl, n);
    let r2 = reset_blocks(bv, e2, bl, n);
    lemma_same_trans(e1, r1, e1);
    lemma_same_trans(r1, e1, e2);
    lemma_same_trans(r1, e2, r2);
    assert(agree(bv, bl, r1, r2)) by {
        assert forall|a: int| 0 <= a < r1.len() && #[trigger] out_arc(bv, bl, a) implies r1[a].cycles == r2[a].cycles by {
            let (j, k) = choose|j: int, k: int| 0 <= j < bl.len() && 0 <= k < bv[bl[j] as int].destination.len()
                && #[trigger] bv[bl[j] as int].destination[k] == a;
            assert(r1[bv[bl[j] as int].destination[k] as int].cycles == e1[bv[bl[j] as int].destination[k] as int].counter);
            assert(r2[bv[bl[j] as int].destination[k] as int].cycles == e2[bv[bl[j] as int].destination[k] as int].counter);
            assert(e1[a].counter == e2[a].counter);
        }
    }
    lemma_walkable_cycles(bv, e1, r1);
    lemma_cycles_agree(bv, r1, r2, bl, 0, 0);
}

impl GcovFunction {
    /// The count of a line that several blocks hold: how often the blocks
    /// are entered from outside, plus the counts of the circuits among them
    /// (see [`line_count`]). `None` where a count overflows or the circuit
    /// search fails.
    fn get_line_count(fun_edges: &mut EdgeList, fun_blocks: &BlockList, blocks: &[usize]) -> (r: Option<u64>)
        requires
            walkable(blocks_view(*fun_blocks), edge_list(*old(fun_edges))),
            forall|i: int| 0 <= i < blocks@.len() ==> #[trigger] blocks@[i] < blocks_view(*fun_blocks).len(),
        ensures
            same_but_cycles(edge_list(*old(fun_edges)), edge_list(*final(fun_edges))),
            r == line_count(blocks_view(*fun_blocks), edge_list(*old(fun_edges)), blocks@),
            r is Some ==> r->0 >= entry_count(blocks_view(*fun_blocks), edge_list(*old(fun_edges)), blocks@, blocks@.len() as int),
            entry_count(blocks_view(*fun_blocks), edge_list(*old(fun_edges)), blocks@, blocks@.len() as int) > u64::MAX ==> r is None,
            !inner_arcs(blocks_view(*fun_blocks), edge_list(*old(fun_edges)), blocks@) ==> r == (
                if entry_count(blocks_view(*fun_blocks), edge_list(*old(fun_edges)), blocks@, blocks@.len() as int) <= u64::MAX {
                    Some(entry_count(blocks_view(*fun_blocks), edge_list(*old(fun_edges)), blocks@, blocks@.len() as int) as u64)
                } else {
                    None
                }),
            r matches Some(v) ==> ({
                let entry = entry_count(blocks_view(*fun_blocks), edge_list(*old(fun_edges)), blocks@, blocks@.len() as int);
                let reset = reset_blocks(blocks_view(*fun_blocks), edge_list(*old(fun_edges)), blocks@, blocks@.len() as int);
                &&& v - entry <= total_cycles(reset) - total_cycles(edge_list(*final(fun_edges)))
                &&& (v == entry <==> edge_list(*final(fun_edges)) == reset)
            }),
    {
        let ghost bv = blocks_view(*fun_blocks);
        let ghost e0 = edge_list(*fun_edges);
        let ghost total = entry_count(bv, e0, blocks@, blocks@.len() as int);
        let bs = block_list_slice(fun_blocks);
        let mut count: u64 = 0;
        let mut i: usize = 0;
        while i < blocks.len()
            invariant
                i <= blocks@.len(),
                bv == blocks_view(*fun_blocks),
                bs@.map_values(|x: crate::graph::GcovBlock| x@) == bv,
                forall|j: int| 0 <= j < blocks@.len() ==> #[trigger] blocks@[j] < bv.len(),
                walkable(bv, e0),
                e0 == edge_list(*old(fun_edges)),
                same_but_cycles(e0, edge_list(*fun_edges)),
                count == entry_count(bv, e0, blocks@, i as int),
                total == entry_count(bv, e0, blocks@, blocks@.len() as int),
                edge_list(*fun_edges) == reset_blocks(bv, e0, blocks@, i as int),
            decreases blocks@.len() - i,
        {
            let b = blocks[i];
            proof {
                lemma_entry_count_grows(bv, e0, blocks@, i + 1, blocks@.len() as int);
            }
            assert(b < bv.len());
            assert(bs@[b as int]@ == bv[b as int]);
            let dsts = crate::graph::index_list_slice(&bs[b].destination);
            let ghost c0 = count as int;
            if bs[b].no == 0 {
                let mut k: usize = 0;
                while k < dsts.len()
                    invariant
                        k <= dsts@.len(),
                        b < bv.len(),
                        dsts@ == bv[b as int].destination,
                        walkable(bv, e0),
                        e0 == edge_list(*old(fun_edges)),
                        same_but_cycles(e0, edge_list(*fun_edges)),
                        count == c0 + sum_counts(e0, dsts@, k as int),
                        c0 + sum_counts(e0, dsts@, dsts@.len() as int) <= total,
                        total == entry_count(bv, e0, blocks@, blocks@.len() as int),
                        bv == blocks_view(*fun_blocks),
                    decreases dsts@.len() - k,
                {
                    assert(dsts@[k as int] < e0.len());
                    let c = edge_list_slice(fun_edges)[dsts[k]].counter;
                    match count.checked_add(c) {
                        Some(x) => count = x,
                        None => {
                            proof {
                                assert(e0[dsts@[k as int] as int].counter == c);
                                assert(sum_counts(e0, dsts@, k + 1) == sum_counts(e0, dsts@, k as int) + c);
                                lemma_sums_grow(e0, dsts@, blocks@, k + 1, dsts@.len() as int);
                            }
                            return None;
                        },
                    }
                    k += 1;
                }
            } else {
                let srcs = crate::graph::index_list_slice(&bs[b].source);
                let mut k: usize = 0;
                while k < srcs.len()
                    invariant
                        k <= srcs@.len(),
                        b < bv.len(),
                        srcs@ == bv[b as int].source,
                        walkable(bv, e0),
                        e0 == edge_list(*old(fun_edges)),
                        same_but_cycles(e0, edge_list(*fun_edges)),
                        count == c0 + sum_entering(e0, srcs@, blocks@, k as int),
                        c0 + sum_entering(e0, srcs@, blocks@, srcs@.len() as int) <= total,
                        total == entry_count(bv, e0, blocks@, blocks@.len() as int),
                        bv == blocks_view(*fun_blocks),
                    decreases srcs@.len() - k,
                {
                    assert(srcs@[k as int] < e0.len());
                    let e = edge_list_slice(fun_edges)[srcs[k]];
                    if !holds(blocks, e.source) {
                        match count.checked_add(e.counter) {
                            Some(x) => count = x,
                            None => {
                                proof {
                                    assert(e0[srcs@[k as int] as int].counter == e.counter);
                                    assert(e0[srcs@[k as int] as int].source == e.source);
                                    assert(sum_entering(e0, srcs@, blocks@, k + 1) == sum_entering(e0, srcs@, blocks@, k as int) + e.counter);
                                    lemma_sums_grow(e0, srcs@, blocks@, k + 1, srcs@.len() as int);
                                }
                                return None;
                            },
                        }
                    }
                    k += 1;
                }
            }
            let ghost before = edge_list(*fun_edges);
            let mut k: usize = 0;
            while k < dsts.len()
                invariant
                    k <= dsts@.len(),
                    b < bv.len(),
                    dsts@ == bv[b as int].destination,
                    walkable(bv, e0),
                    same_but_cycles(e0, edge_list(*fun_edges)),
                    edge_list(*fun_edges) == reset_arcs(before, dsts@, k as int),
                decreases dsts@.len() - k,
            {
                assert(dsts@[k as int] < e0.len());
                let e = edge_list_slice(fun_edges)[dsts[k]];
                edge_list_set(fun_edges, dsts[k], GcovEdge {
                    source: e.source,
                    destination: e.destination,
                    flags: e.flags,
                    counter: e.counter,
                    cycles: e.counter,
                });
                k += 1;
            }
            assert(blocks@[i as int] == b);
            i += 1;
        }
        proof {
            lemma_walkable_cycles(bv, e0, edge_list(*fun_edges));
            lemma_inner_arcs_cycles(bv, e0, edge_list(*fun_edges), blocks@);
        }
        let ghost reset = edge_list(*fun_edges);
        match Self::get_cycles_count(fun_edges, fun_blocks, blocks) {
            Some(c) => {
                assert(edge_list(*fun_edges) == reset ==> c == 0);
                count.checked_add(c)
            },
            None => None,
        }
    }
}

/// Each line of the blocks with the number of the block that holds it, block
/// by block, in order.
pub open spec fn flat_lines(bv: Seq<BlockView>) -> Seq<(u32, usize)>
    decreases bv.len(),
{
    if bv.len() == 0 {
        Seq::empty()
    } else {
        flat_lines(bv.drop_last()) + bv.last().lines.map_values(|l: u32| (l, bv.last().no))
    }
}

/// Each line with the numbers of the blocks that hold it, in order.
pub open spec fn group_lines(p: Seq<(u32, usize)>) -> Map<u32, Seq<usize>>
    decreases p.len(),
{
    if p.len() == 0 {
        Map::empty()
    } else {
        let g = group_lines(p.drop_last());
        let l = p.last().0;
        g.insert(l, if g.contains_key(l) { g[l].push(p.last().1) } else { seq![p.last().1] })
    }
}

/// Whether `count` is what the line with blocks `bl` is counted: the count of
/// its block where one block holds it, its [`line_count`] where several do.
pub open spec fn line_count_ok(bv: Seq<BlockView>, edges: Seq<GcovEdge>, bl: Seq<usize>, count: u64) -> bool {
    if bl.len() == 1 {
        count == bv[bl[0] as int].counter
    } else {
        line_count(bv, edges, bl) == Some(count)
    }
}

/// Whether the lines of a function can be counted: it has arcs, and where it
/// ran, each line that several blocks hold has a [`line_count`].
pub open spec fn lines_countable(f: FunView) -> bool {
    let groups = group_lines(flat_lines(f.blocks));
    &&& f.edges.len() > 0
    &&& f.edges[0].counter > 0 ==> forall|l: u32| #[trigger] groups.contains_key(l) && groups[l].len() != 1
        ==> line_count(f.blocks, f.edges, groups[l]) is Some
}

/// Whether the lines of a function are counted: in a function that ran, each
/// line of its blocks gets its count; in one that did not, each line not yet
/// counted gets zero; other lines keep their counts.
pub open spec fn lines_counted(f: FunView, g: FunView) -> bool {
    let groups = group_lines(flat_lines(f.blocks));
    &&& f.edges.len() > 0
    &&& g.executed == (f.edges[0].counter > 0)
    &&& g.blocks == f.blocks
    &&& same_but_cycles(f.edges, g.edges)
    &&& g == FunView { lines: g.lines, executed: g.executed, edges: g.edges, ..f }
    &&& forall|l: u32| #[trigger] g.lines.contains_key(l) <==> (f.lines.contains_key(l) || groups.contains_key(l))
    &&& forall|l: u32| f.lines.contains_key(l) && !groups.contains_key(l) ==> #[trigger] g.lines[l] == f.lines[l]
    &&& g.executed ==> forall|l: u32| #[trigger] groups.contains_key(l) ==> line_count_ok(f.blocks, f.edges, groups[l], g.lines[l])
    &&& !g.executed ==> forall|l: u32| #[trigger] groups.contains_key(l) ==>
        g.lines[l] == (if f.lines.contains_key(l) { f.lines[l] } else { 0 })
}


/// The block numbers paired with lines are those of the blocks.
proof fn lemma_flat_nos(bv: Seq<BlockView>, bound: int)
    requires
        forall|b: int| 0 <= b < bv.len() ==> #[trigger] bv[b].no < bound,
    ensures
        forall|k: int| 0 <= k < flat_lines(bv).len() ==> #[trigger] flat_lines(bv)[k].1 < bound,
    decreases bv.len(),
{
    if bv.len() > 0 {
        let d = bv.drop_last();
        assert forall|b: int| 0 <= b < d.len() implies #[trigger] d[b].no < bound by {
            assert(d[b] == bv[b]);
        }
        lemma_flat_nos(d, bound);
        let tail = bv.last().lines.map_values(|l: u32| (l, bv.last().no));
        assert forall|k: int| 0 <= k < flat_lines(bv).len() implies #[trigger] flat_lines(bv)[k].1 < bound by {
            if k >= flat_lines(d).len() {
                assert(flat_lines(bv)[k] == tail[k - flat_lines(d).len()]);
            } else {
                assert(flat_lines(bv)[k] == flat_lines(d)[k]);
            }
        }
    }
}

/// The block numbers a line is grouped with come from the pairs grouped.
proof fn lemma_group_nos(p: Seq<(u32, usize)>, bound: int)
    requires
        forall|k: int| 0 <= k < p.len() ==> #[trigger] p[k].1 < bound,
    ensures
        forall|l: u32, k: int| #[trigger] group_lines(p).contains_key(l) && 0 <= k < group_lines(p)[l].len()
            ==> #[trigger] group_lines(p)[l][k] < bound,
    decreases p.len(),
{
    if p.len() > 0 {
        let d = p.drop_last();
        assert forall|k: int| 0 <= k < d.len() implies #[trigger] d[k].1 < bound by {
            assert(d[k] == p[k]);
        }
        lemma_group_nos(d, bound);
        assert(p.last().1 < bound);
        let g = group_lines(d);
        assert forall|l: u32, k: int| #[trigger] group_lines(p).contains_key(l) && 0 <= k < group_lines(p)[l].len()
            implies #[trigger] group_lines(p)[l][k] < bound by {
            if l == p.last().0 {
                if g.contains_key(l) {
                    if k < g[l].len() {
                        assert(group_lines(p)[l][k] == g[l][k]);
                    }
                }
            } else {
                assert(group_lines(p)[l] == g[l]);
            }
        }
    }
}

impl GcovFunction {
    /// Counts the lines of the function (see [`lines_counted`]); `false`
    /// where they cannot be counted (a function without arcs, a count that
    /// overflows) or the circuit search goes too deep.
    pub fn add_line_count(&mut self) -> (ok: bool)
        requires
            graph_wf(old(self)@),
        ensures
            ok ==> lines_counted(old(self)@, final(self)@),
            ok ==> graph_wf(final(self)@),
            old(self)@.edges.len() == 0 ==> !ok,
            ok == lines_countable(old(self)@),
    {
        let ghost f0 = self@;
        let ghost bv = f0.blocks;
        let ne = edge_list_slice(&self.edges).len();
        if ne == 0 {
            return false;
        }
        self.executed = edge_list_slice(&self.edges)[0].counter > 0;
        let bs = block_list_slice(&self.blocks);
        let nb = bs.len();
        let mut groups = line_blocks_new();
        let mut bi: usize = 0;
        while bi < nb
            invariant
                bi <= nb,
                nb == bv.len(),
                bs@.map_values(|x: crate::graph::GcovBlock| x@) == bv,
                line_blocks(groups) == group_lines(flat_lines(bv.take(bi as int))),
            decreases nb - bi,
        {
            assert(bs@[bi as int]@ == bv[bi as int]);
            let lines = line_list_slice(&bs[bi].lines);
            let n = bs[bi].no;
            let ghost pre = flat_lines(bv.take(bi as int));
            let mut j: usize = 0;
            while j < lines.len()
                invariant
                    j <= lines@.len(),
                    bi < nb,
                    nb == bv.len(),
                    lines@ == bv[bi as int].lines,
                    n == bv[bi as int].no,
                    pre == flat_lines(bv.take(bi as int)),
                    line_blocks(groups) == group_lines(pre + lines@.take(j as int).map_values(|l: u32| (l, n))),
                decreases lines@.len() - j,
            {
                let ghost p0 = pre + lines@.take(j as int).map_values(|l: u32| (l, n));
                let ghost p1 = pre + lines@.take(j + 1).map_values(|l: u32| (l, n));
                assert(p1.drop_last() =~= p0);
                assert(p1.last() == (lines@[j as int], n));
                line_blocks_add(&mut groups, lines[j], n);
                j += 1;
            }
            assert(bv.take(bi + 1).drop_last() =~= bv.take(bi as int));
            assert(lines@.take(lines@.len() as int) =~= lines@);
            assert(flat_lines(bv.take(bi + 1)) =~= pre + lines@.map_values(|l: u32| (l, n)));
            bi += 1;
        }
        assert(bv.take(nb as int) =~= bv);
        let ghost groups_v = line_blocks(groups);
        assert(groups_v == group_lines(flat_lines(bv)));
        proof {
            assert forall|b: int| 0 <= b < bv.len() implies #[trigger] bv[b].no < bv.len() by {
                assert(graph_wf(f0));
            }
            lemma_flat_nos(bv, bv.len() as int);
            lemma_group_nos(flat_lines(bv), bv.len() as int);
        }
        if self.executed {
            let entries = line_blocks_entries(groups);
            let ghost el = block_lines(entries@);
            let mut i: usize = 0;
            while i < entries.len()
                invariant
                    i <= entries@.len(),
                    graph_wf(f0),
                    bv == f0.blocks,
                    f0 == old(self)@,
                    groups_v == group_lines(flat_lines(f0.blocks)),
                    self@ == (FunView { lines: self@.lines, executed: true, edges: self@.edges, ..f0 }),
                    f0.edges.len() > 0,
                    f0.edges[0].counter > 0,
                    same_but_cycles(f0.edges, self@.edges),
                    el == block_lines(entries@),
                    el.to_set() == groups_v.dom(),
                    el.no_duplicates(),
                    forall|l: u32, k: int| #[trigger] groups_v.contains_key(l) && 0 <= k < groups_v[l].len()
                        ==> #[trigger] groups_v[l][k] < bv.len(),
                    forall|k: int| 0 <= k < entries@.len() ==> groups_v[#[trigger] entries@[k].0] == entries@[k].1@,
                    forall|l: u32| #[trigger] self@.lines.contains_key(l) <==>
                        (f0.lines.contains_key(l) || exists|k: int| 0 <= k < i && el[k] == l),
                    forall|l: u32| #[trigger] self@.lines.contains_key(l) && !(exists|k: int| 0 <= k < i && el[k] == l)
                        ==> self@.lines[l] == f0.lines[l],
                    forall|k: int| 0 <= k < i ==> line_count_ok(bv, f0.edges, groups_v[#[trigger] el[k]], self@.lines[el[k]]),
                decreases entries@.len() - i,
            {
                let line = entries[i].0;
                let bls = entries[i].1.as_slice();
                assert(el[i as int] == line);
                assert(groups_v.contains_key(line)) by {
                    assert(el.to_set().contains(line));
                }
                assert(forall|k: int| 0 <= k < bls@.len() ==> #[trigger] bls@[k] < bv.len()) by {
                    assert forall|k: int| 0 <= k < bls@.len() implies #[trigger] bls@[k] < bv.len() by {
                        assert(groups_v[line][k] == bls@[k]);
                    }
                }
                let count = if bls.len() == 1 {
                    block_list_slice(&self.blocks)[bls[0]].counter
                } else {
                    proof {
                        lemma_walkable_cycles(bv, f0.edges, self@.edges);
                    }
                    let ghost ec = self@.edges;
                    proof {
                        lemma_entry_count_cycles(bv, f0.edges, ec, bls@, bls@.len() as int);
                        lemma_inner_arcs_cycles(bv, f0.edges, ec, bls@);
                    }
                    proof { lemma_line_count_cycles(bv, f0.edges, ec, bls@); }
                    match Self::get_line_count(&mut self.edges, &self.blocks, bls) {
                        Some(c) => {
                            assert(line_count_ok(bv, f0.edges, bls@, c));
                            c
                        },
                        None => {
                            assert(!lines_countable(f0)) by {
                                if lines_countable(f0) {
                                    assert(groups_v.contains_key(line) && groups_v[line].len() != 1);
                                }
                            }
                            return false;
                        },
                    }
                };
                line_counts_insert(&mut self.lines, line, count);
                i += 1;
            }
            proof {
                assert forall|l: u32| #[trigger] groups_v.contains_key(l) implies
                    line_count_ok(f0.blocks, f0.edges, groups_v[l], self@.lines[l]) by {
                    assert(el.to_set().contains(l));
                    let k = choose|k: int| 0 <= k < el.len() && el[k] == l;
                    assert(line_count_ok(bv, f0.edges, groups_v[el[k]], self@.lines[el[k]]));
                }
                assert forall|l: u32| #[trigger] self@.lines.contains_key(l) <==> (f0.lines.contains_key(l) || groups_v.contains_key(l)) by {
                    if groups_v.contains_key(l) {
                        assert(el.to_set().contains(l));
                        let k = choose|k: int| 0 <= k < el.len() && el[k] == l;
                        assert(0 <= k < i && el[k] == l);
                    }
                    if exists|k: int| 0 <= k < i && el[k] == l {
                        let k = choose|k: int| 0 <= k < i && el[k] == l;
                        assert(el.to_set().contains(el[k]));
                    }
                }
                assert forall|l: u32| f0.lines.contains_key(l) && !groups_v.contains_key(l) implies
                    #[trigger] self@.lines[l] == f0.lines[l] by {
                    assert(self@.lines.contains_key(l));
                    if exists|k: int| 0 <= k < i && el[k] == l {
                        let k = choose|k: int| 0 <= k < i && el[k] == l;
                        assert(el.to_set().contains(el[k]));
                    }
                }
            }
        } else {
            let mut bi: usize = 0;
            while bi < nb
                invariant
                    bi <= nb,
                    nb == bv.len(),
                    bs@.map_values(|x: crate::graph::GcovBlock| x@) == bv,
                    self@ == (FunView { lines: self@.lines, executed: false, ..f0 }),
                    forall|l: u32| #[trigger] self@.lines.contains_key(l) <==>
                        (f0.lines.contains_key(l) || group_lines(flat_lines(bv.take(bi as int))).contains_key(l)),
                    forall|l: u32| #[trigger] self@.lines.contains_key(l) ==>
                        self@.lines[l] == (if f0.lines.contains_key(l) { f0.lines[l] } else { 0 }),
                decreases nb - bi,
            {
                assert(bs@[bi as int]@ == bv[bi as int]);
                let lines = line_list_slice(&bs[bi].lines);
                let ghost n = bv[bi as int].no;
                let ghost pre = flat_lines(bv.take(bi as int));
                let mut j: usize = 0;
                while j < lines.len()
                    invariant
                        j <= lines@.len(),
                        bi < nb,
                        nb == bv.len(),
                        lines@ == bv[bi as int].lines,
                        n == bv[bi as int].no,
                        pre == flat_lines(bv.take(bi as int)),
                        self@ == (FunView { lines: self@.lines, executed: false, ..f0 }),
                        forall|l: u32| #[trigger] self@.lines.contains_key(l) <==>
                            (f0.lines.contains_key(l) || group_lines(pre + lines@.take(j as int).map_values(|l: u32| (l, n))).contains_key(l)),
                        forall|l: u32| #[trigger] self@.lines.contains_key(l) ==>
                            self@.lines[l] == (if f0.lines.contains_key(l) { f0.lines[l] } else { 0 }),
                    decreases lines@.len() - j,
                {
                    let ghost p0 = pre + lines@.take(j as int).map_values(|l: u32| (l, n));
                    let ghost p1 = pre + lines@.take(j + 1).map_values(|l: u32| (l, n));
                    assert(p1.drop_last() =~= p0);
                    assert(p1.last() == (lines@[j as int], n));
                    line_counts_or_zero(&mut self.lines, lines[j]);
                    j += 1;
                }
                assert(bv.take(bi + 1).drop_last() =~= bv.take(bi as int));
                assert(lines@.take(lines@.len() as int) =~= lines@);
                assert(flat_lines(bv.take(bi + 1)) =~= pre + lines@.map_values(|l: u32| (l, n)));
                bi += 1;
            }
        }
        proof {
            assert(bv.take(nb as int) =~= bv);
            let g = self@;
            let groups = group_lines(flat_lines(f0.blocks));
            assert(groups == groups_v);
            assert(f0.edges.len() > 0);
            assert(g.executed == (f0.edges[0].counter > 0));
            assert(g.blocks == f0.blocks);
            assert(same_but_cycles(f0.edges, g.edges));
            assert(g == (FunView { lines: g.lines, executed: g.executed, edges: g.edges, ..f0 }));
            assert(forall|l: u32| #[trigger] g.lines.contains_key(l) <==> (f0.lines.contains_key(l) || groups.contains_key(l)));
            assert forall|l: u32| f0.lines.contains_key(l) && !groups.contains_key(l) implies #[trigger] g.lines[l] == f0.lines[l] by {
                assert(g.lines.contains_key(l));
            }
            assert(!g.executed ==> forall|l: u32| #[trigger] groups.contains_key(l) ==>
                g.lines[l] == (if f0.lines.contains_key(l) { f0.lines[l] } else { 0 })) by {
                if !g.executed {
                    assert forall|l: u32| #[trigger] groups.contains_key(l) implies
                        g.lines[l] == (if f0.lines.contains_key(l) { f0.lines[l] } else { 0 }) by {
                        assert(g.lines.contains_key(l));
                    }
                }
            }
            assert(graph_wf(self@)) by {
                assert forall|e: int| 0 <= e < self@.edges.len() implies #[trigger] self@.edges[e].source < self@.blocks.len()
                    && self@.edges[e].destination < self@.blocks.len() by {
                    assert(f0.edges[e].source == self@.edges[e].source);
                }
            }
        }
        true
    }
}

}
