use vstd::prelude::*;
use smallvec::SmallVec;
use rustc_hash::{FxHashMap, FxHashSet};

verus! {

/// Arc indices, held in a `SmallVec` whose contents Verus does not see.
#[verifier::external_body]
#[derive(Debug)]
pub struct ArcList {
    list: SmallVec<[usize; 2]>,
}

/// Line numbers, held in a `SmallVec` whose contents Verus does not see.
#[verifier::external_body]
#[derive(Debug)]
pub struct LineList {
    list: SmallVec<[u32; 16]>,
}

/// Blocks, held in a `SmallVec` whose contents Verus does not see.
#[verifier::external_body]
#[derive(Debug)]
pub struct BlockList {
    list: SmallVec<[GcovBlock; 16]>,
}

/// Arcs, held in a `SmallVec` whose contents Verus does not see.
#[verifier::external_body]
#[derive(Debug)]
pub struct EdgeList {
    list: SmallVec<[GcovEdge; 16]>,
}

/// A stack of numbers, held in a `SmallVec` whose contents Verus does not see.
#[verifier::external_body]
pub struct Stack {
    list: SmallVec<[usize; 4]>,
}

/// Lists of block numbers, held in a `SmallVec` whose contents Verus does not see.
#[verifier::external_body]
pub struct PendingLists {
    list: SmallVec<[ArcList; 2]>,
}

pub const GCOV_ARC_ON_TREE: u32 = 1;
pub const GCOV_ARC_FAKE: u32 = 2;

/// An arc of a function's flow graph, with the number of times it ran.
#[derive(Debug, Clone, Copy, PartialEq, Eq, Structural)]
pub struct GcovEdge {
    pub source: usize,
    pub destination: usize,
    pub flags: u32,
    pub counter: u64,
    pub cycles: u64,
}

/// Whether the flags mark an arc of the spanning tree, whose count is not
/// recorded but deduced.
pub open spec fn flag_on_tree(flags: u32) -> bool {
    flags % 2 == 1
}

/// Whether the flags mark a fake arc (one that an exception or a call that
/// does not return may take).
pub open spec fn flag_fake(flags: u32) -> bool {
    (flags / 2) % 2 == 1
}

impl GcovEdge {
    pub fn is_on_tree(&self) -> (r: bool)
        ensures
            r == flag_on_tree(self.flags),
    {
        let f = self.flags;
        assert(f & 1 == f % 2) by (bit_vector);
        (self.flags & GCOV_ARC_ON_TREE) != 0
    }

    pub fn is_fake(&self) -> (r: bool)
        ensures
            r == flag_fake(self.flags),
    {
        let f = self.flags;
        assert(f & 2 == 0 <==> (f / 2) % 2 == 0) by (bit_vector);
        (self.flags & GCOV_ARC_FAKE) != 0
    }

    /// The mark of an arc of the spanning tree in a dump.
    pub fn get_tree_mark(&self) -> (r: &'static str)
        ensures
            r@ == (if flag_on_tree(self.flags) { "*"@ } else { ""@ }),
    {
        if self.is_on_tree() {
            "*"
        } else {
            ""
        }
    }
}

/// A basic block of a function's flow graph: its arcs in and out (indices
/// into the function's arcs), its source lines and its count.
#[derive(Debug)]
pub struct GcovBlock {
    pub no: usize,
    pub source: ArcList,
    pub destination: ArcList,
    pub lines: LineList,
    pub line_max: u32,
    pub counter: u64,
}

/// What a list of arc indices holds.
pub uninterp spec fn index_list(v: ArcList) -> Seq<usize>;

/// What a list of line numbers holds.
pub uninterp spec fn line_list(v: LineList) -> Seq<u32>;

/// What a list of blocks holds.
pub uninterp spec fn block_list(v: BlockList) -> Seq<GcovBlock>;

/// What a list of arcs holds.
pub uninterp spec fn edge_list(v: EdgeList) -> Seq<GcovEdge>;

/// What a stack of block or arc numbers holds.
pub uninterp spec fn stack_list(v: Stack) -> Seq<usize>;

/// What a list of block lists holds.
pub uninterp spec fn pending_list(v: PendingLists) -> Seq<ArcList>;

/// Calls `SmallVec::new`: the list is empty.
#[verifier::external_body]
pub fn index_list_new() -> (r: ArcList)
    ensures
        index_list(r) == Seq::<usize>::empty(),
{
    ArcList { list: SmallVec::new() }
}

/// Calls `SmallVec::push`: the index is appended.
#[verifier::external_body]
pub fn index_list_push(v: &mut ArcList, x: usize)
    ensures
        index_list(*final(v)) == index_list(*old(v)).push(x),
{
    v.list.push(x);
}

/// Calls `SmallVec::insert`: the index is put at position `i`, those from
/// `i` on move one place up.
#[verifier::external_body]
pub fn index_list_insert(v: &mut ArcList, i: usize, x: usize)
    requires
        i <= index_list(*old(v)).len(),
    ensures
        index_list(*final(v)) == index_list(*old(v)).insert(i as int, x),
{
    v.list.insert(i, x);
}

/// Calls `SmallVec::as_slice`: the indices, in order.
#[verifier::external_body]
pub fn index_list_slice(v: &ArcList) -> (r: &[usize])
    ensures
        r@ == index_list(*v),
{
    v.list.as_slice()
}

/// Calls `SmallVec::new`: the list is empty.
#[verifier::external_body]
pub fn line_list_new() -> (r: LineList)
    ensures
        line_list(r) == Seq::<u32>::empty(),
{
    LineList { list: SmallVec::new() }
}

/// Calls `SmallVec::push`: the line is appended.
#[verifier::external_body]
pub fn line_list_push(v: &mut LineList, x: u32)
    ensures
        line_list(*final(v)) == line_list(*old(v)).push(x),
{
    v.list.push(x);
}

/// Calls `SmallVec::as_slice`: the lines, in order.
#[verifier::external_body]
pub fn line_list_slice(v: &LineList) -> (r: &[u32])
    ensures
        r@ == line_list(*v),
{
    v.list.as_slice()
}

/// Calls `SmallVec::new`: the list is empty.
#[verifier::external_body]
pub fn block_list_new() -> (r: BlockList)
    ensures
        block_list(r) == Seq::<GcovBlock>::empty(),
{
    BlockList { list: SmallVec::new() }
}

/// Calls `SmallVec::push`: the block is appended.
#[verifier::external_body]
pub fn block_list_push(v: &mut BlockList, x: GcovBlock)
    ensures
        block_list(*final(v)) == block_list(*old(v)).push(x),
{
    v.list.push(x);
}

/// Calls `SmallVec::as_slice`: the blocks, in order.
#[verifier::external_body]
pub fn block_list_slice(v: &BlockList) -> (r: &[GcovBlock])
    ensures
        r@ == block_list(*v),
{
    v.list.as_slice()
}

/// Indexes a list of blocks mutably (`IndexMut` of `SmallVec`): the block at
/// `i`, which the list then holds as the caller leaves it.
#[verifier::external_body]
pub fn block_list_at(v: &mut BlockList, i: usize) -> (r: &mut GcovBlock)
    requires
        i < block_list(*old(v)).len(),
    ensures
        *r == block_list(*old(v))[i as int],
        block_list(*final(v)) == block_list(*old(v)).update(i as int, *final(r)),
{
    &mut v.list[i]
}

/// Calls `SmallVec::new`: the list is empty.
#[verifier::external_body]
pub fn edge_list_new() -> (r: EdgeList)
    ensures
        edge_list(r) == Seq::<GcovEdge>::empty(),
{
    EdgeList { list: SmallVec::new() }
}

/// Calls `SmallVec::push`: the arc is appended.
#[verifier::external_body]
pub fn edge_list_push(v: &mut EdgeList, x: GcovEdge)
    ensures
        edge_list(*final(v)) == edge_list(*old(v)).push(x),
{
    v.list.push(x);
}

/// Calls `SmallVec::as_slice`: the arcs, in order.
#[verifier::external_body]
pub fn edge_list_slice(v: &EdgeList) -> (r: &[GcovEdge])
    ensures
        r@ == edge_list(*v),
{
    v.list.as_slice()
}

/// Assigns through `IndexMut` of `SmallVec`: the arc at `i` is replaced.
#[verifier::external_body]
pub fn edge_list_set(v: &mut EdgeList, i: usize, x: GcovEdge)
    requires
        i < edge_list(*old(v)).len(),
    ensures
        edge_list(*final(v)) == edge_list(*old(v)).update(i as int, x),
{
    v.list[i] = x;
}

/// Calls `SmallVec::new`: the stack is empty.
#[verifier::external_body]
pub fn stack_new() -> (r: Stack)
    ensures
        stack_list(r) == Seq::<usize>::empty(),
{
    Stack { list: SmallVec::new() }
}

/// Calls `SmallVec::push`: the number is put on top.
#[verifier::external_body]
pub fn stack_push(v: &mut Stack, x: usize)
    ensures
        stack_list(*final(v)) == stack_list(*old(v)).push(x),
{
    v.list.push(x);
}

/// Calls `SmallVec::pop`: the top is taken off and returned.
#[verifier::external_body]
pub fn stack_pop(v: &mut Stack) -> (r: Option<usize>)
    ensures
        stack_list(*old(v)).len() == 0 ==> r is None && stack_list(*final(v)) == stack_list(*old(v)),
        stack_list(*old(v)).len() > 0 ==> r == Some(stack_list(*old(v)).last())
            && stack_list(*final(v)) == stack_list(*old(v)).drop_last(),
{
    v.list.pop()
}

/// Calls `SmallVec::clear`: the stack is empty.
#[verifier::external_body]
pub fn stack_clear(v: &mut Stack)
    ensures
        stack_list(*final(v)) == Seq::<usize>::empty(),
{
    v.list.clear();
}

/// Calls `SmallVec::remove`: the number at `i` is taken out and returned,
/// those after it move one place down.
#[verifier::external_body]
pub fn stack_remove(v: &mut Stack, i: usize) -> (r: usize)
    requires
        i < stack_list(*old(v)).len(),
    ensures
        r == stack_list(*old(v))[i as int],
        stack_list(*final(v)) == stack_list(*old(v)).remove(i as int),
{
    v.list.remove(i)
}

/// Calls `SmallVec::as_slice`: the numbers, bottom first.
#[verifier::external_body]
pub fn stack_slice(v: &Stack) -> (r: &[usize])
    ensures
        r@ == stack_list(*v),
{
    v.list.as_slice()
}

/// Calls `SmallVec::new`: the list is empty.
#[verifier::external_body]
pub fn pending_new() -> (r: PendingLists)
    ensures
        pending_list(r) == Seq::<ArcList>::empty(),
{
    PendingLists { list: SmallVec::new() }
}

/// Calls `SmallVec::push`: the list is appended.
#[verifier::external_body]
pub fn pending_push(v: &mut PendingLists, x: ArcList)
    ensures
        pending_list(*final(v)) == pending_list(*old(v)).push(x),
{
    v.list.push(x);
}

/// Calls `SmallVec::clear`: no list is left.
#[verifier::external_body]
pub fn pending_clear(v: &mut PendingLists)
    ensures
        pending_list(*final(v)) == Seq::<ArcList>::empty(),
{
    v.list.clear();
}

/// Calls `SmallVec::remove`: the list at `i` is taken out and returned.
#[verifier::external_body]
pub fn pending_remove(v: &mut PendingLists, i: usize) -> (r: ArcList)
    requires
        i < pending_list(*old(v)).len(),
    ensures
        r == pending_list(*old(v))[i as int],
        pending_list(*final(v)) == pending_list(*old(v)).remove(i as int),
{
    v.list.remove(i)
}

/// Indexes a list of lists mutably (`IndexMut` of `SmallVec`): the list at
/// `i`, which the outer list then holds as the caller leaves it.
#[verifier::external_body]
pub fn pending_at(v: &mut PendingLists, i: usize) -> (r: &mut ArcList)
    requires
        i < pending_list(*old(v)).len(),
    ensures
        *r == pending_list(*old(v))[i as int],
        pending_list(*final(v)) == pending_list(*old(v)).update(i as int, *final(r)),
{
    &mut v.list[i]
}

/// Calls `SmallVec::len` on a list of lists.
#[verifier::external_body]
pub fn pending_len(v: &PendingLists) -> (r: usize)
    ensures
        r == pending_list(*v).len(),
{
    v.list.len()
}

/// What a map from function identifiers to positions holds.
pub uninterp spec fn ident_map(m: FxHashMap<u32, usize>) -> Map<u32, usize>;

/// Calls `FxHashMap::default`: the map is empty.
#[verifier::external_body]
pub fn ident_map_new() -> (r: FxHashMap<u32, usize>)
    ensures
        ident_map(r) =~= Map::empty(),
{
    FxHashMap::default()
}

/// Calls `HashMap::insert`: the identifier maps to the position, the other
/// entries stay.
#[verifier::external_body]
pub fn ident_map_insert(m: &mut FxHashMap<u32, usize>, k: u32, v: usize)
    ensures
        ident_map(*final(m)) == ident_map(*old(m)).insert(k, v),
{
    m.insert(k, v);
}

/// Calls `HashMap::get` and copies out the position found.
#[verifier::external_body]
pub fn ident_map_get(m: &FxHashMap<u32, usize>, k: u32) -> (r: Option<usize>)
    ensures
        r == (if ident_map(*m).contains_key(k) { Some(ident_map(*m)[k]) } else { None::<usize> }),
{
    m.get(&k).copied()
}

/// What a map from lines to counts holds.
pub uninterp spec fn line_counts(m: FxHashMap<u32, u64>) -> Map<u32, u64>;

/// Calls `FxHashMap::default`: the map is empty.
#[verifier::external_body]
pub fn line_counts_new() -> (r: FxHashMap<u32, u64>)
    ensures
        line_counts(r) =~= Map::empty(),
{
    FxHashMap::default()
}

/// Calls `HashMap::insert`: the line maps to the count, the other entries stay.
#[verifier::external_body]
pub fn line_counts_insert(m: &mut FxHashMap<u32, u64>, k: u32, v: u64)
    ensures
        line_counts(*final(m)) == line_counts(*old(m)).insert(k, v),
{
    m.insert(k, v);
}

/// Calls `HashMap::entry` and `Entry::or_insert` with zero: a line not yet
/// there gets count zero, the other entries stay.
#[verifier::external_body]
pub fn line_counts_or_zero(m: &mut FxHashMap<u32, u64>, k: u32)
    ensures
        line_counts(*final(m)) == (if line_counts(*old(m)).contains_key(k) { line_counts(*old(m)) }
            else { line_counts(*old(m)).insert(k, 0) }),
{
    m.entry(k).or_insert(0);
}

/// The lines of a sequence of (line, count) entries.
pub open spec fn count_lines(s: Seq<(u32, u64)>) -> Seq<u32> {
    s.map_values(|e: (u32, u64)| e.0)
}

/// Calls `HashMap::iter` and copies out every entry: each line of the map
/// once, with its count, in the map's own order.
#[verifier::external_body]
pub fn line_counts_entries(m: &FxHashMap<u32, u64>) -> (r: Vec<(u32, u64)>)
    ensures
        count_lines(r@).to_set() == line_counts(*m).dom(),
        count_lines(r@).no_duplicates(),
        forall|i: int| 0 <= i < r@.len() ==> line_counts(*m)[#[trigger] r@[i].0] == r@[i].1,
{
    m.iter().map(|(k, v)| (*k, *v)).collect()
}

/// What a set of block numbers holds.
pub uninterp spec fn visited_set(s: FxHashSet<usize>) -> Set<usize>;

/// Calls `FxHashSet::default`: the set is empty.
#[verifier::external_body]
pub fn visited_new() -> (r: FxHashSet<usize>)
    ensures
        visited_set(r) == Set::<usize>::empty(),
{
    FxHashSet::default()
}

/// Calls `HashSet::insert`: the number is in the set afterwards, and the
/// result says whether it was not before.
#[verifier::external_body]
pub fn visited_insert(s: &mut FxHashSet<usize>, x: usize) -> (r: bool)
    ensures
        visited_set(*final(s)) == visited_set(*old(s)).insert(x),
        r == !visited_set(*old(s)).contains(x),
{
    s.insert(x)
}

/// What a map from lines to the blocks that hold them holds.
pub uninterp spec fn line_blocks(m: FxHashMap<u32, Vec<usize>>) -> Map<u32, Seq<usize>>;

/// Calls `FxHashMap::default`: the map is empty.
#[verifier::external_body]
pub fn line_blocks_new() -> (r: FxHashMap<u32, Vec<usize>>)
    ensures
        line_blocks(r) =~= Map::empty(),
{
    FxHashMap::default()
}

/// Calls `HashMap::entry` and appends the block to the line's list, which
/// starts empty for a line not yet there.
#[verifier::external_body]
pub fn line_blocks_add(m: &mut FxHashMap<u32, Vec<usize>>, line: u32, block: usize)
    ensures
        line_blocks(*final(m)) == line_blocks(*old(m)).insert(line,
            if line_blocks(*old(m)).contains_key(line) { line_blocks(*old(m))[line].push(block) }
            else { seq![block] }),
{
    m.entry(line).or_default().push(block);
}

/// The lines of a sequence of (line, blocks) entries.
pub open spec fn block_lines(s: Seq<(u32, Vec<usize>)>) -> Seq<u32> {
    s.map_values(|e: (u32, Vec<usize>)| e.0)
}

/// Consumes the map through `IntoIterator`: each line once, with its blocks,
/// in the map's own order.
#[verifier::external_body]
pub fn line_blocks_entries(m: FxHashMap<u32, Vec<usize>>) -> (r: Vec<(u32, Vec<usize>)>)
    ensures
        block_lines(r@).to_set() == line_blocks(m).dom(),
        block_lines(r@).no_duplicates(),
        forall|i: int| 0 <= i < r@.len() ==> line_blocks(m)[#[trigger] r@[i].0] == r@[i].1@,
{
    m.into_iter().collect()
}

/// A block as a spec value.
pub struct BlockView {
    pub no: usize,
    pub source: Seq<usize>,
    pub destination: Seq<usize>,
    pub lines: Seq<u32>,
    pub line_max: u32,
    pub counter: u64,
}

impl View for GcovBlock {
    type V = BlockView;

    open spec fn view(&self) -> BlockView {
        BlockView {
            no: self.no,
            source: index_list(self.source),
            destination: index_list(self.destination),
            lines: line_list(self.lines),
            line_max: self.line_max,
            counter: self.counter,
        }
    }
}

/// A new block: no arcs, no lines, count zero.
pub open spec fn new_block(no: usize) -> BlockView {
    BlockView {
        no,
        source: Seq::empty(),
        destination: Seq::empty(),
        lines: Seq::empty(),
        line_max: 0,
        counter: 0,
    }
}

impl GcovBlock {
    pub fn new(no: usize) -> (r: Self)
        ensures
            r@ == new_block(no),
    {
        GcovBlock {
            no,
            source: index_list_new(),
            destination: index_list_new(),
            lines: line_list_new(),
            line_max: 0,
            counter: 0,
        }
    }
}

/// The blocks of a list, as spec values.
pub open spec fn blocks_view(v: BlockList) -> Seq<BlockView> {
    block_list(v).map_values(|b: GcovBlock| b@)
}

/// A function of a gcno file: where it is, its checksums, its flow graph,
/// and, once counted, its lines and whether it ran.
#[derive(Debug)]
pub struct GcovFunction {
    pub identifier: u32,
    pub start_line: u32,
    pub start_column: u32,
    pub end_line: u32,
    pub end_column: u32,
    pub artificial: u32,
    pub line_checksum: u32,
    pub cfg_checksum: u32,
    pub file_name: String,
    pub name: String,
    pub blocks: BlockList,
    pub edges: EdgeList,
    pub real_edge_count: usize,
    pub lines: FxHashMap<u32, u64>,
    pub executed: bool,
}

/// A function as a spec value.
pub struct FunView {
    pub identifier: u32,
    pub start_line: u32,
    pub start_column: u32,
    pub end_line: u32,
    pub end_column: u32,
    pub artificial: u32,
    pub line_checksum: u32,
    pub cfg_checksum: u32,
    pub file_name: Seq<char>,
    pub name: Seq<char>,
    pub blocks: Seq<BlockView>,
    pub edges: Seq<GcovEdge>,
    pub real_edge_count: usize,
    pub lines: Map<u32, u64>,
    pub executed: bool,
}

impl View for GcovFunction {
    type V = FunView;

    open spec fn view(&self) -> FunView {
        FunView {
            identifier: self.identifier,
            start_line: self.start_line,
            start_column: self.start_column,
            end_line: self.end_line,
            end_column: self.end_column,
            artificial: self.artificial,
            line_checksum: self.line_checksum,
            cfg_checksum: self.cfg_checksum,
            file_name: self.file_name@,
            name: self.name@,
            blocks: blocks_view(self.blocks),
            edges: edge_list(self.edges),
            real_edge_count: self.real_edge_count,
            lines: line_counts(self.lines),
            executed: self.executed,
        }
    }
}

/// Whether every arc index held by a block names an arc of the function, and
/// every arc joins blocks of it.
pub open spec fn graph_wf(f: FunView) -> bool {
    &&& forall|b: int, j: int| 0 <= b < f.blocks.len() && 0 <= j < f.blocks[b].source.len()
        ==> #[trigger] f.blocks[b].source[j] < f.edges.len()
    &&& forall|b: int, j: int| 0 <= b < f.blocks.len() && 0 <= j < f.blocks[b].destination.len()
        ==> #[trigger] f.blocks[b].destination[j] < f.edges.len()
    &&& forall|e: int| 0 <= e < f.edges.len() ==> #[trigger] f.edges[e].source < f.blocks.len()
        && f.edges[e].destination < f.blocks.len()
    &&& forall|b: int| 0 <= b < f.blocks.len() ==> #[trigger] f.blocks[b].no < f.blocks.len()
}


}
