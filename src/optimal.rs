//! The optimal instruction picker: a shortest-path search, by price, over
//! the packets that can code the next few thousand bytes.

use vstd::prelude::*;
use crate::range_codec::RangeEncPrice;
use crate::length_codec::{MATCH_LEN_MIN, MATCH_LEN_MAX, sat_add};
use crate::state::State;
use crate::match_finder::{Match, valid_match};
use crate::stream_codec::{EncoderPriceCalc, LiteralCtx, AnyRepPrice, NormalMatchPrice};
use crate::encoders::{EncodeInstruction, LZMAEncoderInput, packet_valid};
use crate::data_buffers::matches_upto;

verus! {

/// The most nodes a price graph may hold.
pub const MAX_NODE_GRAPH_LEN: usize = 4096 - 273;

/// How a node of the price graph is reached from its predecessor.
#[derive(Debug, Clone, Copy)]
pub enum NodeInstruction {
    Unreached,
    Match { distance: u32 },
    Rep { rep_index: usize },
    Literal { ctx: LiteralCtx },
    /// A literal followed by a rep0 of length `len - 1`.
    LiteralThenRep0 { literal_ctx: LiteralCtx },
}

/// A node of the price graph: the cheapest known way to reach a position.
#[derive(Debug, Clone, Copy)]
pub struct PriceNode {
    pub instruction: NodeInstruction,
    pub state: State,
    /// Bytes covered by the step into this node.
    pub len: u32,
    /// The cheapest known price of reaching this node.
    pub price: RangeEncPrice,
    /// The price of the step into this node alone.
    pub step: RangeEncPrice,
}

impl PriceNode {
    /// A step that the picker can turn into packets.
    pub open spec fn step_ok(self) -> bool {
        &&& self.state.wf()
        &&& match self.instruction {
            NodeInstruction::Unreached => self.len == 0,
            NodeInstruction::Literal { .. } => self.len == 1,
            NodeInstruction::Rep { rep_index } => rep_index < 4 && 1 <= self.len <= MATCH_LEN_MAX
                && (self.len == 1 ==> rep_index == 0),
            NodeInstruction::Match { .. } => MATCH_LEN_MIN <= self.len <= MATCH_LEN_MAX,
            NodeInstruction::LiteralThenRep0 { .. } => MATCH_LEN_MIN + 1 <= self.len <= MATCH_LEN_MAX + 1,
        }
    }

    /// An unreached node.
    pub fn none() -> (r: Self)
        ensures
            r.step_ok(),
            r.price.0 == crate::range_codec::INFINITY_PRICE,
            r.len == 0,
    {
        PriceNode {
            instruction: NodeInstruction::Unreached,
            state: State::new(),
            len: 0,
            price: RangeEncPrice::infinity(),
            step: RangeEncPrice::zero(),
        }
    }

    /// The start node, at price zero.
    pub fn initial(state: State) -> (r: Self)
        requires
            state.wf(),
        ensures
            r.step_ok(),
            r.price.0 == 0,
            r.state == state,
            r.len == 0,
    {
        PriceNode {
            instruction: NodeInstruction::Unreached,
            state,
            len: 0,
            price: RangeEncPrice::zero(),
            step: RangeEncPrice::zero(),
        }
    }

    pub fn add_literal(&self, price: RangeEncPrice, ctx: LiteralCtx) -> (r: Self)
        requires
            self.state.wf(),
            price.0 >= self.price.0,
        ensures
            r.step_ok(),
            r.price == price,
            r.step.0 == price.0 - self.price.0,
            r.len == 1,
            r.instruction == (NodeInstruction::Literal { ctx }),
    {
        let mut new_state: State = self.state;
        new_state.update_literal();
        PriceNode { instruction: NodeInstruction::Literal { ctx }, state: new_state, len: 1, price, step: RangeEncPrice(price.0 - self.price.0) }
    }

    pub fn add_short_rep(&self, price: RangeEncPrice) -> (r: Self)
        requires
            self.state.wf(),
            price.0 >= self.price.0,
        ensures
            r.step_ok(),
            r.price == price,
            r.step.0 == price.0 - self.price.0,
            r.len == 1,
            r.instruction == (NodeInstruction::Rep { rep_index: 0 }),
    {
        let mut new_state: State = self.state;
        new_state.update_short_rep();
        PriceNode {
            instruction: NodeInstruction::Rep { rep_index: 0 },
            state: new_state,
            len: 1,
            price,
            step: RangeEncPrice(price.0 - self.price.0),
        }
    }

    pub fn add_long_rep(&self, price: RangeEncPrice, rep: usize, len: u32) -> (r: Self)
        requires
            self.state.wf(),
            price.0 >= self.price.0,
            rep < 4,
            MATCH_LEN_MIN <= len <= MATCH_LEN_MAX,
        ensures
            r.step_ok(),
            r.price == price,
            r.step.0 == price.0 - self.price.0,
            r.len == len,
            r.instruction == (NodeInstruction::Rep { rep_index: rep }),
    {
        let mut new_state: State = self.state;
        new_state.update_long_rep(rep);
        PriceNode {
            instruction: NodeInstruction::Rep { rep_index: rep },
            state: new_state,
            len,
            price,
            step: RangeEncPrice(price.0 - self.price.0),
        }
    }

    pub fn add_match(&self, price: RangeEncPrice, len: u32, distance: u32) -> (r: Self)
        requires
            self.state.wf(),
            price.0 >= self.price.0,
            MATCH_LEN_MIN <= len <= MATCH_LEN_MAX,
        ensures
            r.step_ok(),
            r.price == price,
            r.step.0 == price.0 - self.price.0,
            r.len == len,
            r.instruction == (NodeInstruction::Match { distance }),
    {
        let mut new_state: State = self.state;
        new_state.update_match(distance);
        PriceNode {
            instruction: NodeInstruction::Match { distance },
            state: new_state,
            len,
            price,
            step: RangeEncPrice(price.0 - self.price.0),
        }
    }

    pub fn add_lit_rep0(&self, price: RangeEncPrice, literal_ctx: LiteralCtx, long_rep_len: u32) -> (r: Self)
        requires
            self.state.wf(),
            price.0 >= self.price.0,
            MATCH_LEN_MIN <= long_rep_len <= MATCH_LEN_MAX,
        ensures
            r.step_ok(),
            r.price == price,
            r.step.0 == price.0 - self.price.0,
            r.len == long_rep_len + 1,
            r.instruction == (NodeInstruction::LiteralThenRep0 { literal_ctx }),
    {
        let mut new_state: State = self.state;
        new_state.update_literal();
        new_state.update_long_rep(0);
        PriceNode {
            instruction: NodeInstruction::LiteralThenRep0 { literal_ctx },
            state: new_state,
            len: long_rep_len + 1,
            price,
            step: RangeEncPrice(price.0 - self.price.0),
        }
    }
}

/// Every node is a step the picker can code, no step leads back past the
/// start of the graph, and a node's price is its predecessor's plus the
/// price of the step: prices never decrease along a chain of predecessors.
#[verifier::opaque]
pub open spec fn graph_ok(g: Seq<PriceNode>) -> bool {
    forall|i: int| 0 <= i < g.len() ==> {
        &&& (#[trigger] g[i]).step_ok()
        &&& g[i].len <= i
        &&& g[i].price.0 <= crate::range_codec::INFINITY_PRICE
        &&& g[i].len > 0 ==> g[i].price.0 == g[i - g[i].len].price.0 + g[i].step.0
    }
}

/// The sum of the step prices along the chain of predecessors from node
/// `pos` back to where the chain stops.
pub open spec fn chain_price(g: Seq<PriceNode>, pos: int) -> int
    decreases pos,
{
    if pos <= 0 || pos >= g.len() || g[pos].len == 0 || g[pos].len > pos {
        0
    } else {
        chain_price(g, pos - g[pos].len) + g[pos].step.0
    }
}

/// The chain of predecessors from node `pos` leads back to node 0.
pub open spec fn chain_reaches_start(g: Seq<PriceNode>, pos: int) -> bool
    decreases pos,
{
    if pos == 0 {
        true
    } else if pos < 0 || pos >= g.len() || g[pos].len == 0 || g[pos].len > pos {
        false
    } else {
        chain_reaches_start(g, pos - g[pos].len)
    }
}

/// In a price graph whose start node costs nothing, a node reached from the
/// start costs exactly the sum of the step prices along its chain of
/// predecessors, and no less than its predecessor.
pub proof fn lemma_chain_price(g: Seq<PriceNode>, pos: int)
    requires
        graph_ok(g),
        g.len() > 0,
        g[0].price.0 == 0,
        0 <= pos < g.len(),
        chain_reaches_start(g, pos),
    ensures
        g[pos].price.0 == chain_price(g, pos),
        pos > 0 ==> g[pos].price.0 >= g[pos - g[pos].len].price.0,
    decreases pos,
{
    reveal(graph_ok);
    if pos > 0 {
        lemma_chain_price(g, pos - g[pos].len);
    }
}

proof fn lemma_graph_push_unreached(g: Seq<PriceNode>, n: PriceNode)
    requires
        graph_ok(g),
        n.step_ok(),
        n.len == 0,
        n.price.0 <= crate::range_codec::INFINITY_PRICE,
    ensures
        graph_ok(g.push(n)),
{
    reveal(graph_ok);
    let h = g.push(n);
    assert forall|i: int| 0 <= i < h.len() implies {
        &&& (#[trigger] h[i]).step_ok()
        &&& h[i].len <= i
        &&& h[i].price.0 <= crate::range_codec::INFINITY_PRICE
        &&& h[i].len > 0 ==> h[i].price.0 == h[i - h[i].len].price.0 + h[i].step.0
    } by {
        if i < g.len() {
            assert(h[i] == g[i]);
            if g[i].len > 0 {
                assert(h[i - g[i].len] == g[i - g[i].len]);
            }
        }
    }
}

proof fn lemma_graph_node(g: Seq<PriceNode>, i: int)
    requires
        graph_ok(g),
        0 <= i < g.len(),
    ensures
        g[i].step_ok(),
        g[i].len <= i,
        g[i].price.0 <= crate::range_codec::INFINITY_PRICE,
{
    reveal(graph_ok);
}

/// The step into node `n`, taken at position `at` of `d` with the rep
/// distances `reps` of its predecessor, codes bytes that are really there:
/// a literal of the byte at `at`, or copies whose source bytes equal the
/// bytes they stand for.
pub open spec fn step_valid(n: PriceNode, reps: Seq<u32>, d: Seq<u8>, at: int) -> bool {
    &&& at + n.len <= d.len()
    &&& match n.instruction {
        NodeInstruction::Unreached => true,
        NodeInstruction::Literal { ctx } => ctx.byte == d[at],
        NodeInstruction::Match { distance } => distance + 1 <= at && matches_upto(d, at, distance as int, 0, n.len as int),
        NodeInstruction::Rep { rep_index } => reps[rep_index as int] + 1 <= at
            && matches_upto(d, at, reps[rep_index as int] as int, 0, n.len as int),
        NodeInstruction::LiteralThenRep0 { literal_ctx } => literal_ctx.byte == d[at] && reps[0] + 1 <= at + 1
            && matches_upto(d, at + 1, reps[0] as int, 0, n.len - 1),
    }
}

/// Every reached node comes from a node at or before `cur`, and its step is
/// valid over `d`, node `i` standing for position `start + i`.
#[verifier::opaque]
pub open spec fn graph_sound(g: Seq<PriceNode>, d: Seq<u8>, start: int, cur: int) -> bool {
    forall|k: int| 0 <= k < g.len() && (#[trigger] g[k]).len > 0 ==> {
        &&& k - g[k].len <= cur
        &&& step_valid(g[k], g[k - g[k].len].state.reps_view(), d, start + k - g[k].len)
    }
}

/// Soundness for one node position carries over to the next.
proof fn lemma_graph_sound_later(g: Seq<PriceNode>, d: Seq<u8>, start: int, cur: int)
    requires
        graph_sound(g, d, start, cur),
    ensures
        graph_sound(g, d, start, cur + 1),
{
    reveal(graph_sound);
}

/// The packets of the step into node `n`, in stack order (the later one first).
pub open spec fn node_packets(n: PriceNode) -> Seq<EncodeInstruction> {
    match n.instruction {
        NodeInstruction::Unreached => Seq::empty(),
        NodeInstruction::Literal { ctx } => seq![EncodeInstruction::Literal(ctx)],
        NodeInstruction::Rep { rep_index } => seq![EncodeInstruction::Rep { rep_index, len: n.len }],
        NodeInstruction::Match { distance } => seq![EncodeInstruction::Match(Match { distance, len: n.len })],
        NodeInstruction::LiteralThenRep0 { literal_ctx } => seq![
            EncodeInstruction::Rep { rep_index: 0, len: (n.len - 1) as u32 },
            EncodeInstruction::Literal(literal_ctx),
        ],
    }
}

/// The packets of the cheapest path from the start of the graph to node
/// `pos`, in stack order: the last packet first, the first packet last.
pub open spec fn chain_packets(g: Seq<PriceNode>, pos: int) -> Seq<EncodeInstruction>
    decreases pos,
{
    if pos <= 0 || pos >= g.len() || g[pos].len == 0 || g[pos].len > pos {
        Seq::empty()
    } else {
        node_packets(g[pos]) + chain_packets(g, pos - g[pos].len)
    }
}

/// Along a sound graph, the first packet of the cheapest path to `pos`
/// that leads back to node 0 codes bytes that are there at the start of
/// the search, under the rep distances of node 0.
proof fn lemma_first_packet_valid(g: Seq<PriceNode>, d: Seq<u8>, start: int, cur: int, pos: int)
    requires
        graph_ok(g),
        graph_sound(g, d, start, cur),
        0 < pos < g.len(),
        chain_reaches_start(g, pos),
    ensures
        chain_packets(g, pos).len() > 0,
        packet_valid(d, start, g[0].state.reps_view(), chain_packets(g, pos).last()),
    decreases pos,
{
    lemma_graph_node(g, pos);
    let n = g[pos];
    let k = pos - n.len;
    assert(step_valid(n, g[k].state.reps_view(), d, start + k)) by {
        reveal(graph_sound);
    }
    let np = node_packets(n);
    if k == 0 {
        assert(chain_packets(g, pos) == np + chain_packets(g, 0));
        assert(chain_packets(g, 0) =~= Seq::<EncodeInstruction>::empty());
        assert(chain_packets(g, pos) =~= np);
        let reps = g[0].state.reps_view();
        match n.instruction {
            NodeInstruction::Unreached => {},
            NodeInstruction::Literal { ctx } => {
                assert(np.last() == EncodeInstruction::Literal(ctx));
            },
            NodeInstruction::Rep { rep_index } => {
                assert(np.last() == EncodeInstruction::Rep { rep_index, len: n.len });
            },
            NodeInstruction::Match { distance } => {
                assert(np.last() == EncodeInstruction::Match(Match { distance, len: n.len }));
            },
            NodeInstruction::LiteralThenRep0 { literal_ctx } => {
                assert(np.last() == EncodeInstruction::Literal(literal_ctx));
            },
        }
    } else {
        lemma_first_packet_valid(g, d, start, cur, k);
        let rest = chain_packets(g, k);
        assert(chain_packets(g, pos) == np + rest);
        assert((np + rest).last() == rest.last());
    }
}

/// Every pending packet can be coded.
pub open spec fn stack_ok(s: Seq<EncodeInstruction>) -> bool {
    forall|i: int| 0 <= i < s.len() ==> (#[trigger] s[i]).well_formed()
}

/// The picker that searches the cheapest parse of the next bytes.
pub struct LZMANormalInstructionPicker {
    nice_len: u32,
    /// The price graph; node `i` stands for position `graph_start_pos + i`.
    node_graph: Vec<PriceNode>,
    graph_start_pos: u64,
    /// Packets of the last search, the next one on top.
    instruction_cache_stack: Vec<EncodeInstruction>,
    /// The input bytes the graph was built over.
    graph_data: Ghost<Seq<u8>>,
    /// The node the search is at.
    graph_cur: Ghost<int>,
}

impl LZMANormalInstructionPicker {
    pub closed spec fn wf(&self) -> bool {
        &&& graph_ok(self.node_graph@)
        &&& stack_ok(self.instruction_cache_stack@)
        &&& self.node_graph@.len() > 0 ==> self.node_graph@[0].price.0 == 0
    }

    /// The price graph of the last search.
    pub closed spec fn graph(&self) -> Seq<PriceNode> {
        self.node_graph@
    }

    /// The graph's steps are valid over the input it was built on.
    pub closed spec fn sound(&self) -> bool {
        graph_sound(self.node_graph@, self.graph_data@, self.graph_start_pos as int, self.graph_cur@)
    }

    /// Along the cheapest known path from the start of the search to node
    /// `pos`, prices never decrease and the node's price is the sum of the
    /// path's step prices.
    pub proof fn lemma_path_prices(&self, pos: int)
        requires
            self.wf(),
            0 <= pos < self.graph().len(),
            chain_reaches_start(self.graph(), pos),
        ensures
            self.graph()[pos].price.0 == chain_price(self.graph(), pos),
            pos > 0 ==> self.graph()[pos].price.0 >= self.graph()[pos - self.graph()[pos].len].price.0,
    {
        lemma_chain_price(self.node_graph@, pos);
    }

    /// The packets of the last search still to be handed out, the next one last.
    pub closed spec fn pending_view(&self) -> Seq<EncodeInstruction> {
        self.instruction_cache_stack@
    }

    /// Whether packets of the last search are still to be handed out.
    pub closed spec fn pending(&self) -> bool {
        self.instruction_cache_stack@.len() > 0
    }

    pub fn new(nice_len: u32) -> (r: Self)
        ensures
            r.wf(),
            !r.pending(),
    {
        proof {
            reveal(graph_ok);
            reveal(graph_sound);
        }
        LZMANormalInstructionPicker {
            nice_len,
            node_graph: Vec::new(),
            graph_start_pos: 0,
            instruction_cache_stack: Vec::new(),
            graph_data: Ghost(Seq::empty()),
            graph_cur: Ghost(0),
        }
    }

    pub fn has_pending(&self) -> (r: bool)
        ensures
            r == self.pending(),
    {
        self.instruction_cache_stack.len() > 0
    }

    /// Grows the graph with unreached nodes up to index `pos`.
    fn ensure_capacity_for_pos(&mut self, pos: usize)
        requires
            old(self).wf(),
            old(self).node_graph@.len() > 0,
            pos < MAX_NODE_GRAPH_LEN + MATCH_LEN_MAX + 2,
        ensures
            final(self).wf(),
            final(self).node_graph@.len() >= pos + 1,
            final(self).node_graph@.len() >= old(self).node_graph@.len(),
            final(self).node_graph@.subrange(0, old(self).node_graph@.len() as int) == old(self).node_graph@,
            forall|i: int| 0 <= i < old(self).node_graph@.len() ==> #[trigger] final(self).node_graph@[i]
                == old(self).node_graph@[i],
            final(self).instruction_cache_stack == old(self).instruction_cache_stack,
            final(self).graph_start_pos == old(self).graph_start_pos,
            final(self).nice_len == old(self).nice_len,
            final(self).graph_data == old(self).graph_data,
            final(self).graph_cur == old(self).graph_cur,
            old(self).sound() ==> final(self).sound(),
    {
        let ghost old_graph = self.node_graph@;
        while self.node_graph.len() <= pos
            invariant
                self.wf(),
                old_graph.len() > 0,
                self.node_graph@.len() >= old_graph.len(),
                self.node_graph@.subrange(0, old_graph.len() as int) == old_graph,
                forall|i: int| 0 <= i < old_graph.len() ==> #[trigger] self.node_graph@[i] == old_graph[i],
                forall|i: int| old_graph.len() <= i < self.node_graph@.len() ==> (#[trigger] self.node_graph@[i]).len == 0,
                self.graph_data == old(self).graph_data,
                self.graph_cur == old(self).graph_cur,
                self.instruction_cache_stack == old(self).instruction_cache_stack,
                self.graph_start_pos == old(self).graph_start_pos,
                self.nice_len == old(self).nice_len,
                pos < MAX_NODE_GRAPH_LEN + MATCH_LEN_MAX + 2,
            decreases pos + 1 - self.node_graph@.len(),
        {
            let ghost before = self.node_graph@;
            let fresh: PriceNode = PriceNode::none();
            proof {
                lemma_graph_push_unreached(before, fresh);
            }
            self.node_graph.push(fresh);
            proof {
                assert(self.node_graph@ == before.push(fresh));
                assert(self.node_graph@.subrange(0, old_graph.len() as int) =~= old_graph);
                assert forall|i: int| 0 <= i < old_graph.len() implies #[trigger] self.node_graph@[i] == old_graph[i] by {
                    assert(self.node_graph@[i] == before[i]);
                }
                assert(self.node_graph@[0] == before[0]);
                assert forall|i: int| old_graph.len() <= i < self.node_graph@.len() implies (#[trigger] self.node_graph@[i]).len == 0 by {
                    if i < before.len() {
                        assert(self.node_graph@[i] == before[i]);
                    }
                }
            }
        }
        proof {
            if old(self).sound() {
                reveal(graph_sound);
                let g = self.node_graph@;
                assert forall|k: int| 0 <= k < g.len() && (#[trigger] g[k]).len > 0 implies {
                    &&& k - g[k].len <= self.graph_cur@
                    &&& step_valid(g[k], g[k - g[k].len].state.reps_view(), self.graph_data@, self.graph_start_pos + k - g[k].len)
                } by {
                    assert(k < old_graph.len());
                    assert(g[k] == old_graph[k]);
                    reveal(graph_ok);
                    assert(g[k - g[k].len] == old_graph[k - g[k].len]);
                }
            }
        }
    }

    /// Replaces node `index` by `node` when `node` is cheaper.
    fn relax(&mut self, index: usize, node: PriceNode)
        requires
            old(self).wf(),
            index < old(self).node_graph@.len(),
            node.step_ok(),
            node.len <= index,
            node.price.0 <= crate::range_codec::INFINITY_PRICE,
            node.len > 0 ==> node.price.0 == old(self).node_graph@[index - node.len].price.0 + node.step.0,
            old(self).sound(),
            node.len >= 1,
            index >= 1,
            index == old(self).graph_cur@ + node.len,
            step_valid(
                node,
                old(self).node_graph@[old(self).graph_cur@].state.reps_view(),
                old(self).graph_data@,
                old(self).graph_start_pos + old(self).graph_cur@,
            ),
        ensures
            final(self).wf(),
            final(self).sound(),
            final(self).node_graph@.len() == old(self).node_graph@.len(),
            final(self).instruction_cache_stack == old(self).instruction_cache_stack,
            final(self).graph_start_pos == old(self).graph_start_pos,
            final(self).nice_len == old(self).nice_len,
            final(self).graph_data == old(self).graph_data,
            final(self).graph_cur == old(self).graph_cur,
            forall|i: int| 0 <= i < old(self).node_graph@.len() && i != index ==> final(self).node_graph@[i]
                == old(self).node_graph@[i],
            final(self).node_graph@[index as int].price.0 <= old(self).node_graph@[index as int].price.0,
            final(self).node_graph@[index as int].price.0 <= node.price.0,
    {
        if node.price.0 < self.node_graph[index].price.0 {
            let ghost before = self.node_graph@;
            self.node_graph.set(index, node);
            proof {
                reveal(graph_ok);
                assert forall|i: int| 0 <= i < self.node_graph@.len() implies {
                    &&& (#[trigger] self.node_graph@[i]).step_ok()
                    &&& self.node_graph@[i].len <= i
                    &&& self.node_graph@[i].price.0 <= crate::range_codec::INFINITY_PRICE
                    &&& self.node_graph@[i].len > 0 ==> self.node_graph@[i].price.0
                        == self.node_graph@[i - self.node_graph@[i].len].price.0 + self.node_graph@[i].step.0
                } by {
                    if i != index {
                        assert(self.node_graph@[i] == before[i]);
                        if before[i].len > 0 {
                            let p = i - before[i].len;
                            reveal(graph_sound);
                            assert(p <= self.graph_cur@);
                            assert(p != index);
                            assert(self.node_graph@[p] == before[p]);
                        }
                    } else if node.len > 0 {
                        assert(self.node_graph@[index - node.len] == before[index - node.len]);
                    }
                }
                assert(graph_ok(self.node_graph@));
                reveal(graph_sound);
                let g = self.node_graph@;
                let cur = self.graph_cur@;
                assert forall|k: int| 0 <= k < g.len() && (#[trigger] g[k]).len > 0 implies {
                    &&& k - g[k].len <= cur
                    &&& step_valid(g[k], g[k - g[k].len].state.reps_view(), self.graph_data@, self.graph_start_pos + k - g[k].len)
                } by {
                    if k != index {
                        assert(g[k] == before[k]);
                        assert(k - before[k].len <= cur);
                        assert(k - before[k].len != index);
                        assert(g[k - g[k].len] == before[k - before[k].len]);
                    } else {
                        assert(g[k - g[k].len] == before[cur]);
                    }
                }
            }
        }
    }

    /// Tries a literal, a short rep, and a literal followed by rep0 from
    /// node `cur`.
    fn try_one_length_opts(&mut self, input: &LZMAEncoderInput, calc: &EncoderPriceCalc, cur: usize, any_rep_price: AnyRepPrice)
        requires
            old(self).wf(),
            input.wf(),
            calc.wf(),
            input.buffer_view().fwd() >= 1,
            cur < old(self).node_graph@.len(),
            cur < MAX_NODE_GRAPH_LEN,
            any_rep_price.state_idx < 12,
            (any_rep_price.pos_state as int) < calc.num_pos_states(),
            old(self).sound(),
            old(self).graph_cur@ == cur,
            old(self).graph_data@ == input.buffer_view().data(),
            old(self).graph_start_pos + cur == input.buffer_view().cur(),
        ensures
            final(self).wf(),
            final(self).sound(),
            final(self).graph_cur == old(self).graph_cur,
            final(self).graph_data == old(self).graph_data,
            final(self).node_graph@.len() >= old(self).node_graph@.len(),
            final(self).node_graph@.len() > cur + 1,
            final(self).instruction_cache_stack == old(self).instruction_cache_stack,
            final(self).graph_start_pos == old(self).graph_start_pos,
            final(self).nice_len == old(self).nice_len,
            final(self).node_graph@[0] == old(self).node_graph@[0],
            final(self).node_graph@[cur as int] == old(self).node_graph@[cur as int],
            ({
                let n = old(self).node_graph@[cur as int];
                let b = input.buffer_view();
                let ctx = crate::encoders::literal_ctx_of(b, n.state.reps_view()[0]);
                let c = calc.codec_view();
                let st = any_rep_price.state_idx as int;
                let short = sat_add(sat_add(any_rep_price.any_rep_price.0 as int,
                    RangeEncPrice::bit_price(c.is_rep0_p(st), 0).0 as int),
                    RangeEncPrice::bit_price(c.is_rep0_long_p(st, any_rep_price.pos_state as int), 0).0 as int);
                &&& final(self).node_graph@[cur + 1].price.0 <= sat_add(n.price.0 as int,
                    calc.literal_price_of(ctx.byte, ctx.match_byte, ctx.prev_byte, b.cur() as u64, n.state.idx()))
                &&& ((n.state.reps_view()[0] as int) < b.back() && ctx.byte == ctx.match_byte)
                    ==> final(self).node_graph@[cur + 1].price.0 <= sat_add(n.price.0 as int, short)
            }),
    {
        let node: PriceNode = self.node_graph[cur];
        proof {
            lemma_graph_node(self.node_graph@, cur as int);
        }
        let rep0: u32 = node.state.get_rep(0);
        let pos: u64 = input.pos();
        let fwd: usize = input.forward_bytes();
        let available: u32 = if fwd < MATCH_LEN_MAX { fwd as u32 } else { MATCH_LEN_MAX as u32 };
        let literal_ctx: LiteralCtx = input.literal_ctx(rep0);
        let price_literal: RangeEncPrice = node.price.add(
            calc.get_literal_price(literal_ctx.byte, literal_ctx.match_byte, literal_ctx.prev_byte, pos, &node.state),
        );
        let back: usize = input.buffer().backwards_bytes();
        let can_be_short_rep0: bool = (rep0 as usize) < back && literal_ctx.byte == literal_ctx.match_byte;
        let price_short_rep: RangeEncPrice = node.price.add(any_rep_price.get_short_rep_price(calc));
        self.ensure_capacity_for_pos(cur + 1);
        let ghost d = input.buffer_view().data();
        let ghost at = input.buffer_view().cur();
        if price_short_rep.0 < price_literal.0 && can_be_short_rep0 {
            let next: PriceNode = node.add_short_rep(price_short_rep);
            proof {
                assert(matches_upto(d, at, rep0 as int, 0, 1));
                assert(step_valid(next, node.state.reps_view(), d, at));
            }
            self.relax(cur + 1, next);
        } else {
            let next: PriceNode = node.add_literal(price_literal, literal_ctx);
            proof {
                assert(step_valid(next, node.state.reps_view(), d, at));
            }
            self.relax(cur + 1, next);
        }
        if (rep0 as usize) < back && available >= 2 && rep0 < input.dict_size() {
            let rep0_len: u32 = input.buffer().get_match_length(1, rep0, available) - 1;
            if rep0_len >= MATCH_LEN_MIN as u32 {
                let mut lit_state: State = node.state;
                lit_state.update_literal();
                let next_pos_state: u32 = calc.pos_state(if pos < u64::MAX { pos + 1 } else { pos });
                let rep0_price = calc.get_any_match_price(&lit_state, next_pos_state).get_any_rep_price(calc).get_long_rep_price(calc, 0);
                let price_lit_rep0: RangeEncPrice = price_literal.add(rep0_price.get_price_with_len(calc, rep0_len));
                let index: usize = cur + rep0_len as usize + 1;
                self.ensure_capacity_for_pos(index);
                let next: PriceNode = node.add_lit_rep0(price_lit_rep0, literal_ctx, rep0_len);
                proof {
                    assert forall|i: int| 0 <= i < rep0_len implies #[trigger] d[at + 1 + i] == d[at + 1 + i - rep0 - 1] by {
                        assert(d[at + (i + 1)] == d[at + (i + 1) - rep0 - 1]);
                    }
                    assert(matches_upto(d, at + 1, rep0 as int, 0, rep0_len as int));
                    assert(step_valid(next, node.state.reps_view(), d, at));
                }
                self.relax(index, next);
            }
        }
    }

    /// Tries every rep at every length from node `cur`.
    fn try_reps(&mut self, input: &LZMAEncoderInput, calc: &EncoderPriceCalc, cur: usize, any_rep_price: AnyRepPrice)
        requires
            old(self).wf(),
            input.wf(),
            calc.wf(),
            cur < old(self).node_graph@.len(),
            cur < MAX_NODE_GRAPH_LEN,
            any_rep_price.state_idx < 12,
            (any_rep_price.pos_state as int) < calc.num_pos_states(),
            old(self).sound(),
            old(self).graph_cur@ == cur,
            old(self).graph_data@ == input.buffer_view().data(),
            old(self).graph_start_pos + cur == input.buffer_view().cur(),
        ensures
            final(self).wf(),
            final(self).sound(),
            final(self).graph_cur == old(self).graph_cur,
            final(self).graph_data == old(self).graph_data,
            final(self).node_graph@.len() >= old(self).node_graph@.len(),
            final(self).instruction_cache_stack == old(self).instruction_cache_stack,
            final(self).graph_start_pos == old(self).graph_start_pos,
            final(self).nice_len == old(self).nice_len,
            final(self).node_graph@[0] == old(self).node_graph@[0],
            final(self).node_graph@[cur as int] == old(self).node_graph@[cur as int],
    {
        let node: PriceNode = self.node_graph[cur];
        proof {
            lemma_graph_node(self.node_graph@, cur as int);
        }
        let fwd: usize = input.forward_bytes();
        let available: u32 = if fwd < MATCH_LEN_MAX { fwd as u32 } else { MATCH_LEN_MAX as u32 };
        let back: usize = input.buffer().backwards_bytes();
        let dict: u32 = input.dict_size();
        let mut rep_id: usize = 0;
        while rep_id < 4
            invariant
                self.node_graph@[0] == old(self).node_graph@[0],
                self.wf(),
                input.wf(),
                calc.wf(),
                cur < self.node_graph@.len(),
                cur < MAX_NODE_GRAPH_LEN,
                self.node_graph@[cur as int] == node,
                node.step_ok(),
                node.price.0 <= crate::range_codec::INFINITY_PRICE,
                self.node_graph@.len() >= old(self).node_graph@.len(),
                self.instruction_cache_stack == old(self).instruction_cache_stack,
                self.graph_start_pos == old(self).graph_start_pos,
                self.nice_len == old(self).nice_len,
                self.sound(),
                self.graph_cur@ == cur,
                self.graph_data == old(self).graph_data,
                self.graph_data@ == input.buffer_view().data(),
                self.graph_start_pos + cur == input.buffer_view().cur(),
                back == input.buffer_view().back(),
                (available as int) <= input.buffer_view().fwd(),
                available <= MATCH_LEN_MAX,
                any_rep_price.state_idx < 12,
                (any_rep_price.pos_state as int) < calc.num_pos_states(),
            decreases 4 - rep_id,
        {
            let rep_dist: u32 = node.state.get_rep(rep_id);
            if (rep_dist as usize) < back && rep_dist < dict {
                let rep_len: u32 = input.buffer().get_match_length(0, rep_dist, available);
                proof {
                    input.lemma_back_le_cur();
                }
                if rep_len >= MATCH_LEN_MIN as u32 {
                    self.ensure_capacity_for_pos(cur + rep_len as usize);
                    let rep_price = any_rep_price.get_long_rep_price(calc, rep_id as u32);
                    let mut len: u32 = MATCH_LEN_MIN as u32;
                    while len <= rep_len
                        invariant
                self.node_graph@[0] == old(self).node_graph@[0],
                            self.wf(),
                            calc.wf(),
                            cur + rep_len < self.node_graph@.len(),
                            cur < MAX_NODE_GRAPH_LEN,
                            self.node_graph@[cur as int] == node,
                            node.step_ok(),
                            node.price.0 <= crate::range_codec::INFINITY_PRICE,
                            self.sound(),
                            self.graph_cur@ == cur,
                            self.graph_data == old(self).graph_data,
                            self.graph_data@ == input.buffer_view().data(),
                            self.graph_start_pos + cur == input.buffer_view().cur(),
                            rep_dist as int + 1 <= input.buffer_view().back(),
                            (rep_len as int) <= input.buffer_view().fwd(),
                            matches_upto(input.buffer_view().data(), input.buffer_view().cur(), rep_dist as int, 0, rep_len as int),
                            rep_dist == node.state.reps_view()[rep_id as int],
                            input.buffer_view().back() <= input.buffer_view().cur(),
                            self.node_graph@.len() >= old(self).node_graph@.len(),
                            self.instruction_cache_stack == old(self).instruction_cache_stack,
                            self.graph_start_pos == old(self).graph_start_pos,
                            self.nice_len == old(self).nice_len,
                            rep_len <= MATCH_LEN_MAX,
                            MATCH_LEN_MIN <= len,
                            rep_id < 4,
                            (rep_price.pos_state as int) < calc.num_pos_states(),
                        decreases rep_len + 1 - len,
                    {
                        let price_rep: RangeEncPrice = node.price.add(rep_price.get_price_with_len(calc, len));
                        let next: PriceNode = node.add_long_rep(price_rep, rep_id, len);
                        proof {
                            let d = input.buffer_view().data();
                            let at = input.buffer_view().cur();
                            assert forall|i: int| 0 <= i < len implies #[trigger] d[at + i] == d[at + i - rep_dist - 1] by {
                                assert(d[at + i] == d[at + i - rep_dist - 1]);
                            }
                            assert(matches_upto(d, at, rep_dist as int, 0, len as int));
                            assert(step_valid(next, node.state.reps_view(), d, at));
                        }
                        self.relax(cur + len as usize, next);
                        len = len + 1;
                    }
                }
            }
            rep_id = rep_id + 1;
        }
    }

    /// Tries every match found at node `cur`, at every length.
    fn try_matches(&mut self, input: &mut LZMAEncoderInput, calc: &EncoderPriceCalc, cur: usize, normal_match_price: NormalMatchPrice)
        requires
            old(self).wf(),
            old(input).wf(),
            calc.wf(),
            cur < old(self).node_graph@.len(),
            cur < MAX_NODE_GRAPH_LEN,
            (normal_match_price.pos_state as int) < calc.num_pos_states(),
            old(self).sound(),
            old(self).graph_cur@ == cur,
            old(self).graph_data@ == old(input).buffer_view().data(),
            old(self).graph_start_pos + cur == old(input).buffer_view().cur(),
        ensures
            final(self).wf(),
            final(self).sound(),
            final(self).graph_cur == old(self).graph_cur,
            final(self).graph_data == old(self).graph_data,
            final(input).wf(),
            final(input).buffer_view() == old(input).buffer_view(),
            final(input).nice() == old(input).nice(),
            final(self).node_graph@.len() >= old(self).node_graph@.len(),
            final(self).instruction_cache_stack == old(self).instruction_cache_stack,
            final(self).graph_start_pos == old(self).graph_start_pos,
            final(self).nice_len == old(self).nice_len,
            final(self).node_graph@[0] == old(self).node_graph@[0],
    {
        let node: PriceNode = self.node_graph[cur];
        proof {
            lemma_graph_node(self.node_graph@, cur as int);
        }
        input.calc_matches();
        proof {
            input.lemma_back_le_cur();
        }
        let n: usize = input.matches().len();
        let reps: [u32; 4] = node.state.reps();
        let mut k: usize = 0;
        while k < n
            invariant
                self.node_graph@[0] == old(self).node_graph@[0],
                self.wf(),
                input.wf(),
                calc.wf(),
                input.buffer_view() == old(input).buffer_view(),
                input.nice() == old(input).nice(),
                n == input.matches_view().len(),
                crate::match_finder::valid_matches(input.buffer_view(), input.matches_view(), MATCH_LEN_MAX as int),
                cur < self.node_graph@.len(),
                cur < MAX_NODE_GRAPH_LEN,
                node.step_ok(),
                node.price.0 <= crate::range_codec::INFINITY_PRICE,
                self.node_graph@[cur as int] == node,
                self.node_graph@.len() >= old(self).node_graph@.len(),
                self.instruction_cache_stack == old(self).instruction_cache_stack,
                self.graph_start_pos == old(self).graph_start_pos,
                self.nice_len == old(self).nice_len,
                self.sound(),
                self.graph_cur@ == cur,
                self.graph_data == old(self).graph_data,
                self.graph_data@ == input.buffer_view().data(),
                self.graph_start_pos + cur == input.buffer_view().cur(),
                input.buffer_view().back() <= input.buffer_view().cur(),
                (normal_match_price.pos_state as int) < calc.num_pos_states(),
            decreases n - k,
        {
            let m: Match = input.matches()[k];
            if m.distance != reps[0] && m.distance != reps[1] && m.distance != reps[2] && m.distance != reps[3] {
                self.ensure_capacity_for_pos(cur + m.len as usize);
                let mut len: u32 = MATCH_LEN_MIN as u32;
                while len <= m.len
                    invariant
                self.node_graph@[0] == old(self).node_graph@[0],
                        self.wf(),
                        calc.wf(),
                        cur + m.len < self.node_graph@.len(),
                        cur < MAX_NODE_GRAPH_LEN,
                        node.step_ok(),
                        node.price.0 <= crate::range_codec::INFINITY_PRICE,
                        self.node_graph@[cur as int] == node,
                        self.sound(),
                        self.graph_cur@ == cur,
                        self.graph_data == old(self).graph_data,
                        self.graph_data@ == input.buffer_view().data(),
                        self.graph_start_pos + cur == input.buffer_view().cur(),
                        valid_match(input.buffer_view(), m, MATCH_LEN_MAX as int),
                        input.buffer_view().back() <= input.buffer_view().cur(),
                        self.node_graph@.len() >= old(self).node_graph@.len(),
                        self.instruction_cache_stack == old(self).instruction_cache_stack,
                        self.graph_start_pos == old(self).graph_start_pos,
                        self.nice_len == old(self).nice_len,
                        m.len <= MATCH_LEN_MAX,
                        MATCH_LEN_MIN <= len,
                        (normal_match_price.pos_state as int) < calc.num_pos_states(),
                    decreases m.len + 1 - len,
                {
                    let price: RangeEncPrice = node.price.add(normal_match_price.get_price_with_dist_len(calc, m.distance, len));
                    let next: PriceNode = node.add_match(price, len, m.distance);
                    proof {
                        let d = input.buffer_view().data();
                        let at = input.buffer_view().cur();
                        assert forall|i: int| 0 <= i < len implies #[trigger] d[at + i] == d[at + i - m.distance - 1] by {
                            assert(d[at + i] == d[at + i - m.distance - 1]);
                        }
                        assert(matches_upto(d, at, m.distance as int, 0, len as int));
                        assert(step_valid(next, node.state.reps_view(), d, at));
                    }
                    self.relax(cur + len as usize, next);
                    len = len + 1;
                }
            }
            k = k + 1;
        }
    }

    /// Walks the cheapest path back from the last node and stacks its packets,
    /// the first packet on top.
    fn convert_graph_into_instructions(&mut self)
        requires
            old(self).wf(),
        ensures
            final(self).wf(),
            final(self).node_graph == old(self).node_graph,
            final(self).graph_data == old(self).graph_data,
            final(self).graph_cur == old(self).graph_cur,
            final(self).graph_start_pos == old(self).graph_start_pos,
            final(self).instruction_cache_stack@ == old(self).instruction_cache_stack@ + chain_packets(
                old(self).node_graph@,
                old(self).node_graph@.len() - 1,
            ),
    {
        if self.node_graph.len() == 0 {
            assert(self.instruction_cache_stack@ =~= old(self).instruction_cache_stack@ + Seq::<EncodeInstruction>::empty());
            return;
        }
        let mut pos: usize = self.node_graph.len() - 1;
        let ghost last: int = pos as int;
        assert(old(self).instruction_cache_stack@ + chain_packets(self.node_graph@, last)
            =~= self.instruction_cache_stack@ + chain_packets(self.node_graph@, pos as int));
        while pos != 0
            invariant
                self.wf(),
                last == old(self).node_graph@.len() - 1,
                old(self).instruction_cache_stack@ + chain_packets(self.node_graph@, last)
                    == self.instruction_cache_stack@ + chain_packets(self.node_graph@, pos as int),
                self.node_graph == old(self).node_graph,
                self.graph_data == old(self).graph_data,
                self.graph_cur == old(self).graph_cur,
                self.graph_start_pos == old(self).graph_start_pos,
                pos < self.node_graph@.len(),
            decreases pos,
        {
            let node: PriceNode = self.node_graph[pos];
            proof {
                lemma_graph_node(self.node_graph@, pos as int);
            }
            let ghost before = self.instruction_cache_stack@;
            match node.instruction {
                NodeInstruction::Unreached => {
                    // Not reached; nothing more can be recovered from here.
                    proof {
                        assert(chain_packets(self.node_graph@, pos as int) =~= Seq::<EncodeInstruction>::empty());
                        assert(self.instruction_cache_stack@ + Seq::<EncodeInstruction>::empty() =~= self.instruction_cache_stack@);
                    }
                    return;
                },
                NodeInstruction::Literal { ctx } => {
                    self.instruction_cache_stack.push(EncodeInstruction::Literal(ctx));
                },
                NodeInstruction::Rep { rep_index } => {
                    self.instruction_cache_stack.push(EncodeInstruction::Rep { rep_index, len: node.len });
                },
                NodeInstruction::Match { distance } => {
                    self.instruction_cache_stack.push(EncodeInstruction::Match(Match { distance, len: node.len }));
                },
                NodeInstruction::LiteralThenRep0 { literal_ctx } => {
                    self.instruction_cache_stack.push(EncodeInstruction::Rep { rep_index: 0, len: node.len - 1 });
                    self.instruction_cache_stack.push(EncodeInstruction::Literal(literal_ctx));
                },
            }
            proof {
                assert forall|i: int| 0 <= i < self.instruction_cache_stack@.len() implies (#[trigger] self.instruction_cache_stack@[i]).well_formed() by {
                    if i < before.len() {
                        assert(self.instruction_cache_stack@[i] == before[i]);
                    }
                }
            }
            proof {
                assert(self.instruction_cache_stack@ =~= before + node_packets(node));
                assert(chain_packets(self.node_graph@, pos as int)
                    == node_packets(node) + chain_packets(self.node_graph@, pos - node.len));
                assert(before + chain_packets(self.node_graph@, pos as int)
                    =~= self.instruction_cache_stack@ + chain_packets(self.node_graph@, pos - node.len));
            }
            pos = pos - node.len as usize;
        }
        proof {
            assert(chain_packets(self.node_graph@, 0) =~= Seq::<EncodeInstruction>::empty());
            assert(self.instruction_cache_stack@ + Seq::<EncodeInstruction>::empty() =~= self.instruction_cache_stack@);
        }
    }

    /// Chooses the next packet: the next one of the last search, or the
    /// first one of a new search from the read head.
    #[verifier::rlimit(60)]
    pub fn get_next_symbol(&mut self, input: &mut LZMAEncoderInput, calc: &mut EncoderPriceCalc, state: &State) -> (r: EncodeInstruction)
        requires
            old(self).wf(),
            old(input).wf(),
            old(calc).wf(),
            state.wf(),
            old(self).pending() || old(input).buffer_view().fwd() >= 1,
        ensures
            final(self).wf(),
            !old(self).pending() && old(input).buffer_view().fwd() >= 2 ==> final(self).sound(),
            old(self).pending() ==> r == old(self).pending_view().last()
                && final(self).pending_view() == old(self).pending_view().drop_last(),
            !old(self).pending() ==> final(self).pending_view().len() == 0
                || final(self).pending_view().push(r) == chain_packets(final(self).graph(), final(self).graph().len() - 1),
            final(input).wf(),
            final(calc).wf(),
            final(calc).state_spec() == old(calc).state_spec(),
            final(input).buffer_view().data() == old(input).buffer_view().data(),
            final(input).buffer_view().dict() == old(input).buffer_view().dict(),
            final(input).buffer_view().cur() >= old(input).buffer_view().cur(),
            final(input).nice() == old(input).nice(),
            r.well_formed(),
            old(calc).tables_same(&*final(calc)),
            !old(self).pending() && chain_reaches_start(final(self).graph(), final(self).graph().len() - 1)
                ==> packet_valid(old(input).buffer_view().data(), old(input).buffer_view().cur(), state.reps_view(), r),
    {
        if self.instruction_cache_stack.len() > 0 {
            let ghost before = self.instruction_cache_stack@;
            let r: EncodeInstruction = self.instruction_cache_stack.pop().unwrap();
            proof {
                assert(r == before[before.len() - 1]);
                assert(r.well_formed());
                assert forall|i: int| 0 <= i < self.instruction_cache_stack@.len() implies (#[trigger] self.instruction_cache_stack@[i]).well_formed() by {
                    assert(self.instruction_cache_stack@[i] == old(self).instruction_cache_stack@[i]);
                }
            }
            return r;
        }
        let fwd: usize = input.forward_bytes();
        let reps: [u32; 4] = state.reps();
        let ctx: LiteralCtx = input.literal_ctx(reps[0]);
        if fwd < MATCH_LEN_MIN {
            assert(packet_valid(input.buffer_view().data(), input.buffer_view().cur(), state.reps_view(),
                EncodeInstruction::Literal(ctx)));
            return EncodeInstruction::Literal(ctx);
        }
        calc.update_prices();
        self.node_graph.clear();
        self.node_graph.push(PriceNode::initial(*state));
        self.graph_start_pos = input.pos();
        self.graph_data = Ghost(input.buffer_view().data());
        self.graph_cur = Ghost(0);
        let start: u64 = input.pos();
        let mut cur: usize = 0;
        proof {
            reveal(graph_ok);
            assert(graph_ok(self.node_graph@));
            reveal(graph_sound);
            assert(self.node_graph@.len() == 1 && self.node_graph@[0].len == 0);
            assert(self.sound());
        }
        // A rep or a match reaching the nice length is taken at once.
        let available: u32 = if fwd < MATCH_LEN_MAX { fwd as u32 } else { MATCH_LEN_MAX as u32 };
        let back: usize = input.buffer().backwards_bytes();
        let dict: u32 = input.dict_size();
        let mut i: usize = 0;
        while i < 4
            invariant
                self.wf(),
                self.sound(),
                !self.pending(),
                !old(self).pending(),
                self.graph_cur@ == 0,
                self.graph_data@ == input.buffer_view().data(),
                self.graph_start_pos == start,
                reps@ == state.reps_view(),
                self.node_graph@.len() > 0,
                self.node_graph@[0].state == *state,
                ctx.byte == old(input).buffer_view().data()[old(input).buffer_view().cur()],
                old(input).buffer_view().cur() < old(input).buffer_view().data().len(),
                calc.wf(),
                calc.state_spec() == old(calc).state_spec(),
                old(calc).tables_same(&*calc),
                input.wf(),
                input.buffer_view() == old(input).buffer_view(),
                input.nice() == old(input).nice(),
                back == input.buffer_view().back(),
                (available as int) <= input.buffer_view().fwd(),
                2 <= available <= MATCH_LEN_MAX,
            decreases 4 - i,
        {
            if (reps[i] as usize) < back && reps[i] < dict {
                let len: u32 = input.buffer().get_match_length(0, reps[i], available);
                if len >= MATCH_LEN_MIN as u32 && len >= self.nice_len {
                    proof {
                        input.lemma_back_le_cur();
                        assert(packet_valid(input.buffer_view().data(), input.buffer_view().cur(), state.reps_view(),
                            EncodeInstruction::Rep { rep_index: i, len }));
                    }
                    return EncodeInstruction::Rep { rep_index: i, len };
                }
            }
            i = i + 1;
        }
        input.calc_matches();
        let n: usize = input.matches().len();
        if n > 0 {
            let main: Match = input.matches()[n - 1];
            if main.len >= self.nice_len {
                return EncodeInstruction::Match(main);
            }
        }
        while self.node_graph.len() < MAX_NODE_GRAPH_LEN && cur < self.node_graph.len() && input.forward_bytes() > 0
            invariant
                self.wf(),
                input.wf(),
                calc.wf(),
                calc.state_spec() == old(calc).state_spec(),
                old(calc).tables_same(&*calc),
                input.buffer_view().data() == old(input).buffer_view().data(),
                input.buffer_view().dict() == old(input).buffer_view().dict(),
                input.buffer_view().cur() == start + cur,
                start == old(input).buffer_view().cur(),
                input.nice() == old(input).nice(),
                !self.pending(),
                self.sound(),
                self.graph_cur@ == cur,
                self.graph_data@ == input.buffer_view().data(),
                self.graph_start_pos == start,
                reps@ == state.reps_view(),
                self.node_graph@.len() > 0,
                self.node_graph@[0].state == *state,
                ctx.byte == old(input).buffer_view().data()[old(input).buffer_view().cur()],
                old(input).buffer_view().cur() < old(input).buffer_view().data().len(),
            decreases input.buffer_view().fwd(),
        {
            let pos: u64 = input.pos();
            proof {
                lemma_graph_node(self.node_graph@, cur as int);
            }
            let node_state: State = self.node_graph[cur].state;
            let pos_state: u32 = calc.pos_state(pos);
            let any_match_price = calc.get_any_match_price(&node_state, pos_state);
            let any_rep_price = any_match_price.get_any_rep_price(calc);
            let normal_match_price = any_match_price.get_normal_match_price(calc);
            self.try_one_length_opts(input, calc, cur, any_rep_price);
            self.try_reps(input, calc, cur, any_rep_price);
            self.try_matches(input, calc, cur, normal_match_price);
            let found: usize = input.matches().len();
            if found > 0 && input.matches()[found - 1].len >= self.nice_len {
                break;
            }
            input.increment_pos();
            cur = cur + 1;
            proof {
                lemma_graph_sound_later(self.node_graph@, self.graph_data@, start as int, cur - 1);
            }
            self.graph_cur = Ghost(cur as int);
        }
        let ghost stack0 = self.instruction_cache_stack@;
        self.convert_graph_into_instructions();
        let ghost before = self.instruction_cache_stack@;
        proof {
            assert(stack0.len() == 0);
            assert(before =~= chain_packets(self.node_graph@, self.node_graph@.len() - 1));
        }
        match self.instruction_cache_stack.pop() {
            Some(r) => {
                proof {
                    assert(r == before[before.len() - 1]);
                    let g = self.node_graph@;
                    if chain_reaches_start(g, g.len() - 1) {
                        if g.len() - 1 == 0 {
                            assert(chain_packets(g, 0) =~= Seq::<EncodeInstruction>::empty());
                        } else {
                            lemma_first_packet_valid(g, self.graph_data@, start as int, self.graph_cur@, g.len() - 1);
                        }
                    }
                    assert forall|i: int| 0 <= i < self.instruction_cache_stack@.len() implies (#[trigger] self.instruction_cache_stack@[i]).well_formed() by {
                        assert(self.instruction_cache_stack@[i] == before[i]);
                    }
                }
                r
            },
            None => EncodeInstruction::Literal(ctx),
        }
    }
}

} // verus!
