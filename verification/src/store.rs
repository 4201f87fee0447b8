//! The hash-consed quadtree store.
//!
//! Every distinct square sub-universe is interned once and addressed by a
//! `NodeId`. A node is an 8x8 or 16x16 bit-packed leaf board, or an interior
//! node made of four children one level down. The store is append-only:
//! node records never change once created, so a `NodeId` stays valid and
//! canonical for the life of the store.
//!
//! Besides the nodes the store keeps two memo caches for the evolution
//! operators: `jumps`, which never needs invalidation, and `steps`, which is
//! cleared whenever the step exponent changes.

use vstd::prelude::*;
use vstd::arithmetic::power2::pow2;

use crate::board::bit8;
use crate::board::bit16;
use crate::board::pop_row8;
use crate::board::rows_pop8;
use crate::board::pop_row16;
use crate::board::rows_pop16;
use crate::board::promote_row;
use crate::board::step5_board;
use crate::board::lemma_pop_row8_bounds;
use crate::board::lemma_pop_row16_bounds;
use crate::board::lemma_rows_pop8_zero;
use crate::board::lemma_rows_pop16_zero;
use crate::board::lemma_rows_pop8_zero_rows;
use crate::board::lemma_rows_pop16_zero_rows;
use crate::board::popcount8;
use crate::board::popcount16;
use crate::board::promote;
use crate::board::zero_rows8;
use crate::board::zero_rows16;
use crate::Error;

verus! {

/// A handle to a canonical node: an index into the store. Two `NodeId`s
/// compare equal exactly when they refer to the same canonical node.
#[derive(Clone, Copy, Debug, PartialEq, Eq, Hash, Structural)]
pub struct NodeId {
    pub index: usize,
}

impl NodeId {
    pub open spec fn idx(self) -> int {
        self.index as int
    }
}

/// The content of a node: a bit-packed leaf board, or four children.
pub enum NodeBase {
    /// A level-3 leaf: an 8x8 board of eight `u8` rows.
    LevelThree { board: Vec<u8> },
    /// A level-4 leaf: a 16x16 board of sixteen `u16` rows.
    LevelFour { board: Vec<u16> },
    /// A node of level 5 or above: four children one level down.
    Interior { nw: NodeId, ne: NodeId, sw: NodeId, se: NodeId },
}

/// Equality of node contents: leaf boards are compared bit for bit, and
/// interior nodes by the identity of their four children. Comparing children
/// by `NodeId` is sound because the children are themselves canonical.
pub open spec fn base_eq(a: NodeBase, b: NodeBase) -> bool {
    match a {
        NodeBase::LevelThree { board: ab } => match b {
            NodeBase::LevelThree { board: bb } => ab@ == bb@,
            _ => false,
        },
        NodeBase::LevelFour { board: ab } => match b {
            NodeBase::LevelFour { board: bb } => ab@ == bb@,
            _ => false,
        },
        NodeBase::Interior { nw: anw, ne: ane, sw: asw, se: ase } => match b {
            NodeBase::Interior { nw: bnw, ne: bne, sw: bsw, se: bse } => anw == bnw && ane == bne
                && asw == bsw && ase == bse,
            _ => false,
        },
    }
}

/// A stored node: its content, its level, and its exact alive-cell count.
/// A level-L node stands for a 2^L by 2^L square of cells.
pub struct Node {
    pub base: NodeBase,
    pub level: u8,
    pub population: u128,
}

/// The four children an interior node is built from.
#[derive(Clone, Copy)]
pub struct NodeTemplate {
    pub nw: NodeId,
    pub ne: NodeId,
    pub sw: NodeId,
    pub se: NodeId,
}

/// 4^n: the number of cells of a level-n node.
pub open spec fn pow4(n: nat) -> nat
    decreases n,
{
    if n == 0 {
        1
    } else {
        4 * pow4((n - 1) as nat)
    }
}

/// The smallest coordinate a level-l node contains.
pub open spec fn min_coord_int(l: int) -> int {
    -(pow2((l - 1) as nat) as int)
}

/// The largest coordinate a level-l node contains.
pub open spec fn max_coord_int(l: int) -> int {
    pow2((l - 1) as nat) as int - 1
}

/// The append-only store of canonical nodes, with the two memo caches and
/// the current step exponent.
pub struct Store {
    pub nodes: Vec<Node>,
    pub steps: Vec<Option<NodeId>>,
    pub jumps: Vec<Option<NodeId>>,
    pub step_log_2: u8,
}

impl Store {
    /// The number of nodes interned so far.
    pub open spec fn n(self) -> int {
        self.nodes@.len() as int
    }

    /// True when `id` refers to a node of this store.
    pub open spec fn has(self, id: NodeId) -> bool {
        0 <= id.idx() < self.n()
    }

    pub open spec fn node_at(self, id: NodeId) -> Node {
        self.nodes@[id.idx()]
    }

    pub open spec fn level_of(self, id: NodeId) -> int {
        self.node_at(id).level as int
    }

    pub open spec fn pop_of(self, id: NodeId) -> nat {
        self.node_at(id).population as nat
    }

    pub open spec fn base_of(self, id: NodeId) -> NodeBase {
        self.node_at(id).base
    }

    pub open spec fn is_leaf3(self, id: NodeId) -> bool {
        self.base_of(id) is LevelThree
    }

    pub open spec fn is_leaf4(self, id: NodeId) -> bool {
        self.base_of(id) is LevelFour
    }

    pub open spec fn is_interior(self, id: NodeId) -> bool {
        self.base_of(id) is Interior
    }

    /// The rows of a level-3 leaf.
    pub open spec fn board3(self, id: NodeId) -> Seq<u8> {
        match self.base_of(id) {
            NodeBase::LevelThree { board } => board@,
            _ => Seq::empty(),
        }
    }

    /// The rows of a level-4 leaf.
    pub open spec fn board4(self, id: NodeId) -> Seq<u16> {
        match self.base_of(id) {
            NodeBase::LevelFour { board } => board@,
            _ => Seq::empty(),
        }
    }

    pub open spec fn nw_of(self, id: NodeId) -> NodeId {
        match self.base_of(id) {
            NodeBase::Interior { nw, .. } => nw,
            _ => NodeId { index: 0 },
        }
    }

    pub open spec fn ne_of(self, id: NodeId) -> NodeId {
        match self.base_of(id) {
            NodeBase::Interior { ne, .. } => ne,
            _ => NodeId { index: 0 },
        }
    }

    pub open spec fn sw_of(self, id: NodeId) -> NodeId {
        match self.base_of(id) {
            NodeBase::Interior { sw, .. } => sw,
            _ => NodeId { index: 0 },
        }
    }

    pub open spec fn se_of(self, id: NodeId) -> NodeId {
        match self.base_of(id) {
            NodeBase::Interior { se, .. } => se,
            _ => NodeId { index: 0 },
        }
    }

    /// The current step exponent.
    pub open spec fn k(self) -> int {
        self.step_log_2 as int
    }

    pub open spec fn jump_at(self, id: NodeId) -> Option<NodeId> {
        self.jumps@[id.idx()]
    }

    pub open spec fn step_at(self, id: NodeId) -> Option<NodeId> {
        self.steps@[id.idx()]
    }

    /// True when a node of equal content is already stored.
    pub open spec fn contains_base(self, b: NodeBase) -> bool {
        exists|i: int| 0 <= i < self.n() && base_eq(#[trigger] self.nodes@[i].base, b)
    }

    /// True when the level-3 leaf with these rows is already stored.
    pub open spec fn contains_leaf3(self, rows: Seq<u8>) -> bool {
        exists|i: int|
            0 <= i < self.n() && ((#[trigger] self.nodes@[i].base) matches
            NodeBase::LevelThree { board } && board@ == rows)
    }

    /// True when the level-4 leaf with these rows is already stored.
    pub open spec fn contains_leaf4(self, rows: Seq<u16>) -> bool {
        exists|i: int|
            0 <= i < self.n() && ((#[trigger] self.nodes@[i].base) matches
            NodeBase::LevelFour { board } && board@ == rows)
    }

    /// Consistency of one node record: leaf boards have the right shape and
    /// an exact popcount; an interior node's children were interned earlier,
    /// sit one level down, and sum to its population.
    pub open spec fn wf_node(self, i: int) -> bool {
        let nd = self.nodes@[i];
        match nd.base {
            NodeBase::LevelThree { board } => board@.len() == 8 && nd.level == 3 && nd.population
                == rows_pop8(board@, 8),
            NodeBase::LevelFour { board } => board@.len() == 16 && nd.level == 4 && nd.population
                == rows_pop16(board@, 16),
            NodeBase::Interior { nw, ne, sw, se } => {
                &&& 0 <= nw.idx() < i
                &&& 0 <= ne.idx() < i
                &&& 0 <= sw.idx() < i
                &&& 0 <= se.idx() < i
                &&& 5 <= nd.level <= 64
                &&& self.nodes@[nw.idx()].level + 1 == nd.level
                &&& self.nodes@[ne.idx()].level + 1 == nd.level
                &&& self.nodes@[sw.idx()].level + 1 == nd.level
                &&& self.nodes@[se.idx()].level + 1 == nd.level
                &&& nd.population == self.nodes@[nw.idx()].population + self.nodes@[
                    ne.idx()
                ].population + self.nodes@[sw.idx()].population + self.nodes@[se.idx()].population
            },
        }
    }

    /// Consistency of one memo-cache entry: the cached result is a stored
    /// node one level below its key, and an empty key maps to an empty
    /// result.
    pub open spec fn cache_entry_ok(self, i: int, e: Option<NodeId>) -> bool {
        match e {
            Option::None => true,
            Option::Some(j) => {
                &&& self.has(j)
                &&& self.nodes@[i].level >= 5
                &&& self.nodes@[j.idx()].level + 1 == self.nodes@[i].level
                &&& (self.nodes@[i].population == 0 ==> self.nodes@[j.idx()].population == 0)
            },
        }
    }

    /// The step exponent's pre-advance count at the leaf level: a step at
    /// the maximal level-5 exponent is a jump, whose nine regions are
    /// pre-advanced four generations.
    pub open spec fn step5_pre(k: int) -> nat {
        if k == 3 {
            4nat
        } else {
            0nat
        }
    }

    /// The generations the four tiles of a level-5 step are advanced.
    pub open spec fn step5_gens(k: int) -> nat {
        if k == 3 {
            4nat
        } else {
            pow2(k as nat)
        }
    }

    /// Exact content at the leaf level: a cached evolution result for a
    /// populated level-5 key is the level-4 leaf whose board is the spliced
    /// nine-board computation on the key's four leaf boards.
    pub open spec fn leaf5_result_ok(self, i: int, j: NodeId, pre: nat, n: nat) -> bool {
        self.nodes@[i].level == 5 && self.nodes@[i].population > 0 ==> (match self.nodes@[i].base {
            NodeBase::Interior { nw, ne, sw, se } => self.is_leaf4(j) && self.board4(j)
                == step5_board(
                self.board4(nw),
                self.board4(ne),
                self.board4(sw),
                self.board4(se),
                pre,
                n,
            ),
            _ => true,
        })
    }

    /// The store's invariant. Beyond per-node and per-cache-entry
    /// consistency it states canonicalization — no two stored nodes have
    /// equal content — and that a step-cache entry made at the maximal step
    /// exponent agrees with the jump cache.
    pub open spec fn wf(self) -> bool {
        &&& forall|i: int| 0 <= i < self.n() ==> self.wf_node(i)
        &&& forall|i: int, j: int|
            0 <= i < self.n() && 0 <= j < self.n() && base_eq(
                self.nodes@[i].base,
                self.nodes@[j].base,
            ) ==> i == j
        &&& self.steps@.len() == self.n()
        &&& self.jumps@.len() == self.n()
        &&& self.step_log_2 < 64
        &&& forall|i: int| 0 <= i < self.n() ==> self.cache_entry_ok(i, #[trigger] self.jumps@[i])
        &&& forall|i: int| 0 <= i < self.n() ==> self.cache_entry_ok(i, #[trigger] self.steps@[i])
        &&& forall|i: int|
            0 <= i < self.n() && (#[trigger] self.steps@[i]) is Some && self.step_log_2
                == self.nodes@[i].level - 2 ==> self.jumps@[i] == self.steps@[i]
        &&& forall|i: int|
            0 <= i < self.n() && (#[trigger] self.jumps@[i]) is Some ==> self.leaf5_result_ok(
                i,
                self.jumps@[i]->Some_0,
                4,
                4,
            )
        &&& forall|i: int|
            0 <= i < self.n() && (#[trigger] self.steps@[i]) is Some && self.step_log_2 <= 3
                ==> self.leaf5_result_ok(
                i,
                self.steps@[i]->Some_0,
                Self::step5_pre(self.step_log_2 as int),
                Self::step5_gens(self.step_log_2 as int),
            )
    }

    /// True when `self` is `old` with zero or more nodes appended: every
    /// record of `old` is unchanged, and the step exponent is the same.
    pub open spec fn preserves(self, old: Store) -> bool {
        &&& old.n() <= self.n()
        &&& forall|i: int| 0 <= i < old.n() ==> self.nodes@[i] == old.nodes@[i]
        &&& self.step_log_2 == old.step_log_2
    }

    /// True when no step-cache entry of `old` was touched.
    pub open spec fn preserves_steps(self, old: Store) -> bool {
        forall|i: int| 0 <= i < old.n() ==> self.steps@[i] == old.steps@[i]
    }

    /// True when no jump-cache entry of `old` was touched.
    pub open spec fn preserves_jumps(self, old: Store) -> bool {
        forall|i: int| 0 <= i < old.n() ==> self.jumps@[i] == old.jumps@[i]
    }

    /// True when the cell (x, y), in coordinates local to the center of the
    /// node `id`, is alive. A leaf answers by bit extraction; an interior
    /// node delegates to the quadrant the cell falls in, translating the
    /// coordinates by a quarter of its side length. Coordinates outside the
    /// node's square are dead.
    pub open spec fn alive_at(self, id: NodeId, x: int, y: int) -> bool
        decreases (if self.has(id) {
            self.level_of(id)
        } else {
            0
        }),
    {
        if self.has(id) {
            match self.base_of(id) {
                NodeBase::LevelThree { board } => -4 <= x < 4 && -4 <= y < 4 && bit8(
                    board@[y + 4],
                    (3 - x) as u8,
                ),
                NodeBase::LevelFour { board } => -8 <= x < 8 && -8 <= y < 8 && bit16(
                    board@[y + 8],
                    (7 - x) as u16,
                ),
                NodeBase::Interior { nw, ne, sw, se } => {
                    let q = pow2((self.level_of(id) - 2) as nat) as int;
                    if x < 0 && y < 0 {
                        if self.has(nw) && self.level_of(nw) < self.level_of(id) {
                            self.alive_at(nw, x + q, y + q)
                        } else {
                            false
                        }
                    } else if x >= 0 && y < 0 {
                        if self.has(ne) && self.level_of(ne) < self.level_of(id) {
                            self.alive_at(ne, x - q, y + q)
                        } else {
                            false
                        }
                    } else if x < 0 {
                        if self.has(sw) && self.level_of(sw) < self.level_of(id) {
                            self.alive_at(sw, x + q, y - q)
                        } else {
                            false
                        }
                    } else {
                        if self.has(se) && self.level_of(se) < self.level_of(id) {
                            self.alive_at(se, x - q, y - q)
                        } else {
                            false
                        }
                    }
                },
            }
        } else {
            false
        }
    }
}

/// Canonicalization: any two stored nodes with bit-equal content are the
/// same node, so any sequence of operations that rebuilds a node's content
/// gets back the original `NodeId`.
pub proof fn lemma_canonical(s: Store, a: NodeId, b: NodeId)
    requires
        s.wf(),
        s.has(a),
        s.has(b),
        base_eq(s.base_of(a), s.base_of(b)),
    ensures
        a == b,
{
}

/// Population sum: an interior node's population is exactly the sum of its
/// four children's populations.
pub proof fn lemma_population_sum(s: Store, a: NodeId)
    requires
        s.wf(),
        s.has(a),
        s.is_interior(a),
    ensures
        s.pop_of(a) == s.pop_of(s.nw_of(a)) + s.pop_of(s.ne_of(a)) + s.pop_of(s.sw_of(a))
            + s.pop_of(s.se_of(a)),
        s.has(s.nw_of(a)) && s.has(s.ne_of(a)) && s.has(s.sw_of(a)) && s.has(s.se_of(a)),
{
    assert(s.wf_node(a.idx()));
}

/// A node's population never exceeds the number of cells of its square.
pub proof fn lemma_pop_bound(s: Store, a: NodeId)
    requires
        s.wf(),
        s.has(a),
    ensures
        s.pop_of(a) <= pow4(s.level_of(a) as nat),
    decreases s.level_of(a),
{
    assert(s.wf_node(a.idx()));
    match s.base_of(a) {
        NodeBase::LevelThree { board } => {
            lemma_rows_pop8_bound(board@, 8);
            reveal_with_fuel(pow4, 4);
            assert(pow4(3) == 64);
        },
        NodeBase::LevelFour { board } => {
            lemma_rows_pop16_bound(board@, 16);
            reveal_with_fuel(pow4, 5);
            assert(pow4(4) == 256);
        },
        NodeBase::Interior { nw, ne, sw, se } => {
            lemma_pop_bound(s, nw);
            lemma_pop_bound(s, ne);
            lemma_pop_bound(s, sw);
            lemma_pop_bound(s, se);
        },
    }
}

/// The first `n` rows of an 8-bit board hold at most `8 * n` alive cells.
pub proof fn lemma_rows_pop8_bound(rows: Seq<u8>, n: nat)
    ensures
        rows_pop8(rows, n) <= 8 * n,
    decreases n,
{
    if n > 0 {
        lemma_rows_pop8_bound(rows, (n - 1) as nat);
        lemma_pop_row8_bounds(rows[n - 1]);
    }
}

/// The first `n` rows of a 16-bit board hold at most `16 * n` alive cells.
pub proof fn lemma_rows_pop16_bound(rows: Seq<u16>, n: nat)
    ensures
        rows_pop16(rows, n) <= 16 * n,
    decreases n,
{
    if n > 0 {
        lemma_rows_pop16_bound(rows, (n - 1) as nat);
        lemma_pop_row16_bounds(rows[n - 1]);
    }
}

/// A node of population zero has no alive cell.
pub proof fn lemma_pop_zero_dead(s: Store, a: NodeId, x: int, y: int)
    requires
        s.wf(),
        s.has(a),
        s.pop_of(a) == 0,
    ensures
        !s.alive_at(a, x, y),
    decreases s.level_of(a),
{
    assert(s.wf_node(a.idx()));
    match s.base_of(a) {
        NodeBase::LevelThree { board } => {
            lemma_rows_pop8_zero_rows(board@, 8);
            if -4 <= x < 4 && -4 <= y < 4 {
                assert(board@[y + 4] == 0);
                lemma_bit8_zero((3 - x) as u8);
            }
        },
        NodeBase::LevelFour { board } => {
            lemma_rows_pop16_zero_rows(board@, 16);
            if -8 <= x < 8 && -8 <= y < 8 {
                assert(board@[y + 8] == 0);
                lemma_bit16_zero((7 - x) as u16);
            }
        },
        NodeBase::Interior { nw, ne, sw, se } => {
            let q = pow2((s.level_of(a) - 2) as nat) as int;
            lemma_pop_zero_dead(s, nw, x + q, y + q);
            lemma_pop_zero_dead(s, ne, x - q, y + q);
            lemma_pop_zero_dead(s, sw, x + q, y - q);
            lemma_pop_zero_dead(s, se, x - q, y - q);
        },
    }
}

proof fn lemma_bit8_zero(i: u8)
    by (bit_vector)
    ensures
        !bit8(0u8, i),
{
}

proof fn lemma_bit16_zero(i: u16)
    by (bit_vector)
    ensures
        !bit16(0u16, i),
{
}

/// Empty nodes are unique: two stored nodes of the same level with
/// population zero are the same node.
pub proof fn lemma_empty_unique(s: Store, a: NodeId, b: NodeId)
    requires
        s.wf(),
        s.has(a),
        s.has(b),
        s.level_of(a) == s.level_of(b),
        s.pop_of(a) == 0,
        s.pop_of(b) == 0,
    ensures
        a == b,
    decreases s.level_of(a),
{
    assert(s.wf_node(a.idx()));
    assert(s.wf_node(b.idx()));
    match s.base_of(a) {
        NodeBase::LevelThree { board } => {
            lemma_rows_pop8_zero_rows(board@, 8);
            match s.base_of(b) {
                NodeBase::LevelThree { board: bb } => {
                    lemma_rows_pop8_zero_rows(bb@, 8);
                    assert(board@ =~= bb@);
                    lemma_canonical(s, a, b);
                },
                _ => {
                    assert(false);
                },
            }
        },
        NodeBase::LevelFour { board } => {
            lemma_rows_pop16_zero_rows(board@, 16);
            match s.base_of(b) {
                NodeBase::LevelFour { board: bb } => {
                    lemma_rows_pop16_zero_rows(bb@, 16);
                    assert(board@ =~= bb@);
                    lemma_canonical(s, a, b);
                },
                _ => {
                    assert(false);
                },
            }
        },
        NodeBase::Interior { nw, ne, sw, se } => {
            match s.base_of(b) {
                NodeBase::Interior { nw: bnw, ne: bne, sw: bsw, se: bse } => {
                    lemma_empty_unique(s, nw, bnw);
                    lemma_empty_unique(s, ne, bne);
                    lemma_empty_unique(s, sw, bsw);
                    lemma_empty_unique(s, se, bse);
                    lemma_canonical(s, a, b);
                },
                _ => {
                    assert(false);
                },
            }
        },
    }
}

/// Liveness of a preexisting node is untouched by appending nodes: the
/// store is append-only, so views taken before an operation stay valid.
pub proof fn lemma_alive_preserved(s1: Store, s2: Store, id: NodeId, x: int, y: int)
    requires
        s1.wf(),
        s1.has(id),
        s1.n() <= s2.n(),
        forall|i: int| 0 <= i < s1.n() ==> s2.nodes@[i] == s1.nodes@[i],
    ensures
        s2.alive_at(id, x, y) == s1.alive_at(id, x, y),
    decreases s1.level_of(id),
{
    assert(s1.wf_node(id.idx()));
    assert(s2.nodes@[id.idx()] == s1.nodes@[id.idx()]);
    match s1.base_of(id) {
        NodeBase::LevelThree { .. } => {
        },
        NodeBase::LevelFour { .. } => {
        },
        NodeBase::Interior { nw, ne, sw, se } => {
            let q = pow2((s1.level_of(id) - 2) as nat) as int;
            lemma_alive_preserved(s1, s2, nw, x + q, y + q);
            lemma_alive_preserved(s1, s2, ne, x - q, y + q);
            lemma_alive_preserved(s1, s2, sw, x + q, y - q);
            lemma_alive_preserved(s1, s2, se, x - q, y - q);
        },
    }
}

impl NodeId {
    /// The content of the node this id refers to.
    pub fn base<'a>(self, store: &'a Store) -> (b: &'a NodeBase)
        requires
            store.has(self),
        ensures
            *b == store.base_of(self),
    {
        &store.nodes[self.index].base
    }

    /// The level of the node this id refers to.
    pub fn level(self, store: &Store) -> (l: u8)
        requires
            store.has(self),
        ensures
            l as int == store.level_of(self),
    {
        store.nodes[self.index].level
    }

    /// The number of alive cells of the node this id refers to.
    pub fn population(self, store: &Store) -> (p: u128)
        requires
            store.has(self),
        ensures
            p as nat == store.pop_of(self),
    {
        store.nodes[self.index].population
    }

    /// The smallest coordinate inside this node's square, `-2^(L-1)`.
    pub fn min_coord(self, store: &Store) -> (m: i64)
        requires
            store.wf(),
            store.has(self),
        ensures
            m as int == min_coord_int(store.level_of(self)),
    {
        proof {
            assert(store.wf_node(self.idx()));
        }
        let l = self.level(store);
        if l == 64 {
            proof {
                vstd::arithmetic::power2::lemma2_to64_rest();
            }
            i64::MIN
        } else {
            let p: u64 = 1u64 << ((l - 1) as u64);
            proof {
                vstd::bits::lemma_u64_pow2_no_overflow((l - 1) as nat);
                lemma_pow2_le_62((l - 1) as nat);
                vstd::bits::lemma_u64_shl_is_mul(1u64, (l - 1) as u64);
            }
            -(p as i64)
        }
    }

    /// The largest coordinate inside this node's square, `2^(L-1) - 1`.
    pub fn max_coord(self, store: &Store) -> (m: i64)
        requires
            store.wf(),
            store.has(self),
        ensures
            m as int == max_coord_int(store.level_of(self)),
    {
        proof {
            assert(store.wf_node(self.idx()));
        }
        let l = self.level(store);
        if l == 64 {
            proof {
                vstd::arithmetic::power2::lemma2_to64_rest();
            }
            i64::MAX
        } else {
            let p: u64 = 1u64 << ((l - 1) as u64);
            proof {
                vstd::bits::lemma_u64_pow2_no_overflow((l - 1) as nat);
                lemma_pow2_le_62((l - 1) as nat);
                vstd::bits::lemma_u64_shl_is_mul(1u64, (l - 1) as u64);
            }
            (p - 1) as i64
        }
    }
}

/// pow2 of an exponent up to 62 is at most `2^62`.
pub proof fn lemma_pow2_le_62(n: nat)
    requires
        n <= 62,
    ensures
        pow2(n) <= 0x4000_0000_0000_0000,
{
    vstd::arithmetic::power2::lemma2_to64_rest();
    vstd::arithmetic::power2::lemma2_to64();
    if n < 62 {
        vstd::arithmetic::power2::lemma_pow2_strictly_increases(n, 62);
    }
}

/// Bit-for-bit equality of two row vectors.
fn eq_rows16(a: &Vec<u16>, b: &Vec<u16>) -> (r: bool)
    ensures
        r == (a@ == b@),
{
    if a.len() != b.len() {
        return false;
    }
    let mut i: usize = 0;
    while i < a.len()
        invariant
            i <= a@.len(),
            a@.len() == b@.len(),
            forall|j: int| 0 <= j < i ==> a@[j] == b@[j],
        decreases a@.len() - i,
    {
        if a[i] != b[i] {
            return false;
        }
        i = i + 1;
    }
    proof {
        assert(a@ =~= b@);
    }
    true
}

/// Bit-for-bit equality of two row vectors.
fn eq_rows8(a: &Vec<u8>, b: &Vec<u8>) -> (r: bool)
    ensures
        r == (a@ == b@),
{
    if a.len() != b.len() {
        return false;
    }
    let mut i: usize = 0;
    while i < a.len()
        invariant
            i <= a@.len(),
            a@.len() == b@.len(),
            forall|j: int| 0 <= j < i ==> a@[j] == b@[j],
        decreases a@.len() - i,
    {
        if a[i] != b[i] {
            return false;
        }
        i = i + 1;
    }
    proof {
        assert(a@ =~= b@);
    }
    true
}

/// Decides `base_eq`: leaf boards bit for bit, interior nodes by child ids.
fn eq_base(a: &NodeBase, b: &NodeBase) -> (r: bool)
    ensures
        r == base_eq(*a, *b),
{
    match (a, b) {
        (NodeBase::LevelThree { board: ab }, NodeBase::LevelThree { board: bb }) => eq_rows8(
            ab,
            bb,
        ),
        (NodeBase::LevelFour { board: ab }, NodeBase::LevelFour { board: bb }) => eq_rows16(
            ab,
            bb,
        ),
        (
            NodeBase::Interior { nw: anw, ne: ane, sw: asw, se: ase },
            NodeBase::Interior { nw: bnw, ne: bne, sw: bsw, se: bse },
        ) => anw.index == bnw.index && ane.index == bne.index && asw.index == bsw.index
            && ase.index == bse.index,
        _ => false,
    }
}

impl Store {
    /// A node record fit to be interned: its level and population agree
    /// with its content, and its children (if any) are already stored.
    pub open spec fn candidate_ok(self, node: Node) -> bool {
        match node.base {
            NodeBase::LevelThree { board } => board@.len() == 8 && node.level == 3
                && node.population == rows_pop8(board@, 8),
            NodeBase::LevelFour { board } => board@.len() == 16 && node.level == 4
                && node.population == rows_pop16(board@, 16),
            NodeBase::Interior { nw, ne, sw, se } => {
                &&& self.has(nw)
                &&& self.has(ne)
                &&& self.has(sw)
                &&& self.has(se)
                &&& 5 <= node.level <= 64
                &&& self.level_of(nw) + 1 == node.level
                &&& self.level_of(ne) + 1 == node.level
                &&& self.level_of(sw) + 1 == node.level
                &&& self.level_of(se) + 1 == node.level
                &&& node.population == self.pop_of(nw) + self.pop_of(ne) + self.pop_of(sw)
                    + self.pop_of(se)
            },
        }
    }

    /// True when `self` extends `old` by freshly interned nodes only: all
    /// records, cache entries and the step exponent of `old` are unchanged,
    /// and the new nodes' cache slots are empty.
    pub open spec fn appends(self, old: Store) -> bool {
        &&& self.preserves(old)
        &&& self.preserves_steps(old)
        &&& self.preserves_jumps(old)
        &&& forall|i: int|
            old.n() <= i < self.n() ==> (#[trigger] self.steps@[i]) is None && self.jumps@[i]
                is None
    }

    /// An empty store.
    pub fn new() -> (s: Store)
        ensures
            s.wf(),
            s.n() == 0,
            s.k() == 0,
    {
        Store { nodes: Vec::new(), steps: Vec::new(), jumps: Vec::new(), step_log_2: 0 }
    }

    /// The node a `NodeId` refers to.
    pub fn get(&self, id: NodeId) -> (nd: &Node)
        requires
            self.has(id),
        ensures
            *nd == self.node_at(id),
    {
        &self.nodes[id.index]
    }

    /// Looks up a node by content.
    fn find(&self, base: &NodeBase) -> (r: Option<NodeId>)
        ensures
            match r {
                Option::Some(id) => self.has(id) && base_eq(self.base_of(id), *base),
                Option::None => forall|j: int|
                    0 <= j < self.n() ==> !base_eq(#[trigger] self.nodes@[j].base, *base),
            },
    {
        let mut i: usize = 0;
        while i < self.nodes.len()
            invariant
                i <= self.n(),
                forall|j: int| 0 <= j < i ==> !base_eq(#[trigger] self.nodes@[j].base, *base),
            decreases self.n() - i,
        {
            if eq_base(&self.nodes[i].base, base) {
                return Some(NodeId { index: i });
            }
            i = i + 1;
        }
        None
    }

    /// Interns a node: returns the existing id when a node of equal content
    /// is already stored, otherwise appends the record with empty cache
    /// slots. This is the sole place nodes are added, which is what makes
    /// every stored node canonical.
    fn add_node(&mut self, node: Node) -> (r: NodeId)
        requires
            old(self).wf(),
            old(self).candidate_ok(node),
        ensures
            final(self).wf(),
            final(self).appends(*old(self)),
            final(self).has(r),
            final(self).n() <= old(self).n() + 1,
            old(self).contains_base(node.base) ==> final(self).n() == old(self).n(),
            base_eq(final(self).base_of(r), node.base),
            final(self).level_of(r) == node.level,
            final(self).pop_of(r) == node.population,
    {
        match self.find(&node.base) {
            Some(id) => {
                proof {
                    assert(self.wf_node(id.idx()));
                    lemma_base_eq_fields(self.base_of(id), node.base);
                }
                id
            },
            None => {
                let id = NodeId { index: self.nodes.len() };
                self.nodes.push(node);
                self.steps.push(None);
                self.jumps.push(None);
                proof {
                    let new = *self;
                    let prev = *old(self);
                    assert forall|i: int| 0 <= i < new.n() implies new.wf_node(i) by {
                        if i < prev.n() {
                            assert(prev.wf_node(i));
                        }
                    }
                    assert forall|i: int, j: int|
                        0 <= i < new.n() && 0 <= j < new.n() && base_eq(
                            new.nodes@[i].base,
                            new.nodes@[j].base,
                        ) implies i == j by {
                        if i < prev.n() && j < prev.n() {
                        } else if i == prev.n() && j < prev.n() {
                            lemma_base_eq_sym(new.nodes@[i].base, new.nodes@[j].base);
                        }
                    }
                    assert forall|i: int| 0 <= i < new.n() implies new.cache_entry_ok(
                        i,
                        #[trigger] new.jumps@[i],
                    ) by {
                        if i < prev.n() {
                            assert(prev.cache_entry_ok(i, prev.jumps@[i]));
                        }
                    }
                    assert forall|i: int| 0 <= i < new.n() implies new.cache_entry_ok(
                        i,
                        #[trigger] new.steps@[i],
                    ) by {
                        if i < prev.n() {
                            assert(prev.cache_entry_ok(i, prev.steps@[i]));
                        }
                    }
                    assert forall|i: int|
                        0 <= i < new.n() && (#[trigger] new.jumps@[i]) is Some
                        implies new.leaf5_result_ok(i, new.jumps@[i]->Some_0, 4, 4) by {
                        assert(i < prev.n());
                        assert(new.jumps@[i] == prev.jumps@[i]);
                        assert(prev.wf_node(i));
                        assert(prev.cache_entry_ok(i, prev.jumps@[i]));
                        assert(prev.leaf5_result_ok(i, prev.jumps@[i]->Some_0, 4, 4));
                    }
                    assert forall|i: int|
                        0 <= i < new.n() && (#[trigger] new.steps@[i]) is Some && new.step_log_2
                        <= 3 implies new.leaf5_result_ok(
                        i,
                        new.steps@[i]->Some_0,
                        Self::step5_pre(new.step_log_2 as int),
                        Self::step5_gens(new.step_log_2 as int),
                    ) by {
                        assert(i < prev.n());
                        assert(new.steps@[i] == prev.steps@[i]);
                        assert(prev.wf_node(i));
                        assert(prev.cache_entry_ok(i, prev.steps@[i]));
                        assert(prev.leaf5_result_ok(
                            i,
                            prev.steps@[i]->Some_0,
                            Self::step5_pre(prev.step_log_2 as int),
                            Self::step5_gens(prev.step_log_2 as int),
                        ));
                    }
                }
                id
            },
        }
    }

    /// Creates (or finds) the level-3 leaf with the given 8x8 board.
    pub fn create_level_3(&mut self, board: Vec<u8>) -> (r: NodeId)
        requires
            old(self).wf(),
            board@.len() == 8,
        ensures
            final(self).wf(),
            final(self).appends(*old(self)),
            final(self).has(r),
            final(self).n() <= old(self).n() + 1,
            old(self).contains_leaf3(board@) ==> final(self).n() == old(self).n(),
            final(self).is_leaf3(r),
            final(self).board3(r) == board@,
            final(self).level_of(r) == 3,
            final(self).pop_of(r) == rows_pop8(board@, 8),
    {
        proof {
            if self.contains_leaf3(board@) {
                let i = choose|i: int|
                    0 <= i < self.n() && ((#[trigger] self.nodes@[i].base) matches
                    NodeBase::LevelThree { board: bb } && bb@ == board@);
                assert(base_eq(self.nodes@[i].base, NodeBase::LevelThree { board }));
            }
        }
        let population = popcount8(&board) as u128;
        let node = Node { base: NodeBase::LevelThree { board }, level: 3, population };
        self.add_node(node)
    }

    /// Creates (or finds) the level-4 leaf with the given 16x16 board.
    pub fn create_leaf(&mut self, board: Vec<u16>) -> (r: NodeId)
        requires
            old(self).wf(),
            board@.len() == 16,
        ensures
            final(self).wf(),
            final(self).appends(*old(self)),
            final(self).has(r),
            final(self).n() <= old(self).n() + 1,
            old(self).contains_leaf4(board@) ==> final(self).n() == old(self).n(),
            final(self).is_leaf4(r),
            final(self).board4(r) == board@,
            final(self).level_of(r) == 4,
            final(self).pop_of(r) == rows_pop16(board@, 16),
    {
        proof {
            if self.contains_leaf4(board@) {
                let i = choose|i: int|
                    0 <= i < self.n() && ((#[trigger] self.nodes@[i].base) matches
                    NodeBase::LevelFour { board: bb } && bb@ == board@);
                assert(base_eq(self.nodes@[i].base, NodeBase::LevelFour { board }));
            }
        }
        let population = popcount16(&board) as u128;
        let node = Node { base: NodeBase::LevelFour { board }, level: 4, population };
        self.add_node(node)
    }

    /// Creates (or finds) the level-4 leaf with the given 16x16 board.
    pub fn create_level_4(&mut self, board: Vec<u16>) -> (r: NodeId)
        requires
            old(self).wf(),
            board@.len() == 16,
        ensures
            final(self).wf(),
            final(self).appends(*old(self)),
            final(self).has(r),
            final(self).n() <= old(self).n() + 1,
            old(self).contains_leaf4(board@) ==> final(self).n() == old(self).n(),
            final(self).is_leaf4(r),
            final(self).board4(r) == board@,
            final(self).level_of(r) == 4,
            final(self).pop_of(r) == rows_pop16(board@, 16),
    {
        self.create_leaf(board)
    }

    /// A copy of the 8x8 board of a level-3 leaf.
    pub fn board3_copy(&self, id: NodeId) -> (r: Vec<u8>)
        requires
            self.has(id),
            self.is_leaf3(id),
        ensures
            r@ == self.board3(id),
    {
        match &self.nodes[id.index].base {
            NodeBase::LevelThree { board } => crate::board::copy_rows8(board),
            _ => vstd::pervasive::unreached(),
        }
    }

    /// A copy of the 16x16 board of a level-4 leaf.
    pub fn board4_copy(&self, id: NodeId) -> (r: Vec<u16>)
        requires
            self.has(id),
            self.is_leaf4(id),
        ensures
            r@ == self.board4(id),
    {
        match &self.nodes[id.index].base {
            NodeBase::LevelFour { board } => crate::board::copy_rows16(board),
            _ => vstd::pervasive::unreached(),
        }
    }

    /// Creates (or finds) the node whose four quadrants are the template's
    /// children. Four level-3 children are promoted: their boards are
    /// spliced into a single 16x16 board and the result is a level-4 leaf.
    pub fn create_interior(&mut self, template: NodeTemplate) -> (r: NodeId)
        requires
            old(self).wf(),
            old(self).has(template.nw),
            old(self).has(template.ne),
            old(self).has(template.sw),
            old(self).has(template.se),
            old(self).level_of(template.ne) == old(self).level_of(template.nw),
            old(self).level_of(template.sw) == old(self).level_of(template.nw),
            old(self).level_of(template.se) == old(self).level_of(template.nw),
            3 <= old(self).level_of(template.nw) <= 63,
            old(self).pop_of(template.nw) + old(self).pop_of(template.ne) + old(self).pop_of(
                template.sw,
            ) + old(self).pop_of(template.se) <= u128::MAX,
        ensures
            final(self).wf(),
            final(self).appends(*old(self)),
            final(self).has(r),
            final(self).n() <= old(self).n() + 1,
            final(self).level_of(r) == old(self).level_of(template.nw) + 1,
            final(self).pop_of(r) == old(self).pop_of(template.nw) + old(self).pop_of(template.ne)
                + old(self).pop_of(template.sw) + old(self).pop_of(template.se),
            old(self).level_of(template.nw) >= 4 ==> final(self).is_interior(r) && final(self).nw_of(r) == template.nw && final(self).ne_of(r) == template.ne && final(self).sw_of(r)
                == template.sw && final(self).se_of(r) == template.se,
            old(self).level_of(template.nw) == 3 ==> final(self).is_leaf4(r) && final(self).board4(r) == Seq::new(
                16,
                |i: int|
                    promote_row(
                        old(self).board3(template.nw),
                        old(self).board3(template.ne),
                        old(self).board3(template.sw),
                        old(self).board3(template.se),
                        i,
                    ),
            ),
            old(self).level_of(template.nw) >= 4 && old(self).contains_base(
                NodeBase::Interior {
                    nw: template.nw,
                    ne: template.ne,
                    sw: template.sw,
                    se: template.se,
                },
            ) ==> final(self).n() == old(self).n(),
            old(self).level_of(template.nw) == 3 && old(self).contains_leaf4(
                Seq::new(
                    16,
                    |i: int|
                        promote_row(
                            old(self).board3(template.nw),
                            old(self).board3(template.ne),
                            old(self).board3(template.sw),
                            old(self).board3(template.se),
                            i,
                        ),
                ),
            ) ==> final(self).n() == old(self).n(),
    {
        proof {
            assert(self.wf_node(template.nw.idx()));
            assert(self.wf_node(template.ne.idx()));
            assert(self.wf_node(template.sw.idx()));
            assert(self.wf_node(template.se.idx()));
        }
        let level = template.nw.level(self);
        if level == 3 {
            let bnw = self.board3_copy(template.nw);
            let bne = self.board3_copy(template.ne);
            let bsw = self.board3_copy(template.sw);
            let bse = self.board3_copy(template.se);
            let board = promote(&bnw, &bne, &bsw, &bse);
            proof {
                lemma_promote_pop(bnw@, bne@, bsw@, bse@, board@, 16);
                assert(board@ =~= Seq::new(
                    16,
                    |i: int| promote_row(bnw@, bne@, bsw@, bse@, i),
                ));
            }
            self.create_leaf(board)
        } else {
            let population = template.nw.population(self) + template.ne.population(self)
                + template.sw.population(self) + template.se.population(self);
            let node = Node {
                base: NodeBase::Interior {
                    nw: template.nw,
                    ne: template.ne,
                    sw: template.sw,
                    se: template.se,
                },
                level: level + 1,
                population,
            };
            self.add_node(node)
        }
    }

    /// Creates (or finds) the empty node of the given level.
    pub fn create_empty(&mut self, level: u8) -> (r: NodeId)
        requires
            old(self).wf(),
            3 <= level <= 64,
        ensures
            final(self).wf(),
            final(self).appends(*old(self)),
            final(self).has(r),
            final(self).level_of(r) == level,
            final(self).pop_of(r) == 0,
        decreases level,
    {
        if level == 3 {
            let board = zero_rows8();
            proof {
                lemma_rows_pop8_zero(board@, 8);
            }
            self.create_level_3(board)
        } else if level == 4 {
            let board = zero_rows16();
            proof {
                lemma_rows_pop16_zero(board@, 16);
            }
            self.create_leaf(board)
        } else {
            let e = self.create_empty(level - 1);
            self.create_interior(NodeTemplate { nw: e, ne: e, sw: e, se: e })
        }
    }

    /// The checked form of `create_empty`: rejects impossible levels
    /// instead of requiring them away.
    pub fn try_create_empty(&mut self, level: u8) -> (r: Result<NodeId, Error>)
        requires
            old(self).wf(),
        ensures
            final(self).wf(),
            final(self).appends(*old(self)),
            3 <= level <= 64 ==> r is Ok && final(self).has(r->Ok_0) && final(self).level_of(
                r->Ok_0,
            ) == level && final(self).pop_of(r->Ok_0) == 0,
            !(3 <= level <= 64) ==> r == Result::<NodeId, Error>::Err(Error::InvalidLevel)
                && *final(self) == *old(self),
    {
        if level < 3 || level > 64 {
            Err(Error::InvalidLevel)
        } else {
            Ok(self.create_empty(level))
        }
    }

    /// The checked form of `create_interior`: reports mismatched child
    /// levels, and constructions that would exceed the level-64 ceiling or
    /// a population beyond what a node can carry, instead of requiring them
    /// away.
    pub fn try_create_interior(&mut self, template: NodeTemplate) -> (r: Result<NodeId, Error>)
        requires
            old(self).wf(),
            old(self).has(template.nw),
            old(self).has(template.ne),
            old(self).has(template.sw),
            old(self).has(template.se),
        ensures
            final(self).wf(),
            final(self).appends(*old(self)),
            ({
                let lv = old(self).level_of(template.nw);
                let levels_match = old(self).level_of(template.ne) == lv && old(self).level_of(
                    template.sw,
                ) == lv && old(self).level_of(template.se) == lv;
                let total = old(self).pop_of(template.nw) + old(self).pop_of(template.ne) + old(
                    self,
                ).pop_of(template.sw) + old(self).pop_of(template.se);
                &&& (!levels_match ==> r == Result::<NodeId, Error>::Err(
                    Error::ChildLevelMismatch,
                ))
                &&& (levels_match && (lv == 64 || total > u128::MAX) ==> r == Result::<
                    NodeId,
                    Error,
                >::Err(Error::InvalidLevel))
                &&& (levels_match && lv <= 63 && total <= u128::MAX ==> r is Ok)
                &&& (r is Ok ==> final(self).has(r->Ok_0) && final(self).level_of(r->Ok_0) == lv
                    + 1 && final(self).pop_of(r->Ok_0) == total)
            }),
    {
        let lv = template.nw.level(self);
        if template.ne.level(self) != lv || template.sw.level(self) != lv || template.se.level(
            self,
        ) != lv {
            return Err(Error::ChildLevelMismatch);
        }
        proof {
            assert(self.wf_node(template.nw.idx()));
        }
        if lv >= 64 {
            return Err(Error::InvalidLevel);
        }
        let pnw = template.nw.population(self);
        let pne = template.ne.population(self);
        let psw = template.sw.population(self);
        let pse = template.se.population(self);
        if pne > u128::MAX - pnw {
            return Err(Error::InvalidLevel);
        }
        if psw > u128::MAX - (pnw + pne) {
            return Err(Error::InvalidLevel);
        }
        if pse > u128::MAX - (pnw + pne + psw) {
            return Err(Error::InvalidLevel);
        }
        Ok(self.create_interior(template))
    }

    /// The current step exponent k: `step` advances by `2^k` generations.
    pub fn step_log_2(&self) -> (k: u8)
        ensures
            k as int == self.k(),
    {
        self.step_log_2
    }

    /// Changes the step exponent. The step cache depends on the exponent,
    /// so it is cleared on a real change; the jump cache is independent of
    /// it and survives.
    pub fn set_step_log_2(&mut self, step_log_2: u8)
        requires
            old(self).wf(),
            step_log_2 < 64,
        ensures
            final(self).wf(),
            final(self).k() == step_log_2,
            final(self).nodes@ == old(self).nodes@,
            final(self).jumps@ == old(self).jumps@,
            step_log_2 == old(self).k() ==> final(self).steps@ == old(self).steps@,
            step_log_2 != old(self).k() ==> forall|i: int|
                0 <= i < final(self).n() ==> final(self).steps@[i] is None,
    {
        if step_log_2 != self.step_log_2 {
            self.step_log_2 = step_log_2;
            let n = self.steps.len();
            let mut fresh: Vec<Option<NodeId>> = Vec::new();
            let mut i: usize = 0;
            while i < n
                invariant
                    i <= n,
                    fresh@.len() == i,
                    forall|j: int| 0 <= j < i ==> fresh@[j] is None,
                decreases n - i,
            {
                fresh.push(None);
                i = i + 1;
            }
            self.steps = fresh;
            proof {
                let new = *self;
                let prev = *old(self);
                assert forall|i: int| 0 <= i < new.n() implies new.wf_node(i) by {
                    assert(prev.wf_node(i));
                }
                assert forall|i: int| 0 <= i < new.n() implies new.cache_entry_ok(
                    i,
                    #[trigger] new.jumps@[i],
                ) by {
                    assert(prev.cache_entry_ok(i, prev.jumps@[i]));
                }
            }
        }
    }

    /// The cached jump result for `id`, if one was recorded.
    pub fn get_jump(&self, id: NodeId) -> (r: Option<NodeId>)
        requires
            self.wf(),
            self.has(id),
        ensures
            r == self.jump_at(id),
    {
        self.jumps[id.index]
    }

    /// Records the jump result for `id`. The entry must keep the cache
    /// consistent: one level down, empty for an empty key, and in agreement
    /// with a step-cache entry made at the maximal step exponent.
    pub fn add_jump(&mut self, id: NodeId, jump: NodeId)
        requires
            old(self).wf(),
            old(self).has(id),
            old(self).has(jump),
            old(self).level_of(id) >= 5,
            old(self).level_of(jump) + 1 == old(self).level_of(id),
            old(self).pop_of(id) == 0 ==> old(self).pop_of(jump) == 0,
            old(self).k() == old(self).level_of(id) - 2 && old(self).step_at(id) is Some ==> old(self).step_at(id) == Some(jump),
            old(self).leaf5_result_ok(id.idx(), jump, 4, 4),
        ensures
            final(self).wf(),
            final(self).nodes@ == old(self).nodes@,
            final(self).steps@ == old(self).steps@,
            final(self).k() == old(self).k(),
            final(self).jumps@ == old(self).jumps@.update(id.idx(), Some(jump)),
    {
        self.jumps.set(id.index, Some(jump));
        proof {
            let new = *self;
            let prev = *old(self);
            assert forall|i: int| 0 <= i < new.n() implies new.wf_node(i) by {
                assert(prev.wf_node(i));
            }
            assert forall|i: int| 0 <= i < new.n() implies new.cache_entry_ok(
                i,
                #[trigger] new.jumps@[i],
            ) by {
                if i != id.idx() {
                    assert(prev.cache_entry_ok(i, prev.jumps@[i]));
                }
            }
            assert forall|i: int| 0 <= i < new.n() implies new.cache_entry_ok(
                i,
                #[trigger] new.steps@[i],
            ) by {
                assert(prev.cache_entry_ok(i, prev.steps@[i]));
            }
            assert forall|i: int|
                0 <= i < new.n() && (#[trigger] new.jumps@[i]) is Some implies new.leaf5_result_ok(
                i,
                new.jumps@[i]->Some_0,
                4,
                4,
            ) by {
                if i != id.idx() {
                    assert(prev.jumps@[i] is Some && prev.leaf5_result_ok(
                        i,
                        prev.jumps@[i]->Some_0,
                        4,
                        4,
                    ));
                }
            }
            assert forall|i: int|
                0 <= i < new.n() && (#[trigger] new.steps@[i]) is Some && new.step_log_2 <= 3
                implies new.leaf5_result_ok(
                i,
                new.steps@[i]->Some_0,
                Self::step5_pre(new.step_log_2 as int),
                Self::step5_gens(new.step_log_2 as int),
            ) by {
                assert(prev.steps@[i] is Some && prev.step_log_2 <= 3 ==> prev.leaf5_result_ok(
                    i,
                    prev.steps@[i]->Some_0,
                    Self::step5_pre(prev.step_log_2 as int),
                    Self::step5_gens(prev.step_log_2 as int),
                ));
            }
        }
    }

    /// The cached step result for `id` at the current step exponent, if one
    /// was recorded.
    pub fn get_step(&self, id: NodeId) -> (r: Option<NodeId>)
        requires
            self.wf(),
            self.has(id),
        ensures
            r == self.step_at(id),
    {
        self.steps[id.index]
    }

    /// Records the step result for `id` at the current step exponent. At
    /// the maximal exponent the entry must agree with the jump cache.
    pub fn add_step(&mut self, id: NodeId, step: NodeId)
        requires
            old(self).wf(),
            old(self).has(id),
            old(self).has(step),
            old(self).level_of(id) >= 5,
            old(self).level_of(step) + 1 == old(self).level_of(id),
            old(self).pop_of(id) == 0 ==> old(self).pop_of(step) == 0,
            old(self).k() == old(self).level_of(id) - 2 ==> old(self).jump_at(id) == Some(step),
            old(self).k() <= 3 ==> old(self).leaf5_result_ok(
                id.idx(),
                step,
                Self::step5_pre(old(self).k()),
                Self::step5_gens(old(self).k()),
            ),
        ensures
            final(self).wf(),
            final(self).nodes@ == old(self).nodes@,
            final(self).jumps@ == old(self).jumps@,
            final(self).k() == old(self).k(),
            final(self).steps@ == old(self).steps@.update(id.idx(), Some(step)),
    {
        self.steps.set(id.index, Some(step));
        proof {
            let new = *self;
            let prev = *old(self);
            assert forall|i: int| 0 <= i < new.n() implies new.wf_node(i) by {
                assert(prev.wf_node(i));
            }
            assert forall|i: int| 0 <= i < new.n() implies new.cache_entry_ok(
                i,
                #[trigger] new.jumps@[i],
            ) by {
                assert(prev.cache_entry_ok(i, prev.jumps@[i]));
            }
            assert forall|i: int| 0 <= i < new.n() implies new.cache_entry_ok(
                i,
                #[trigger] new.steps@[i],
            ) by {
                if i != id.idx() {
                    assert(prev.cache_entry_ok(i, prev.steps@[i]));
                }
            }
            assert forall|i: int|
                0 <= i < new.n() && (#[trigger] new.jumps@[i]) is Some implies new.leaf5_result_ok(
                i,
                new.jumps@[i]->Some_0,
                4,
                4,
            ) by {
                assert(prev.jumps@[i] is Some ==> prev.leaf5_result_ok(
                    i,
                    prev.jumps@[i]->Some_0,
                    4,
                    4,
                ));
            }
            assert forall|i: int|
                0 <= i < new.n() && (#[trigger] new.steps@[i]) is Some && new.step_log_2 <= 3
                implies new.leaf5_result_ok(
                i,
                new.steps@[i]->Some_0,
                Self::step5_pre(new.step_log_2 as int),
                Self::step5_gens(new.step_log_2 as int),
            ) by {
                if i != id.idx() {
                    assert(prev.steps@[i] is Some && prev.step_log_2 <= 3
                        ==> prev.leaf5_result_ok(
                        i,
                        prev.steps@[i]->Some_0,
                        Self::step5_pre(prev.step_log_2 as int),
                        Self::step5_gens(prev.step_log_2 as int),
                    ));
                }
            }
        }
    }
}

/// `base_eq` is symmetric.
proof fn lemma_base_eq_sym(a: NodeBase, b: NodeBase)
    ensures
        base_eq(a, b) == base_eq(b, a),
{
}

/// Nodes of equal content have equal variants and equal components.
proof fn lemma_base_eq_fields(a: NodeBase, b: NodeBase)
    requires
        base_eq(a, b),
    ensures
        a is LevelThree <==> b is LevelThree,
        a is LevelFour <==> b is LevelFour,
        a is Interior <==> b is Interior,
{
}

/// Splicing four 8x8 boards into one 16x16 board keeps the total alive
/// count: the popcount of the spliced board's first `n` rows is the sum of
/// the popcounts of the corresponding quadrant rows.
proof fn lemma_promote_pop(
    nw: Seq<u8>,
    ne: Seq<u8>,
    sw: Seq<u8>,
    se: Seq<u8>,
    rows: Seq<u16>,
    n: nat,
)
    requires
        nw.len() == 8,
        ne.len() == 8,
        sw.len() == 8,
        se.len() == 8,
        rows.len() == 16,
        n <= 16,
        forall|i: int| 0 <= i < 16 ==> rows[i] == promote_row(nw, ne, sw, se, i),
    ensures
        n <= 8 ==> rows_pop16(rows, n) == rows_pop8(nw, n) + rows_pop8(ne, n),
        n > 8 ==> rows_pop16(rows, n) == rows_pop8(nw, 8) + rows_pop8(ne, 8) + rows_pop8(
            sw,
            (n - 8) as nat,
        ) + rows_pop8(se, (n - 8) as nat),
    decreases n,
{
    if n > 0 {
        lemma_promote_pop(nw, ne, sw, se, rows, (n - 1) as nat);
        assert(rows_pop16(rows, n) == rows_pop16(rows, (n - 1) as nat) + pop_row16(
            rows[n - 1],
            16,
        ));
        if n <= 8 {
            lemma_pop_split(nw[n - 1], ne[n - 1]);
            assert(rows_pop8(nw, n) == rows_pop8(nw, (n - 1) as nat) + pop_row8(nw[n - 1], 8));
            assert(rows_pop8(ne, n) == rows_pop8(ne, (n - 1) as nat) + pop_row8(ne[n - 1], 8));
        } else {
            lemma_pop_split(sw[n - 9], se[n - 9]);
            assert(rows_pop8(sw, 0) == 0);
            assert(rows_pop8(se, 0) == 0);
            assert(rows_pop8(sw, (n - 8) as nat) == rows_pop8(sw, (n - 9) as nat) + pop_row8(
                sw[n - 9],
                8,
            ));
            assert(rows_pop8(se, (n - 8) as nat) == rows_pop8(se, (n - 9) as nat) + pop_row8(
                se[n - 9],
                8,
            ));
        }
    }
}

/// The popcount of a 16-bit row made of two bytes is the sum of the two
/// bytes' popcounts.
proof fn lemma_pop_split(hi: u8, lo: u8)
    by (bit_vector)
    ensures
        pop_row16(((hi as u16) << 8u16) | (lo as u16), 16) == pop_row8(hi, 8) + pop_row8(lo, 8),
{
}

/// 4^n equals 2^(2n).
pub proof fn lemma_pow4_pow2(n: nat)
    ensures
        pow4(n) == pow2(2 * n),
    decreases n,
{
    if n == 0 {
        vstd::arithmetic::power2::lemma2_to64();
    } else {
        lemma_pow4_pow2((n - 1) as nat);
        vstd::arithmetic::power2::lemma_pow2_adds((2 * (n - 1)) as nat, 2);
        vstd::arithmetic::power2::lemma2_to64();
    }
}

/// pow4 is monotone.
pub proof fn lemma_pow4_mono(a: nat, b: nat)
    requires
        a <= b,
    ensures
        pow4(a) <= pow4(b),
    decreases b,
{
    if a < b {
        lemma_pow4_mono(a, (b - 1) as nat);
    }
}

/// The populations of four nodes of level at most 62 sum to at most 4^63,
/// which a `u128` can carry.
pub proof fn lemma_children_sum_fits(s: Store, a: NodeId, b: NodeId, c: NodeId, d: NodeId)
    requires
        s.wf(),
        s.has(a),
        s.has(b),
        s.has(c),
        s.has(d),
        s.level_of(a) <= 62,
        s.level_of(b) <= 62,
        s.level_of(c) <= 62,
        s.level_of(d) <= 62,
    ensures
        s.pop_of(a) + s.pop_of(b) + s.pop_of(c) + s.pop_of(d) <= u128::MAX,
{
    lemma_pop_bound(s, a);
    lemma_pop_bound(s, b);
    lemma_pop_bound(s, c);
    lemma_pop_bound(s, d);
    assert(s.wf_node(a.idx()));
    assert(s.wf_node(b.idx()));
    assert(s.wf_node(c.idx()));
    assert(s.wf_node(d.idx()));
    lemma_pow4_mono(s.level_of(a) as nat, 62);
    lemma_pow4_mono(s.level_of(b) as nat, 62);
    lemma_pow4_mono(s.level_of(c) as nat, 62);
    lemma_pow4_mono(s.level_of(d) as nat, 62);
    lemma_pow4_pow2(62);
    vstd::arithmetic::power2::lemma_pow2_adds(64, 60);
    vstd::arithmetic::power2::lemma2_to64_rest();
    vstd::arithmetic::power2::lemma2_to64();
    assert(pow2(124) == pow2(64) * pow2(60));
}

/// An alive cell of a level-L node lies within its square: both of its
/// local coordinates are in [-2^(L-1), 2^(L-1) - 1].
pub proof fn lemma_alive_in_range(s: Store, id: NodeId, x: int, y: int)
    requires
        s.wf(),
        s.has(id),
        s.alive_at(id, x, y),
    ensures
        min_coord_int(s.level_of(id)) <= x <= max_coord_int(s.level_of(id)),
        min_coord_int(s.level_of(id)) <= y <= max_coord_int(s.level_of(id)),
    decreases s.level_of(id),
{
    assert(s.wf_node(id.idx()));
    vstd::arithmetic::power2::lemma2_to64();
    match s.base_of(id) {
        NodeBase::LevelThree { .. } => {
            assert(pow2(2) == 4);
        },
        NodeBase::LevelFour { .. } => {
            assert(pow2(3) == 8);
        },
        NodeBase::Interior { nw, ne, sw, se } => {
            let l = s.level_of(id);
            let q = pow2((l - 2) as nat) as int;
            vstd::arithmetic::power2::lemma_pow2_adds((l - 2) as nat, 1);
            assert(pow2((l - 1) as nat) == 2 * q);
            if x < 0 && y < 0 {
                lemma_alive_in_range(s, nw, x + q, y + q);
            } else if x >= 0 && y < 0 {
                lemma_alive_in_range(s, ne, x - q, y + q);
            } else if x < 0 {
                lemma_alive_in_range(s, sw, x + q, y - q);
            } else {
                lemma_alive_in_range(s, se, x - q, y - q);
            }
        },
    }
}

/// The four children of an interior node, read without touching the store.
pub fn children_of(store: &Store, id: NodeId) -> (t: NodeTemplate)
    requires
        store.has(id),
        store.is_interior(id),
    ensures
        t.nw == store.nw_of(id),
        t.ne == store.ne_of(id),
        t.sw == store.sw_of(id),
        t.se == store.se_of(id),
{
    match &store.nodes[id.index].base {
        NodeBase::Interior { nw, ne, sw, se } => NodeTemplate {
            nw: *nw,
            ne: *ne,
            sw: *sw,
            se: *se,
        },
        _ => vstd::pervasive::unreached(),
    }
}

} // verus!
