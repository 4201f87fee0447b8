//! Structural accessors over nodes: the four quadrants, the centered
//! sub-nodes and sub-sub-nodes that the evolution engine's nine-square
//! decomposition needs, and `expand`, which re-centers a node inside an
//! empty square twice its side.

use vstd::prelude::*;
use vstd::arithmetic::power2::pow2;

use crate::board::bit8;
use crate::board::bit16;
use crate::board::center4_row;
use crate::board::horiz_row;
use crate::board::vert_row;
use crate::board::center4;
use crate::board::horiz16;
use crate::board::vert16;
use crate::store::NodeId;
use crate::store::NodeTemplate;
use crate::store::Store;
use crate::store::lemma_alive_in_range;
use crate::store::lemma_alive_preserved;
use crate::store::lemma_children_sum_fits;
use crate::store::lemma_pop_zero_dead;

verus! {

/// The 8x8 board cut from a 16x16 board: rows `row0..row0+8`, and the west
/// half when `west` or the east half otherwise.
pub open spec fn quad8_row(rows: Seq<u16>, row0: int, west: bool, i: int) -> u8 {
    if west {
        (rows[row0 + i] >> 8) as u8
    } else {
        rows[row0 + i] as u8
    }
}

/// Cuts one 8x8 quadrant out of a 16x16 board.
fn quad8(rows: &Vec<u16>, row0: usize, west: bool) -> (r: Vec<u8>)
    requires
        rows@.len() == 16,
        row0 == 0 || row0 == 8,
    ensures
        r@.len() == 8,
        forall|i: int| 0 <= i < 8 ==> r@[i] == quad8_row(rows@, row0 as int, west, i),
{
    let mut out: Vec<u8> = Vec::new();
    let mut i: usize = 0;
    while i < 8
        invariant
            i <= 8,
            rows@.len() == 16,
            row0 == 0 || row0 == 8,
            out@.len() == i,
            forall|j: int| 0 <= j < i ==> out@[j] == quad8_row(rows@, row0 as int, west, j),
        decreases 8 - i,
    {
        if west {
            out.push((rows[row0 + i] >> 8) as u8);
        } else {
            out.push(rows[row0 + i] as u8);
        }
        i = i + 1;
    }
    out
}

/// The center 8x8 of a 16x16 board: rows 4..12, bits 11..4 of each.
pub open spec fn center8_row(rows: Seq<u16>, i: int) -> u8 {
    (rows[i + 4] >> 4) as u8
}

/// Cuts the center 8x8 out of a 16x16 board.
fn center8(rows: &Vec<u16>) -> (r: Vec<u8>)
    requires
        rows@.len() == 16,
    ensures
        r@.len() == 8,
        forall|i: int| 0 <= i < 8 ==> r@[i] == center8_row(rows@, i),
{
    let mut out: Vec<u8> = Vec::new();
    let mut i: usize = 0;
    while i < 8
        invariant
            i <= 8,
            rows@.len() == 16,
            out@.len() == i,
            forall|j: int| 0 <= j < i ==> out@[j] == center8_row(rows@, j),
        decreases 8 - i,
    {
        out.push(crate::board::center(rows[i + 4]));
        i = i + 1;
    }
    out
}

impl NodeId {
    /// The northwest quadrant: the stored child of an interior node, or the
    /// level-3 leaf cut from the northwest corner of a level-4 leaf.
    pub fn nw(self, store: &mut Store) -> (r: NodeId)
        requires
            old(store).wf(),
            old(store).has(self),
            old(store).level_of(self) >= 4,
        ensures
            final(store).wf(),
            final(store).appends(*old(store)),
            final(store).has(r),
            final(store).level_of(r) == old(store).level_of(self) - 1,
            old(store).is_interior(self) ==> r == old(store).nw_of(self),
            old(store).is_leaf4(self) ==> final(store).is_leaf3(r) && final(store).board3(r)
                == Seq::new(8, |i: int| quad8_row(old(store).board4(self), 0, true, i)),
    {
        proof {
            assert(store.wf_node(self.idx()));
        }
        match store.get(self).base {
            crate::store::NodeBase::Interior { nw, .. } => nw,
            _ => {
                let b = store.board4_copy(self);
                let q = quad8(&b, 0, true);
                proof {
                    assert(q@ =~= Seq::new(
                        8,
                        |i: int| quad8_row(old(store).board4(self), 0, true, i),
                    ));
                }
                store.create_level_3(q)
            },
        }
    }

    /// The northeast quadrant.
    pub fn ne(self, store: &mut Store) -> (r: NodeId)
        requires
            old(store).wf(),
            old(store).has(self),
            old(store).level_of(self) >= 4,
        ensures
            final(store).wf(),
            final(store).appends(*old(store)),
            final(store).has(r),
            final(store).level_of(r) == old(store).level_of(self) - 1,
            old(store).is_interior(self) ==> r == old(store).ne_of(self),
            old(store).is_leaf4(self) ==> final(store).is_leaf3(r) && final(store).board3(r)
                == Seq::new(8, |i: int| quad8_row(old(store).board4(self), 0, false, i)),
    {
        proof {
            assert(store.wf_node(self.idx()));
        }
        match store.get(self).base {
            crate::store::NodeBase::Interior { ne, .. } => ne,
            _ => {
                let b = store.board4_copy(self);
                let q = quad8(&b, 0, false);
                proof {
                    assert(q@ =~= Seq::new(
                        8,
                        |i: int| quad8_row(old(store).board4(self), 0, false, i),
                    ));
                }
                store.create_level_3(q)
            },
        }
    }

    /// The southwest quadrant.
    pub fn sw(self, store: &mut Store) -> (r: NodeId)
        requires
            old(store).wf(),
            old(store).has(self),
            old(store).level_of(self) >= 4,
        ensures
            final(store).wf(),
            final(store).appends(*old(store)),
            final(store).has(r),
            final(store).level_of(r) == old(store).level_of(self) - 1,
            old(store).is_interior(self) ==> r == old(store).sw_of(self),
            old(store).is_leaf4(self) ==> final(store).is_leaf3(r) && final(store).board3(r)
                == Seq::new(8, |i: int| quad8_row(old(store).board4(self), 8, true, i)),
    {
        proof {
            assert(store.wf_node(self.idx()));
        }
        match store.get(self).base {
            crate::store::NodeBase::Interior { sw, .. } => sw,
            _ => {
                let b = store.board4_copy(self);
                let q = quad8(&b, 8, true);
                proof {
                    assert(q@ =~= Seq::new(
                        8,
                        |i: int| quad8_row(old(store).board4(self), 8, true, i),
                    ));
                }
                store.create_level_3(q)
            },
        }
    }

    /// The southeast quadrant.
    pub fn se(self, store: &mut Store) -> (r: NodeId)
        requires
            old(store).wf(),
            old(store).has(self),
            old(store).level_of(self) >= 4,
        ensures
            final(store).wf(),
            final(store).appends(*old(store)),
            final(store).has(r),
            final(store).level_of(r) == old(store).level_of(self) - 1,
            old(store).is_interior(self) ==> r == old(store).se_of(self),
            old(store).is_leaf4(self) ==> final(store).is_leaf3(r) && final(store).board3(r)
                == Seq::new(8, |i: int| quad8_row(old(store).board4(self), 8, false, i)),
    {
        proof {
            assert(store.wf_node(self.idx()));
        }
        match store.get(self).base {
            crate::store::NodeBase::Interior { se, .. } => se,
            _ => {
                let b = store.board4_copy(self);
                let q = quad8(&b, 8, false);
                proof {
                    assert(q@ =~= Seq::new(
                        8,
                        |i: int| quad8_row(old(store).board4(self), 8, false, i),
                    ));
                }
                store.create_level_3(q)
            },
        }
    }

    /// The level-(L-1) node covering the central half of a level-L node:
    /// at level 5 it is spliced from the four leaf boards, above that it is
    /// the interior node of the four children's inner corners.
    pub fn center_subnode(self, store: &mut Store) -> (r: NodeId)
        requires
            old(store).wf(),
            old(store).has(self),
            old(store).level_of(self) >= 5,
        ensures
            final(store).wf(),
            final(store).appends(*old(store)),
            final(store).has(r),
            final(store).level_of(r) == old(store).level_of(self) - 1,
            old(store).level_of(self) == 5 ==> final(store).is_leaf4(r) && final(store).board4(r)
                == Seq::new(
                16,
                |i: int|
                    center4_row(
                        old(store).board4(old(store).nw_of(self)),
                        old(store).board4(old(store).ne_of(self)),
                        old(store).board4(old(store).sw_of(self)),
                        old(store).board4(old(store).se_of(self)),
                        i,
                    ),
            ),
            old(store).level_of(self) >= 6 ==> final(store).is_interior(r) && final(store).nw_of(r)
                == old(store).se_of(old(store).nw_of(self)) && final(store).ne_of(r) == old(
                store,
            ).sw_of(old(store).ne_of(self)) && final(store).sw_of(r) == old(store).ne_of(
                old(store).sw_of(self),
            ) && final(store).se_of(r) == old(store).nw_of(old(store).se_of(self)),
    {
        proof {
            assert(store.wf_node(self.idx()));
            assert(store.wf_node(store.nw_of(self).idx()));
            assert(store.wf_node(store.ne_of(self).idx()));
            assert(store.wf_node(store.sw_of(self).idx()));
            assert(store.wf_node(store.se_of(self).idx()));
        }
        let level = self.level(store);
        let nw = self.nw(store);
        let ne = self.ne(store);
        let sw = self.sw(store);
        let se = self.se(store);
        if level == 5 {
            let bnw = store.board4_copy(nw);
            let bne = store.board4_copy(ne);
            let bsw = store.board4_copy(sw);
            let bse = store.board4_copy(se);
            let board = center4(&bnw, &bne, &bsw, &bse);
            proof {
                assert(board@ =~= Seq::new(
                    16,
                    |i: int| center4_row(bnw@, bne@, bsw@, bse@, i),
                ));
            }
            store.create_leaf(board)
        } else {
            let inw = nw.se(store);
            let ine = ne.sw(store);
            let isw = sw.ne(store);
            let ise = se.nw(store);
            proof {
                lemma_children_sum_fits(*store, inw, ine, isw, ise);
            }
            store.create_interior(NodeTemplate { nw: inw, ne: ine, sw: isw, se: ise })
        }
    }
}


/// Bit `j` of the board row spliced from the east half of `a` and the west
/// half of `b`: the high eight bits come from `a`, the low eight from `b`.
proof fn lemma_horiz_row_bit(a: u16, b: u16, j: u16)
    by (bit_vector)
    requires
        j < 16,
    ensures
        bit16((a << 8u16) | (b >> 8u16), j) == (if j >= 8 {
            bit16(a, (j - 8) as u16)
        } else {
            bit16(b, (j + 8) as u16)
        }),
{
}

/// Bit `j` of the center eight bits of a 16-bit row is bit `j + 4` of the
/// row.
proof fn lemma_center_bit(x: u16, j: u8)
    by (bit_vector)
    requires
        j < 8,
    ensures
        bit8((x >> 4u16) as u8, j) == bit16(x, (j + 4) as u16),
{
}

/// The view of the node centered on the edge between two level-L siblings,
/// for L >= 6: its west half shows the east half of the west sibling and
/// its east half the west half of the east sibling.
proof fn lemma_centered_horiz_view(
    s0: Store,
    s1: Store,
    w: NodeId,
    e: NodeId,
    r: NodeId,
    u: int,
    v: int,
)
    requires
        s0.wf(),
        s1.wf(),
        s0.n() <= s1.n(),
        forall|i: int| 0 <= i < s0.n() ==> s1.nodes@[i] == s0.nodes@[i],
        s0.has(w),
        s0.has(e),
        6 <= s0.level_of(w) <= 63,
        s0.level_of(e) == s0.level_of(w),
        s1.has(r),
        s1.is_interior(r),
        s1.level_of(r) == s0.level_of(w) - 1,
        s1.nw_of(r) == s0.se_of(s0.ne_of(w)),
        s1.ne_of(r) == s0.sw_of(s0.nw_of(e)),
        s1.sw_of(r) == s0.ne_of(s0.se_of(w)),
        s1.se_of(r) == s0.nw_of(s0.sw_of(e)),
        crate::cells::in_range(s0.level_of(w) - 1, u, v),
    ensures
        s1.alive_at(r, u, v) == (if u < 0 {
            s0.alive_at(w, u + pow2((s0.level_of(w) - 1) as nat), v)
        } else {
            s0.alive_at(e, u - pow2((s0.level_of(w) - 1) as nat), v)
        }),
{
    let l = s0.level_of(w);
    assert(s0.wf_node(w.idx()));
    assert(s0.wf_node(e.idx()));
    assert(s0.wf_node(s0.nw_of(e).idx()));
    assert(s0.wf_node(s0.ne_of(w).idx()));
    assert(s0.wf_node(s0.sw_of(e).idx()));
    assert(s0.wf_node(s0.se_of(w).idx()));
    assert(s1.wf_node(r.idx()));
    let hh = pow2((l - 1) as nat) as int;
    let qq = pow2((l - 2) as nat) as int;
    let q = pow2((l - 3) as nat) as int;
    vstd::arithmetic::power2::lemma_pow2_adds((l - 3) as nat, 1);
    vstd::arithmetic::power2::lemma_pow2_adds((l - 2) as nat, 1);
    vstd::arithmetic::power2::lemma2_to64();
    assert(qq == 2 * q);
    assert(hh == 2 * qq);
    if u < 0 && v < 0 {
        assert(s1.alive_at(r, u, v) == s1.alive_at(s0.se_of(s0.ne_of(w)), u + q, v + q));
        lemma_alive_preserved(s0, s1, s0.se_of(s0.ne_of(w)), u + q, v + q);
        assert(s0.alive_at(w, u + hh, v) == s0.alive_at(s0.ne_of(w), u + hh - qq, v + qq));
        assert(s0.alive_at(s0.ne_of(w), u + qq, v + qq) == s0.alive_at(
            s0.se_of(s0.ne_of(w)),
            u + qq - q,
            v + qq - q,
        ));
    } else if u >= 0 && v < 0 {
        assert(s1.alive_at(r, u, v) == s1.alive_at(s0.sw_of(s0.nw_of(e)), u - q, v + q));
        lemma_alive_preserved(s0, s1, s0.sw_of(s0.nw_of(e)), u - q, v + q);
        assert(s0.alive_at(e, u - hh, v) == s0.alive_at(s0.nw_of(e), u - hh + qq, v + qq));
        assert(s0.alive_at(s0.nw_of(e), u - qq, v + qq) == s0.alive_at(
            s0.sw_of(s0.nw_of(e)),
            u - qq + q,
            v + qq - q,
        ));
    } else if u < 0 {
        assert(s1.alive_at(r, u, v) == s1.alive_at(s0.ne_of(s0.se_of(w)), u + q, v - q));
        lemma_alive_preserved(s0, s1, s0.ne_of(s0.se_of(w)), u + q, v - q);
        assert(s0.alive_at(w, u + hh, v) == s0.alive_at(s0.se_of(w), u + hh - qq, v - qq));
        assert(s0.alive_at(s0.se_of(w), u + qq, v - qq) == s0.alive_at(
            s0.ne_of(s0.se_of(w)),
            u + qq - q,
            v - qq + q,
        ));
    } else {
        assert(s1.alive_at(r, u, v) == s1.alive_at(s0.nw_of(s0.sw_of(e)), u - q, v - q));
        lemma_alive_preserved(s0, s1, s0.nw_of(s0.sw_of(e)), u - q, v - q);
        assert(s0.alive_at(e, u - hh, v) == s0.alive_at(s0.sw_of(e), u - hh + qq, v - qq));
        assert(s0.alive_at(s0.sw_of(e), u - qq, v - qq) == s0.alive_at(
            s0.nw_of(s0.sw_of(e)),
            u - qq + q,
            v - qq + q,
        ));
    }
}

/// The view of the node centered on the edge between two stacked level-L
/// siblings, for L >= 6: its north half shows the south half of the north
/// sibling and its south half the north half of the south sibling.
proof fn lemma_centered_vert_view(
    s0: Store,
    s1: Store,
    n: NodeId,
    s: NodeId,
    r: NodeId,
    u: int,
    v: int,
)
    requires
        s0.wf(),
        s1.wf(),
        s0.n() <= s1.n(),
        forall|i: int| 0 <= i < s0.n() ==> s1.nodes@[i] == s0.nodes@[i],
        s0.has(n),
        s0.has(s),
        6 <= s0.level_of(n) <= 63,
        s0.level_of(s) == s0.level_of(n),
        s1.has(r),
        s1.is_interior(r),
        s1.level_of(r) == s0.level_of(n) - 1,
        s1.nw_of(r) == s0.se_of(s0.sw_of(n)),
        s1.ne_of(r) == s0.sw_of(s0.se_of(n)),
        s1.sw_of(r) == s0.ne_of(s0.nw_of(s)),
        s1.se_of(r) == s0.nw_of(s0.ne_of(s)),
        crate::cells::in_range(s0.level_of(n) - 1, u, v),
    ensures
        s1.alive_at(r, u, v) == (if v < 0 {
            s0.alive_at(n, u, v + pow2((s0.level_of(n) - 1) as nat))
        } else {
            s0.alive_at(s, u, v - pow2((s0.level_of(n) - 1) as nat))
        }),
{
    let l = s0.level_of(n);
    assert(s0.wf_node(n.idx()));
    assert(s0.wf_node(s.idx()));
    assert(s0.wf_node(s0.sw_of(n).idx()));
    assert(s0.wf_node(s0.se_of(n).idx()));
    assert(s0.wf_node(s0.nw_of(s).idx()));
    assert(s0.wf_node(s0.ne_of(s).idx()));
    assert(s1.wf_node(r.idx()));
    let hh = pow2((l - 1) as nat) as int;
    let qq = pow2((l - 2) as nat) as int;
    let q = pow2((l - 3) as nat) as int;
    vstd::arithmetic::power2::lemma_pow2_adds((l - 3) as nat, 1);
    vstd::arithmetic::power2::lemma_pow2_adds((l - 2) as nat, 1);
    vstd::arithmetic::power2::lemma2_to64();
    assert(qq == 2 * q);
    assert(hh == 2 * qq);
    if u < 0 && v < 0 {
        assert(s1.alive_at(r, u, v) == s1.alive_at(s0.se_of(s0.sw_of(n)), u + q, v + q));
        lemma_alive_preserved(s0, s1, s0.se_of(s0.sw_of(n)), u + q, v + q);
        assert(s0.alive_at(n, u, v + hh) == s0.alive_at(s0.sw_of(n), u + qq, v + hh - qq));
        assert(s0.alive_at(s0.sw_of(n), u + qq, v + qq) == s0.alive_at(
            s0.se_of(s0.sw_of(n)),
            u + qq - q,
            v + qq - q,
        ));
    } else if u >= 0 && v < 0 {
        assert(s1.alive_at(r, u, v) == s1.alive_at(s0.sw_of(s0.se_of(n)), u - q, v + q));
        lemma_alive_preserved(s0, s1, s0.sw_of(s0.se_of(n)), u - q, v + q);
        assert(s0.alive_at(n, u, v + hh) == s0.alive_at(s0.se_of(n), u - qq, v + hh - qq));
        assert(s0.alive_at(s0.se_of(n), u - qq, v + qq) == s0.alive_at(
            s0.sw_of(s0.se_of(n)),
            u - qq + q,
            v + qq - q,
        ));
    } else if u < 0 {
        assert(s1.alive_at(r, u, v) == s1.alive_at(s0.ne_of(s0.nw_of(s)), u + q, v - q));
        lemma_alive_preserved(s0, s1, s0.ne_of(s0.nw_of(s)), u + q, v - q);
        assert(s0.alive_at(s, u, v - hh) == s0.alive_at(s0.nw_of(s), u + qq, v - hh + qq));
        assert(s0.alive_at(s0.nw_of(s), u + qq, v - qq) == s0.alive_at(
            s0.ne_of(s0.nw_of(s)),
            u + qq - q,
            v - qq + q,
        ));
    } else {
        assert(s1.alive_at(r, u, v) == s1.alive_at(s0.nw_of(s0.ne_of(s)), u - q, v - q));
        lemma_alive_preserved(s0, s1, s0.nw_of(s0.ne_of(s)), u - q, v - q);
        assert(s0.alive_at(s, u, v - hh) == s0.alive_at(s0.ne_of(s), u - qq, v - hh + qq));
        assert(s0.alive_at(s0.ne_of(s), u - qq, v - qq) == s0.alive_at(
            s0.nw_of(s0.ne_of(s)),
            u - qq + q,
            v - qq + q,
        ));
    }
}

/// The level-(L-1) node centered on the vertical edge between the west
/// node `w` and the east node `e`, both of level L >= 4: its west half
/// shows the east half of `w` and its east half the west half of `e`.
fn centered_horiz(store: &mut Store, w: NodeId, e: NodeId) -> (r: NodeId)
    requires
        old(store).wf(),
        old(store).has(w),
        old(store).has(e),
        4 <= old(store).level_of(w) <= 63,
        old(store).level_of(e) == old(store).level_of(w),
    ensures
        final(store).wf(),
        final(store).appends(*old(store)),
        final(store).has(r),
        final(store).level_of(r) == old(store).level_of(w) - 1,
        forall|u: int, v: int|
            crate::cells::in_range(old(store).level_of(w) - 1, u, v) ==> #[trigger] final(store).alive_at(r, u, v) == (if u < 0 {
                old(store).alive_at(w, u + pow2((old(store).level_of(w) - 1) as nat), v)
            } else {
                old(store).alive_at(e, u - pow2((old(store).level_of(w) - 1) as nat), v)
            }),
{
    proof {
        assert(store.wf_node(w.idx()));
        assert(store.wf_node(e.idx()));
        vstd::arithmetic::power2::lemma2_to64();
    }
    let ghost s0 = *store;
    let level = w.level(store);
    if level == 4 {
        let bw = store.board4_copy(w);
        let be = store.board4_copy(e);
        let grid = horiz16(&bw, &be);
        let board = center8(&grid);
        proof {
            assert(board@ =~= Seq::new(
                8,
                |i: int| (horiz_row(bw@, be@, i + 4) >> 4) as u8,
            ));
        }
        let r = store.create_level_3(board);
        proof {
            assert forall|u: int, v: int|
                crate::cells::in_range(3, u, v) implies #[trigger] store.alive_at(r, u, v) == (
            if u < 0 {
                s0.alive_at(w, u + 8, v)
            } else {
                s0.alive_at(e, u - 8, v)
            }) by {
                let row = grid@[v + 8];
                lemma_center_bit(row, (3 - u) as u8);
                lemma_horiz_row_bit(bw@[v + 8], be@[v + 8], (7 - u) as u16);
                assert(store.board3(r)[v + 4] == (row >> 4) as u8);
            }
        }
        r
    } else {
        let wne = w.ne(store);
        let wse = w.se(store);
        let enw = e.nw(store);
        let esw = e.sw(store);
        if level == 5 {
            proof {
                assert(store.wf_node(wne.idx()));
                assert(store.wf_node(wse.idx()));
                assert(store.wf_node(enw.idx()));
                assert(store.wf_node(esw.idx()));
            }
            let bnw = store.board4_copy(wne);
            let bne = store.board4_copy(enw);
            let bsw = store.board4_copy(wse);
            let bse = store.board4_copy(esw);
            let board = center4(&bnw, &bne, &bsw, &bse);
            proof {
                assert(board@ =~= Seq::new(
                    16,
                    |i: int| center4_row(bnw@, bne@, bsw@, bse@, i),
                ));
            }
            let r = store.create_leaf(board);
            proof {
                assert forall|u: int, v: int|
                    crate::cells::in_range(4, u, v) implies #[trigger] store.alive_at(r, u, v)
                    == (if u < 0 {
                    s0.alive_at(w, u + 16, v)
                } else {
                    s0.alive_at(e, u - 16, v)
                }) by {
                    assert(store.board4(r)[v + 8] == center4_row(bnw@, bne@, bsw@, bse@, v + 8));
                    if v < 0 {
                        lemma_horiz_row_bit(bnw@[v + 16], bne@[v + 16], (7 - u) as u16);
                        assert(s0.alive_at(w, u + 16, v) == s0.alive_at(s0.ne_of(w), u + 8, v
                            + 8));
                        assert(s0.alive_at(e, u - 16, v) == s0.alive_at(s0.nw_of(e), u - 8, v
                            + 8));
                    } else {
                        lemma_horiz_row_bit(bsw@[v], bse@[v], (7 - u) as u16);
                        assert(s0.alive_at(w, u + 16, v) == s0.alive_at(s0.se_of(w), u + 8, v
                            - 8));
                        assert(s0.alive_at(e, u - 16, v) == s0.alive_at(s0.sw_of(e), u - 8, v
                            - 8));
                    }
                }
            }
            r
        } else {
            proof {
                assert(store.wf_node(wne.idx()));
                assert(store.wf_node(wse.idx()));
                assert(store.wf_node(enw.idx()));
                assert(store.wf_node(esw.idx()));
            }
            let inw = wne.se(store);
            let ine = enw.sw(store);
            let isw = wse.ne(store);
            let ise = esw.nw(store);
            proof {
                lemma_children_sum_fits(*store, inw, ine, isw, ise);
            }
            let r = store.create_interior(NodeTemplate { nw: inw, ne: ine, sw: isw, se: ise });
            proof {
                let s1 = *store;
                assert(wne == s0.ne_of(w) && wse == s0.se_of(w) && enw == s0.nw_of(e) && esw
                    == s0.sw_of(e));
                assert(s1.nodes@[wne.idx()] == s0.nodes@[wne.idx()]);
                assert(s1.nodes@[wse.idx()] == s0.nodes@[wse.idx()]);
                assert(s1.nodes@[enw.idx()] == s0.nodes@[enw.idx()]);
                assert(s1.nodes@[esw.idx()] == s0.nodes@[esw.idx()]);
                assert(s1.nw_of(r) == s0.se_of(s0.ne_of(w)));
                assert(s1.ne_of(r) == s0.sw_of(s0.nw_of(e)));
                assert(s1.sw_of(r) == s0.ne_of(s0.se_of(w)));
                assert(s1.se_of(r) == s0.nw_of(s0.sw_of(e)));
                assert forall|u: int, v: int|
                    crate::cells::in_range(s0.level_of(w) - 1, u, v) implies #[trigger] s1.alive_at(
                    r,
                    u,
                    v,
                ) == (if u < 0 {
                    s0.alive_at(w, u + pow2((s0.level_of(w) - 1) as nat), v)
                } else {
                    s0.alive_at(e, u - pow2((s0.level_of(w) - 1) as nat), v)
                }) by {
                    lemma_centered_horiz_view(s0, s1, w, e, r, u, v);
                }
            }
            r
        }
    }
}

/// The level-(L-1) node centered on the horizontal edge between the north
/// node `n` and the south node `s`, both of level L >= 4: its north half
/// shows the south half of `n` and its south half the north half of `s`.
fn centered_vert(store: &mut Store, n: NodeId, s: NodeId) -> (r: NodeId)
    requires
        old(store).wf(),
        old(store).has(n),
        old(store).has(s),
        4 <= old(store).level_of(n) <= 63,
        old(store).level_of(s) == old(store).level_of(n),
    ensures
        final(store).wf(),
        final(store).appends(*old(store)),
        final(store).has(r),
        final(store).level_of(r) == old(store).level_of(n) - 1,
        forall|u: int, v: int|
            crate::cells::in_range(old(store).level_of(n) - 1, u, v) ==> #[trigger] final(store).alive_at(r, u, v) == (if v < 0 {
                old(store).alive_at(n, u, v + pow2((old(store).level_of(n) - 1) as nat))
            } else {
                old(store).alive_at(s, u, v - pow2((old(store).level_of(n) - 1) as nat))
            }),
{
    proof {
        assert(store.wf_node(n.idx()));
        assert(store.wf_node(s.idx()));
        vstd::arithmetic::power2::lemma2_to64();
    }
    let ghost s0 = *store;
    let level = n.level(store);
    if level == 4 {
        let bn = store.board4_copy(n);
        let bs = store.board4_copy(s);
        let grid = vert16(&bn, &bs);
        let board = center8(&grid);
        proof {
            assert(board@ =~= Seq::new(
                8,
                |i: int| (vert_row(bn@, bs@, i + 4) >> 4) as u8,
            ));
        }
        let r = store.create_level_3(board);
        proof {
            assert forall|u: int, v: int|
                crate::cells::in_range(3, u, v) implies #[trigger] store.alive_at(r, u, v) == (
            if v < 0 {
                s0.alive_at(n, u, v + 8)
            } else {
                s0.alive_at(s, u, v - 8)
            }) by {
                let row = grid@[v + 8];
                lemma_center_bit(row, (3 - u) as u8);
                assert(store.board3(r)[v + 4] == (row >> 4) as u8);
            }
        }
        r
    } else {
        let nsw = n.sw(store);
        let nse = n.se(store);
        let snw = s.nw(store);
        let sne = s.ne(store);
        if level == 5 {
            proof {
                assert(store.wf_node(nsw.idx()));
                assert(store.wf_node(nse.idx()));
                assert(store.wf_node(snw.idx()));
                assert(store.wf_node(sne.idx()));
            }
            let bnw = store.board4_copy(nsw);
            let bne = store.board4_copy(nse);
            let bsw = store.board4_copy(snw);
            let bse = store.board4_copy(sne);
            let board = center4(&bnw, &bne, &bsw, &bse);
            proof {
                assert(board@ =~= Seq::new(
                    16,
                    |i: int| center4_row(bnw@, bne@, bsw@, bse@, i),
                ));
            }
            let r = store.create_leaf(board);
            proof {
                assert forall|u: int, v: int|
                    crate::cells::in_range(4, u, v) implies #[trigger] store.alive_at(r, u, v)
                    == (if v < 0 {
                    s0.alive_at(n, u, v + 16)
                } else {
                    s0.alive_at(s, u, v - 16)
                }) by {
                    assert(store.board4(r)[v + 8] == center4_row(bnw@, bne@, bsw@, bse@, v + 8));
                    if v < 0 {
                        lemma_horiz_row_bit(bnw@[v + 16], bne@[v + 16], (7 - u) as u16);
                        assert(s0.alive_at(n, u, v + 16) == (if u < 0 {
                            s0.alive_at(s0.sw_of(n), u + 8, v + 8)
                        } else {
                            s0.alive_at(s0.se_of(n), u - 8, v + 8)
                        }));
                    } else {
                        lemma_horiz_row_bit(bsw@[v], bse@[v], (7 - u) as u16);
                        assert(s0.alive_at(s, u, v - 16) == (if u < 0 {
                            s0.alive_at(s0.nw_of(s), u + 8, v - 8)
                        } else {
                            s0.alive_at(s0.ne_of(s), u - 8, v - 8)
                        }));
                    }
                }
            }
            r
        } else {
            proof {
                assert(store.wf_node(nsw.idx()));
                assert(store.wf_node(nse.idx()));
                assert(store.wf_node(snw.idx()));
                assert(store.wf_node(sne.idx()));
            }
            let inw = nsw.se(store);
            let ine = nse.sw(store);
            let isw = snw.ne(store);
            let ise = sne.nw(store);
            proof {
                lemma_children_sum_fits(*store, inw, ine, isw, ise);
            }
            let r = store.create_interior(NodeTemplate { nw: inw, ne: ine, sw: isw, se: ise });
            proof {
                let s1 = *store;
                assert(nsw == s0.sw_of(n) && nse == s0.se_of(n) && snw == s0.nw_of(s) && sne
                    == s0.ne_of(s));
                assert(s1.nodes@[nsw.idx()] == s0.nodes@[nsw.idx()]);
                assert(s1.nodes@[nse.idx()] == s0.nodes@[nse.idx()]);
                assert(s1.nodes@[snw.idx()] == s0.nodes@[snw.idx()]);
                assert(s1.nodes@[sne.idx()] == s0.nodes@[sne.idx()]);
                assert(s1.nw_of(r) == s0.se_of(s0.sw_of(n)));
                assert(s1.ne_of(r) == s0.sw_of(s0.se_of(n)));
                assert(s1.sw_of(r) == s0.ne_of(s0.nw_of(s)));
                assert(s1.se_of(r) == s0.nw_of(s0.ne_of(s)));
                assert forall|u: int, v: int|
                    crate::cells::in_range(s0.level_of(n) - 1, u, v) implies #[trigger] s1.alive_at(
                    r,
                    u,
                    v,
                ) == (if v < 0 {
                    s0.alive_at(n, u, v + pow2((s0.level_of(n) - 1) as nat))
                } else {
                    s0.alive_at(s, u, v - pow2((s0.level_of(n) - 1) as nat))
                }) by {
                    lemma_centered_vert_view(s0, s1, n, s, r, u, v);
                }
            }
            r
        }
    }
}

impl NodeId {
    /// The level-(L-2) node centered horizontally on the top edge of the
    /// central square: its cell at (x, y) is the node's cell at
    /// (x, y - 2^(L-2)).
    pub fn north_subsubnode(self, store: &mut Store) -> (r: NodeId)
        requires
            old(store).wf(),
            old(store).has(self),
            old(store).level_of(self) >= 5,
            old(store).is_interior(self),
        ensures
            final(store).wf(),
            final(store).appends(*old(store)),
            final(store).has(r),
            final(store).level_of(r) == old(store).level_of(self) - 2,
            forall|u: int, v: int|
                crate::cells::in_range(old(store).level_of(self) - 2, u, v)
                    ==> #[trigger] final(store).alive_at(r, u, v) == old(store).alive_at(
                    self,
                    u,
                    v - pow2((old(store).level_of(self) - 2) as nat),
                ),
    {
        proof {
            assert(store.wf_node(self.idx()));
        }
        let ghost s0 = *store;
        let w = self.nw(store);
        let e = self.ne(store);
        let ghost sm = *store;
        let r = centered_horiz(store, w, e);
        proof {
            let s1 = *store;
            let l = s0.level_of(self);
            let qv = pow2((l - 2) as nat) as int;
            vstd::arithmetic::power2::lemma_pow2_adds((l - 3) as nat, 1);
            vstd::arithmetic::power2::lemma2_to64();
            assert forall|u: int, v: int|
                crate::cells::in_range(l - 2, u, v) implies #[trigger] s1.alive_at(r, u, v)
                == s0.alive_at(self, u, v - qv) by {
                lemma_alive_preserved(s0, sm, w, u + qv, v);
                lemma_alive_preserved(s0, sm, e, u - qv, v);
                assert(s0.alive_at(self, u, v - qv) == (if u < 0 {
                    s0.alive_at(s0.nw_of(self), u + qv, v)
                } else {
                    s0.alive_at(s0.ne_of(self), u - qv, v)
                }));
            }
        }
        r
    }

    /// The level-(L-2) node centered horizontally on the bottom edge of the
    /// central square: its cell at (x, y) is the node's cell at
    /// (x, y + 2^(L-2)).
    pub fn south_subsubnode(self, store: &mut Store) -> (r: NodeId)
        requires
            old(store).wf(),
            old(store).has(self),
            old(store).level_of(self) >= 5,
            old(store).is_interior(self),
        ensures
            final(store).wf(),
            final(store).appends(*old(store)),
            final(store).has(r),
            final(store).level_of(r) == old(store).level_of(self) - 2,
            forall|u: int, v: int|
                crate::cells::in_range(old(store).level_of(self) - 2, u, v)
                    ==> #[trigger] final(store).alive_at(r, u, v) == old(store).alive_at(
                    self,
                    u,
                    v + pow2((old(store).level_of(self) - 2) as nat),
                ),
    {
        proof {
            assert(store.wf_node(self.idx()));
        }
        let ghost s0 = *store;
        let w = self.sw(store);
        let e = self.se(store);
        let ghost sm = *store;
        let r = centered_horiz(store, w, e);
        proof {
            let s1 = *store;
            let l = s0.level_of(self);
            let qv = pow2((l - 2) as nat) as int;
            vstd::arithmetic::power2::lemma_pow2_adds((l - 3) as nat, 1);
            vstd::arithmetic::power2::lemma2_to64();
            assert forall|u: int, v: int|
                crate::cells::in_range(l - 2, u, v) implies #[trigger] s1.alive_at(r, u, v)
                == s0.alive_at(self, u, v + qv) by {
                lemma_alive_preserved(s0, sm, w, u + qv, v);
                lemma_alive_preserved(s0, sm, e, u - qv, v);
                assert(s0.alive_at(self, u, v + qv) == (if u < 0 {
                    s0.alive_at(s0.sw_of(self), u + qv, v)
                } else {
                    s0.alive_at(s0.se_of(self), u - qv, v)
                }));
            }
        }
        r
    }

    /// The level-(L-2) node centered vertically on the left edge of the
    /// central square: its cell at (x, y) is the node's cell at
    /// (x - 2^(L-2), y).
    pub fn west_subsubnode(self, store: &mut Store) -> (r: NodeId)
        requires
            old(store).wf(),
            old(store).has(self),
            old(store).level_of(self) >= 5,
            old(store).is_interior(self),
        ensures
            final(store).wf(),
            final(store).appends(*old(store)),
            final(store).has(r),
            final(store).level_of(r) == old(store).level_of(self) - 2,
            forall|u: int, v: int|
                crate::cells::in_range(old(store).level_of(self) - 2, u, v)
                    ==> #[trigger] final(store).alive_at(r, u, v) == old(store).alive_at(
                    self,
                    u - pow2((old(store).level_of(self) - 2) as nat),
                    v,
                ),
    {
        proof {
            assert(store.wf_node(self.idx()));
        }
        let ghost s0 = *store;
        let n = self.nw(store);
        let s = self.sw(store);
        let ghost sm = *store;
        let r = centered_vert(store, n, s);
        proof {
            let s1 = *store;
            let l = s0.level_of(self);
            let qv = pow2((l - 2) as nat) as int;
            vstd::arithmetic::power2::lemma_pow2_adds((l - 3) as nat, 1);
            vstd::arithmetic::power2::lemma2_to64();
            assert forall|u: int, v: int|
                crate::cells::in_range(l - 2, u, v) implies #[trigger] s1.alive_at(r, u, v)
                == s0.alive_at(self, u - qv, v) by {
                lemma_alive_preserved(s0, sm, n, u, v + qv);
                lemma_alive_preserved(s0, sm, s, u, v - qv);
                assert(s0.alive_at(self, u - qv, v) == (if v < 0 {
                    s0.alive_at(s0.nw_of(self), u, v + qv)
                } else {
                    s0.alive_at(s0.sw_of(self), u, v - qv)
                }));
            }
        }
        r
    }

    /// The level-(L-2) node centered vertically on the right edge of the
    /// central square: its cell at (x, y) is the node's cell at
    /// (x + 2^(L-2), y).
    pub fn east_subsubnode(self, store: &mut Store) -> (r: NodeId)
        requires
            old(store).wf(),
            old(store).has(self),
            old(store).level_of(self) >= 5,
            old(store).is_interior(self),
        ensures
            final(store).wf(),
            final(store).appends(*old(store)),
            final(store).has(r),
            final(store).level_of(r) == old(store).level_of(self) - 2,
            forall|u: int, v: int|
                crate::cells::in_range(old(store).level_of(self) - 2, u, v)
                    ==> #[trigger] final(store).alive_at(r, u, v) == old(store).alive_at(
                    self,
                    u + pow2((old(store).level_of(self) - 2) as nat),
                    v,
                ),
    {
        proof {
            assert(store.wf_node(self.idx()));
        }
        let ghost s0 = *store;
        let n = self.ne(store);
        let s = self.se(store);
        let ghost sm = *store;
        let r = centered_vert(store, n, s);
        proof {
            let s1 = *store;
            let l = s0.level_of(self);
            let qv = pow2((l - 2) as nat) as int;
            vstd::arithmetic::power2::lemma_pow2_adds((l - 3) as nat, 1);
            vstd::arithmetic::power2::lemma2_to64();
            assert forall|u: int, v: int|
                crate::cells::in_range(l - 2, u, v) implies #[trigger] s1.alive_at(r, u, v)
                == s0.alive_at(self, u + qv, v) by {
                lemma_alive_preserved(s0, sm, n, u, v + qv);
                lemma_alive_preserved(s0, sm, s, u, v - qv);
                assert(s0.alive_at(self, u + qv, v) == (if v < 0 {
                    s0.alive_at(s0.ne_of(self), u, v + qv)
                } else {
                    s0.alive_at(s0.se_of(self), u, v - qv)
                }));
            }
        }
        r
    }

    /// Re-centers the node inside a square of twice its side: the result is
    /// one level up, holds exactly the same cells at the same coordinates,
    /// and is empty outside the original square. Each quadrant of the
    /// result holds the matching quadrant of the node in its inner corner,
    /// so taking the result's center sub-node rebuilds the node.
    pub fn expand(self, store: &mut Store) -> (r: NodeId)
        requires
            old(store).wf(),
            old(store).has(self),
            5 <= old(store).level_of(self) <= 63,
        ensures
            final(store).wf(),
            final(store).appends(*old(store)),
            final(store).has(r),
            final(store).level_of(r) == old(store).level_of(self) + 1,
            final(store).pop_of(r) == old(store).pop_of(self),
            forall|x: int, y: int|
                #[trigger] final(store).alive_at(r, x, y) == old(store).alive_at(self, x, y),
            final(store).is_interior(r),
            final(store).is_interior(final(store).nw_of(r)) && final(store).se_of(
                final(store).nw_of(r),
            ) == old(store).nw_of(self),
            final(store).is_interior(final(store).ne_of(r)) && final(store).sw_of(
                final(store).ne_of(r),
            ) == old(store).ne_of(self),
            final(store).is_interior(final(store).sw_of(r)) && final(store).ne_of(
                final(store).sw_of(r),
            ) == old(store).sw_of(self),
            final(store).is_interior(final(store).se_of(r)) && final(store).nw_of(
                final(store).se_of(r),
            ) == old(store).se_of(self),
    {
        proof {
            assert(store.wf_node(self.idx()));
        }
        let ghost s0 = *store;
        let level = self.level(store);
        let nw = self.nw(store);
        let ne = self.ne(store);
        let sw = self.sw(store);
        let se = self.se(store);
        let empty = store.create_empty(level - 1);
        proof {
            lemma_children_sum_fits_padded(*store, nw, empty);
            lemma_children_sum_fits_padded(*store, ne, empty);
            lemma_children_sum_fits_padded(*store, sw, empty);
            lemma_children_sum_fits_padded(*store, se, empty);
        }
        let qnw = store.create_interior(
            NodeTemplate { nw: empty, ne: empty, sw: empty, se: nw },
        );
        let qne = store.create_interior(
            NodeTemplate { nw: empty, ne: empty, sw: ne, se: empty },
        );
        let qsw = store.create_interior(
            NodeTemplate { nw: empty, ne: sw, sw: empty, se: empty },
        );
        let qse = store.create_interior(
            NodeTemplate { nw: se, ne: empty, sw: empty, se: empty },
        );
        let r = store.create_interior(NodeTemplate { nw: qnw, ne: qne, sw: qsw, se: qse });
        proof {
            let s1 = *store;
            assert forall|x: int, y: int|
                #[trigger] s1.alive_at(r, x, y) == s0.alive_at(self, x, y) by {
                lemma_expand_view(s0, s1, self, r, empty, x, y);
            }
        }
        r
    }
}

/// The population of one node of level at most 63 plus three empties fits
/// in a `u128`.
proof fn lemma_children_sum_fits_padded(s: Store, a: NodeId, empty: NodeId)
    requires
        s.wf(),
        s.has(a),
        s.has(empty),
        s.level_of(a) <= 63,
        s.pop_of(empty) == 0,
    ensures
        s.pop_of(a) + s.pop_of(empty) + s.pop_of(empty) + s.pop_of(empty) <= u128::MAX,
        s.pop_of(empty) + s.pop_of(empty) + s.pop_of(a) + s.pop_of(empty) <= u128::MAX,
{
}

/// The view of an expanded node: cell for cell the view of the node it was
/// expanded from.
proof fn lemma_expand_view(
    s0: Store,
    s1: Store,
    id: NodeId,
    r: NodeId,
    empty: NodeId,
    x: int,
    y: int,
)
    requires
        s0.wf(),
        s1.wf(),
        s1.preserves(s0),
        s0.has(id),
        5 <= s0.level_of(id) <= 63,
        s0.is_interior(id),
        s1.has(r),
        s1.has(empty),
        s1.pop_of(empty) == 0,
        s1.level_of(empty) == s0.level_of(id) - 1,
        s1.level_of(r) == s0.level_of(id) + 1,
        s1.is_interior(r),
        ({
            let qnw = s1.nw_of(r);
            let qne = s1.ne_of(r);
            let qsw = s1.sw_of(r);
            let qse = s1.se_of(r);
            &&& s1.has(qnw) && s1.is_interior(qnw) && s1.nw_of(qnw) == empty && s1.ne_of(qnw)
                == empty && s1.sw_of(qnw) == empty && s1.se_of(qnw) == s0.nw_of(id)
            &&& s1.has(qne) && s1.is_interior(qne) && s1.nw_of(qne) == empty && s1.ne_of(qne)
                == empty && s1.sw_of(qne) == s0.ne_of(id) && s1.se_of(qne) == empty
            &&& s1.has(qsw) && s1.is_interior(qsw) && s1.nw_of(qsw) == empty && s1.ne_of(qsw)
                == s0.sw_of(id) && s1.sw_of(qsw) == empty && s1.se_of(qsw) == empty
            &&& s1.has(qse) && s1.is_interior(qse) && s1.nw_of(qse) == s0.se_of(id) && s1.ne_of(
                qse,
            ) == empty && s1.sw_of(qse) == empty && s1.se_of(qse) == empty
        }),
    ensures
        s1.alive_at(r, x, y) == s0.alive_at(id, x, y),
{
    let l = s0.level_of(id);
    assert(s0.wf_node(id.idx()));
    assert(s1.wf_node(r.idx()));
    assert(s1.wf_node(s1.nw_of(r).idx()));
    assert(s1.wf_node(s1.ne_of(r).idx()));
    assert(s1.wf_node(s1.sw_of(r).idx()));
    assert(s1.wf_node(s1.se_of(r).idx()));
    let q = pow2((l - 1) as nat) as int;
    let h = pow2((l - 2) as nat) as int;
    vstd::arithmetic::power2::lemma_pow2_adds((l - 2) as nat, 1);
    vstd::arithmetic::power2::lemma2_to64();
    assert(q == 2 * h);
    lemma_alive_preserved(s0, s1, id, x, y);
    assert(s1.alive_at(id, x, y) == s0.alive_at(id, x, y));
    if x < 0 && y < 0 {
        let c = s1.nw_of(r);
        assert(s1.alive_at(r, x, y) == s1.alive_at(c, x + q, y + q));
        if x + q >= 0 && y + q >= 0 {
            assert(s1.alive_at(c, x + q, y + q) == s1.alive_at(s0.nw_of(id), x + q - h, y + q
                - h));
            assert(s1.alive_at(id, x, y) == s1.alive_at(s1.nw_of(id), x + h, y + h));
        } else {
            if x + q < 0 && y + q < 0 {
                lemma_pop_zero_dead(s1, empty, x + q + h, y + q + h);
            } else if x + q >= 0 {
                lemma_pop_zero_dead(s1, empty, x + q - h, y + q + h);
            } else {
                lemma_pop_zero_dead(s1, empty, x + q + h, y + q - h);
            }
            assert(!s1.alive_at(c, x + q, y + q));
            if s1.alive_at(id, x, y) {
                lemma_alive_in_range(s1, id, x, y);
                assert(false);
            }
        }
    } else if x >= 0 && y < 0 {
        let c = s1.ne_of(r);
        assert(s1.alive_at(r, x, y) == s1.alive_at(c, x - q, y + q));
        if x - q < 0 && y + q >= 0 {
            assert(s1.alive_at(c, x - q, y + q) == s1.alive_at(s0.ne_of(id), x - q + h, y + q
                - h));
            assert(s1.alive_at(id, x, y) == s1.alive_at(s1.ne_of(id), x - h, y + h));
        } else {
            if x - q >= 0 && y + q < 0 {
                lemma_pop_zero_dead(s1, empty, x - q - h, y + q + h);
            } else if x - q >= 0 {
                lemma_pop_zero_dead(s1, empty, x - q - h, y + q - h);
            } else {
                lemma_pop_zero_dead(s1, empty, x - q + h, y + q + h);
            }
            assert(!s1.alive_at(c, x - q, y + q));
            if s1.alive_at(id, x, y) {
                lemma_alive_in_range(s1, id, x, y);
                assert(false);
            }
        }
    } else if x < 0 {
        let c = s1.sw_of(r);
        assert(s1.alive_at(r, x, y) == s1.alive_at(c, x + q, y - q));
        if x + q >= 0 && y - q < 0 {
            assert(s1.alive_at(c, x + q, y - q) == s1.alive_at(s0.sw_of(id), x + q - h, y - q
                + h));
            assert(s1.alive_at(id, x, y) == s1.alive_at(s1.sw_of(id), x + h, y - h));
        } else {
            if x + q < 0 && y - q < 0 {
                lemma_pop_zero_dead(s1, empty, x + q + h, y - q + h);
            } else if x + q < 0 {
                lemma_pop_zero_dead(s1, empty, x + q + h, y - q - h);
            } else {
                lemma_pop_zero_dead(s1, empty, x + q - h, y - q - h);
            }
            assert(!s1.alive_at(c, x + q, y - q));
            if s1.alive_at(id, x, y) {
                lemma_alive_in_range(s1, id, x, y);
                assert(false);
            }
        }
    } else {
        let c = s1.se_of(r);
        assert(s1.alive_at(r, x, y) == s1.alive_at(c, x - q, y - q));
        if x - q < 0 && y - q < 0 {
            assert(s1.alive_at(c, x - q, y - q) == s1.alive_at(s0.se_of(id), x - q + h, y - q
                + h));
            assert(s1.alive_at(id, x, y) == s1.alive_at(s1.se_of(id), x - h, y - h));
        } else {
            if x - q >= 0 && y - q >= 0 {
                lemma_pop_zero_dead(s1, empty, x - q - h, y - q - h);
            } else if x - q >= 0 {
                lemma_pop_zero_dead(s1, empty, x - q - h, y - q + h);
            } else {
                lemma_pop_zero_dead(s1, empty, x - q + h, y - q - h);
            }
            assert(!s1.alive_at(c, x - q, y - q));
            if s1.alive_at(id, x, y) {
                lemma_alive_in_range(s1, id, x, y);
                assert(false);
            }
        }
    }
}

} // verus!
