//! The recursive Hashlife evolution engine: the `jump` operator, which
//! advances a node by the maximal 2^(L-2) generations, and the `step`
//! operator, which advances by 2^k generations for the store's current step
//! exponent k.
//!
//! Both operators return the level-(L-1) node holding the advanced central
//! region, and both memoize their results per node. Jump results stay valid
//! forever; step results are valid only for the exponent they were computed
//! at, which is why the store clears the step cache when the exponent
//! changes. At the maximal exponent k = L-2 the step operator delegates to
//! jump, so the two caches agree there.
//!
//! The contracts pin the computed boards exactly at the leaf level: for a
//! level-5 node both operators, and both caches, return precisely the
//! spliced nine-board result `step5_board`. Above level 5 the contracts fix
//! the result's level, the empty case and the cache discipline, but not the
//! cells: that the recursion advances the center by exactly 2^k generations
//! of the rule is checked by the oscillator and spaceship tests, not proved.

use vstd::prelude::*;

use crate::board::step5_board;
use crate::board::center4_board;
use crate::board::combine4_board;
use crate::board::horiz_board;
use crate::board::step_iter;
use crate::board::vert_board;
use crate::board::center4;
use crate::board::combine4;
use crate::board::horiz16;
use crate::board::jump16;
use crate::board::step16;
use crate::board::vert16;
use crate::store::NodeId;
use crate::store::NodeTemplate;
use crate::store::Store;
use crate::store::children_of;
use crate::store::lemma_children_sum_fits;

verus! {

/// Advances a level-5 node, given as its four level-4 children, by `2^k`
/// generations for k < 3. Returns the level-4 leaf holding the advanced
/// center.
pub fn step_level_5(
    store: &mut Store,
    step_log_2: u8,
    nw: NodeId,
    ne: NodeId,
    sw: NodeId,
    se: NodeId,
) -> (r: NodeId)
    requires
        old(store).wf(),
        old(store).has(nw),
        old(store).has(ne),
        old(store).has(sw),
        old(store).has(se),
        old(store).is_leaf4(nw),
        old(store).is_leaf4(ne),
        old(store).is_leaf4(sw),
        old(store).is_leaf4(se),
        step_log_2 < 3,
    ensures
        final(store).wf(),
        final(store).appends(*old(store)),
        final(store).has(r),
        final(store).is_leaf4(r),
        final(store).level_of(r) == 4,
        final(store).board4(r) == step5_board(
            old(store).board4(nw),
            old(store).board4(ne),
            old(store).board4(sw),
            old(store).board4(se),
            0,
            vstd::arithmetic::power2::pow2(step_log_2 as nat),
        ),
{
    proof {
        assert(store.wf_node(nw.idx()));
        assert(store.wf_node(ne.idx()));
        assert(store.wf_node(sw.idx()));
        assert(store.wf_node(se.idx()));
    }
    let bnw = store.board4_copy(nw);
    let bne = store.board4_copy(ne);
    let bsw = store.board4_copy(sw);
    let bse = store.board4_copy(se);

    let b = horiz16(&bnw, &bne);
    let d = vert16(&bnw, &bsw);
    let e = center4(&bnw, &bne, &bsw, &bse);
    let f = vert16(&bne, &bse);
    let h = horiz16(&bsw, &bse);

    let tw = combine4(&bnw, &b, &d, &e);
    let tx = combine4(&b, &bne, &e, &f);
    let ty = combine4(&d, &e, &bsw, &h);
    let tz = combine4(&e, &f, &h, &bse);

    let w = step16(&tw, step_log_2);
    let x = step16(&tx, step_log_2);
    let y = step16(&ty, step_log_2);
    let z = step16(&tz, step_log_2);

    let board = combine4(&w, &x, &y, &z);
    proof {
        lemma_board_eqs(bnw@, bne@, bsw@, bse@, b@, d@, e@, f@, h@);
        assert(tw@ =~= combine4_board(bnw@, b@, d@, e@));
        assert(tx@ =~= combine4_board(b@, bne@, e@, f@));
        assert(ty@ =~= combine4_board(d@, e@, bsw@, h@));
        assert(tz@ =~= combine4_board(e@, f@, h@, bse@));
        assert(board@ =~= combine4_board(w@, x@, y@, z@));
    }
    store.create_leaf(board)
}

/// The four assembled edge and center boards equal their specifications,
/// and a board advanced zero generations is itself.
proof fn lemma_board_eqs(
    bnw: Seq<u16>,
    bne: Seq<u16>,
    bsw: Seq<u16>,
    bse: Seq<u16>,
    b: Seq<u16>,
    d: Seq<u16>,
    e: Seq<u16>,
    f: Seq<u16>,
    h: Seq<u16>,
)
    requires
        b.len() == 16 && forall|i: int|
            0 <= i < 16 ==> b[i] == crate::board::horiz_row(bnw, bne, i),
        d.len() == 16 && forall|i: int|
            0 <= i < 16 ==> d[i] == crate::board::vert_row(bnw, bsw, i),
        e.len() == 16 && forall|i: int|
            0 <= i < 16 ==> e[i] == crate::board::center4_row(bnw, bne, bsw, bse, i),
        f.len() == 16 && forall|i: int|
            0 <= i < 16 ==> f[i] == crate::board::vert_row(bne, bse, i),
        h.len() == 16 && forall|i: int|
            0 <= i < 16 ==> h[i] == crate::board::horiz_row(bsw, bse, i),
    ensures
        b == horiz_board(bnw, bne),
        d == vert_board(bnw, bsw),
        e == center4_board(bnw, bne, bsw, bse),
        f == vert_board(bne, bse),
        h == horiz_board(bsw, bse),
        step_iter(bnw, 0) == bnw,
        step_iter(bne, 0) == bne,
        step_iter(bsw, 0) == bsw,
        step_iter(bse, 0) == bse,
        step_iter(b, 0) == b,
        step_iter(d, 0) == d,
        step_iter(e, 0) == e,
        step_iter(f, 0) == f,
        step_iter(h, 0) == h,
{
    assert(b =~= horiz_board(bnw, bne));
    assert(d =~= vert_board(bnw, bsw));
    assert(e =~= center4_board(bnw, bne, bsw, bse));
    assert(f =~= vert_board(bne, bse));
    assert(h =~= horiz_board(bsw, bse));
}

/// Advances a level-5 node, given as its four level-4 children, by the
/// maximal 2^3 = 8 generations. Returns the level-4 leaf holding the
/// advanced center: the nine overlapping boards are pre-advanced four
/// generations and the four tiles cut from them are advanced four more.
pub fn jump_level_5(store: &mut Store, nw: NodeId, ne: NodeId, sw: NodeId, se: NodeId) -> (r:
    NodeId)
    requires
        old(store).wf(),
        old(store).has(nw),
        old(store).has(ne),
        old(store).has(sw),
        old(store).has(se),
        old(store).is_leaf4(nw),
        old(store).is_leaf4(ne),
        old(store).is_leaf4(sw),
        old(store).is_leaf4(se),
    ensures
        final(store).wf(),
        final(store).appends(*old(store)),
        final(store).has(r),
        final(store).is_leaf4(r),
        final(store).level_of(r) == 4,
        final(store).board4(r) == step5_board(
            old(store).board4(nw),
            old(store).board4(ne),
            old(store).board4(sw),
            old(store).board4(se),
            4,
            4,
        ),
{
    proof {
        assert(store.wf_node(nw.idx()));
        assert(store.wf_node(ne.idx()));
        assert(store.wf_node(sw.idx()));
        assert(store.wf_node(se.idx()));
    }
    let bnw = store.board4_copy(nw);
    let bne = store.board4_copy(ne);
    let bsw = store.board4_copy(sw);
    let bse = store.board4_copy(se);

    let gb = horiz16(&bnw, &bne);
    let gd = vert16(&bnw, &bsw);
    let ge = center4(&bnw, &bne, &bsw, &bse);
    let gf = vert16(&bne, &bse);
    let gh = horiz16(&bsw, &bse);

    let a = jump16(&bnw);
    let b = jump16(&gb);
    let c = jump16(&bne);
    let d = jump16(&gd);
    let e = jump16(&ge);
    let f = jump16(&gf);
    let g = jump16(&bsw);
    let h = jump16(&gh);
    let i = jump16(&bse);

    let tw = combine4(&a, &b, &d, &e);
    let tx = combine4(&b, &c, &e, &f);
    let ty = combine4(&d, &e, &g, &h);
    let tz = combine4(&e, &f, &h, &i);

    let w = jump16(&tw);
    let x = jump16(&tx);
    let y = jump16(&ty);
    let z = jump16(&tz);

    let board = combine4(&w, &x, &y, &z);
    proof {
        lemma_board_eqs(bnw@, bne@, bsw@, bse@, gb@, gd@, ge@, gf@, gh@);
        assert(tw@ =~= combine4_board(a@, b@, d@, e@));
        assert(tx@ =~= combine4_board(b@, c@, e@, f@));
        assert(ty@ =~= combine4_board(d@, e@, g@, h@));
        assert(tz@ =~= combine4_board(e@, f@, h@, i@));
        assert(board@ =~= combine4_board(w@, x@, y@, z@));
    }
    store.create_leaf(board)
}

/// Interns the level-(L) tile whose quadrants are four level-(L-1) nodes
/// of level at most 62.
fn tile(store: &mut Store, nw: NodeId, ne: NodeId, sw: NodeId, se: NodeId) -> (r: NodeId)
    requires
        old(store).wf(),
        old(store).has(nw),
        old(store).has(ne),
        old(store).has(sw),
        old(store).has(se),
        4 <= old(store).level_of(nw) <= 62,
        old(store).level_of(ne) == old(store).level_of(nw),
        old(store).level_of(sw) == old(store).level_of(nw),
        old(store).level_of(se) == old(store).level_of(nw),
    ensures
        final(store).wf(),
        final(store).appends(*old(store)),
        final(store).has(r),
        final(store).level_of(r) == old(store).level_of(nw) + 1,
    {
    proof {
        lemma_children_sum_fits(*store, nw, ne, sw, se);
    }
    store.create_interior(NodeTemplate { nw, ne, sw, se })
}


/// The recursive arm of `jump`, for a level-6 or deeper node whose jump is
/// not yet cached: the nine level-(L-1) regions of the decomposition are
/// jumped to level-(L-2) results, assembled into four overlapping tiles,
/// jumped again, and the four outcomes form the result, which is recorded
/// in the jump cache.
#[verifier::rlimit(100)]
fn jump_rec(store: &mut Store, id: NodeId, t: NodeTemplate) -> (r: NodeId)
    requires
        old(store).wf(),
        old(store).has(id),
        6 <= old(store).level_of(id),
        old(store).is_interior(id),
        t.nw == old(store).nw_of(id),
        t.ne == old(store).ne_of(id),
        t.sw == old(store).sw_of(id),
        t.se == old(store).se_of(id),
        old(store).jump_at(id) is None,
        old(store).pop_of(id) > 0,
    ensures
        final(store).wf(),
        final(store).preserves(*old(store)),
        final(store).preserves_steps(*old(store)),
        final(store).has(r),
        final(store).level_of(r) == old(store).level_of(id) - 1,
        final(store).jump_at(id) == Some(r),
    decreases old(store).level_of(id), 8int,
{
    proof {
        assert(store.wf_node(id.idx()));
    }
    let n = jump_nine(store, id, t);
    let w = jump_tile(store, n.0, n.1, n.3, n.4);
    let x = jump_tile(store, n.1, n.2, n.4, n.5);
    let y = jump_tile(store, n.3, n.4, n.6, n.7);
    let z = jump_tile(store, n.4, n.5, n.7, n.8);
    let res = tile(store, w, x, y, z);
    store.add_jump(id, res);
    res
}

/// The jumps of the nine overlapping level-(L-1) regions of a node, in
/// reading order northwest to southeast: each result is level L-2.
#[verifier::rlimit(100)]
fn jump_nine(store: &mut Store, id: NodeId, t: NodeTemplate) -> (r: (
    NodeId,
    NodeId,
    NodeId,
    NodeId,
    NodeId,
    NodeId,
    NodeId,
    NodeId,
    NodeId,
))
    requires
        old(store).wf(),
        old(store).has(id),
        6 <= old(store).level_of(id),
        old(store).is_interior(id),
        t.nw == old(store).nw_of(id),
        t.ne == old(store).ne_of(id),
        t.sw == old(store).sw_of(id),
        t.se == old(store).se_of(id),
    ensures
        final(store).wf(),
        final(store).preserves(*old(store)),
        final(store).preserves_steps(*old(store)),
        final(store).has(r.0) && final(store).has(r.1) && final(store).has(r.2) && final(store).has(r.3) && final(store).has(r.4) && final(store).has(r.5) && final(store).has(r.6)
            && final(store).has(r.7) && final(store).has(r.8),
        final(store).level_of(r.0) == old(store).level_of(id) - 2,
        final(store).level_of(r.1) == old(store).level_of(id) - 2,
        final(store).level_of(r.2) == old(store).level_of(id) - 2,
        final(store).level_of(r.3) == old(store).level_of(id) - 2,
        final(store).level_of(r.4) == old(store).level_of(id) - 2,
        final(store).level_of(r.5) == old(store).level_of(id) - 2,
        final(store).level_of(r.6) == old(store).level_of(id) - 2,
        final(store).level_of(r.7) == old(store).level_of(id) - 2,
        final(store).level_of(r.8) == old(store).level_of(id) - 2,
    decreases old(store).level_of(id), 6int,
{
    proof {
        assert(store.wf_node(id.idx()));
    }
    let a = t.nw.jump(store);
    let b = horiz_jump(store, t.nw, t.ne);
    let c = t.ne.jump(store);
    let d = vert_jump(store, t.nw, t.sw);
    let ec = id.center_subnode(store);
    let e = ec.jump(store);
    let f = vert_jump(store, t.ne, t.se);
    let g = t.sw.jump(store);
    let h = horiz_jump(store, t.sw, t.se);
    let i = t.se.jump(store);
    (a, b, c, d, e, f, g, h, i)
}


/// The jumped tile centered on the vertical edge between two side-by-side
/// level-L siblings: their four adjoining quadrants are assembled into one
/// level-L node and jumped.
fn horiz_jump(store: &mut Store, w: NodeId, e: NodeId) -> (r: NodeId)
    requires
        old(store).wf(),
        old(store).has(w),
        old(store).has(e),
        5 <= old(store).level_of(w) <= 63,
        old(store).level_of(e) == old(store).level_of(w),
    ensures
        final(store).wf(),
        final(store).preserves(*old(store)),
        final(store).preserves_steps(*old(store)),
        final(store).has(r),
        final(store).level_of(r) == old(store).level_of(w) - 1,
    decreases old(store).level_of(w), 11int,
{
    proof {
        assert(store.wf_node(w.idx()));
        assert(store.wf_node(e.idx()));
    }
    let b1 = w.ne(store);
    let b2 = e.nw(store);
    let b3 = w.se(store);
    let b4 = e.sw(store);
    let tb = tile(store, b1, b2, b3, b4);
    tb.jump(store)
}

/// The jumped tile centered on the horizontal edge between two stacked
/// level-L siblings.
fn vert_jump(store: &mut Store, n: NodeId, s: NodeId) -> (r: NodeId)
    requires
        old(store).wf(),
        old(store).has(n),
        old(store).has(s),
        5 <= old(store).level_of(n) <= 63,
        old(store).level_of(s) == old(store).level_of(n),
    ensures
        final(store).wf(),
        final(store).preserves(*old(store)),
        final(store).preserves_steps(*old(store)),
        final(store).has(r),
        final(store).level_of(r) == old(store).level_of(n) - 1,
    decreases old(store).level_of(n), 11int,
{
    proof {
        assert(store.wf_node(n.idx()));
        assert(store.wf_node(s.idx()));
    }
    let b1 = n.sw(store);
    let b2 = n.se(store);
    let b3 = s.nw(store);
    let b4 = s.ne(store);
    let tb = tile(store, b1, b2, b3, b4);
    tb.jump(store)
}

/// The jump of the tile built from four level-(L-2) results.
fn jump_tile(store: &mut Store, nw: NodeId, ne: NodeId, sw: NodeId, se: NodeId) -> (r: NodeId)
    requires
        old(store).wf(),
        old(store).has(nw),
        old(store).has(ne),
        old(store).has(sw),
        old(store).has(se),
        4 <= old(store).level_of(nw) <= 62,
        old(store).level_of(ne) == old(store).level_of(nw),
        old(store).level_of(sw) == old(store).level_of(nw),
        old(store).level_of(se) == old(store).level_of(nw),
    ensures
        final(store).wf(),
        final(store).preserves(*old(store)),
        final(store).preserves_steps(*old(store)),
        final(store).has(r),
        final(store).level_of(r) == old(store).level_of(nw),
    decreases old(store).level_of(nw) + 1, 11int,
{
    let tb = tile(store, nw, ne, sw, se);
    tb.jump(store)
}

/// The step of the tile built from four level-(L-2) regions, at the
/// store's current step exponent.
fn step_tile(store: &mut Store, nw: NodeId, ne: NodeId, sw: NodeId, se: NodeId) -> (r: NodeId)
    requires
        old(store).wf(),
        old(store).has(nw),
        old(store).has(ne),
        old(store).has(sw),
        old(store).has(se),
        4 <= old(store).level_of(nw) <= 62,
        old(store).level_of(ne) == old(store).level_of(nw),
        old(store).level_of(sw) == old(store).level_of(nw),
        old(store).level_of(se) == old(store).level_of(nw),
        old(store).k() <= old(store).level_of(nw) - 1,
    ensures
        final(store).wf(),
        final(store).preserves(*old(store)),
        final(store).has(r),
        final(store).level_of(r) == old(store).level_of(nw),
        final(store).k() == old(store).k(),
    decreases old(store).level_of(nw) + 1, 11int,
{
    let tb = tile(store, nw, ne, sw, se);
    tb.step(store)
}

impl NodeId {
    /// Advances a level-L node by the maximal 2^(L-2) generations and
    /// returns the level-(L-1) node holding the advanced central region.
    /// The result is memoized: it is recorded in the jump cache, and a
    /// node whose jump is already cached is answered from the cache with
    /// the store untouched. An empty node advances to the empty node one
    /// level down.
    #[verifier::rlimit(100)]
    pub fn jump(self, store: &mut Store) -> (r: NodeId)
        requires
            old(store).wf(),
            old(store).has(self),
            5 <= old(store).level_of(self),
        ensures
            final(store).wf(),
            final(store).preserves(*old(store)),
            final(store).preserves_steps(*old(store)),
            final(store).has(r),
            final(store).level_of(r) == old(store).level_of(self) - 1,
            old(store).pop_of(self) == 0 ==> final(store).pop_of(r) == 0,
            final(store).jump_at(self) == Some(r),
            old(store).jump_at(self) is Some ==> old(store).jump_at(self) == Some(r),
            old(store).level_of(self) == 5 && old(store).pop_of(self) > 0 ==> final(store).is_leaf4(r) && final(store).board4(r) == step5_board(
                old(store).board4(old(store).nw_of(self)),
                old(store).board4(old(store).ne_of(self)),
                old(store).board4(old(store).sw_of(self)),
                old(store).board4(old(store).se_of(self)),
                4,
                4,
            ),
        decreases old(store).level_of(self), 10int,
    {
        proof {
            assert(store.wf_node(self.idx()));
        }
        match store.get_jump(self) {
            Some(cached) => {
                proof {
                    assert(store.cache_entry_ok(self.idx(), store.jumps@[self.idx()]));
                }
                cached
            },
            None => {
                let level = self.level(store);
                let t = children_of(store, self);
                if self.population(store) == 0 {
                    let e = store.create_empty(level - 1);
                    store.add_jump(self, e);
                    e
                } else if level == 5 {
                    proof {
                        assert(store.wf_node(t.nw.idx()));
                        assert(store.wf_node(t.ne.idx()));
                        assert(store.wf_node(t.sw.idx()));
                        assert(store.wf_node(t.se.idx()));
                    }
                    let r = jump_level_5(store, t.nw, t.ne, t.sw, t.se);
                    store.add_jump(self, r);
                    r
                } else {
                    jump_rec(store, self, t)
                }
            },
        }
    }

    /// Advances a level-L node by 2^k generations for the store's current
    /// step exponent k, which must be at most L-2, and returns the
    /// level-(L-1) node holding the advanced central region. The result is
    /// memoized in the step cache. At the maximal exponent k = L-2 the
    /// result is the node's jump, and the jump cache records it too. An
    /// empty node advances to the empty node one level down.
    #[verifier::rlimit(100)]
    pub fn step(self, store: &mut Store) -> (r: NodeId)
        requires
            old(store).wf(),
            old(store).has(self),
            5 <= old(store).level_of(self),
            old(store).k() <= old(store).level_of(self) - 2,
        ensures
            final(store).wf(),
            final(store).preserves(*old(store)),
            final(store).has(r),
            final(store).level_of(r) == old(store).level_of(self) - 1,
            old(store).pop_of(self) == 0 ==> final(store).pop_of(r) == 0,
            final(store).step_at(self) == Some(r),
            old(store).k() == old(store).level_of(self) - 2 ==> final(store).jump_at(self)
                == Some(r),
            old(store).step_at(self) is Some ==> old(store).step_at(self) == Some(r),
            old(store).level_of(self) == 5 && old(store).pop_of(self) > 0 ==> final(store).is_leaf4(r) && final(store).board4(r) == step5_board(
                old(store).board4(old(store).nw_of(self)),
                old(store).board4(old(store).ne_of(self)),
                old(store).board4(old(store).sw_of(self)),
                old(store).board4(old(store).se_of(self)),
                Store::step5_pre(old(store).k()),
                Store::step5_gens(old(store).k()),
            ),
        decreases old(store).level_of(self), 10int,
    {
        proof {
            assert(store.wf_node(self.idx()));
        }
        match store.get_step(self) {
            Some(cached) => {
                proof {
                    assert(store.cache_entry_ok(self.idx(), store.steps@[self.idx()]));
                }
                cached
            },
            None => {
                let level = self.level(store);
                let k = store.step_log_2();
                let t = children_of(store, self);
                if k == level - 2 {
                    let r = self.jump(store);
                    store.add_step(self, r);
                    r
                } else if self.population(store) == 0 {
                    let e = store.create_empty(level - 1);
                    store.add_step(self, e);
                    e
                } else if level == 5 {
                    proof {
                        assert(store.wf_node(t.nw.idx()));
                        assert(store.wf_node(t.ne.idx()));
                        assert(store.wf_node(t.sw.idx()));
                        assert(store.wf_node(t.se.idx()));
                    }
                    let r = step_level_5(store, k, t.nw, t.ne, t.sw, t.se);
                    store.add_step(self, r);
                    r
                } else {
                    step_rec(store, self, t)
                }
            },
        }
    }
}

/// The recursive arm of `step`, for a level-6 or deeper node at a
/// sub-maximal exponent whose step is not yet cached: the nine centered
/// level-(L-2) regions are read off directly, assembled into four
/// overlapping tiles, stepped, and the four outcomes form the result,
/// which is recorded in the step cache.
#[verifier::rlimit(100)]
fn step_rec(store: &mut Store, id: NodeId, t: NodeTemplate) -> (r: NodeId)
    requires
        old(store).wf(),
        old(store).has(id),
        6 <= old(store).level_of(id),
        old(store).is_interior(id),
        t.nw == old(store).nw_of(id),
        t.ne == old(store).ne_of(id),
        t.sw == old(store).sw_of(id),
        t.se == old(store).se_of(id),
        old(store).step_at(id) is None,
        old(store).k() < old(store).level_of(id) - 2,
        old(store).pop_of(id) > 0,
    ensures
        final(store).wf(),
        final(store).preserves(*old(store)),
        final(store).has(r),
        final(store).level_of(r) == old(store).level_of(id) - 1,
        final(store).step_at(id) == Some(r),
        final(store).k() == old(store).k(),
    decreases old(store).level_of(id), 8int,
{
    proof {
        assert(store.wf_node(id.idx()));
    }
    let n = step_nine(store, id, t);
    let w = step_tile(store, n.0, n.1, n.3, n.4);
    let x = step_tile(store, n.1, n.2, n.4, n.5);
    let y = step_tile(store, n.3, n.4, n.6, n.7);
    let z = step_tile(store, n.4, n.5, n.7, n.8);
    let res = tile(store, w, x, y, z);
    store.add_step(id, res);
    res
}

/// The nine centered level-(L-2) regions of a node, in reading order
/// northwest to southeast, read off without any evolution.
#[verifier::rlimit(100)]
fn step_nine(store: &mut Store, id: NodeId, t: NodeTemplate) -> (r: (
    NodeId,
    NodeId,
    NodeId,
    NodeId,
    NodeId,
    NodeId,
    NodeId,
    NodeId,
    NodeId,
))
    requires
        old(store).wf(),
        old(store).has(id),
        6 <= old(store).level_of(id),
        old(store).is_interior(id),
        t.nw == old(store).nw_of(id),
        t.ne == old(store).ne_of(id),
        t.sw == old(store).sw_of(id),
        t.se == old(store).se_of(id),
    ensures
        final(store).wf(),
        final(store).preserves(*old(store)),
        final(store).preserves_steps(*old(store)),
        final(store).preserves_jumps(*old(store)),
        final(store).has(r.0) && final(store).has(r.1) && final(store).has(r.2) && final(store).has(r.3) && final(store).has(r.4) && final(store).has(r.5) && final(store).has(r.6)
            && final(store).has(r.7) && final(store).has(r.8),
        final(store).level_of(r.0) == old(store).level_of(id) - 2,
        final(store).level_of(r.1) == old(store).level_of(id) - 2,
        final(store).level_of(r.2) == old(store).level_of(id) - 2,
        final(store).level_of(r.3) == old(store).level_of(id) - 2,
        final(store).level_of(r.4) == old(store).level_of(id) - 2,
        final(store).level_of(r.5) == old(store).level_of(id) - 2,
        final(store).level_of(r.6) == old(store).level_of(id) - 2,
        final(store).level_of(r.7) == old(store).level_of(id) - 2,
        final(store).level_of(r.8) == old(store).level_of(id) - 2,
{
    proof {
        assert(store.wf_node(id.idx()));
    }
    let a = t.nw.center_subnode(store);
    let b = id.north_subsubnode(store);
    let c = t.ne.center_subnode(store);
    let d = id.west_subsubnode(store);
    let ec = id.center_subnode(store);
    let e = ec.center_subnode(store);
    let f = id.east_subsubnode(store);
    let g = t.sw.center_subnode(store);
    let h = id.south_subsubnode(store);
    let i = t.se.center_subnode(store);
    (a, b, c, d, e, f, g, h, i)
}

} // verus!
