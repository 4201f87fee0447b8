//! Cell-level queries and functional updates over nodes: point lookup,
//! setting single cells and bulk coordinate sets, enumerating the alive
//! cells, rectangle emptiness queries and bounding boxes.
//!
//! All operations work in coordinates local to the node's center. Updates
//! are functional: they return the id of a node with the new contents,
//! interning whatever new nodes that takes, and never change an existing
//! node.

use vstd::prelude::*;
use vstd::arithmetic::power2::pow2;

use crate::board::bit8;
use crate::board::bit16;
use crate::board::pop_row8;
use crate::board::pop_row16;
use crate::board::rows_pop8;
use crate::board::rows_pop16;
use crate::store::NodeId;
use crate::store::NodeTemplate;
use crate::store::Store;
use crate::store::children_of;
use crate::store::lemma_alive_in_range;
use crate::store::lemma_alive_preserved;
use crate::store::lemma_pop_zero_dead;
use crate::store::min_coord_int;
use crate::store::max_coord_int;
use crate::BoundingBox;
use crate::Cell;
use crate::Position;
use crate::Quadrant;

verus! {

/// True when the coordinate pair (x, y) lies inside a level-l node's
/// square.
pub open spec fn in_range(l: int, x: int, y: int) -> bool {
    min_coord_int(l) <= x <= max_coord_int(l) && min_coord_int(l) <= y <= max_coord_int(l)
}

/// A quarter of the side length of the node: the offset between the
/// node's center and its children's centers.
fn quarter(store: &Store, id: NodeId) -> (q: i64)
    requires
        store.wf(),
        store.has(id),
        4 <= store.level_of(id) <= 64,
    ensures
        q as int == pow2((store.level_of(id) - 2) as nat),
        1 <= q,
{
    let l = id.level(store);
    let p: u64 = 1u64 << ((l - 2) as u64);
    proof {
        vstd::bits::lemma_u64_pow2_no_overflow((l - 2) as nat);
        crate::store::lemma_pow2_le_62((l - 2) as nat);
        vstd::bits::lemma_u64_shl_is_mul(1u64, (l - 2) as u64);
        vstd::arithmetic::power2::lemma_pow2_pos((l - 2) as nat);
    }
    p as i64
}

/// Half the side length of the node: coordinates range over
/// [-half, half - 1]. Equals twice the quarter offset.
proof fn lemma_half_is_two_quarters(l: int)
    requires
        4 <= l <= 64,
    ensures
        pow2((l - 1) as nat) == 2 * pow2((l - 2) as nat),
{
    vstd::arithmetic::power2::lemma_pow2_adds((l - 2) as nat, 1);
    vstd::arithmetic::power2::lemma2_to64();
}

impl NodeId {
    /// The state of the cell at `pos`, which must lie inside this node's
    /// square.
    pub fn get_cell(self, store: &Store, pos: Position) -> (c: Cell)
        requires
            store.wf(),
            store.has(self),
            in_range(store.level_of(self), pos.x as int, pos.y as int),
        ensures
            c == (if store.alive_at(self, pos.x as int, pos.y as int) {
                Cell::Alive
            } else {
                Cell::Dead
            }),
        decreases store.level_of(self),
    {
        proof {
            assert(store.wf_node(self.idx()));
            vstd::arithmetic::power2::lemma2_to64();
        }
        let level = self.level(store);
        if level == 3 {
            let board = store.board3_copy(self);
            let xo = (3 - pos.x) as u8;
            let yo = (pos.y + 4) as usize;
            Cell::new((board[yo] >> xo) & 1 == 1)
        } else if level == 4 {
            let board = store.board4_copy(self);
            let xo = (7 - pos.x) as u16;
            let yo = (pos.y + 8) as usize;
            Cell::new((board[yo] >> xo) & 1 == 1)
        } else {
            let t = children_of(store, self);
            let offset = quarter(store, self);
            proof {
                lemma_half_is_two_quarters(store.level_of(self));
            }
            match pos.quadrant() {
                Quadrant::Northwest => t.nw.get_cell(store, pos.offset(offset, offset)),
                Quadrant::Northeast => t.ne.get_cell(store, pos.offset(-offset, offset)),
                Quadrant::Southwest => t.sw.get_cell(store, pos.offset(offset, -offset)),
                Quadrant::Southeast => t.se.get_cell(store, pos.offset(-offset, -offset)),
            }
        }
    }

    /// Sets the cell at `pos` alive. Returns the node with the one extra
    /// cell; if the cell was already alive this is the node itself, by
    /// canonicalization.
    #[verifier::rlimit(60)]
    pub fn set_cell_alive(self, store: &mut Store, pos: Position) -> (r: NodeId)
        requires
            old(store).wf(),
            old(store).has(self),
            in_range(old(store).level_of(self), pos.x as int, pos.y as int),
            old(store).pop_of(self) < u128::MAX,
        ensures
            final(store).wf(),
            final(store).appends(*old(store)),
            final(store).has(r),
            final(store).level_of(r) == old(store).level_of(self),
            final(store).pop_of(r) == old(store).pop_of(self) + (if old(store).alive_at(
                self,
                pos.x as int,
                pos.y as int,
            ) {
                0int
            } else {
                1int
            }),
            forall|a: int, b: int|
                #[trigger] final(store).alive_at(r, a, b) == (old(store).alive_at(self, a, b) || (
                a == pos.x as int && b == pos.y as int)),
        decreases old(store).level_of(self),
    {
        proof {
            assert(store.wf_node(self.idx()));
            vstd::arithmetic::power2::lemma2_to64();
        }
        let ghost s0 = *store;
        let level = self.level(store);
        if level == 3 {
            let mut board = store.board3_copy(self);
            let xo = (3 - pos.x) as u8;
            let yo = (pos.y + 4) as usize;
            let row = board[yo];
            board.set(yo, row | (1u8 << xo));
            let r = store.create_level_3(board);
            proof {
                lemma_rows_pop8_update(s0.board3(self), 8, yo as int, (row | (1u8 << xo)));
                lemma_pop8_set(row, xo);
                assert forall|a: int, b: int|
                    #[trigger] store.alive_at(r, a, b) == (s0.alive_at(self, a, b) || (a
                        == pos.x as int && b == pos.y as int)) by {
                    if -4 <= a < 4 && -4 <= b < 4 {
                        lemma_bit8_set(s0.board3(self)[b + 4], xo, (3 - a) as u8);
                    }
                }
            }
            r
        } else if level == 4 {
            let mut board = store.board4_copy(self);
            let xo = (7 - pos.x) as u16;
            let yo = (pos.y + 8) as usize;
            let row = board[yo];
            board.set(yo, row | (1u16 << xo));
            let r = store.create_leaf(board);
            proof {
                lemma_rows_pop16_update(s0.board4(self), 16, yo as int, (row | (1u16 << xo)));
                lemma_pop16_set(row, xo);
                assert forall|a: int, b: int|
                    #[trigger] store.alive_at(r, a, b) == (s0.alive_at(self, a, b) || (a
                        == pos.x as int && b == pos.y as int)) by {
                    if -8 <= a < 8 && -8 <= b < 8 {
                        lemma_bit16_set(s0.board4(self)[b + 8], xo, (7 - a) as u16);
                    }
                }
            }
            r
        } else {
            let t = children_of(store, self);
            let offset = quarter(store, self);
            proof {
                lemma_half_is_two_quarters(store.level_of(self));
            }
            match pos.quadrant() {
                Quadrant::Northwest => {
                    let nc = t.nw.set_cell_alive(store, pos.offset(offset, offset));
                    let ghost s1 = *store;
                    let r = store.create_interior(
                        NodeTemplate { nw: nc, ne: t.ne, sw: t.sw, se: t.se },
                    );
                    proof {
                        let q = offset as int;
                        let s2 = *store;
                        assert forall|u: int, v: int|
                            s2.alive_at(nc, u, v) == (s0.alive_at(t.nw, u, v) || (u == pos.x + q
                                && v == pos.y + q)) by {
                            lemma_alive_preserved(s1, s2, nc, u, v);
                        }
                        lemma_set_child_view(s0, s2, self, r, nc, pos.x as int, pos.y as int);
                        assert(s0.alive_at(self, pos.x as int, pos.y as int) == s0.alive_at(
                            t.nw,
                            pos.x + q,
                            pos.y + q,
                        ));
                    }
                    r
                },
                Quadrant::Northeast => {
                    let nc = t.ne.set_cell_alive(store, pos.offset(-offset, offset));
                    let ghost s1 = *store;
                    let r = store.create_interior(
                        NodeTemplate { nw: t.nw, ne: nc, sw: t.sw, se: t.se },
                    );
                    proof {
                        let q = offset as int;
                        let s2 = *store;
                        assert forall|u: int, v: int|
                            s2.alive_at(nc, u, v) == (s0.alive_at(t.ne, u, v) || (u == pos.x - q
                                && v == pos.y + q)) by {
                            lemma_alive_preserved(s1, s2, nc, u, v);
                        }
                        lemma_set_child_view(s0, s2, self, r, nc, pos.x as int, pos.y as int);
                        assert(s0.alive_at(self, pos.x as int, pos.y as int) == s0.alive_at(
                            t.ne,
                            pos.x - q,
                            pos.y + q,
                        ));
                    }
                    r
                },
                Quadrant::Southwest => {
                    let nc = t.sw.set_cell_alive(store, pos.offset(offset, -offset));
                    let ghost s1 = *store;
                    let r = store.create_interior(
                        NodeTemplate { nw: t.nw, ne: t.ne, sw: nc, se: t.se },
                    );
                    proof {
                        let q = offset as int;
                        let s2 = *store;
                        assert forall|u: int, v: int|
                            s2.alive_at(nc, u, v) == (s0.alive_at(t.sw, u, v) || (u == pos.x + q
                                && v == pos.y - q)) by {
                            lemma_alive_preserved(s1, s2, nc, u, v);
                        }
                        lemma_set_child_view(s0, s2, self, r, nc, pos.x as int, pos.y as int);
                        assert(s0.alive_at(self, pos.x as int, pos.y as int) == s0.alive_at(
                            t.sw,
                            pos.x + q,
                            pos.y - q,
                        ));
                    }
                    r
                },
                Quadrant::Southeast => {
                    let nc = t.se.set_cell_alive(store, pos.offset(-offset, -offset));
                    let ghost s1 = *store;
                    let r = store.create_interior(
                        NodeTemplate { nw: t.nw, ne: t.ne, sw: t.sw, se: nc },
                    );
                    proof {
                        let q = offset as int;
                        let s2 = *store;
                        assert forall|u: int, v: int|
                            s2.alive_at(nc, u, v) == (s0.alive_at(t.se, u, v) || (u == pos.x - q
                                && v == pos.y - q)) by {
                            lemma_alive_preserved(s1, s2, nc, u, v);
                        }
                        lemma_set_child_view(s0, s2, self, r, nc, pos.x as int, pos.y as int);
                        assert(s0.alive_at(self, pos.x as int, pos.y as int) == s0.alive_at(
                            t.se,
                            pos.x - q,
                            pos.y - q,
                        ));
                    }
                    r
                },
            }
        }
    }
}

/// Setting one bit: bit `j` of `r | (1 << i)` is set exactly when bit `j`
/// of `r` is set or `j == i`.
proof fn lemma_bit16_set(r: u16, i: u16, j: u16)
    by (bit_vector)
    requires
        i < 16,
        j < 16,
    ensures
        bit16(r | (1u16 << i), j) == (bit16(r, j) || i == j),
{
}

/// Setting one bit: bit `j` of `r | (1 << i)` is set exactly when bit `j`
/// of `r` is set or `j == i`.
proof fn lemma_bit8_set(r: u8, i: u8, j: u8)
    by (bit_vector)
    requires
        i < 8,
        j < 8,
    ensures
        bit8(r | (1u8 << i), j) == (bit8(r, j) || i == j),
{
}

/// Setting one bit raises the row's popcount by one exactly when the bit
/// was clear.
proof fn lemma_pop16_set(r: u16, i: u16)
    by (bit_vector)
    requires
        i < 16,
    ensures
        bit16(r, i) ==> pop_row16(r | (1u16 << i), 16) == pop_row16(r, 16),
        !bit16(r, i) ==> pop_row16(r | (1u16 << i), 16) == pop_row16(r, 16) + 1,
{
}

/// Setting one bit raises the row's popcount by one exactly when the bit
/// was clear.
proof fn lemma_pop8_set(r: u8, i: u8)
    by (bit_vector)
    requires
        i < 8,
    ensures
        bit8(r, i) ==> pop_row8(r | (1u8 << i), 8) == pop_row8(r, 8),
        !bit8(r, i) ==> pop_row8(r | (1u8 << i), 8) == pop_row8(r, 8) + 1,
{
}

/// Boards that agree on their first `n` rows have the same popcount there.
proof fn lemma_rows_pop16_prefix_eq(a: Seq<u16>, b: Seq<u16>, n: nat)
    requires
        forall|i: int| 0 <= i < n ==> a[i] == b[i],
    ensures
        rows_pop16(a, n) == rows_pop16(b, n),
    decreases n,
{
    if n > 0 {
        lemma_rows_pop16_prefix_eq(a, b, (n - 1) as nat);
    }
}

/// Boards that agree on their first `n` rows have the same popcount there.
proof fn lemma_rows_pop8_prefix_eq(a: Seq<u8>, b: Seq<u8>, n: nat)
    requires
        forall|i: int| 0 <= i < n ==> a[i] == b[i],
    ensures
        rows_pop8(a, n) == rows_pop8(b, n),
    decreases n,
{
    if n > 0 {
        lemma_rows_pop8_prefix_eq(a, b, (n - 1) as nat);
    }
}

/// Replacing one row changes the board's popcount by the difference of
/// the rows' popcounts.
proof fn lemma_rows_pop16_update(rows: Seq<u16>, n: nat, idx: int, v: u16)
    requires
        0 <= idx < n,
        n <= rows.len(),
    ensures
        rows_pop16(rows.update(idx, v), n) == rows_pop16(rows, n) - pop_row16(rows[idx], 16)
            + pop_row16(v, 16),
    decreases n,
{
    let r2 = rows.update(idx, v);
    if idx == n - 1 {
        lemma_rows_pop16_prefix_eq(rows, r2, (n - 1) as nat);
    } else {
        lemma_rows_pop16_update(rows, (n - 1) as nat, idx, v);
    }
}

/// Replacing one row changes the board's popcount by the difference of
/// the rows' popcounts.
proof fn lemma_rows_pop8_update(rows: Seq<u8>, n: nat, idx: int, v: u8)
    requires
        0 <= idx < n,
        n <= rows.len(),
    ensures
        rows_pop8(rows.update(idx, v), n) == rows_pop8(rows, n) - pop_row8(rows[idx], 8)
            + pop_row8(v, 8),
    decreases n,
{
    let r2 = rows.update(idx, v);
    if idx == n - 1 {
        lemma_rows_pop8_prefix_eq(rows, r2, (n - 1) as nat);
    } else {
        lemma_rows_pop8_update(rows, (n - 1) as nat, idx, v);
    }
}

/// The view of an interior node with one child replaced: the one new cell
/// of the new child, at the parent's coordinates, joins the parent's view.
/// Which quadrant was replaced is read off the signs of (px, py).
proof fn lemma_set_child_view(
    s0: Store,
    s2: Store,
    id: NodeId,
    r: NodeId,
    nc: NodeId,
    px: int,
    py: int,
)
    requires
        s0.wf(),
        s2.wf(),
        s2.preserves(s0),
        s0.has(id),
        s0.is_interior(id),
        5 <= s0.level_of(id) <= 64,
        in_range(s0.level_of(id), px, py),
        s2.has(r),
        s2.is_interior(r),
        s2.level_of(r) == s0.level_of(id),
        ({
            let q = pow2((s0.level_of(id) - 2) as nat) as int;
            &&& (px < 0 && py < 0 ==> s2.nw_of(r) == nc && s2.ne_of(r) == s0.ne_of(id) && s2.sw_of(
                r,
            ) == s0.sw_of(id) && s2.se_of(r) == s0.se_of(id) && (forall|u: int, v: int|
                s2.alive_at(nc, u, v) == (s0.alive_at(s0.nw_of(id), u, v) || (u == px + q && v
                    == py + q))))
            &&& (px >= 0 && py < 0 ==> s2.nw_of(r) == s0.nw_of(id) && s2.ne_of(r) == nc
                && s2.sw_of(r) == s0.sw_of(id) && s2.se_of(r) == s0.se_of(id) && (forall|
                u: int,
                v: int,
            |
                s2.alive_at(nc, u, v) == (s0.alive_at(s0.ne_of(id), u, v) || (u == px - q && v
                    == py + q))))
            &&& (px < 0 && py >= 0 ==> s2.nw_of(r) == s0.nw_of(id) && s2.ne_of(r) == s0.ne_of(id)
                && s2.sw_of(r) == nc && s2.se_of(r) == s0.se_of(id) && (forall|u: int, v: int|
                s2.alive_at(nc, u, v) == (s0.alive_at(s0.sw_of(id), u, v) || (u == px + q && v
                    == py - q))))
            &&& (px >= 0 && py >= 0 ==> s2.nw_of(r) == s0.nw_of(id) && s2.ne_of(r) == s0.ne_of(id)
                && s2.sw_of(r) == s0.sw_of(id) && s2.se_of(r) == nc && (forall|u: int, v: int|
                s2.alive_at(nc, u, v) == (s0.alive_at(s0.se_of(id), u, v) || (u == px - q && v
                    == py - q))))
        }),
    ensures
        forall|a: int, b: int|
            #[trigger] s2.alive_at(r, a, b) == (s0.alive_at(id, a, b) || (a == px && b == py)),
{
    let l = s0.level_of(id);
    let q = pow2((l - 2) as nat) as int;
    assert(s0.wf_node(id.idx()));
    assert(s2.wf_node(r.idx()));
    lemma_half_is_two_quarters(l);
    assert forall|a: int, b: int|
        #[trigger] s2.alive_at(r, a, b) == (s0.alive_at(id, a, b) || (a == px && b == py)) by {
        if a < 0 && b < 0 {
            assert(s2.alive_at(r, a, b) == s2.alive_at(s2.nw_of(r), a + q, b + q));
            assert(s0.alive_at(id, a, b) == s0.alive_at(s0.nw_of(id), a + q, b + q));
            if px < 0 && py < 0 {
                assert(s2.alive_at(nc, a + q, b + q) == (s0.alive_at(s0.nw_of(id), a + q, b + q)
                    || (a + q == px + q && b + q == py + q)));
            } else {
                lemma_alive_preserved(s0, s2, s0.nw_of(id), a + q, b + q);
            }
        } else if a >= 0 && b < 0 {
            assert(s2.alive_at(r, a, b) == s2.alive_at(s2.ne_of(r), a - q, b + q));
            assert(s0.alive_at(id, a, b) == s0.alive_at(s0.ne_of(id), a - q, b + q));
            if px >= 0 && py < 0 {
                assert(s2.alive_at(nc, a - q, b + q) == (s0.alive_at(s0.ne_of(id), a - q, b + q)
                    || (a - q == px - q && b + q == py + q)));
            } else {
                lemma_alive_preserved(s0, s2, s0.ne_of(id), a - q, b + q);
            }
        } else if a < 0 {
            assert(s2.alive_at(r, a, b) == s2.alive_at(s2.sw_of(r), a + q, b - q));
            assert(s0.alive_at(id, a, b) == s0.alive_at(s0.sw_of(id), a + q, b - q));
            if px < 0 && py >= 0 {
                assert(s2.alive_at(nc, a + q, b - q) == (s0.alive_at(s0.sw_of(id), a + q, b - q)
                    || (a + q == px + q && b - q == py - q)));
            } else {
                lemma_alive_preserved(s0, s2, s0.sw_of(id), a + q, b - q);
            }
        } else {
            assert(s2.alive_at(r, a, b) == s2.alive_at(s2.se_of(r), a - q, b - q));
            assert(s0.alive_at(id, a, b) == s0.alive_at(s0.se_of(id), a - q, b - q));
            if px >= 0 && py >= 0 {
                assert(s2.alive_at(nc, a - q, b - q) == (s0.alive_at(s0.se_of(id), a - q, b - q)
                    || (a - q == px - q && b - q == py - q)));
            } else {
                lemma_alive_preserved(s0, s2, s0.se_of(id), a - q, b - q);
            }
        }
    }
}

/// True when some position of `s` is the cell (a, b).
pub open spec fn has_pos(s: Seq<Position>, a: int, b: int) -> bool {
    exists|i: int| 0 <= i < s.len() && s[i].x == a && s[i].y == b
}

/// Appending one position to a list adds exactly that cell to the set of
/// cells the list holds.
proof fn lemma_has_pos_push(s: Seq<Position>, p: Position)
    ensures
        forall|a: int, b: int|
            #[trigger] has_pos(s.push(p), a, b) == (has_pos(s, a, b) || (p.x == a && p.y == b)),
{
    assert forall|a: int, b: int|
        #[trigger] has_pos(s.push(p), a, b) == (has_pos(s, a, b) || (p.x == a && p.y == b)) by {
        if has_pos(s.push(p), a, b) {
            let i = choose|i: int|
                0 <= i < s.push(p).len() && s.push(p)[i].x == a && s.push(p)[i].y == b;
            if i < s.len() {
                assert(s[i] == s.push(p)[i]);
                assert(has_pos(s, a, b));
            }
        }
        if has_pos(s, a, b) {
            let i = choose|i: int| 0 <= i < s.len() && s[i].x == a && s[i].y == b;
            assert(s.push(p)[i] == s[i]);
            assert(has_pos(s.push(p), a, b));
        }
        if p.x == a && p.y == b {
            assert(s.push(p)[s.len() as int] == p);
            assert(has_pos(s.push(p), a, b));
        }
    }
}

/// Appending a position that is not already present keeps a list free of
/// duplicates.
proof fn lemma_no_dup_push(s: Seq<Position>, p: Position)
    requires
        s.no_duplicates(),
        !has_pos(s, p.x as int, p.y as int),
    ensures
        s.push(p).no_duplicates(),
{
    assert forall|i: int, j: int|
        0 <= i < s.push(p).len() && 0 <= j < s.push(p).len() && i != j implies s.push(p)[i]
        != s.push(p)[j] by {
        if j == s.len() as int {
            if s.push(p)[i] == p {
                assert(has_pos(s, p.x as int, p.y as int)) by {
                    assert(s[i] == p);
                }
            }
        } else if i == s.len() as int {
            if s.push(p)[j] == p {
                assert(has_pos(s, p.x as int, p.y as int)) by {
                    assert(s[j] == p);
                }
            }
        }
    }
}

impl NodeId {
    /// Sets every position of `coords` alive, in one pass. Order and
    /// repetitions among the positions do not matter: the result holds the
    /// union of the node's cells and the given cells.
    #[verifier::loop_isolation(false)]
    pub fn set_cells_alive(self, store: &mut Store, coords: Vec<Position>) -> (r: NodeId)
        requires
            old(store).wf(),
            old(store).has(self),
            forall|i: int|
                0 <= i < coords@.len() ==> in_range(
                    old(store).level_of(self),
                    #[trigger] coords@[i].x as int,
                    coords@[i].y as int,
                ),
            old(store).pop_of(self) + coords@.len() <= u128::MAX,
        ensures
            final(store).wf(),
            final(store).appends(*old(store)),
            final(store).has(r),
            final(store).level_of(r) == old(store).level_of(self),
            final(store).pop_of(r) <= old(store).pop_of(self) + coords@.len(),
            forall|a: int, b: int|
                #[trigger] final(store).alive_at(r, a, b) == (old(store).alive_at(self, a, b)
                    || has_pos(coords@, a, b)),
    {
        let ghost s0 = *store;
        let mut cur = self;
        let mut i: usize = 0;
        while i < coords.len()
            invariant
                s0.wf(),
                s0.has(self),
                store.wf(),
                store.appends(s0),
                store.has(cur),
                i <= coords@.len(),
                store.level_of(cur) == s0.level_of(self),
                store.pop_of(cur) <= s0.pop_of(self) + i,
                s0.pop_of(self) + coords@.len() <= u128::MAX,
                forall|j: int|
                    0 <= j < coords@.len() ==> in_range(
                        s0.level_of(self),
                        #[trigger] coords@[j].x as int,
                        coords@[j].y as int,
                    ),
                forall|a: int, b: int|
                    #[trigger] store.alive_at(cur, a, b) == (s0.alive_at(self, a, b) || has_pos(
                        coords@.subrange(0, i as int),
                        a,
                        b,
                    )),
            decreases coords@.len() - i,
        {
            let p = coords[i];
            let ghost sp = *store;
            cur = cur.set_cell_alive(store, p);
            proof {
                assert(coords@.subrange(0, i + 1 as int) =~= coords@.subrange(0, i as int).push(
                    coords@[i as int],
                ));
                lemma_has_pos_push(coords@.subrange(0, i as int), coords@[i as int]);
            }
            i = i + 1;
        }
        proof {
            assert(coords@.subrange(0, coords@.len() as int) =~= coords@);
        }
        cur
    }

    /// Every alive cell of the node, as a list of positions local to the
    /// node's center: the list holds a position exactly when that cell is
    /// alive, holds each once, and its length is the node's population.
    #[verifier::loop_isolation(false)]
    pub fn get_alive_cells(self, store: &Store) -> (r: Vec<Position>)
        requires
            store.wf(),
            store.has(self),
        ensures
            forall|a: int, b: int|
                #[trigger] has_pos(r@, a, b) == store.alive_at(self, a, b),
            r@.no_duplicates(),
            r@.len() == store.pop_of(self),
        decreases store.level_of(self),
    {
        proof {
            assert(store.wf_node(self.idx()));
            vstd::arithmetic::power2::lemma2_to64();
        }
        let level = self.level(store);
        if self.population(store) == 0 {
            let out: Vec<Position> = Vec::new();
            proof {
                assert forall|a: int, b: int|
                    #[trigger] has_pos(out@, a, b) == store.alive_at(self, a, b) by {
                    lemma_pop_zero_dead(*store, self, a, b);
                }
            }
            out
        } else if level <= 4 {
            let half: i64 = if level == 3 {
                4
            } else {
                8
            };
            let ghost b3 = store.board3(self);
            let ghost b4 = store.board4(self);
            let mut out: Vec<Position> = Vec::new();
            let mut y: i64 = -half;
            while y < half
                invariant
                    store.wf(),
                    store.has(self),
                    store.level_of(self) == level,
                    3 <= level <= 4,
                    half == (if level == 3 { 4int } else { 8int }),
                    -half <= y <= half,
                    forall|a: int, b: int|
                        #[trigger] has_pos(out@, a, b) == (store.alive_at(self, a, b) && b < y),
                    out@.no_duplicates(),
                    out@.len() == (if level == 3 {
                        rows_pop8(b3, (y + 4) as nat)
                    } else {
                        rows_pop16(b4, (y + 8) as nat)
                    }),
                decreases half - y,
            {
                proof {
                    assert forall|a: int, b: int|
                        #[trigger] has_pos(out@, a, b) == (store.alive_at(self, a, b) && (b
                            < y as int || (b == y as int && a < -half))) by {
                        if store.alive_at(self, a, b) {
                            lemma_alive_in_range(*store, self, a, b);
                        }
                    }
                }
                let mut x: i64 = -half;
                while x < half
                    invariant
                        store.wf(),
                        store.has(self),
                        store.level_of(self) == level,
                        3 <= level <= 4,
                        half == (if level == 3 { 4int } else { 8int }),
                        -half <= y < half,
                        -half <= x <= half,
                        forall|a: int, b: int|
                            #[trigger] has_pos(out@, a, b) == (store.alive_at(self, a, b) && (b < y
                                || (b == y && a < x))),
                        out@.no_duplicates(),
                        out@.len() + (if level == 3 {
                            pop_row8(b3[y + 4], (4 - x) as u8) as nat
                        } else {
                            pop_row16(b4[y + 8], (8 - x) as u16) as nat
                        }) == (if level == 3 {
                            rows_pop8(b3, (y + 4) as nat) + pop_row8(b3[y + 4], 8)
                        } else {
                            rows_pop16(b4, (y + 8) as nat) + pop_row16(b4[y + 8], 16)
                        }),
                    decreases half - x,
                {
                    let p = Position { x, y };
                    let ghost prev_out = out@;
                    let alive = self.get_cell(store, p).is_alive();
                    if alive {
                        out.push(p);
                    }
                    proof {
                        if alive {
                            lemma_no_dup_push(prev_out, p);
                            lemma_has_pos_push(prev_out, p);
                        }
                        assert forall|a: int, b: int|
                            #[trigger] has_pos(out@, a, b) == (store.alive_at(self, a, b) && (b
                                < y as int || (b == y as int && a < x + 1))) by {
                        }
                        if level == 3 {
                            lemma_pop_row8_le(b3[y + 4], (3 - x) as u8);
                            assert(pop_row8(b3[y + 4], (4 - x) as u8) == pop_row8(
                                b3[y + 4],
                                (3 - x) as u8,
                            ) + (if bit8(b3[y + 4], (3 - x) as u8) {
                                1u8
                            } else {
                                0u8
                            }));
                        } else {
                            lemma_pop_row16_le(b4[y + 8], (7 - x) as u16);
                            assert(pop_row16(b4[y + 8], (8 - x) as u16) == pop_row16(
                                b4[y + 8],
                                (7 - x) as u16,
                            ) + (if bit16(b4[y + 8], (7 - x) as u16) {
                                1u16
                            } else {
                                0u16
                            }));
                        }
                    }
                    x = x + 1;
                }
                proof {
                    assert forall|a: int, b: int|
                        #[trigger] has_pos(out@, a, b) == (store.alive_at(self, a, b) && b < y
                            + 1) by {
                        if store.alive_at(self, a, b) {
                            lemma_alive_in_range(*store, self, a, b);
                        }
                    }
                    if level == 3 {
                        assert(pop_row8(b3[y + 4], 0) == 0);
                        assert(rows_pop8(b3, (y + 5) as nat) == rows_pop8(b3, (y + 4) as nat)
                            + pop_row8(b3[y + 4], 8));
                    } else {
                        assert(pop_row16(b4[y + 8], 0) == 0);
                        assert(rows_pop16(b4, (y + 9) as nat) == rows_pop16(b4, (y + 8) as nat)
                            + pop_row16(b4[y + 8], 16));
                    }
                }
                y = y + 1;
            }
            proof {
                assert forall|a: int, b: int|
                    #[trigger] has_pos(out@, a, b) == store.alive_at(self, a, b) by {
                    if store.alive_at(self, a, b) {
                        lemma_alive_in_range(*store, self, a, b);
                    }
                }
            }
            out
        } else {
            let t = children_of(store, self);
            let offset = quarter(store, self);
            proof {
                lemma_half_is_two_quarters(store.level_of(self));
            }
            let vnw = t.nw.get_alive_cells(store);
            let vne = t.ne.get_alive_cells(store);
            let vsw = t.sw.get_alive_cells(store);
            let vse = t.se.get_alive_cells(store);
            let mut out: Vec<Position> = Vec::new();
            append_offset(store, t.nw, &vnw, &mut out, -offset, -offset);
            proof {
                let q = offset as int;
                assert forall|a: int, b: int|
                    #[trigger] has_pos(out@, a, b) implies !store.alive_at(
                    t.ne,
                    a - q,
                    b + q,
                ) by {
                    if store.alive_at(t.ne, a - q, b + q) {
                        lemma_quadrant_signs(*store, t.nw, t.ne, t.sw, t.se, q, a, b);
                    }
                }
            }
            append_offset(store, t.ne, &vne, &mut out, offset, -offset);
            proof {
                let q = offset as int;
                assert forall|a: int, b: int|
                    #[trigger] has_pos(out@, a, b) implies !store.alive_at(
                    t.sw,
                    a + q,
                    b - q,
                ) by {
                    if store.alive_at(t.sw, a + q, b - q) {
                        lemma_quadrant_signs(*store, t.nw, t.ne, t.sw, t.se, q, a, b);
                    }
                }
            }
            append_offset(store, t.sw, &vsw, &mut out, -offset, offset);
            proof {
                let q = offset as int;
                assert forall|a: int, b: int|
                    #[trigger] has_pos(out@, a, b) implies !store.alive_at(
                    t.se,
                    a - q,
                    b - q,
                ) by {
                    if store.alive_at(t.se, a - q, b - q) {
                        lemma_quadrant_signs(*store, t.nw, t.ne, t.sw, t.se, q, a, b);
                    }
                }
            }
            append_offset(store, t.se, &vse, &mut out, offset, offset);
            proof {
                let q = offset as int;
                assert forall|a: int, b: int|
                    #[trigger] has_pos(out@, a, b) == store.alive_at(self, a, b) by {
                    if a < 0 && b < 0 {
                        if has_pos(out@, a, b) {
                            lemma_quadrant_signs(*store, t.nw, t.ne, t.sw, t.se, q, a, b);
                        }
                        assert(store.alive_at(self, a, b) == store.alive_at(t.nw, a + q, b + q));
                    } else if a >= 0 && b < 0 {
                        if has_pos(out@, a, b) {
                            lemma_quadrant_signs(*store, t.nw, t.ne, t.sw, t.se, q, a, b);
                        }
                        assert(store.alive_at(self, a, b) == store.alive_at(t.ne, a - q, b + q));
                    } else if a < 0 {
                        if has_pos(out@, a, b) {
                            lemma_quadrant_signs(*store, t.nw, t.ne, t.sw, t.se, q, a, b);
                        }
                        assert(store.alive_at(self, a, b) == store.alive_at(t.sw, a + q, b - q));
                    } else {
                        if has_pos(out@, a, b) {
                            lemma_quadrant_signs(*store, t.nw, t.ne, t.sw, t.se, q, a, b);
                        }
                        assert(store.alive_at(self, a, b) == store.alive_at(t.se, a - q, b - q));
                    }
                }
            }
            out
        }
    }
}

/// An alive cell of a child, translated to parent coordinates, lands in
/// the quadrant the translation came from: the four translated cell sets
/// are separated by the signs of the coordinates.
proof fn lemma_quadrant_signs(
    s: Store,
    cnw: NodeId,
    cne: NodeId,
    csw: NodeId,
    cse: NodeId,
    q: int,
    a: int,
    b: int,
)
    requires
        s.wf(),
        s.has(cnw),
        s.has(cne),
        s.has(csw),
        s.has(cse),
        s.level_of(cnw) <= 63,
        s.level_of(cne) <= 63,
        s.level_of(csw) <= 63,
        s.level_of(cse) <= 63,
        q == pow2((s.level_of(cnw) - 1) as nat),
        s.level_of(cne) == s.level_of(cnw),
        s.level_of(csw) == s.level_of(cnw),
        s.level_of(cse) == s.level_of(cnw),
    ensures
        s.alive_at(cnw, a + q, b + q) ==> a < 0 && b < 0,
        s.alive_at(cne, a - q, b + q) ==> a >= 0 && b < 0,
        s.alive_at(csw, a + q, b - q) ==> a < 0 && b >= 0,
        s.alive_at(cse, a - q, b - q) ==> a >= 0 && b >= 0,
{
    if s.alive_at(cnw, a + q, b + q) {
        lemma_alive_in_range(s, cnw, a + q, b + q);
    }
    if s.alive_at(cne, a - q, b + q) {
        lemma_alive_in_range(s, cne, a - q, b + q);
    }
    if s.alive_at(csw, a + q, b - q) {
        lemma_alive_in_range(s, csw, a + q, b - q);
    }
    if s.alive_at(cse, a - q, b - q) {
        lemma_alive_in_range(s, cse, a - q, b - q);
    }
}

/// Appends a child's cell list to `out`, translating each position by
/// (dx, dy): afterwards `out` holds its old cells plus the child's alive
/// cells at translated coordinates.
#[verifier::loop_isolation(false)]
fn append_offset(
    store: &Store,
    child: NodeId,
    cells: &Vec<Position>,
    out: &mut Vec<Position>,
    dx: i64,
    dy: i64,
)
    requires
        store.wf(),
        store.has(child),
        store.level_of(child) <= 63,
        dx == pow2((store.level_of(child) - 1) as nat) || dx as int == -(pow2(
            (store.level_of(child) - 1) as nat,
        ) as int),
        dy == pow2((store.level_of(child) - 1) as nat) || dy as int == -(pow2(
            (store.level_of(child) - 1) as nat,
        ) as int),
        forall|a: int, b: int| #[trigger] has_pos(cells@, a, b) == store.alive_at(child, a, b),
        cells@.no_duplicates(),
        old(out)@.no_duplicates(),
        forall|a: int, b: int|
            #[trigger] has_pos(old(out)@, a, b) ==> !store.alive_at(child, a - dx, b - dy),
    ensures
        forall|a: int, b: int|
            #[trigger] has_pos(final(out)@, a, b) == (has_pos(old(out)@, a, b) || store.alive_at(
                child,
                a - dx,
                b - dy,
            )),
        final(out)@.no_duplicates(),
        final(out)@.len() == old(out)@.len() + cells@.len(),
{
    let ghost out0 = out@;
    let mut j: usize = 0;
    while j < cells.len()
        invariant
            store.wf(),
            store.has(child),
            store.level_of(child) <= 63,
            dx == pow2((store.level_of(child) - 1) as nat) || dx as int == -(pow2(
                (store.level_of(child) - 1) as nat,
            ) as int),
            dy == pow2((store.level_of(child) - 1) as nat) || dy as int == -(pow2(
                (store.level_of(child) - 1) as nat,
            ) as int),
            j <= cells@.len(),
            forall|a: int, b: int|
                #[trigger] has_pos(cells@, a, b) == store.alive_at(child, a, b),
            forall|a: int, b: int|
                #[trigger] has_pos(out@, a, b) == (has_pos(out0, a, b) || (has_pos(
                    cells@.subrange(0, j as int),
                    a - dx,
                    b - dy,
                ))),
            out@.no_duplicates(),
            out@.len() == out0.len() + j,
        decreases cells@.len() - j,
    {
        let p = cells[j];
        proof {
            assert(store.wf_node(child.idx()));
            assert(has_pos(cells@, p.x as int, p.y as int)) by {
                assert(cells@[j as int] == p);
            }
            lemma_alive_in_range(*store, child, p.x as int, p.y as int);
            crate::store::lemma_pow2_le_62((store.level_of(child) - 1) as nat);
        }
        let ghost prev_out = out@;
        let tp = p.offset(dx, dy);
        proof {
            if has_pos(prev_out, tp.x as int, tp.y as int) {
                if has_pos(cells@.subrange(0, j as int), p.x as int, p.y as int) {
                    let jp = choose|i: int|
                        0 <= i < j && cells@.subrange(0, j as int)[i].x == p.x
                            && cells@.subrange(0, j as int)[i].y == p.y;
                    assert(cells@[jp] == cells@[j as int]);
                    assert(false);
                }
            }
            lemma_no_dup_push(prev_out, tp);
        }
        out.push(tp);
        proof {
            lemma_has_pos_push(prev_out, tp);
            assert(cells@.subrange(0, j + 1 as int) =~= cells@.subrange(0, j as int).push(
                cells@[j as int],
            ));
            lemma_has_pos_push(cells@.subrange(0, j as int), cells@[j as int]);
            assert forall|a: int, b: int|
                #[trigger] has_pos(out@, a, b) == (has_pos(out0, a, b) || (has_pos(
                    cells@.subrange(0, j + 1 as int),
                    a - dx,
                    b - dy,
                ))) by {
            }
        }
        j = j + 1;
    }
    proof {
        assert(cells@.subrange(0, cells@.len() as int) =~= cells@);
    }
}

/// At most `n` of the low `n` bits are set.
proof fn lemma_pop_row16_le(r: u16, n: u16)
    ensures
        pop_row16(r, n) <= n,
    decreases n,
{
    if n > 0 {
        lemma_pop_row16_le(r, (n - 1) as u16);
    }
}

/// At most `n` of the low `n` bits are set.
proof fn lemma_pop_row8_le(r: u8, n: u8)
    ensures
        pop_row8(r, n) <= n,
    decreases n,
{
    if n > 0 {
        lemma_pop_row8_le(r, (n - 1) as u8);
    }
}

/// A row with a positive popcount has a set bit.
proof fn lemma_pop_row16_pos(r: u16, n: u16)
    requires
        n <= 16,
        pop_row16(r, n) > 0,
    ensures
        exists|i: u16| i < n && bit16(r, i),
    decreases n,
{
    if bit16(r, (n - 1) as u16) {
        assert(((n - 1) as u16) < n && bit16(r, (n - 1) as u16));
    } else {
        lemma_pop_row16_pos(r, (n - 1) as u16);
    }
}

/// A row with a positive popcount has a set bit.
proof fn lemma_pop_row8_pos(r: u8, n: u8)
    requires
        n <= 8,
        pop_row8(r, n) > 0,
    ensures
        exists|i: u8| i < n && bit8(r, i),
    decreases n,
{
    if bit8(r, (n - 1) as u8) {
        assert(((n - 1) as u8) < n && bit8(r, (n - 1) as u8));
    } else {
        lemma_pop_row8_pos(r, (n - 1) as u8);
    }
}

/// A board with a positive popcount has a row with a positive popcount.
proof fn lemma_rows_pop16_pos(rows: Seq<u16>, n: nat)
    requires
        rows_pop16(rows, n) > 0,
    ensures
        exists|i: int| 0 <= i < n && pop_row16(#[trigger] rows[i], 16) > 0,
    decreases n,
{
    if n > 0 {
        if pop_row16(rows[n - 1], 16) > 0 {
            assert(0 <= n - 1 < n && pop_row16(rows[n - 1], 16) > 0);
        } else {
            lemma_rows_pop16_pos(rows, (n - 1) as nat);
        }
    }
}

/// A board with a positive popcount has a row with a positive popcount.
proof fn lemma_rows_pop8_pos(rows: Seq<u8>, n: nat)
    requires
        rows_pop8(rows, n) > 0,
    ensures
        exists|i: int| 0 <= i < n && pop_row8(#[trigger] rows[i], 8) > 0,
    decreases n,
{
    if n > 0 {
        if pop_row8(rows[n - 1], 8) > 0 {
            assert(0 <= n - 1 < n && pop_row8(rows[n - 1], 8) > 0);
        } else {
            lemma_rows_pop8_pos(rows, (n - 1) as nat);
        }
    }
}

/// A node of positive population has an alive cell.
pub proof fn lemma_pop_pos_alive(s: Store, id: NodeId)
    requires
        s.wf(),
        s.has(id),
        s.pop_of(id) > 0,
    ensures
        exists|a: int, b: int| #[trigger] s.alive_at(id, a, b),
    decreases s.level_of(id),
{
    assert(s.wf_node(id.idx()));
    match s.base_of(id) {
        crate::store::NodeBase::LevelThree { board } => {
            lemma_rows_pop8_pos(board@, 8);
            let yo = choose|i: int| 0 <= i < 8 && pop_row8(#[trigger] board@[i], 8) > 0;
            lemma_pop_row8_pos(board@[yo], 8);
            let xo = choose|i: u8| i < 8 && bit8(board@[yo], i);
            assert(s.alive_at(id, 3 - xo as int, yo - 4));
        },
        crate::store::NodeBase::LevelFour { board } => {
            lemma_rows_pop16_pos(board@, 16);
            let yo = choose|i: int| 0 <= i < 16 && pop_row16(#[trigger] board@[i], 16) > 0;
            lemma_pop_row16_pos(board@[yo], 16);
            let xo = choose|i: u16| i < 16 && bit16(board@[yo], i);
            assert(s.alive_at(id, 7 - xo as int, yo - 8));
        },
        crate::store::NodeBase::Interior { nw, ne, sw, se } => {
            let q = pow2((s.level_of(id) - 2) as nat) as int;
            if s.pop_of(nw) > 0 {
                lemma_pop_pos_alive(s, nw);
                let (u, v) = choose|u: int, v: int| #[trigger] s.alive_at(nw, u, v);
                lemma_alive_in_range(s, nw, u, v);
                assert(s.alive_at(id, u - q, v - q));
            } else if s.pop_of(ne) > 0 {
                lemma_pop_pos_alive(s, ne);
                let (u, v) = choose|u: int, v: int| #[trigger] s.alive_at(ne, u, v);
                lemma_alive_in_range(s, ne, u, v);
                assert(s.alive_at(id, u + q, v - q));
            } else if s.pop_of(sw) > 0 {
                lemma_pop_pos_alive(s, sw);
                let (u, v) = choose|u: int, v: int| #[trigger] s.alive_at(sw, u, v);
                lemma_alive_in_range(s, sw, u, v);
                assert(s.alive_at(id, u - q, v + q));
            } else {
                lemma_pop_pos_alive(s, se);
                let (u, v) = choose|u: int, v: int| #[trigger] s.alive_at(se, u, v);
                lemma_alive_in_range(s, se, u, v);
                assert(s.alive_at(id, u + q, v + q));
            }
        },
    }
}

impl NodeId {
    /// True when any cell inside the rectangle is alive. The rectangle may
    /// span one, two or all four quadrants of the node; it is clipped to
    /// each quadrant it meets and the quadrants are queried in turn.
    #[verifier::loop_isolation(false)]
    pub fn contains_alive_cells(self, store: &Store, bounding_box: BoundingBox) -> (r: bool)
        requires
            store.wf(),
            store.has(self),
            bounding_box.wf(),
            in_range(
                store.level_of(self),
                bounding_box.ul().x as int,
                bounding_box.ul().y as int,
            ),
            in_range(
                store.level_of(self),
                bounding_box.lr().x as int,
                bounding_box.lr().y as int,
            ),
        ensures
            r == exists|a: int, b: int|
                bounding_box.holds(a, b) && #[trigger] store.alive_at(self, a, b),
        decreases store.level_of(self),
    {
        proof {
            assert(store.wf_node(self.idx()));
            vstd::arithmetic::power2::lemma2_to64();
        }
        let ul = bounding_box.upper_left();
        let lr = bounding_box.lower_right();
        let level = self.level(store);
        if self.population(store) == 0 {
            proof {
                assert forall|a: int, b: int|
                    bounding_box.holds(a, b) implies !(#[trigger] store.alive_at(
                    self,
                    a,
                    b,
                )) by {
                    lemma_pop_zero_dead(*store, self, a, b);
                }
            }
            false
        } else if level <= 4 {
            let mut x: i64 = ul.x;
            while x <= lr.x
                invariant
                    ul.x <= x <= lr.x + 1,
                    forall|a: int, b: int|
                        bounding_box.holds(a, b) && a < x ==> !(#[trigger] store.alive_at(
                            self,
                            a,
                            b,
                        )),
                decreases lr.x + 1 - x,
            {
                let mut y: i64 = ul.y;
                while y <= lr.y
                    invariant
                        ul.x <= x <= lr.x,
                        ul.y <= y <= lr.y + 1,
                        forall|a: int, b: int|
                            bounding_box.holds(a, b) && (a < x || (a == x && b < y)) ==> !(
                            #[trigger] store.alive_at(self, a, b)),
                    decreases lr.y + 1 - y,
                {
                    if self.get_cell(store, Position { x, y }).is_alive() {
                        proof {
                            assert(bounding_box.holds(x as int, y as int) && store.alive_at(
                                self,
                                x as int,
                                y as int,
                            ));
                        }
                        return true;
                    }
                    y = y + 1;
                }
                x = x + 1;
            }
            false
        } else {
            let t = children_of(store, self);
            let offset = quarter(store, self);
            proof {
                lemma_half_is_two_quarters(store.level_of(self));
            }
            if ul.x < 0 && ul.y < 0 {
                let cx = if lr.x < -1 {
                    lr.x
                } else {
                    -1
                };
                let cy = if lr.y < -1 {
                    lr.y
                } else {
                    -1
                };
                let clipped = BoundingBox::new(ul, Position { x: cx, y: cy }).offset(
                    offset,
                    offset,
                );
                if t.nw.contains_alive_cells(store, clipped) {
                    proof {
                        let (u, v) = choose|u: int, v: int|
                            clipped.holds(u, v) && #[trigger] store.alive_at(t.nw, u, v);
                        assert(bounding_box.holds(u - offset, v - offset) && store.alive_at(
                            self,
                            u - offset,
                            v - offset,
                        ));
                    }
                    return true;
                }
            }
            if lr.x >= 0 && ul.y < 0 {
                let cx = if ul.x >= 0 {
                    ul.x
                } else {
                    0
                };
                let cy = if lr.y < -1 {
                    lr.y
                } else {
                    -1
                };
                let clipped = BoundingBox::new(
                    Position { x: cx, y: ul.y },
                    Position { x: lr.x, y: cy },
                ).offset(-offset, offset);
                if t.ne.contains_alive_cells(store, clipped) {
                    proof {
                        let (u, v) = choose|u: int, v: int|
                            clipped.holds(u, v) && #[trigger] store.alive_at(t.ne, u, v);
                        assert(bounding_box.holds(u + offset, v - offset) && store.alive_at(
                            self,
                            u + offset,
                            v - offset,
                        ));
                    }
                    return true;
                }
            }
            if ul.x < 0 && lr.y >= 0 {
                let cx = if lr.x < -1 {
                    lr.x
                } else {
                    -1
                };
                let cy = if ul.y >= 0 {
                    ul.y
                } else {
                    0
                };
                let clipped = BoundingBox::new(
                    Position { x: ul.x, y: cy },
                    Position { x: cx, y: lr.y },
                ).offset(offset, -offset);
                if t.sw.contains_alive_cells(store, clipped) {
                    proof {
                        let (u, v) = choose|u: int, v: int|
                            clipped.holds(u, v) && #[trigger] store.alive_at(t.sw, u, v);
                        assert(bounding_box.holds(u - offset, v + offset) && store.alive_at(
                            self,
                            u - offset,
                            v + offset,
                        ));
                    }
                    return true;
                }
            }
            if lr.x >= 0 && lr.y >= 0 {
                let cx = if ul.x >= 0 {
                    ul.x
                } else {
                    0
                };
                let cy = if ul.y >= 0 {
                    ul.y
                } else {
                    0
                };
                let clipped = BoundingBox::new(Position { x: cx, y: cy }, lr).offset(
                    -offset,
                    -offset,
                );
                if t.se.contains_alive_cells(store, clipped) {
                    proof {
                        let (u, v) = choose|u: int, v: int|
                            clipped.holds(u, v) && #[trigger] store.alive_at(t.se, u, v);
                        assert(bounding_box.holds(u + offset, v + offset) && store.alive_at(
                            self,
                            u + offset,
                            v + offset,
                        ));
                    }
                    return true;
                }
            }
            proof {
                let q = offset as int;
                assert forall|a: int, b: int|
                    bounding_box.holds(a, b) implies !(#[trigger] store.alive_at(
                    self,
                    a,
                    b,
                )) by {
                    if store.alive_at(self, a, b) {
                        if a < 0 && b < 0 {
                            assert(store.alive_at(self, a, b) == store.alive_at(
                                t.nw,
                                a + q,
                                b + q,
                            ));
                        } else if a >= 0 && b < 0 {
                            assert(store.alive_at(self, a, b) == store.alive_at(
                                t.ne,
                                a - q,
                                b + q,
                            ));
                        } else if a < 0 {
                            assert(store.alive_at(self, a, b) == store.alive_at(
                                t.sw,
                                a + q,
                                b - q,
                            ));
                        } else {
                            assert(store.alive_at(self, a, b) == store.alive_at(
                                t.se,
                                a - q,
                                b - q,
                            ));
                        }
                    }
                }
            }
            false
        }
    }

    /// The tight bounding box of the node's alive cells: `None` exactly
    /// when the population is zero; otherwise every alive cell lies inside
    /// the box and each of its four edges carries an alive cell.
    #[verifier::loop_isolation(false)]
    #[verifier::rlimit(100)]
    pub fn bounding_box(self, store: &Store) -> (r: Option<BoundingBox>)
        requires
            store.wf(),
            store.has(self),
        ensures
            r is None <==> store.pop_of(self) == 0,
            r matches Some(bb) ==> bb.wf(),
            r matches Some(bb) ==> forall|a: int, b: int|
                #[trigger] store.alive_at(self, a, b) ==> bb.holds(a, b),
            r matches Some(bb) ==> exists|a: int, b: int|
                #[trigger] store.alive_at(self, a, b) && a == bb.ul().x as int,
            r matches Some(bb) ==> exists|a: int, b: int|
                #[trigger] store.alive_at(self, a, b) && a == bb.lr().x as int,
            r matches Some(bb) ==> exists|a: int, b: int|
                #[trigger] store.alive_at(self, a, b) && b == bb.ul().y as int,
            r matches Some(bb) ==> exists|a: int, b: int|
                #[trigger] store.alive_at(self, a, b) && b == bb.lr().y as int,
    {
        let cells = self.get_alive_cells(store);
        if cells.len() == 0 {
            proof {
                if store.pop_of(self) > 0 {
                    lemma_pop_pos_alive(*store, self);
                    let (a, b) = choose|a: int, b: int| #[trigger] store.alive_at(self, a, b);
                    assert(has_pos(cells@, a, b));
                    assert(false);
                }
            }
            None
        } else {
            proof {
                assert(has_pos(cells@, cells@[0].x as int, cells@[0].y as int)) by {
                    assert(cells@[0] == cells@[0]);
                }
                if store.pop_of(self) == 0 {
                    lemma_pop_zero_dead(*store, self, cells@[0].x as int, cells@[0].y as int);
                    assert(false);
                }
            }
            let p0 = cells[0];
            let mut min_x = p0.x;
            let mut max_x = p0.x;
            let mut min_y = p0.y;
            let mut max_y = p0.y;
            let mut i: usize = 1;
            while i < cells.len()
                invariant
                    1 <= i <= cells@.len(),
                    min_x <= max_x,
                    min_y <= max_y,
                    forall|j: int|
                        0 <= j < i ==> min_x <= (#[trigger] cells@[j]).x && cells@[j].x <= max_x
                            && min_y <= cells@[j].y && cells@[j].y <= max_y,
                    exists|j: int| 0 <= j < i && (#[trigger] cells@[j]).x == min_x,
                    exists|j: int| 0 <= j < i && (#[trigger] cells@[j]).x == max_x,
                    exists|j: int| 0 <= j < i && (#[trigger] cells@[j]).y == min_y,
                    exists|j: int| 0 <= j < i && (#[trigger] cells@[j]).y == max_y,
                decreases cells@.len() - i,
            {
                let p = cells[i];
                if p.x < min_x {
                    min_x = p.x;
                }
                if p.x > max_x {
                    max_x = p.x;
                }
                if p.y < min_y {
                    min_y = p.y;
                }
                if p.y > max_y {
                    max_y = p.y;
                }
                i = i + 1;
            }
            let bb = BoundingBox::new(
                Position { x: min_x, y: min_y },
                Position { x: max_x, y: max_y },
            );
            proof {
                assert forall|a: int, b: int|
                    #[trigger] store.alive_at(self, a, b) implies bb.holds(a, b) by {
                    assert(has_pos(cells@, a, b));
                    let j = choose|j: int|
                        0 <= j < cells@.len() && cells@[j].x == a && cells@[j].y == b;
                    assert(min_x <= cells@[j].x <= max_x);
                }
                let jx = choose|j: int| 0 <= j < cells@.len() && (#[trigger] cells@[j]).x == min_x;
                assert(has_pos(cells@, cells@[jx].x as int, cells@[jx].y as int));
                assert(store.alive_at(self, cells@[jx].x as int, cells@[jx].y as int));
                let kx = choose|j: int| 0 <= j < cells@.len() && (#[trigger] cells@[j]).x == max_x;
                assert(has_pos(cells@, cells@[kx].x as int, cells@[kx].y as int));
                assert(store.alive_at(self, cells@[kx].x as int, cells@[kx].y as int));
                let jy = choose|j: int| 0 <= j < cells@.len() && (#[trigger] cells@[j]).y == min_y;
                assert(has_pos(cells@, cells@[jy].x as int, cells@[jy].y as int));
                assert(store.alive_at(self, cells@[jy].x as int, cells@[jy].y as int));
                let ky = choose|j: int| 0 <= j < cells@.len() && (#[trigger] cells@[j]).y == max_y;
                assert(has_pos(cells@, cells@[ky].x as int, cells@[ky].y as int));
                assert(store.alive_at(self, cells@[ky].x as int, cells@[ky].y as int));
            }
            Some(bb)
        }
    }
}

} // verus!
