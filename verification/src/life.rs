//! The universe facade: a root node, the store it lives in, and the
//! generation counter. `step` advances the whole universe by `2^k`
//! generations for the chosen step exponent k, after padding the root so
//! that the shrinking answer of the Hashlife recursion still holds every
//! live cell.

use vstd::prelude::*;
use vstd::arithmetic::power2::pow2;

use crate::cells::has_pos;
use crate::cells::in_range;
use crate::store::NodeId;
use crate::store::Store;
use crate::store::children_of;
use crate::store::lemma_alive_in_range;
use crate::store::lemma_pop_zero_dead;
use crate::store::min_coord_int;
use crate::store::max_coord_int;
use crate::BoundingBox;
use crate::Cell;
use crate::Position;

verus! {

/// The level of a fresh universe's root.
pub const INITIAL_LEVEL: u8 = 7;

/// A Game of Life universe: the current root node, the node store, and
/// the number of generations advanced so far.
pub struct Life {
    pub root: NodeId,
    pub store: Store,
    pub generation: u128,
}

impl Life {
    /// A consistent universe: the store is well-formed and the root is a
    /// stored interior node.
    pub open spec fn wf(self) -> bool {
        &&& self.store.wf()
        &&& self.store.has(self.root)
        &&& 5 <= self.store.level_of(self.root) <= 64
    }

    /// True when the cell at (x, y) is alive.
    pub open spec fn alive(self, x: int, y: int) -> bool {
        self.store.alive_at(self.root, x, y)
    }

    /// The number of alive cells.
    pub open spec fn pop(self) -> nat {
        self.store.pop_of(self.root)
    }

    /// True when each quadrant's population equals that of its inner
    /// sub-sub-node: every live cell sits in the central half of the root,
    /// so a step's shrinking result keeps every cell.
    pub open spec fn quadrants_centered(self) -> bool {
        let s = self.store;
        &&& s.pop_of(s.nw_of(self.root)) == s.pop_of(s.se_of(s.se_of(s.nw_of(self.root))))
        &&& s.pop_of(s.ne_of(self.root)) == s.pop_of(s.sw_of(s.sw_of(s.ne_of(self.root))))
        &&& s.pop_of(s.sw_of(self.root)) == s.pop_of(s.ne_of(s.ne_of(s.sw_of(self.root))))
        &&& s.pop_of(s.se_of(self.root)) == s.pop_of(s.nw_of(s.nw_of(s.se_of(self.root))))
    }

    /// An empty universe at generation zero.
    pub fn new() -> (l: Life)
        ensures
            l.wf(),
            l.generation == 0,
            l.store.k() == 0,
            l.pop() == 0,
            forall|a: int, b: int| !(#[trigger] l.alive(a, b)),
    {
        let mut store = Store::new();
        let root = store.create_empty(INITIAL_LEVEL);
        let l = Life { root, store, generation: 0 };
        proof {
            assert forall|a: int, b: int| !(#[trigger] l.alive(a, b)) by {
                lemma_pop_zero_dead(l.store, l.root, a, b);
            }
        }
        l
    }

    /// A universe holding exactly the given alive cells, at generation
    /// zero: the root is expanded until every coordinate fits, then the
    /// cells are set in bulk.
    #[verifier::loop_isolation(false)]
    pub fn from_alive_cells(cells: Vec<Position>) -> (l: Life)
        ensures
            l.wf(),
            l.generation == 0,
            l.store.k() == 0,
            forall|a: int, b: int| #[trigger] l.alive(a, b) == has_pos(cells@, a, b),
    {
        let mut store = Store::new();
        let mut root = store.create_empty(INITIAL_LEVEL);
        let mut j: usize = 0;
        while j < cells.len()
            invariant
                store.wf(),
                store.has(root),
                7 <= store.level_of(root) <= 64,
                store.pop_of(root) == 0,
                store.k() == 0,
                forall|i: int|
                    0 <= i < j ==> in_range(
                        store.level_of(root),
                        #[trigger] cells@[i].x as int,
                        cells@[i].y as int,
                    ),
            decreases cells@.len() - j,
        {
            let p = cells[j];
            while (p.x < root.min_coord(&store) || p.x > root.max_coord(&store) || p.y
                < root.min_coord(&store) || p.y > root.max_coord(&store)) && root.level(&store)
                < 64
                invariant
                    store.wf(),
                    store.has(root),
                    7 <= store.level_of(root) <= 64,
                    store.pop_of(root) == 0,
                    store.k() == 0,
                    forall|i: int|
                        0 <= i < j ==> in_range(
                            store.level_of(root),
                            #[trigger] cells@[i].x as int,
                            cells@[i].y as int,
                        ),
                decreases 64 - store.level_of(root),
            {
                proof {
                    lemma_range_grows(store.level_of(root));
                }
                root = root.expand(&mut store);
            }
            proof {
                if store.level_of(root) == 64 {
                    vstd::arithmetic::power2::lemma2_to64_rest();
                }
            }
            j = j + 1;
        }
        let ghost s_pre = store;
        let root2 = root.set_cells_alive(&mut store, cells);
        let l = Life { root: root2, store, generation: 0 };
        proof {
            assert forall|a: int, b: int| #[trigger] l.alive(a, b) == has_pos(cells@, a, b) by {
                lemma_pop_zero_dead(s_pre, root, a, b);
            }
        }
        l
    }

    /// Sets one cell alive, expanding the root first if the coordinate
    /// falls outside it.
    #[verifier::loop_isolation(false)]
    pub fn set_cell_alive(&mut self, position: Position)
        requires
            old(self).wf(),
            old(self).pop() < u128::MAX,
        ensures
            final(self).wf(),
            final(self).generation == old(self).generation,
            final(self).store.k() == old(self).store.k(),
            final(self).pop() <= old(self).pop() + 1,
            forall|a: int, b: int|
                #[trigger] final(self).alive(a, b) == (old(self).alive(a, b) || (a
                    == position.x as int && b == position.y as int)),
    {
        let ghost l0 = *self;
        while (position.x < self.root.min_coord(&self.store) || position.x > self.root.max_coord(
            &self.store,
        ) || position.y < self.root.min_coord(&self.store) || position.y > self.root.max_coord(
            &self.store,
        )) && self.root.level(&self.store) < 64
            invariant
                self.store.wf(),
                self.store.has(self.root),
                5 <= self.store.level_of(self.root) <= 64,
                self.store.k() == old(self).store.k(),
                self.generation == old(self).generation,
                self.store.pop_of(self.root) == old(self).pop(),
                forall|a: int, b: int|
                    #[trigger] self.store.alive_at(self.root, a, b) == l0.alive(a, b),
            decreases 64 - self.store.level_of(self.root),
        {
            let r = self.root.expand(&mut self.store);
            self.root = r;
        }
        proof {
            if self.store.level_of(self.root) == 64 {
                vstd::arithmetic::power2::lemma2_to64_rest();
            }
        }
        let r = self.root.set_cell_alive(&mut self.store, position);
        self.root = r;
    }

    /// The state of one cell. Cells outside the current root are dead.
    pub fn get_cell(&self, position: Position) -> (c: Cell)
        requires
            self.wf(),
        ensures
            c == (if self.alive(position.x as int, position.y as int) {
                Cell::Alive
            } else {
                Cell::Dead
            }),
    {
        if position.x < self.root.min_coord(&self.store) || position.x > self.root.max_coord(
            &self.store,
        ) || position.y < self.root.min_coord(&self.store) || position.y > self.root.max_coord(
            &self.store,
        ) {
            proof {
                if self.alive(position.x as int, position.y as int) {
                    lemma_alive_in_range(
                        self.store,
                        self.root,
                        position.x as int,
                        position.y as int,
                    );
                }
            }
            Cell::Dead
        } else {
            self.root.get_cell(&self.store, position)
        }
    }

    /// Every alive cell of the universe, as a list of positions: the list
    /// holds a position exactly when that cell is alive, holds each once,
    /// and its length is the population.
    pub fn get_alive_cells(&self) -> (r: Vec<Position>)
        requires
            self.wf(),
        ensures
            forall|a: int, b: int| #[trigger] has_pos(r@, a, b) == self.alive(a, b),
            r@.no_duplicates(),
            r@.len() == self.pop(),
    {
        self.root.get_alive_cells(&self.store)
    }

    /// True when any cell inside the rectangle is alive. The rectangle is
    /// clipped to the root first; cells outside the root are dead.
    pub fn contains_alive_cells(&self, bounding_box: BoundingBox) -> (r: bool)
        requires
            self.wf(),
            bounding_box.wf(),
        ensures
            r == exists|a: int, b: int|
                bounding_box.holds(a, b) && #[trigger] self.alive(a, b),
    {
        proof {
            assert(self.store.wf_node(self.root.idx()));
            vstd::arithmetic::power2::lemma_pow2_pos(
                (self.store.level_of(self.root) - 1) as nat,
            );
        }
        let lo = self.root.min_coord(&self.store);
        let hi = self.root.max_coord(&self.store);
        let ul = bounding_box.upper_left();
        let lr = bounding_box.lower_right();
        if ul.x > hi || ul.y > hi || lr.x < lo || lr.y < lo {
            proof {
                assert forall|a: int, b: int|
                    bounding_box.holds(a, b) implies !(#[trigger] self.alive(a, b)) by {
                    if self.alive(a, b) {
                        lemma_alive_in_range(self.store, self.root, a, b);
                    }
                }
            }
            false
        } else {
            let cx = if ul.x < lo {
                lo
            } else {
                ul.x
            };
            let cy = if ul.y < lo {
                lo
            } else {
                ul.y
            };
            let dx = if lr.x > hi {
                hi
            } else {
                lr.x
            };
            let dy = if lr.y > hi {
                hi
            } else {
                lr.y
            };
            let clipped = BoundingBox::new(Position { x: cx, y: cy }, Position { x: dx, y: dy });
            let r = self.root.contains_alive_cells(&self.store, clipped);
            proof {
                if r {
                    let (a, b) = choose|a: int, b: int|
                        clipped.holds(a, b) && #[trigger] self.store.alive_at(self.root, a, b);
                    assert(bounding_box.holds(a, b) && self.alive(a, b));
                } else {
                    assert forall|a: int, b: int|
                        bounding_box.holds(a, b) implies !(#[trigger] self.alive(a, b)) by {
                        if self.alive(a, b) {
                            lemma_alive_in_range(self.store, self.root, a, b);
                            assert(clipped.holds(a, b));
                        }
                    }
                }
            }
            r
        }
    }

    /// The tight bounding box of the alive cells, or `None` for an empty
    /// universe.
    pub fn bounding_box(&self) -> (r: Option<BoundingBox>)
        requires
            self.wf(),
        ensures
            r is None <==> self.pop() == 0,
            r matches Some(bb) ==> bb.wf(),
            r matches Some(bb) ==> forall|a: int, b: int|
                #[trigger] self.alive(a, b) ==> bb.holds(a, b),
            r matches Some(bb) ==> exists|a: int, b: int|
                #[trigger] self.alive(a, b) && a == bb.ul().x as int,
            r matches Some(bb) ==> exists|a: int, b: int|
                #[trigger] self.alive(a, b) && a == bb.lr().x as int,
            r matches Some(bb) ==> exists|a: int, b: int|
                #[trigger] self.alive(a, b) && b == bb.ul().y as int,
            r matches Some(bb) ==> exists|a: int, b: int|
                #[trigger] self.alive(a, b) && b == bb.lr().y as int,
    {
        let r = self.root.bounding_box(&self.store);
        proof {
            match r {
                Some(bb) => {
                    let (a1, b1) = choose|a: int, b: int|
                        #[trigger] self.store.alive_at(self.root, a, b) && a == bb.ul().x as int;
                    assert(self.alive(a1, b1) && a1 == bb.ul().x as int);
                    let (a2, b2) = choose|a: int, b: int|
                        #[trigger] self.store.alive_at(self.root, a, b) && a == bb.lr().x as int;
                    assert(self.alive(a2, b2) && a2 == bb.lr().x as int);
                    let (a3, b3) = choose|a: int, b: int|
                        #[trigger] self.store.alive_at(self.root, a, b) && b == bb.ul().y as int;
                    assert(self.alive(a3, b3) && b3 == bb.ul().y as int);
                    let (a4, b4) = choose|a: int, b: int|
                        #[trigger] self.store.alive_at(self.root, a, b) && b == bb.lr().y as int;
                    assert(self.alive(a4, b4) && b4 == bb.lr().y as int);
                },
                None => {
                },
            }
        }
        r
    }

    /// The generation counter: how many generations have been advanced.
    pub fn generation(&self) -> (g: u128)
        ensures
            g == self.generation,
    {
        self.generation
    }

    /// The number of alive cells.
    pub fn population(&self) -> (p: u128)
        requires
            self.wf(),
        ensures
            p as nat == self.pop(),
    {
        self.root.population(&self.store)
    }

    /// The number of generations one `step` advances: `2^k`.
    pub fn step_size(&self) -> (s: u64)
        requires
            self.wf(),
        ensures
            s as nat == pow2(self.store.k() as nat),
    {
        let k = self.store.step_log_2();
        proof {
            vstd::bits::lemma_u64_pow2_no_overflow(k as nat);
            vstd::bits::lemma_u64_shl_is_mul(1u64, k as u64);
        }
        1u64 << (k as u64)
    }

    /// The current step exponent k.
    pub fn step_log_2(&self) -> (k: u8)
        ensures
            k as int == self.store.k(),
    {
        self.store.step_log_2()
    }

    /// Changes the step exponent. The universe's cells and generation are
    /// untouched; the store's step cache is invalidated.
    pub fn set_step_log_2(&mut self, step_log_2: u8)
        requires
            old(self).wf(),
            step_log_2 < 64,
        ensures
            final(self).wf(),
            final(self).store.k() == step_log_2,
            final(self).generation == old(self).generation,
            final(self).root == old(self).root,
            final(self).pop() == old(self).pop(),
            forall|a: int, b: int| #[trigger] final(self).alive(a, b) == old(self).alive(a, b),
    {
        self.store.set_step_log_2(step_log_2);
        proof {
            assert forall|a: int, b: int|
                #[trigger] self.alive(a, b) == old(self).alive(a, b) by {
                crate::store::lemma_alive_preserved(
                    old(self).store,
                    self.store,
                    self.root,
                    a,
                    b,
                );
            }
        }
    }

    /// True when every quadrant's population sits inside its inner
    /// sub-sub-node, so that a step's shrinking result keeps every live
    /// cell.
    fn centered(&self) -> (r: bool)
        requires
            self.wf(),
            7 <= self.store.level_of(self.root),
        ensures
            r == self.quadrants_centered(),
    {
        proof {
            assert(self.store.wf_node(self.root.idx()));
        }
        let t = children_of(&self.store, self.root);
        proof {
            assert(self.store.wf_node(t.nw.idx()));
            assert(self.store.wf_node(t.ne.idx()));
            assert(self.store.wf_node(t.sw.idx()));
            assert(self.store.wf_node(t.se.idx()));
        }
        let tnw = children_of(&self.store, t.nw);
        let tne = children_of(&self.store, t.ne);
        let tsw = children_of(&self.store, t.sw);
        let tse = children_of(&self.store, t.se);
        proof {
            assert(self.store.wf_node(tnw.se.idx()));
            assert(self.store.wf_node(tne.sw.idx()));
            assert(self.store.wf_node(tsw.ne.idx()));
            assert(self.store.wf_node(tse.nw.idx()));
        }
        let dnw = children_of(&self.store, tnw.se).se;
        let dne = children_of(&self.store, tne.sw).sw;
        let dsw = children_of(&self.store, tsw.ne).ne;
        let dse = children_of(&self.store, tse.nw).nw;
        t.nw.population(&self.store) == dnw.population(&self.store) && t.ne.population(&self.store)
            == dne.population(&self.store) && t.sw.population(&self.store) == dsw.population(
            &self.store,
        ) && t.se.population(&self.store) == dse.population(&self.store)
    }

    /// Expands the root until it is deep enough for the step exponent and
    /// every quadrant's population sits inside the central region, or the
    /// level-64 ceiling is reached.
    #[verifier::loop_isolation(false)]
    fn pad(&mut self)
        requires
            old(self).wf(),
            old(self).store.k() <= 62,
        ensures
            final(self).wf(),
            7 <= final(self).store.level_of(final(self).root),
            final(self).store.k() <= final(self).store.level_of(final(self).root) - 2,
            final(self).quadrants_centered() || final(self).store.level_of(final(self).root)
                == 64,
            final(self).store.k() == old(self).store.k(),
            final(self).generation == old(self).generation,
            final(self).pop() == old(self).pop(),
            forall|a: int, b: int| #[trigger] final(self).alive(a, b) == old(self).alive(a, b),
    {
        let ghost l0 = *self;
        let k = self.store.step_log_2();
        let needed: u8 = if k + 2 > 7 {
            k + 2
        } else {
            7
        };
        while self.root.level(&self.store) < needed
            invariant
                self.store.wf(),
                self.store.has(self.root),
                5 <= self.store.level_of(self.root) <= 64,
                self.store.k() == old(self).store.k(),
                self.generation == old(self).generation,
                self.store.pop_of(self.root) == old(self).pop(),
                forall|a: int, b: int|
                    #[trigger] self.store.alive_at(self.root, a, b) == l0.alive(a, b),
            decreases needed - self.store.level_of(self.root),
        {
            let r = self.root.expand(&mut self.store);
            self.root = r;
        }
        while self.root.level(&self.store) < 64 && !self.centered()
            invariant
                self.store.wf(),
                self.store.has(self.root),
                needed <= self.store.level_of(self.root) <= 64,
                self.store.k() == old(self).store.k(),
                self.generation == old(self).generation,
                self.store.pop_of(self.root) == old(self).pop(),
                forall|a: int, b: int|
                    #[trigger] self.store.alive_at(self.root, a, b) == l0.alive(a, b),
            decreases 64 - self.store.level_of(self.root),
        {
            let r = self.root.expand(&mut self.store);
            self.root = r;
        }
    }

    /// Advances the universe by `2^k` generations for the current step
    /// exponent k: the root is padded, stepped once, and the generation
    /// counter is raised by the step size.
    pub fn step(&mut self)
        requires
            old(self).wf(),
            old(self).store.k() <= 62,
            old(self).generation + pow2(old(self).store.k() as nat) <= u128::MAX,
        ensures
            final(self).wf(),
            final(self).store.k() == old(self).store.k(),
            final(self).generation == old(self).generation + pow2(old(self).store.k() as nat),
            old(self).pop() == 0 ==> final(self).pop() == 0 && (forall|a: int, b: int|
                !(#[trigger] final(self).alive(a, b))),
    {
        self.pad();
        let r = self.root.step(&mut self.store);
        self.root = r;
        let size = self.step_size();
        self.generation = self.generation + size as u128;
        proof {
            if old(self).pop() == 0 {
                assert forall|a: int, b: int| !(#[trigger] self.alive(a, b)) by {
                    lemma_pop_zero_dead(self.store, self.root, a, b);
                }
            }
        }
    }
}

/// Expanding a node widens the coordinate range it covers.
proof fn lemma_range_grows(l: int)
    requires
        3 <= l <= 63,
    ensures
        min_coord_int(l + 1) <= min_coord_int(l),
        max_coord_int(l) <= max_coord_int(l + 1),
{
    vstd::arithmetic::power2::lemma_pow2_strictly_increases((l - 1) as nat, l as nat);
}

} // verus!
