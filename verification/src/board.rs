//! Bit-packed square boards and the leaf-level evolution kernels.
//!
//! An 8x8 board is eight `u8` rows and a 16x16 board is sixteen `u16` rows,
//! row-major from north to south. Within a row the most significant bit is
//! the westernmost cell: the cell (x, y) of a 16x16 board lives in row
//! `y + 8` at bit `7 - x`, for x and y in [-8, 8).
//!
//! One generation of Conway's rule (B3/S23) is evaluated bit-parallel on
//! whole rows: the eight neighbor words of a row are summed into a three-bit
//! saturating counter built from half adders, and the rule is read off the
//! counter bits. The rows wrap around at the board's edges, so the outermost
//! generations of a stepped board are garbage; callers keep only the center
//! of the result, which the framing helpers below cut out.

use vstd::prelude::*;
use vstd::arithmetic::power2::pow2;

verus! {

/// Bit `i` of a 16-bit row, for i < 16.
pub open spec fn bit16(r: u16, i: u16) -> bool {
    (r >> i) & 1 == 1
}

/// Bit `i` of an 8-bit row, for i < 8.
pub open spec fn bit8(r: u8, i: u8) -> bool {
    (r >> i) & 1 == 1
}

/// How many of the low `n` bits of `r` are set, for n <= 16.
pub open spec fn pop_row16(r: u16, n: u16) -> u16
    decreases n,
{
    if n == 0 {
        0u16
    } else {
        (pop_row16(r, (n - 1) as u16) + if bit16(r, (n - 1) as u16) {
            1u16
        } else {
            0u16
        }) as u16
    }
}

/// How many of the low `n` bits of `r` are set, for n <= 8.
pub open spec fn pop_row8(r: u8, n: u8) -> u8
    decreases n,
{
    if n == 0 {
        0u8
    } else {
        (pop_row8(r, (n - 1) as u8) + if bit8(r, (n - 1) as u8) {
            1u8
        } else {
            0u8
        }) as u8
    }
}

/// How many bits are set in the first `n` rows of a 16-bit board.
pub open spec fn rows_pop16(rows: Seq<u16>, n: nat) -> nat
    decreases n,
{
    if n == 0 {
        0
    } else {
        (rows_pop16(rows, (n - 1) as nat) + pop_row16(rows[n - 1], 16)) as nat
    }
}

/// How many bits are set in the first `n` rows of an 8-bit board.
pub open spec fn rows_pop8(rows: Seq<u8>, n: nat) -> nat
    decreases n,
{
    if n == 0 {
        0
    } else {
        (rows_pop8(rows, (n - 1) as nat) + pop_row8(rows[n - 1], 8)) as nat
    }
}

pub proof fn lemma_pop_row16_bounds(r: u16)
    by (bit_vector)
    ensures
        pop_row16(r, 16) <= 16,
        pop_row16(r, 16) == 0 ==> r == 0,
        r == 0 ==> pop_row16(r, 16) == 0,
{
}

pub proof fn lemma_pop_row8_bounds(r: u8)
    by (bit_vector)
    ensures
        pop_row8(r, 8) <= 8,
        pop_row8(r, 8) == 0 ==> r == 0,
        r == 0 ==> pop_row8(r, 8) == 0,
{
}

/// A board all of whose first `n` rows are zero has no bits set there.
pub proof fn lemma_rows_pop16_zero(rows: Seq<u16>, n: nat)
    requires
        forall|i: int| 0 <= i < n ==> rows[i] == 0,
    ensures
        rows_pop16(rows, n) == 0,
    decreases n,
{
    if n > 0 {
        lemma_rows_pop16_zero(rows, (n - 1) as nat);
        lemma_pop_row16_bounds(rows[n - 1]);
    }
}

/// A board all of whose first `n` rows are zero has no bits set there.
pub proof fn lemma_rows_pop8_zero(rows: Seq<u8>, n: nat)
    requires
        forall|i: int| 0 <= i < n ==> rows[i] == 0,
    ensures
        rows_pop8(rows, n) == 0,
    decreases n,
{
    if n > 0 {
        lemma_rows_pop8_zero(rows, (n - 1) as nat);
        lemma_pop_row8_bounds(rows[n - 1]);
    }
}

/// If the first `n` rows have no bits set, each of those rows is zero.
pub proof fn lemma_rows_pop16_zero_rows(rows: Seq<u16>, n: nat)
    requires
        rows_pop16(rows, n) == 0,
    ensures
        forall|i: int| 0 <= i < n ==> rows[i] == 0,
    decreases n,
{
    if n > 0 {
        lemma_rows_pop16_zero_rows(rows, (n - 1) as nat);
        lemma_pop_row16_bounds(rows[n - 1]);
    }
}

/// If the first `n` rows have no bits set, each of those rows is zero.
pub proof fn lemma_rows_pop8_zero_rows(rows: Seq<u8>, n: nat)
    requires
        rows_pop8(rows, n) == 0,
    ensures
        forall|i: int| 0 <= i < n ==> rows[i] == 0,
    decreases n,
{
    if n > 0 {
        lemma_rows_pop8_zero_rows(rows, (n - 1) as nat);
        lemma_pop_row8_bounds(rows[n - 1]);
    }
}

/// Counts the set bits of a 16-bit row.
pub fn popcount_row16(r: u16) -> (c: u16)
    ensures
        c == pop_row16(r, 16),
{
    let mut c: u16 = 0;
    let mut i: u16 = 0;
    while i < 16
        invariant
            i <= 16,
            c == pop_row16(r, i),
            c <= i,
        decreases 16 - i,
    {
        if (r >> i) & 1 == 1 {
            c = c + 1;
        }
        i = i + 1;
    }
    c
}

/// Counts the set bits of an 8-bit row.
pub fn popcount_row8(r: u8) -> (c: u8)
    ensures
        c == pop_row8(r, 8),
{
    let mut c: u8 = 0;
    let mut i: u8 = 0;
    while i < 8
        invariant
            i <= 8,
            c == pop_row8(r, i),
            c <= i,
        decreases 8 - i,
    {
        if (r >> i) & 1 == 1 {
            c = c + 1;
        }
        i = i + 1;
    }
    c
}

/// Counts the alive cells of a 16x16 board.
pub fn popcount16(rows: &Vec<u16>) -> (c: u16)
    requires
        rows@.len() == 16,
    ensures
        c as nat == rows_pop16(rows@, 16),
{
    let mut c: u16 = 0;
    let mut i: usize = 0;
    while i < 16
        invariant
            i <= 16,
            rows@.len() == 16,
            c as nat == rows_pop16(rows@, i as nat),
            c <= 16 * i,
        decreases 16 - i,
    {
        proof {
            lemma_pop_row16_bounds(rows@[i as int]);
        }
        c = c + popcount_row16(rows[i]);
        i = i + 1;
    }
    c
}

/// Counts the alive cells of an 8x8 board.
pub fn popcount8(rows: &Vec<u8>) -> (c: u16)
    requires
        rows@.len() == 8,
    ensures
        c as nat == rows_pop8(rows@, 8),
{
    let mut c: u16 = 0;
    let mut i: usize = 0;
    while i < 8
        invariant
            i <= 8,
            rows@.len() == 8,
            c as nat == rows_pop8(rows@, i as nat),
            c <= 8 * i,
        decreases 8 - i,
    {
        proof {
            lemma_pop_row8_bounds(rows@[i as int]);
        }
        c = c + popcount_row8(rows[i]) as u16;
        i = i + 1;
    }
    c
}

/// An exact copy of a board's rows.
pub fn copy_rows16(rows: &Vec<u16>) -> (r: Vec<u16>)
    ensures
        r@ == rows@,
{
    let mut out: Vec<u16> = Vec::new();
    let mut i: usize = 0;
    while i < rows.len()
        invariant
            i <= rows@.len(),
            out@ == rows@.subrange(0, i as int),
        decreases rows@.len() - i,
    {
        out.push(rows[i]);
        assert(out@ == rows@.subrange(0, i + 1 as int));
        i = i + 1;
    }
    assert(rows@.subrange(0, rows@.len() as int) == rows@);
    out
}

/// An exact copy of a board's rows.
pub fn copy_rows8(rows: &Vec<u8>) -> (r: Vec<u8>)
    ensures
        r@ == rows@,
{
    let mut out: Vec<u8> = Vec::new();
    let mut i: usize = 0;
    while i < rows.len()
        invariant
            i <= rows@.len(),
            out@ == rows@.subrange(0, i as int),
        decreases rows@.len() - i,
    {
        out.push(rows[i]);
        assert(out@ == rows@.subrange(0, i + 1 as int));
        i = i + 1;
    }
    assert(rows@.subrange(0, rows@.len() as int) == rows@);
    out
}

/// The center eight bits of a 16-bit row.
pub fn center(row: u16) -> (r: u8)
    ensures
        r == (row >> 4) as u8,
{
    (row >> 4) as u8
}

/// A three-bit saturating counter over sixteen independent bit lanes, used
/// to sum the eight neighbor words of a row.
struct Counts {
    low: u16,
    mid: u16,
    high: u16,
}

impl Counts {
    fn new() -> (c: Counts)
        ensures
            c.low == 0 && c.mid == 0 && c.high == 0,
    {
        Counts { low: 0, mid: 0, high: 0 }
    }

    fn add(&mut self, neighbors: u16)
        ensures
            final(self).low == old(self).low ^ neighbors,
            final(self).mid == old(self).mid ^ (old(self).low & neighbors),
            final(self).high == old(self).high | (old(self).mid & (old(self).low & neighbors)),
    {
        let low_carry = self.low & neighbors;
        self.low = self.low ^ neighbors;
        let mid_carry = self.mid & low_carry;
        self.mid = self.mid ^ low_carry;
        self.high = self.high | mid_carry;
    }
}

/// One generation of B3/S23 for the row `cur`, given the rows directly
/// north and south of it.
pub open spec fn life_row_spec(above: u16, cur: u16, below: u16) -> u16 {
    let c1 = count_add_spec((0u16, 0u16, 0u16), above >> 1);
    let c2 = count_add_spec(c1, above);
    let c3 = count_add_spec(c2, above << 1);
    let c4 = count_add_spec(c3, cur >> 1);
    let c5 = count_add_spec(c4, cur << 1);
    let c6 = count_add_spec(c5, below >> 1);
    let c7 = count_add_spec(c6, below);
    let c8 = count_add_spec(c7, below << 1);
    let two = !c8.2 & c8.1 & !c8.0;
    let three = !c8.2 & c8.1 & c8.0;
    (two & cur) | three
}

/// One half-adder step of the three-bit neighbor counter.
pub open spec fn count_add_spec(c: (u16, u16, u16), n: u16) -> (u16, u16, u16) {
    (c.0 ^ n, c.1 ^ (c.0 & n), c.2 | (c.1 & (c.0 & n)))
}

fn life_row(above: u16, cur: u16, below: u16) -> (r: u16)
    ensures
        r == life_row_spec(above, cur, below),
{
    let mut counts = Counts::new();
    counts.add(above >> 1);
    counts.add(above);
    counts.add(above << 1);
    counts.add(cur >> 1);
    counts.add(cur << 1);
    counts.add(below >> 1);
    counts.add(below);
    counts.add(below << 1);
    let two = !counts.high & counts.mid & !counts.low;
    let three = !counts.high & counts.mid & counts.low;
    (two & cur) | three
}


/// One when bit `i` of `r` is set, zero otherwise.
pub open spec fn bit_val16(r: u16, i: u16) -> u16 {
    if bit16(r, i) {
        1u16
    } else {
        0u16
    }
}

/// How many of the eight neighbors of the cell at bit `j` of the row `cur`
/// are alive, given the rows directly north and south of it. Meaningful
/// for interior bits, 1 <= j <= 14.
pub open spec fn neighbor_count(above: u16, cur: u16, below: u16, j: u16) -> u16 {
    (bit_val16(above, (j + 1) as u16) + bit_val16(above, j) + bit_val16(above, (j - 1) as u16)
        + bit_val16(cur, (j + 1) as u16) + bit_val16(cur, (j - 1) as u16) + bit_val16(
        below,
        (j + 1) as u16,
    ) + bit_val16(below, j) + bit_val16(below, (j - 1) as u16)) as u16
}

/// The row kernel computes Conway's rule: away from the row's edges, the
/// cell at bit `j` of the advanced row is alive exactly when it has three
/// alive neighbors, or is alive itself and has two.
pub proof fn lemma_life_row_rule(above: u16, cur: u16, below: u16, j: u16)
    by (bit_vector)
    requires
        1 <= j <= 14,
    ensures
        bit16(life_row_spec(above, cur, below), j) == (neighbor_count(above, cur, below, j) == 3
            || (bit16(cur, j) && neighbor_count(above, cur, below, j) == 2)),
{
}

/// Row `y` of a board advanced one generation, with the rows wrapping at
/// the north and south edges.
pub open spec fn step_row_spec(g: Seq<u16>, y: int) -> u16 {
    let above = if y == 0 {
        g[15]
    } else {
        g[y - 1]
    };
    let below = if y == 15 {
        g[0]
    } else {
        g[y + 1]
    };
    life_row_spec(above, g[y], below)
}


/// A whole 16x16 board advanced one generation (rows wrapping).
pub open spec fn step_board(g: Seq<u16>) -> Seq<u16> {
    Seq::new(16, |i: int| step_row_spec(g, i))
}

/// A 16x16 board advanced `n` generations (rows wrapping).
pub open spec fn step_iter(g: Seq<u16>, n: nat) -> Seq<u16>
    decreases n,
{
    if n == 0 {
        g
    } else {
        step_board(step_iter(g, (n - 1) as nat))
    }
}

/// The board centered between two side-by-side boards.
pub open spec fn horiz_board(w: Seq<u16>, e: Seq<u16>) -> Seq<u16> {
    Seq::new(16, |i: int| horiz_row(w, e, i))
}

/// The board centered between two stacked boards.
pub open spec fn vert_board(n: Seq<u16>, s: Seq<u16>) -> Seq<u16> {
    Seq::new(16, |i: int| vert_row(n, s, i))
}

/// The board at the center of a 2x2 tile of boards.
pub open spec fn center4_board(nw: Seq<u16>, ne: Seq<u16>, sw: Seq<u16>, se: Seq<u16>) -> Seq<
    u16,
> {
    Seq::new(16, |i: int| center4_row(nw, ne, sw, se, i))
}

/// The board assembled from the centers of four overlapping results.
pub open spec fn combine4_board(nw: Seq<u16>, ne: Seq<u16>, sw: Seq<u16>, se: Seq<u16>) -> Seq<
    u16,
> {
    Seq::new(16, |i: int| combine4_row(nw, ne, sw, se, i))
}

/// Advances a 16x16 board one generation. The rows wrap at the edges, so
/// the outermost ring of the result is garbage that the caller must crop.
pub fn step_once16(g: &Vec<u16>) -> (r: Vec<u16>)
    requires
        g@.len() == 16,
    ensures
        r@ == step_board(g@),
{
    let mut out: Vec<u16> = Vec::new();
    let mut y: usize = 0;
    while y < 16
        invariant
            y <= 16,
            g@.len() == 16,
            out@.len() == y,
            forall|i: int| 0 <= i < y ==> out@[i] == step_row_spec(g@, i),
        decreases 16 - y,
    {
        let above: u16 = if y == 0 {
            g[15]
        } else {
            g[y - 1]
        };
        let below: u16 = if y == 15 {
            g[0]
        } else {
            g[y + 1]
        };
        out.push(life_row(above, g[y], below));
        y = y + 1;
    }
    proof {
        assert(out@ =~= step_board(g@));
    }
    out
}

/// Advances a 16x16 board four generations; only the center 8x8 of the
/// result is meaningful.
pub fn jump16(g: &Vec<u16>) -> (r: Vec<u16>)
    requires
        g@.len() == 16,
    ensures
        r@ == step_iter(g@, 4),
        r@.len() == 16,
{
    let r1 = step_once16(g);
    let r2 = step_once16(&r1);
    let r3 = step_once16(&r2);
    let r4 = step_once16(&r3);
    proof {
        assert(step_iter(g@, 0) == g@);
        assert(step_iter(g@, 1) == step_board(step_iter(g@, 0)));
        assert(step_iter(g@, 2) == step_board(step_iter(g@, 1)));
        assert(step_iter(g@, 3) == step_board(step_iter(g@, 2)));
        assert(step_iter(g@, 4) == step_board(step_iter(g@, 3)));
        assert(step_board(g@).len() == 16);
        assert(step_iter(g@, 4).len() == 16);
    }
    r4
}

/// Advances a 16x16 board `2^k` generations, for k < 3; only the center
/// 8x8 of the result is meaningful.
#[verifier::loop_isolation(false)]
pub fn step16(g: &Vec<u16>, k: u8) -> (r: Vec<u16>)
    requires
        g@.len() == 16,
        k < 3,
    ensures
        r@ == step_iter(g@, pow2(k as nat)),
        r@.len() == 16,
{
    let mut out = copy_rows16(g);
    let steps: u8 = 1u8 << k;
    proof {
        vstd::bits::lemma_u8_pow2_no_overflow(k as nat);
        vstd::bits::lemma_u8_shl_is_mul(1u8, k);
        lemma_step_iter_len(g@, pow2(k as nat));
    }
    let mut i: u8 = 0;
    while i < steps
        invariant
            i <= steps,
            out@ == step_iter(g@, i as nat),
        decreases steps - i,
    {
        out = step_once16(&out);
        proof {
            assert(step_iter(g@, (i + 1) as nat) == step_board(step_iter(g@, i as nat)));
        }
        i = i + 1;
    }
    out
}

/// Stepping keeps a 16-row board 16 rows.
pub proof fn lemma_step_iter_len(g: Seq<u16>, n: nat)
    requires
        g.len() == 16,
    ensures
        step_iter(g, n).len() == 16,
    decreases n,
{
    if n > 0 {
        lemma_step_iter_len(g, (n - 1) as nat);
    }
}

/// Row `i` of the 16x16 board centered on the shared edge of the
/// west board `w` and the east board `e`.
pub open spec fn horiz_row(w: Seq<u16>, e: Seq<u16>, i: int) -> u16 {
    (w[i] << 8) | (e[i] >> 8)
}

/// The 16x16 board centered horizontally between two side-by-side boards:
/// the east half of `w` next to the west half of `e`.
pub fn horiz16(w: &Vec<u16>, e: &Vec<u16>) -> (r: Vec<u16>)
    requires
        w@.len() == 16,
        e@.len() == 16,
    ensures
        r@.len() == 16,
        forall|i: int| 0 <= i < 16 ==> r@[i] == horiz_row(w@, e@, i),
{
    let mut out: Vec<u16> = Vec::new();
    let mut i: usize = 0;
    while i < 16
        invariant
            i <= 16,
            w@.len() == 16,
            e@.len() == 16,
            out@.len() == i,
            forall|j: int| 0 <= j < i ==> out@[j] == horiz_row(w@, e@, j),
        decreases 16 - i,
    {
        out.push((w[i] << 8) | (e[i] >> 8));
        i = i + 1;
    }
    out
}

/// Row `i` of the 16x16 board centered on the shared edge of the
/// north board `n` and the south board `s`.
pub open spec fn vert_row(n: Seq<u16>, s: Seq<u16>, i: int) -> u16 {
    if i < 8 {
        n[i + 8]
    } else {
        s[i - 8]
    }
}

/// The 16x16 board centered vertically between two stacked boards: the
/// south half of `n` above the north half of `s`.
pub fn vert16(n: &Vec<u16>, s: &Vec<u16>) -> (r: Vec<u16>)
    requires
        n@.len() == 16,
        s@.len() == 16,
    ensures
        r@.len() == 16,
        forall|i: int| 0 <= i < 16 ==> r@[i] == vert_row(n@, s@, i),
{
    let mut out: Vec<u16> = Vec::new();
    let mut i: usize = 0;
    while i < 16
        invariant
            i <= 16,
            n@.len() == 16,
            s@.len() == 16,
            out@.len() == i,
            forall|j: int| 0 <= j < i ==> out@[j] == vert_row(n@, s@, j),
        decreases 16 - i,
    {
        if i < 8 {
            out.push(n[i + 8]);
        } else {
            out.push(s[i - 8]);
        }
        i = i + 1;
    }
    out
}

/// Row `i` of the 16x16 board at the center of four boards arranged in a
/// 2x2 tile.
pub open spec fn center4_row(
    nw: Seq<u16>,
    ne: Seq<u16>,
    sw: Seq<u16>,
    se: Seq<u16>,
    i: int,
) -> u16 {
    if i < 8 {
        (nw[i + 8] << 8) | (ne[i + 8] >> 8)
    } else {
        (sw[i - 8] << 8) | (se[i - 8] >> 8)
    }
}

/// The 16x16 board at the center of four boards arranged in a 2x2 tile.
pub fn center4(nw: &Vec<u16>, ne: &Vec<u16>, sw: &Vec<u16>, se: &Vec<u16>) -> (r: Vec<u16>)
    requires
        nw@.len() == 16,
        ne@.len() == 16,
        sw@.len() == 16,
        se@.len() == 16,
    ensures
        r@.len() == 16,
        forall|i: int| 0 <= i < 16 ==> r@[i] == center4_row(nw@, ne@, sw@, se@, i),
{
    let mut out: Vec<u16> = Vec::new();
    let mut i: usize = 0;
    while i < 16
        invariant
            i <= 16,
            nw@.len() == 16,
            ne@.len() == 16,
            sw@.len() == 16,
            se@.len() == 16,
            out@.len() == i,
            forall|j: int| 0 <= j < i ==> out@[j] == center4_row(nw@, ne@, sw@, se@, j),
        decreases 16 - i,
    {
        if i < 8 {
            out.push((nw[i + 8] << 8) | (ne[i + 8] >> 8));
        } else {
            out.push((sw[i - 8] << 8) | (se[i - 8] >> 8));
        }
        i = i + 1;
    }
    out
}

/// Row `i` of the board assembled from the centers of four overlapping
/// results: the center 8x8 of each input becomes one quadrant of the
/// output.
pub open spec fn combine4_row(
    nw: Seq<u16>,
    ne: Seq<u16>,
    sw: Seq<u16>,
    se: Seq<u16>,
    i: int,
) -> u16 {
    if i < 8 {
        ((nw[i + 4] << 4) & 0xff00) | ((ne[i + 4] >> 4) & 0x00ff)
    } else {
        ((sw[i - 4] << 4) & 0xff00) | ((se[i - 4] >> 4) & 0x00ff)
    }
}

/// Assembles a 16x16 board from the center 8x8 regions of four overlapping
/// 16x16 results, one per quadrant.
pub fn combine4(nw: &Vec<u16>, ne: &Vec<u16>, sw: &Vec<u16>, se: &Vec<u16>) -> (r: Vec<u16>)
    requires
        nw@.len() == 16,
        ne@.len() == 16,
        sw@.len() == 16,
        se@.len() == 16,
    ensures
        r@.len() == 16,
        forall|i: int| 0 <= i < 16 ==> r@[i] == combine4_row(nw@, ne@, sw@, se@, i),
{
    let mut out: Vec<u16> = Vec::new();
    let mut i: usize = 0;
    while i < 16
        invariant
            i <= 16,
            nw@.len() == 16,
            ne@.len() == 16,
            sw@.len() == 16,
            se@.len() == 16,
            out@.len() == i,
            forall|j: int| 0 <= j < i ==> out@[j] == combine4_row(nw@, ne@, sw@, se@, j),
        decreases 16 - i,
    {
        if i < 8 {
            out.push(((nw[i + 4] << 4) & 0xff00) | ((ne[i + 4] >> 4) & 0x00ff));
        } else {
            out.push(((sw[i - 4] << 4) & 0xff00) | ((se[i - 4] >> 4) & 0x00ff));
        }
        i = i + 1;
    }
    out
}

/// Row `i` of the 16x16 board whose quadrants are four 8x8 boards.
pub open spec fn promote_row(
    nw: Seq<u8>,
    ne: Seq<u8>,
    sw: Seq<u8>,
    se: Seq<u8>,
    i: int,
) -> u16 {
    if i < 8 {
        ((nw[i] as u16) << 8) | (ne[i] as u16)
    } else {
        ((sw[i - 8] as u16) << 8) | (se[i - 8] as u16)
    }
}

/// Assembles a 16x16 board from four 8x8 quadrant boards.
pub fn promote(nw: &Vec<u8>, ne: &Vec<u8>, sw: &Vec<u8>, se: &Vec<u8>) -> (r: Vec<u16>)
    requires
        nw@.len() == 8,
        ne@.len() == 8,
        sw@.len() == 8,
        se@.len() == 8,
    ensures
        r@.len() == 16,
        forall|i: int| 0 <= i < 16 ==> r@[i] == promote_row(nw@, ne@, sw@, se@, i),
{
    let mut out: Vec<u16> = Vec::new();
    let mut i: usize = 0;
    while i < 16
        invariant
            i <= 16,
            nw@.len() == 8,
            ne@.len() == 8,
            sw@.len() == 8,
            se@.len() == 8,
            out@.len() == i,
            forall|j: int| 0 <= j < i ==> out@[j] == promote_row(nw@, ne@, sw@, se@, j),
        decreases 16 - i,
    {
        if i < 8 {
            out.push(((nw[i] as u16) << 8) | (ne[i] as u16));
        } else {
            out.push(((sw[i - 8] as u16) << 8) | (se[i - 8] as u16));
        }
        i = i + 1;
    }
    out
}

/// The board all of whose cells are dead.
pub fn zero_rows16() -> (r: Vec<u16>)
    ensures
        r@.len() == 16,
        forall|i: int| 0 <= i < 16 ==> r@[i] == 0,
{
    let mut out: Vec<u16> = Vec::new();
    let mut i: usize = 0;
    while i < 16
        invariant
            i <= 16,
            out@.len() == i,
            forall|j: int| 0 <= j < i ==> out@[j] == 0,
        decreases 16 - i,
    {
        out.push(0);
        i = i + 1;
    }
    out
}

/// The board all of whose cells are dead.
pub fn zero_rows8() -> (r: Vec<u8>)
    ensures
        r@.len() == 8,
        forall|i: int| 0 <= i < 8 ==> r@[i] == 0,
{
    let mut out: Vec<u8> = Vec::new();
    let mut i: usize = 0;
    while i < 8
        invariant
            i <= 8,
            out@.len() == i,
            forall|j: int| 0 <= j < i ==> out@[j] == 0,
        decreases 8 - i,
    {
        out.push(0);
        i = i + 1;
    }
    out
}

/// The nine overlapping 16x16 boards of a level-5 node, by compass label:
/// the four quadrant boards, the four edge-centered boards and the center
/// board.
pub open spec fn nine_board(
    bnw: Seq<u16>,
    bne: Seq<u16>,
    bsw: Seq<u16>,
    bse: Seq<u16>,
    which: int,
) -> Seq<u16> {
    if which == 0 {
        bnw
    } else if which == 1 {
        horiz_board(bnw, bne)
    } else if which == 2 {
        bne
    } else if which == 3 {
        vert_board(bnw, bsw)
    } else if which == 4 {
        center4_board(bnw, bne, bsw, bse)
    } else if which == 5 {
        vert_board(bne, bse)
    } else if which == 6 {
        bsw
    } else if which == 7 {
        horiz_board(bsw, bse)
    } else {
        bse
    }
}

/// The board of the level-4 leaf that a step of a level-5 node with the
/// given quadrant boards produces: the nine overlapping boards are advanced
/// `n` generations, four overlapping tiles are cut from their centers,
/// advanced, and the four results' centers are spliced back together.
pub open spec fn step5_board(
    bnw: Seq<u16>,
    bne: Seq<u16>,
    bsw: Seq<u16>,
    bse: Seq<u16>,
    pre: nat,
    n: nat,
) -> Seq<u16> {
    let a = step_iter(nine_board(bnw, bne, bsw, bse, 0), pre);
    let b = step_iter(nine_board(bnw, bne, bsw, bse, 1), pre);
    let c = step_iter(nine_board(bnw, bne, bsw, bse, 2), pre);
    let d = step_iter(nine_board(bnw, bne, bsw, bse, 3), pre);
    let e = step_iter(nine_board(bnw, bne, bsw, bse, 4), pre);
    let f = step_iter(nine_board(bnw, bne, bsw, bse, 5), pre);
    let g = step_iter(nine_board(bnw, bne, bsw, bse, 6), pre);
    let h = step_iter(nine_board(bnw, bne, bsw, bse, 7), pre);
    let i = step_iter(nine_board(bnw, bne, bsw, bse, 8), pre);
    let w = step_iter(combine4_board(a, b, d, e), n);
    let x = step_iter(combine4_board(b, c, e, f), n);
    let y = step_iter(combine4_board(d, e, g, h), n);
    let z = step_iter(combine4_board(e, f, h, i), n);
    combine4_board(w, x, y, z)
}


} // verus!
