//! The expert grid behind the console's brain view.
//!
//! Routing here is *simulated*. The compute process does not report which
//! experts a token activated, so there is nothing real to draw yet. The tier
//! of each expert is fixed by the placement plan; its heat is floating point
//! and kept by the caller, who is told which experts fire.
use crate::text;
use vstd::prelude::*;

verus! {

/// A new grid draws from here.
pub const SEED: u64 = 0x9E37_79B9_7F4A_7C15;

/// The multiplier of the generator.
pub const MIX: u64 = 0x2545_F491_4F6C_DD1D;

// ---------------------------------------------------------------- the generator

/// The next state of a xorshift generator.
pub open spec fn shifted(x: u64) -> u64 {
    let a = x ^ (x >> 12u64);
    let b = a ^ (a << 25u64);
    b ^ (b >> 27u64)
}

/// What the generator gives out in a state.
pub open spec fn output(x: u64) -> u64 {
    x.wrapping_mul(MIX)
}

/// Advances the generator.
pub fn shift(x: u64) -> (r: u64)
    ensures
        r == shifted(x),
{
    let a: u64 = x ^ (x >> 12u64);
    let b: u64 = a ^ (a << 25u64);
    b ^ (b >> 27u64)
}

// ---------------------------------------------------------------- what fires

/// The state of the generator after `n` draws.
pub open spec fn after_draws(rng: u64, n: nat) -> u64
    decreases n,
{
    if n == 0 {
        rng
    } else {
        shifted(after_draws(rng, (n - 1) as nat))
    }
}

/// The column drawn by the draws `2 * k + 1` and `2 * k + 2`: the smaller of
/// two, which biases toward the hot, low end of the row - what a warmed-up
/// router looks like.
pub open spec fn column(rng: u64, k: nat, cols: nat) -> nat {
    let a = output(after_draws(rng, 2 * k + 1)) as nat % cols;
    let b = output(after_draws(rng, 2 * k + 2)) as nat % cols;
    if a < b {
        a
    } else {
        b
    }
}

/// The first column from `c` on, going round the row, that is not taken. After
/// `tries` taken ones the search is given up.
pub open spec fn free_from(taken: Seq<nat>, c: nat, cols: nat, tries: nat) -> nat
    decreases tries,
{
    if tries == 0 || !taken.contains(c) {
        c
    } else {
        free_from(
            taken,
            if c + 1 < cols {
                c + 1
            } else {
                0
            },
            cols,
            (tries - 1) as nat,
        )
    }
}

/// The first `n` columns of a row that fire, each another one: where the column
/// that is drawn has fired already, the next that has not fires in its place.
pub open spec fn row_fired(rng: u64, cols: nat, n: nat) -> Seq<nat>
    decreases n,
{
    if n == 0 {
        Seq::empty()
    } else {
        let before = row_fired(rng, cols, (n - 1) as nat);
        before.push(free_from(before, column(rng, (n - 1) as nat, cols), cols, cols))
    }
}

/// The experts in these columns of a row.
pub open spec fn in_row(row: nat, cols: nat, columns: Seq<nat>) -> Seq<nat> {
    Seq::new(columns.len(), |j: int| (row * cols + columns[j]) as nat)
}

/// The experts of the row of this number that fire.
pub open spec fn fired_in(rng: u64, row: nat, cols: nat, per_row: nat) -> Seq<nat> {
    in_row(row, cols, row_fired(after_draws(rng, 2 * per_row * row), cols, per_row))
}

/// The experts that fire, row by row, `per_row` of each.
pub open spec fn fired(rng: u64, rows: nat, cols: nat, per_row: nat) -> Seq<nat>
    decreases rows,
{
    if rows == 0 {
        Seq::empty()
    } else {
        fired(rng, (rows - 1) as nat, cols, per_row) + fired_in(
            rng,
            (rows - 1) as nat,
            cols,
            per_row,
        )
    }
}

/// The numbers of a list of experts.
pub open spec fn numbers(s: Seq<usize>) -> Seq<nat> {
    Seq::new(s.len(), |i: int| s[i] as nat)
}

proof fn lemma_after_draws(rng: u64, m: nat, n: nat)
    ensures
        after_draws(after_draws(rng, m), n) == after_draws(rng, m + n),
    decreases n,
{
    if n > 0 {
        lemma_after_draws(rng, m, (n - 1) as nat);
    }
}

proof fn lemma_all_taken(taken: Seq<nat>, n: nat)
    requires
        forall|x: nat| x < n ==> #[trigger] taken.contains(x),
    ensures
        taken.len() >= n,
    decreases n,
{
    if n > 0 {
        let last = (n - 1) as nat;
        assert(taken.contains(last));
        let k = choose|k: int| 0 <= k < taken.len() && taken[k] == last;
        let rest = taken.remove(k);
        assert forall|x: nat| x < n - 1 implies #[trigger] rest.contains(x) by {
            assert(taken.contains(x));
            let j = choose|j: int| 0 <= j < taken.len() && taken[j] == x;
            if j < k {
                assert(rest[j] == x);
            } else {
                assert(rest[j - 1] == x);
            }
        }
        lemma_all_taken(rest, last);
    }
}

proof fn lemma_search(taken: Seq<nat>, c: nat, cols: nat, tries: nat)
    requires
        c < cols,
        tries <= cols,
    ensures
        free_from(taken, c, cols, tries) < cols,
        taken.contains(free_from(taken, c, cols, tries)) ==> forall|x: nat|
            x < cols && (c <= x < c + tries || x + cols < c + tries) ==> #[trigger] taken.contains(
                x,
            ),
    decreases tries,
{
    if tries > 0 && taken.contains(c) {
        let d = if c + 1 < cols {
            c + 1
        } else {
            0
        };
        lemma_search(taken, d, cols, (tries - 1) as nat);
    }
}

proof fn lemma_free(taken: Seq<nat>, c: nat, cols: nat)
    requires
        c < cols,
        taken.len() < cols,
    ensures
        free_from(taken, c, cols, cols) < cols,
        !taken.contains(free_from(taken, c, cols, cols)),
{
    lemma_search(taken, c, cols, cols);
    if taken.contains(free_from(taken, c, cols, cols)) {
        assert forall|x: nat| x < cols implies #[trigger] taken.contains(x) by {}
        lemma_all_taken(taken, cols);
    }
}

proof fn lemma_column(rng: u64, k: nat, cols: nat)
    requires
        cols > 0,
    ensures
        column(rng, k, cols) < cols,
{
}

proof fn lemma_row_fired(rng: u64, cols: nat, n: nat)
    requires
        n <= cols,
    ensures
        row_fired(rng, cols, n).len() == n,
        row_fired(rng, cols, n).no_duplicates(),
        forall|j: int| 0 <= j < n ==> #[trigger] row_fired(rng, cols, n)[j] < cols,
    decreases n,
{
    if n > 0 {
        let before = row_fired(rng, cols, (n - 1) as nat);
        lemma_row_fired(rng, cols, (n - 1) as nat);
        lemma_column(rng, (n - 1) as nat, cols);
        lemma_free(before, column(rng, (n - 1) as nat, cols), cols);
        let all = row_fired(rng, cols, n);
        assert forall|i: int, j: int| 0 <= i < n && 0 <= j < n && i != j implies all[i]
            != all[j] by {
            if i < n - 1 {
                assert(before[i] == all[i]);
                assert(before.contains(all[i]));
            }
            if j < n - 1 {
                assert(before[j] == all[j]);
                assert(before.contains(all[j]));
            }
        }
        assert forall|j: int| 0 <= j < n implies #[trigger] all[j] < cols by {
            if j < n - 1 {
                assert(before[j] == all[j]);
            }
        }
    }
}

proof fn lemma_fired_in(rng: u64, row: nat, cols: nat, per_row: nat)
    requires
        per_row <= cols,
    ensures
        fired_in(rng, row, cols, per_row).len() == per_row,
        fired_in(rng, row, cols, per_row).no_duplicates(),
        forall|j: int|
            0 <= j < per_row ==> row * cols <= #[trigger] fired_in(rng, row, cols, per_row)[j] < (row
                + 1) * cols,
{
    let at = after_draws(rng, 2 * per_row * row);
    let c = row_fired(at, cols, per_row);
    lemma_row_fired(at, cols, per_row);
    assert((row + 1) * cols == row * cols + cols) by (nonlinear_arith);
    assert forall|j: int| 0 <= j < per_row implies row * cols <= #[trigger] fired_in(
        rng,
        row,
        cols,
        per_row,
    )[j] < (row + 1) * cols by {
        assert(c[j] < cols);
        assert(row * cols >= 0) by (nonlinear_arith);
    }
}

proof fn lemma_fired(rng: u64, rows: nat, cols: nat, per_row: nat)
    requires
        per_row <= cols,
    ensures
        fired(rng, rows, cols, per_row).len() == rows * per_row,
        forall|k: int|
            0 <= k < rows * per_row ==> #[trigger] fired(rng, rows, cols, per_row)[k] < rows * cols,
    decreases rows,
{
    if rows > 0 {
        let r = (rows - 1) as nat;
        lemma_fired(rng, r, cols, per_row);
        lemma_fired_in(rng, r, cols, per_row);
        assert(r * per_row + per_row == rows * per_row) by (nonlinear_arith)
            requires
                r == rows - 1,
        ;
        assert(r * cols + cols == rows * cols) by (nonlinear_arith)
            requires
                r == rows - 1,
        ;
        let (a, b) = (fired(rng, r, cols, per_row), fired_in(rng, r, cols, per_row));
        assert forall|k: int| 0 <= k < rows * per_row implies #[trigger] (a + b)[k] < rows
            * cols by {
            if k < a.len() {
                assert(a[k] < r * cols);
            } else {
                assert(b[k - a.len()] < (r + 1) * cols);
            }
        }
    } else {
        assert(rows * per_row == 0) by (nonlinear_arith)
            requires
                rows == 0,
        ;
    }
}

/// An expert of a row fires where the row fires it.
proof fn lemma_fires_for_its_row(
    rng: u64,
    rows: nat,
    cols: nat,
    per_row: nat,
    row: nat,
    i: nat,
)
    requires
        per_row <= cols,
        row < rows,
        row * cols <= i < (row + 1) * cols,
    ensures
        fired(rng, rows, cols, per_row).contains(i) == fired_in(
            rng,
            row,
            cols,
            per_row,
        ).contains(i),
    decreases rows,
{
    let r = (rows - 1) as nat;
    let (a, b) = (fired(rng, r, cols, per_row), fired_in(rng, r, cols, per_row));
    lemma_fired(rng, r, cols, per_row);
    lemma_fired_in(rng, r, cols, per_row);
    assert((a + b).contains(i) == (a.contains(i) || b.contains(i))) by {
        if a.contains(i) {
            let k = choose|k: int| 0 <= k < a.len() && a[k] == i;
            assert((a + b)[k] == i);
        }
        if b.contains(i) {
            let k = choose|k: int| 0 <= k < b.len() && b[k] == i;
            assert((a + b)[a.len() + k] == i);
        }
    }
    if row == r {
        assert(!a.contains(i));
    } else {
        assert((row + 1) * cols <= r * cols) by (nonlinear_arith)
            requires
                row + 1 <= r,
        ;
        assert(!b.contains(i));
        lemma_fires_for_its_row(rng, r, cols, per_row, row, i);
    }
}

/// How many bits of a range are set.
pub open spec fn set_between(hits: Seq<u8>, from: int, to: int) -> nat
    decreases to - from,
{
    if to <= from {
        0
    } else {
        set_between(hits, from, to - 1) + if bit_set(hits, to - 1) {
            1nat
        } else {
            0nat
        }
    }
}

proof fn lemma_set_between(hits: Seq<u8>, from: int, to: int, s: Seq<nat>)
    requires
        0 <= from <= to,
        s.no_duplicates(),
        forall|j: int| 0 <= j < s.len() ==> from <= #[trigger] s[j] < to,
        forall|i: int| from <= i < to ==> (#[trigger] bit_set(hits, i) <==> s.contains(i as nat)),
    ensures
        set_between(hits, from, to) == s.len(),
    decreases to - from,
{
    if from < to {
        let last = (to - 1) as nat;
        assert(bit_set(hits, to - 1) <==> s.contains(last));
        if s.contains(last) {
            let k = choose|k: int| 0 <= k < s.len() && s[k] == last;
            let rest = s.remove(k);
            assert forall|j: int| 0 <= j < rest.len() implies from <= #[trigger] rest[j] < to
                - 1 by {
                if j < k {
                    assert(rest[j] == s[j]);
                } else {
                    assert(rest[j] == s[j + 1]);
                }
            }
            assert forall|i: int| from <= i < to - 1 implies (#[trigger] bit_set(hits, i)
                <==> rest.contains(i as nat)) by {
                if s.contains(i as nat) {
                    let j = choose|j: int| 0 <= j < s.len() && s[j] == i as nat;
                    if j < k {
                        assert(rest[j] == i as nat);
                    } else {
                        assert(rest[j - 1] == i as nat);
                    }
                }
                if rest.contains(i as nat) {
                    let j = choose|j: int| 0 <= j < rest.len() && rest[j] == i as nat;
                    if j < k {
                        assert(s[j] == i as nat);
                    } else {
                        assert(s[j + 1] == i as nat);
                    }
                }
            }
            lemma_set_between(hits, from, to - 1, rest);
        } else {
            assert forall|j: int| 0 <= j < s.len() implies from <= #[trigger] s[j] < to - 1 by {
                if s[j] == last {
                    assert(s.contains(last));
                }
            }
            lemma_set_between(hits, from, to - 1, s);
        }
    } else {
        if s.len() > 0 {
            assert(from <= s[0] < to);
        }
    }
}

/// The bit of expert `i` is set.
pub open spec fn bit_set(hits: Seq<u8>, i: int) -> bool {
    (hits[i / 8] >> ((i % 8) as u8)) & 1u8 == 1u8
}

/// The expert grid.
#[derive(Debug)]
pub struct Experts {
    rows: usize,
    cols: usize,
    top_k: usize,
    tier: Vec<u8>,
    hits: Vec<u8>,
    seq: u64,
    rng: u64,
}

/// The tier of the column of this number: 2 is VRAM, 1 is host memory and 0 is
/// disk.
pub open spec fn tier_of(c: int, vram_cols: nat, ram_cols: nat) -> u8 {
    if c < vram_cols {
        2
    } else if c < vram_cols + ram_cols {
        1
    } else {
        0
    }
}

/// How many of the tiers are this one.
pub open spec fn tier_count(s: Seq<u8>, t: u8) -> nat
    decreases s.len(),
{
    if s.len() == 0 {
        0
    } else {
        tier_count(s.drop_last(), t) + if s.last() == t {
            1nat
        } else {
            0nat
        }
    }
}

/// The hexadecimal form of bytes.
pub open spec fn hex_of(s: Seq<u8>) -> Seq<char>
    decreases s.len(),
{
    if s.len() == 0 {
        Seq::empty()
    } else {
        hex_of(s.drop_last()) + text::byte_digits(s.last())
    }
}

impl Experts {
    pub closed spec fn row_count(&self) -> nat {
        self.rows as nat
    }

    pub closed spec fn col_count(&self) -> nat {
        self.cols as nat
    }

    /// How many experts of a row fire on a token.
    pub closed spec fn per_row(&self) -> nat {
        if self.top_k < self.cols {
            self.top_k as nat
        } else {
            self.cols as nat
        }
    }

    pub closed spec fn tiers(&self) -> Seq<u8> {
        self.tier@
    }

    pub closed spec fn marks(&self) -> Seq<u8> {
        self.hits@
    }

    pub closed spec fn tokens(&self) -> u64 {
        self.seq
    }

    pub closed spec fn state(&self) -> u64 {
        self.rng
    }

    /// There is an expert, and for each a tier and a bit.
    pub closed spec fn wf(&self) -> bool {
        &&& self.rows >= 1
        &&& self.cols >= 1
        &&& self.top_k >= 1
        &&& self.rows * self.cols + 7 <= usize::MAX
        &&& self.tier@.len() == self.rows * self.cols
        &&& self.hits@.len() == (self.rows * self.cols + 7) / 8
        &&& forall|i: int| 0 <= i < self.tier@.len() ==> self.tier@[i] <= 2
    }

    /// A grid of which nothing has fired. The first `vram_cols` experts of each
    /// layer are in VRAM, the next `ram_cols` in host memory. A model without
    /// layers or experts is drawn with one.
    pub fn new(layers: usize, experts: usize, top_k: usize, vram_cols: usize, ram_cols: usize) -> (r:
        Experts)
        requires
            (if layers == 0 {
                1
            } else {
                layers as int
            }) * (if experts == 0 {
                1
            } else {
                experts as int
            }) + 7 <= usize::MAX,
        ensures
            r.wf(),
            r.row_count() == if layers == 0 {
                1
            } else {
                layers as nat
            },
            r.col_count() == if experts == 0 {
                1
            } else {
                experts as nat
            },
            r.per_row() == if top_k == 0 {
                1
            } else if top_k < r.col_count() {
                top_k as nat
            } else {
                r.col_count()
            },
            r.tiers() == Seq::new(
                r.row_count() * r.col_count(),
                |i: int|
                    tier_of(i % r.col_count() as int, vram_cols as nat, ram_cols as nat),
            ),
            r.marks() == Seq::new(
                ((r.row_count() * r.col_count() + 7) / 8) as nat,
                |i: int| 0u8,
            ),
            r.tokens() == 0,
            r.state() == SEED,
    {
        let rows: usize = if layers == 0 {
            1
        } else {
            layers
        };
        let cols: usize = if experts == 0 {
            1
        } else {
            experts
        };
        let n: usize = rows * cols;
        let mut tier: Vec<u8> = Vec::new();
        let mut i: usize = 0;
        while i < n
            invariant
                i <= n,
                cols >= 1,
                tier@ == Seq::new(
                    i as nat,
                    |k: int| tier_of(k % cols as int, vram_cols as nat, ram_cols as nat),
                ),
            decreases n - i,
        {
            let c: usize = i % cols;
            let t: u8 = if c < vram_cols {
                2
            } else if c - vram_cols < ram_cols {
                1
            } else {
                0
            };
            tier.push(t);
            assert(tier@ =~= Seq::new(
                (i + 1) as nat,
                |k: int| tier_of(k % cols as int, vram_cols as nat, ram_cols as nat),
            ));
            i = i + 1;
        }
        let bytes: usize = (n + 7) / 8;
        let hits: Vec<u8> = vec![0u8; bytes];
        assert(hits@ =~= Seq::new(bytes as nat, |i: int| 0u8));
        Experts {
            rows,
            cols,
            top_k: if top_k == 0 {
                1
            } else {
                top_k
            },
            tier,
            hits,
            seq: 0,
            rng: SEED,
        }
    }

    fn draw(&mut self) -> (r: u64)
        ensures
            r == output(shifted(old(self).state())),
            final(self).state() == shifted(old(self).state()),
            final(self).rows == old(self).rows,
            final(self).cols == old(self).cols,
            final(self).top_k == old(self).top_k,
            final(self).tier == old(self).tier,
            final(self).hits == old(self).hits,
            final(self).seq == old(self).seq,
    {
        self.rng = shift(self.rng);
        self.rng.wrapping_mul(MIX)
    }

    /// Sets the bit of an expert.
    fn mark(&mut self, i: usize)
        requires
            i / 8 < old(self).hits@.len(),
        ensures
            final(self).hits@.len() == old(self).hits@.len(),
            forall|j: int|
                0 <= j && j / 8 < final(self).hits@.len() ==> (#[trigger] bit_set(
                    final(self).hits@,
                    j,
                ) <==> j == i || bit_set(old(self).hits@, j)),
            final(self).rng == old(self).rng,
            final(self).rows == old(self).rows,
            final(self).cols == old(self).cols,
            final(self).top_k == old(self).top_k,
            final(self).tier == old(self).tier,
            final(self).seq == old(self).seq,
    {
        let at: usize = i / 8;
        let shift: u8 = (i % 8) as u8;
        let was: u8 = self.hits[at];
        let now: u8 = was | (1u8 << shift);
        self.hits.set(at, now);
        proof {
            assert forall|j: int| 0 <= j && j / 8 < self.hits@.len() implies (#[trigger] bit_set(
                self.hits@,
                j,
            ) <==> j == i || bit_set(old(self).hits@, j)) by {
                if j / 8 == at {
                    let s = (j % 8) as u8;
                    assert(s < 8);
                    assert((now >> s) & 1u8 == 1u8 <==> s == shift || (was >> s) & 1u8 == 1u8)
                        by (bit_vector)
                        requires
                            now == was | (1u8 << shift),
                            s < 8,
                            shift < 8,
                    ;
                    assert(s == shift <==> j == i);
                }
            }
        }
    }

    /// Fires the experts of a row.
    fn fire_row(&mut self, row: usize, per_row: usize, out: &mut Vec<usize>)
        requires
            old(self).wf(),
            row < old(self).rows,
            per_row <= old(self).cols,
        ensures
            ({
                let f = in_row(
                    row as nat,
                    old(self).cols as nat,
                    row_fired(old(self).rng, old(self).cols as nat, per_row as nat),
                );
                &&& numbers(final(out)@) == numbers(old(out)@) + f
                &&& forall|q: int|
                    0 <= q && q / 8 < final(self).hits@.len() ==> (#[trigger] bit_set(
                        final(self).hits@,
                        q,
                    ) <==> bit_set(old(self).hits@, q) || f.contains(q as nat))
            }),
            final(self).rng == after_draws(old(self).rng, 2 * per_row as nat),
            final(self).wf(),
            final(self).hits@.len() == old(self).hits@.len(),
            final(self).rows == old(self).rows,
            final(self).cols == old(self).cols,
            final(self).top_k == old(self).top_k,
            final(self).tier == old(self).tier,
            final(self).seq == old(self).seq,
    {
        let cols: usize = self.cols;
        let ghost start = self.rng;
        let ghost all = numbers(out@);
        let mut taken: Vec<usize> = Vec::new();
        let mut k: usize = 0;
        assert(numbers(taken@) =~= row_fired(start, cols as nat, 0));
        assert(all + in_row(row as nat, cols as nat, numbers(taken@)) =~= all);
        while k < per_row
            invariant
                self.wf(),
                k <= per_row <= cols,
                row < self.rows,
                cols == self.cols,
                self.rng == after_draws(start, 2 * k as nat),
                numbers(taken@) == row_fired(start, cols as nat, k as nat),
                numbers(out@) == all + in_row(row as nat, cols as nat, numbers(taken@)),
                forall|q: int|
                    0 <= q && q / 8 < self.hits@.len() ==> (#[trigger] bit_set(self.hits@, q)
                        <==> bit_set(old(self).hits@, q) || in_row(
                        row as nat,
                        cols as nat,
                        numbers(taken@),
                    ).contains(q as nat)),
                self.hits@.len() == old(self).hits@.len(),
                self.rows == old(self).rows,
                self.cols == old(self).cols,
                self.top_k == old(self).top_k,
                self.tier == old(self).tier,
                self.seq == old(self).seq,
            decreases per_row - k,
        {
            let a: u64 = self.draw() % (cols as u64);
            let b: u64 = self.draw() % (cols as u64);
            let drawn: usize = if a < b {
                a as usize
            } else {
                b as usize
            };
            proof {
                assert(after_draws(start, (2 * k + 1) as nat) == shifted(
                    after_draws(start, (2 * k) as nat),
                ));
                assert(after_draws(start, (2 * k + 2) as nat) == shifted(
                    after_draws(start, (2 * k + 1) as nat),
                ));
                assert(drawn == column(start, k as nat, cols as nat));
                lemma_row_fired(start, cols as nat, k as nat);
                lemma_free(numbers(taken@), drawn as nat, cols as nat);
            }
            let c: usize = free_column(&taken, drawn, cols);
            assert(row * cols + c < self.rows * cols) by (nonlinear_arith)
                requires
                    row < self.rows,
                    c < cols,
            ;
            let i: usize = row * cols + c;
            let ghost before = in_row(row as nat, cols as nat, numbers(taken@));
            let ghost listed = out@;
            self.mark(i);
            out.push(i);
            taken.push(c);
            proof {
                let after = in_row(row as nat, cols as nat, numbers(taken@));
                assert(numbers(taken@) =~= row_fired(start, cols as nat, (k + 1) as nat));
                assert(after =~= before.push(i as nat));
                assert(numbers(out@) =~= numbers(listed).push(i as nat));
                assert(numbers(out@) =~= all + after);
                assert forall|q: int| 0 <= q && q / 8 < self.hits@.len() implies (
                #[trigger] bit_set(self.hits@, q) <==> bit_set(old(self).hits@, q)
                    || after.contains(q as nat)) by {
                    if before.contains(q as nat) {
                        let j = choose|j: int| 0 <= j < before.len() && before[j] == q as nat;
                        assert(after[j] == q as nat);
                    }
                    if q == i {
                        assert(after.last() == q as nat);
                    }
                    if after.contains(q as nat) {
                        let j = choose|j: int| 0 <= j < after.len() && after[j] == q as nat;
                        if j < before.len() {
                            assert(before[j] == q as nat);
                        }
                    }
                }
            }
            k = k + 1;
        }
    }

    /// Advance one token: fires `per_row` experts of each row, marks them and
    /// returns them in order.
    pub fn tick(&mut self) -> (r: Vec<usize>)
        requires
            old(self).wf(),
            old(self).tokens() < u64::MAX,
        ensures
            numbers(r@) == fired(
                old(self).state(),
                old(self).row_count(),
                old(self).col_count(),
                old(self).per_row(),
            ),
            r@.len() == old(self).row_count() * old(self).per_row(),
            forall|i: int|
                0 <= i < final(self).row_count() * final(self).col_count() ==> (#[trigger] bit_set(
                    final(self).marks(),
                    i,
                ) <==> numbers(r@).contains(i as nat)),
            forall|row: int|
                0 <= row < final(self).row_count() ==> #[trigger] set_between(
                    final(self).marks(),
                    row * final(self).col_count(),
                    (row + 1) * final(self).col_count(),
                ) == final(self).per_row(),
            final(self).state() == after_draws(
                old(self).state(),
                2 * old(self).per_row() * old(self).row_count(),
            ),
            final(self).wf(),
            final(self).tokens() == old(self).tokens() + 1,
            final(self).row_count() == old(self).row_count(),
            final(self).col_count() == old(self).col_count(),
            final(self).per_row() == old(self).per_row(),
            final(self).tiers() == old(self).tiers(),
    {
        let ghost start = self.rng;
        let (rows, cols) = (self.rows, self.cols);
        let per_row: usize = if self.top_k < cols {
            self.top_k
        } else {
            cols
        };
        let bytes: usize = self.hits.len();
        self.hits = vec![0u8; bytes];
        let mut out: Vec<usize> = Vec::new();
        let mut row: usize = 0;
        proof {
            assert(numbers(out@) =~= fired(start, 0, cols as nat, per_row as nat));
            assert(2 * per_row as nat * 0 == 0);
            assert forall|i: int| 0 <= i && i / 8 < bytes implies !#[trigger] bit_set(
                self.hits@,
                i,
            ) by {
                let s = (i % 8) as u8;
                assert((0u8 >> s) & 1u8 == 0u8) by (bit_vector);
            }
        }
        while row < rows
            invariant
                self.wf(),
                rows == self.rows,
                cols == self.cols,
                per_row == self.per_row(),
                per_row <= cols,
                row <= rows,
                self.rng == after_draws(start, 2 * per_row as nat * row as nat),
                numbers(out@) == fired(start, row as nat, cols as nat, per_row as nat),
                bytes == self.hits@.len(),
                bytes == old(self).hits@.len(),
                forall|q: int|
                    0 <= q && q / 8 < bytes ==> (#[trigger] bit_set(self.hits@, q) <==> numbers(
                        out@,
                    ).contains(q as nat)),
                self.rows == old(self).rows,
                self.cols == old(self).cols,
                self.top_k == old(self).top_k,
                self.tier == old(self).tier,
                self.seq == old(self).seq,
            decreases rows - row,
        {
            let ghost a = numbers(out@);
            let ghost b = fired_in(start, row as nat, cols as nat, per_row as nat);
            self.fire_row(row, per_row, &mut out);
            proof {
                lemma_after_draws(start, 2 * per_row as nat * row as nat, 2 * per_row as nat);
                assert(2 * per_row as nat * row as nat + 2 * per_row as nat == 2 * per_row as nat * (
                row + 1) as nat) by (nonlinear_arith);
                assert forall|q: int| 0 <= q && q / 8 < bytes implies (#[trigger] bit_set(
                    self.hits@,
                    q,
                ) <==> numbers(out@).contains(q as nat)) by {
                    if a.contains(q as nat) {
                        let j = choose|j: int| 0 <= j < a.len() && a[j] == q as nat;
                        assert((a + b)[j] == q as nat);
                    }
                    if b.contains(q as nat) {
                        let j = choose|j: int| 0 <= j < b.len() && b[j] == q as nat;
                        assert((a + b)[a.len() + j] == q as nat);
                    }
                }
            }
            row = row + 1;
        }
        self.seq = self.seq + 1;
        proof {
            let (r, c, p) = (rows as nat, cols as nat, per_row as nat);
            lemma_fired(start, r, c, p);
            assert(numbers(out@).len() == r * p);
            assert forall|row: int| 0 <= row < r implies #[trigger] set_between(
                self.marks(),
                row * c,
                (row + 1) * c,
            ) == p by {
                let f = fired_in(start, row as nat, c, p);
                lemma_fired_in(start, row as nat, c, p);
                assert(0 <= row * c <= (row + 1) * c <= r * c) by (nonlinear_arith)
                    requires
                        0 <= row,
                        row + 1 <= r,
                ;
                assert forall|i: int| row * c <= i < (row + 1) * c implies (#[trigger] bit_set(
                    self.marks(),
                    i,
                ) <==> f.contains(i as nat)) by {
                    lemma_fires_for_its_row(start, r, c, p, row as nat, i as nat);
                }
                lemma_set_between(self.marks(), row * c, (row + 1) * c, f);
            }
        }
        out
    }

    pub fn rows(&self) -> (r: usize)
        ensures
            r == self.row_count(),
    {
        self.rows
    }

    pub fn cols(&self) -> (r: usize)
        ensures
            r == self.col_count(),
    {
        self.cols
    }

    /// How many tokens have advanced the grid.
    pub fn seq(&self) -> (r: u64)
        ensures
            r == self.tokens(),
    {
        self.seq
    }

    /// The tiers and the heat of the experts as text: one hex byte per expert,
    /// the tier in the upper two bits and the heat in the others.
    pub open spec fn picture(&self, heat: Seq<u8>) -> Seq<char> {
        hex_of(Seq::new(heat.len(), |i: int| (self.tiers()[i] * 64 + heat[i]) as u8))
    }

    /// One hex byte per expert: the tier in the upper two bits, and its heat
    /// in the others. `heat` is the heat of each expert, from 0 to 63.
    pub fn map_hex(&self, heat: &[u8]) -> (r: String)
        requires
            self.wf(),
            heat@.len() == self.tiers().len(),
            forall|i: int| 0 <= i < heat@.len() ==> heat@[i] <= 63,
        ensures
            r@ == self.picture(heat@),
    {
        let ghost want = Seq::new(heat@.len(), |i: int| (self.tiers()[i] * 64 + heat@[i]) as u8);
        let mut r = String::new();
        let mut i: usize = 0;
        assert(want.take(0) =~= Seq::<u8>::empty());
        while i < heat.len()
            invariant
                i <= heat@.len(),
                self.wf(),
                heat@.len() == self.tier@.len(),
                self.tiers() == self.tier@,
                forall|k: int| 0 <= k < heat@.len() ==> heat@[k] <= 63,
                want == Seq::new(heat@.len(), |k: int| (self.tiers()[k] * 64 + heat@[k]) as u8),
                r@ == hex_of(want.take(i as int)),
            decreases heat@.len() - i,
        {
            assert(want.take(i + 1).drop_last() =~= want.take(i as int));
            text::append_byte(&mut r, self.tier[i] * 64 + heat[i]);
            i = i + 1;
        }
        assert(want.take(i as int) =~= want);
        r
    }

    /// One bit per expert, in bytes: those that fired on the last token.
    pub fn hits_hex(&self) -> (r: String)
        ensures
            r@ == hex_of(self.marks()),
    {
        let mut r = String::new();
        let mut i: usize = 0;
        assert(self.hits@.take(0) =~= Seq::<u8>::empty());
        while i < self.hits.len()
            invariant
                i <= self.hits@.len(),
                r@ == hex_of(self.hits@.take(i as int)),
            decreases self.hits@.len() - i,
        {
            assert(self.hits@.take(i + 1).drop_last() =~= self.hits@.take(i as int));
            text::append_byte(&mut r, self.hits[i]);
            i = i + 1;
        }
        assert(self.hits@.take(i as int) =~= self.hits@);
        r
    }

    /// How many experts are in VRAM, in host memory and on disk.
    pub fn counts(&self) -> (r: (usize, usize, usize))
        requires
            self.wf(),
        ensures
            r.0 == tier_count(self.tiers(), 2),
            r.1 == tier_count(self.tiers(), 1),
            r.2 == tier_count(self.tiers(), 0),
            r.0 + r.1 + r.2 == self.row_count() * self.col_count(),
    {
        let mut vram: usize = 0;
        let mut ram: usize = 0;
        let mut disk: usize = 0;
        let mut i: usize = 0;
        assert(self.tier@.take(0) =~= Seq::<u8>::empty());
        while i < self.tier.len()
            invariant
                i <= self.tier@.len(),
                self.wf(),
                vram == tier_count(self.tier@.take(i as int), 2),
                ram == tier_count(self.tier@.take(i as int), 1),
                disk == tier_count(self.tier@.take(i as int), 0),
                vram + ram + disk == i,
            decreases self.tier@.len() - i,
        {
            assert(self.tier@.take(i + 1).drop_last() =~= self.tier@.take(i as int));
            let t: u8 = self.tier[i];
            if t == 2 {
                vram = vram + 1;
            } else if t == 1 {
                ram = ram + 1;
            } else {
                disk = disk + 1;
            }
            i = i + 1;
        }
        assert(self.tier@.take(i as int) =~= self.tier@);
        (vram, ram, disk)
    }
}

/// The first column from `c` on, going round the row, that is not taken.
fn free_column(taken: &Vec<usize>, c: usize, cols: usize) -> (r: usize)
    requires
        c < cols,
    ensures
        r == free_from(numbers(taken@), c as nat, cols as nat, cols as nat),
        r < cols,
{
    let mut at: usize = c;
    let mut tries: usize = cols;
    while tries > 0 && is_taken(taken, at)
        invariant
            at < cols,
            free_from(numbers(taken@), c as nat, cols as nat, cols as nat) == free_from(
                numbers(taken@),
                at as nat,
                cols as nat,
                tries as nat,
            ),
        decreases tries,
    {
        at = if at + 1 < cols {
            at + 1
        } else {
            0
        };
        tries = tries - 1;
    }
    at
}

fn is_taken(taken: &Vec<usize>, c: usize) -> (r: bool)
    ensures
        r == numbers(taken@).contains(c as nat),
{
    let ghost all = numbers(taken@);
    let mut i: usize = 0;
    while i < taken.len()
        invariant
            i <= taken@.len(),
            all == numbers(taken@),
            forall|j: int| 0 <= j < i ==> #[trigger] all[j] != c,
        decreases taken@.len() - i,
    {
        if taken[i] == c {
            assert(all[i as int] == c as nat);
            return true;
        }
        i = i + 1;
    }
    false
}

/// A token fires the same number of experts in every row, each of them once,
/// and every one in the row it fires for.
pub proof fn law_every_row_fires_its_share(rng: u64, rows: nat, cols: nat, per_row: nat, row: nat)
    requires
        per_row <= cols,
        row < rows,
    ensures
        ({
            let f = fired_in(rng, row, cols, per_row);
            &&& f.len() == per_row
            &&& f.no_duplicates()
            &&& forall|j: int| 0 <= j < f.len() ==> row * cols <= #[trigger] f[j] < (row + 1) * cols
            &&& forall|i: nat|
                row * cols <= i < (row + 1) * cols ==> (#[trigger] f.contains(i) <==> fired(
                    rng,
                    rows,
                    cols,
                    per_row,
                ).contains(i))
        }),
{
    lemma_fired_in(rng, row, cols, per_row);
    let f = fired_in(rng, row, cols, per_row);
    assert forall|i: nat| row * cols <= i < (row + 1) * cols implies (#[trigger] f.contains(i)
        <==> fired(rng, rows, cols, per_row).contains(i)) by {
        lemma_fires_for_its_row(rng, rows, cols, per_row, row, i);
    }
}

// ---------------------------------------------------------------- what is promised

/// A column that is drawn is the smaller of two, and one of the row.
pub proof fn law_the_smaller_of_two_columns_is_drawn(rng: u64, k: nat, cols: nat)
    requires
        cols > 0,
    ensures
        column(rng, k, cols) < cols,
        column(rng, k, cols) <= output(after_draws(rng, 2 * k + 1)) as nat % cols,
        column(rng, k, cols) <= output(after_draws(rng, 2 * k + 2)) as nat % cols,
        column(rng, k, cols) == output(after_draws(rng, 2 * k + 1)) as nat % cols || column(
            rng,
            k,
            cols,
        ) == output(after_draws(rng, 2 * k + 2)) as nat % cols,
{
}

} // verus!
