//! Packed Hilbert R-tree spatial index.
//!
//! Features are ordered by the Hilbert curve value of their bounding box
//! centre. A static R-tree is built bottom-up over that order: level 0 holds
//! one node per feature, each higher level one node per `node_size` nodes of
//! the level below, up to a single root. All levels are stored in one flat
//! array, level 0 first.
//!
//! What a bounding box is, and whether one meets a query, is floating-point
//! work done by the caller: this module computes the order, the shape of the
//! tree, the search over it given which nodes meet a query, and the bytes of
//! the index section.

use crate::error::{agrees, ErffError, ErrorCase};
use crate::layout::{enc_repeat, enc_u16, enc_u64, parse_repeat};
use crate::reader::{lemma_repeat_err_persists, parse_u16, parse_u64, read_u16, read_u64};
use crate::types::EnvelopeBits;
use crate::writer::{put_u16, put_u64};
use vstd::prelude::*;

verus! {

// ── Hilbert curve ──────────────────────────────────────────────────────────

/// The quadrant digit of the Hilbert curve, `(3 * rx) ^ ry`: lower left 0,
/// upper left 1, upper right 2, lower right 3.
pub open spec fn quadrant_digit(rx: bool, ry: bool) -> int {
    if !rx && !ry {
        0
    } else if !rx && ry {
        1
    } else if rx && ry {
        2
    } else {
        3
    }
}

/// Index of cell `(x, y)` along the Hilbert curve of the grid of side `2 s`
/// (`s` a power of two): the quadrant's digit times the cells of a
/// quadrant, plus the index of the cell within its quadrant, the quadrant
/// turned so that the curves join (reflected across the anti-diagonal for
/// the lower right quadrant, across the diagonal for the lower left one).
pub open spec fn hilbert_d(x: int, y: int, s: int) -> int
    decreases s,
{
    if s <= 0 {
        0
    } else {
        let rx = x >= s;
        let ry = y >= s;
        let x1 = if rx {
            x - s
        } else {
            x
        };
        let y1 = if ry {
            y - s
        } else {
            y
        };
        let x2 = if ry {
            x1
        } else if rx {
            s - 1 - y1
        } else {
            y1
        };
        let y2 = if ry {
            y1
        } else if rx {
            s - 1 - x1
        } else {
            x1
        };
        s * s * quadrant_digit(rx, ry) + hilbert_d(x2, y2, s / 2)
    }
}

/// Side of the Hilbert grid of this index: 2^16 cells.
pub const HILBERT_N: u32 = 65536;

/// The curve index of a cell is below the number of cells.
pub proof fn lemma_hilbert_bound(x: int, y: int, k: nat)
    requires
        0 <= x < 2 * pw(2, k),
        0 <= y < 2 * pw(2, k),
    ensures
        0 <= hilbert_d(x, y, pw(2, k)) < 4 * pw(2, k) * pw(2, k),
    decreases k,
{
    let s = pw(2, k);
    lemma_pw_pos(2, k);
    let rx = x >= s;
    let ry = y >= s;
    let q = quadrant_digit(rx, ry);
    let x1 = if rx { x - s } else { x };
    let y1 = if ry { y - s } else { y };
    let x2 = if ry { x1 } else if rx { s - 1 - y1 } else { y1 };
    let y2 = if ry { y1 } else if rx { s - 1 - x1 } else { x1 };
    if k == 0 {
        assert(s == 1);
        assert(hilbert_d(x2, y2, 0) == 0);
        assert(s / 2 == 0);
    } else {
        let h = pw(2, (k - 1) as nat);
        assert(s == h * 2);
        assert(s / 2 == h);
        lemma_hilbert_bound(x2, y2, (k - 1) as nat);
        assert(s * s * q + 4 * h * h <= 4 * s * s) by (nonlinear_arith)
            requires
                s == h * 2,
                0 <= q <= 3,
                h >= 1,
        ;
        assert(s * s * q >= 0) by (nonlinear_arith)
            requires
                0 <= q,
                s >= 1,
        ;
    }
}

/// Map (x, y) in [0, 65536) to a Hilbert curve index.
pub fn xy_to_hilbert(x: i64, y: i64) -> (d: u64)
    requires
        0 <= x < HILBERT_N,
        0 <= y < HILBERT_N,
    ensures
        d == hilbert_d(x as int, y as int, HILBERT_N as int / 2),
        d < HILBERT_N * HILBERT_N,
{
    let ghost total = hilbert_d(x as int, y as int, HILBERT_N as int / 2);
    let mut x = x;
    let mut y = y;
    let mut d: u64 = 0;
    let mut s: i64 = (HILBERT_N / 2) as i64;
    let ghost mut k: nat = 15;
    proof {
        reveal_with_fuel(pw, 16);
        assert(pw(2, 15) == 32768);
        lemma_hilbert_bound(x as int, y as int, 15);
    }
    while s > 0
        invariant
            s == 0 || s == pw(2, k),
            s > 0 ==> 0 <= x < 2 * s && 0 <= y < 2 * s,
            s <= 32768,
            d + hilbert_d(x as int, y as int, s as int) == total,
            0 <= total < HILBERT_N * HILBERT_N,
        decreases s,
    {
        proof {
            lemma_pw_pos(2, k);
        }
        let ghost xs = x as int;
        let ghost ys = y as int;
        let ghost ss = s as int;
        let s_old = s;
        let rx = x >= s;
        let ry = y >= s;
        let digit: i64 = if !rx && !ry {
            0
        } else if !rx && ry {
            1
        } else if rx && ry {
            2
        } else {
            3
        };
        // Within the quadrant
        if rx {
            x = x - s;
        }
        if ry {
            y = y - s;
        }
        // Rotate
        if !ry {
            if rx {
                x = s - 1 - x;
                y = s - 1 - y;
            }
            let t = x;
            x = y;
            y = t;
        }
        s = s / 2;
        proof {
            assert(hilbert_d(xs, ys, ss) == ss * ss * digit + hilbert_d(x as int, y as int, s as int));
            if k >= 1 {
                assert(s == pw(2, (k - 1) as nat));
                lemma_hilbert_bound(x as int, y as int, (k - 1) as nat);
                k = (k - 1) as nat;
            } else {
                assert(s == 0);
            }
            assert(ss * ss * digit >= 0) by (nonlinear_arith)
                requires
                    0 <= digit,
                    ss >= 1,
            ;
            assert(ss * ss * digit <= 3 * 32768 * 32768) by (nonlinear_arith)
                requires
                    0 <= digit <= 3,
                    0 < ss <= 32768,
            ;
        }
        assert(s_old * s_old <= 32768 * 32768 && s_old * s_old * digit <= 3 * 32768 * 32768)
            by (nonlinear_arith)
            requires
                0 <= digit <= 3,
                0 < s_old <= 32768,
        ;
        d = d + (s_old * s_old * digit) as u64;
    }
    d
}

/// Distinct cells have distinct Hilbert curve indices: the curve visits
/// each cell of the grid of side `2 s` once.
pub proof fn lemma_hilbert_injective(x1: int, y1: int, x2: int, y2: int, k: nat)
    requires
        0 <= x1 < 2 * pw(2, k),
        0 <= y1 < 2 * pw(2, k),
        0 <= x2 < 2 * pw(2, k),
        0 <= y2 < 2 * pw(2, k),
        hilbert_d(x1, y1, pw(2, k)) == hilbert_d(x2, y2, pw(2, k)),
    ensures
        x1 == x2 && y1 == y2,
    decreases k,
{
    let s = pw(2, k);
    lemma_pw_pos(2, k);
    let rxa = x1 >= s;
    let rya = y1 >= s;
    let rxb = x2 >= s;
    let ryb = y2 >= s;
    let qa = quadrant_digit(rxa, rya);
    let qb = quadrant_digit(rxb, ryb);
    let xa = if rxa { x1 - s } else { x1 };
    let ya = if rya { y1 - s } else { y1 };
    let xb = if rxb { x2 - s } else { x2 };
    let yb = if ryb { y2 - s } else { y2 };
    let xa2 = if rya { xa } else if rxa { s - 1 - ya } else { ya };
    let ya2 = if rya { ya } else if rxa { s - 1 - xa } else { xa };
    let xb2 = if ryb { xb } else if rxb { s - 1 - yb } else { yb };
    let yb2 = if ryb { yb } else if rxb { s - 1 - xb } else { xb };
    let ra = hilbert_d(xa2, ya2, s / 2);
    let rb = hilbert_d(xb2, yb2, s / 2);
    if k == 0 {
        assert(s == 1);
        assert(s / 2 == 0);
        assert(ra == 0 && rb == 0);
    } else {
        let h = pw(2, (k - 1) as nat);
        assert(s == h * 2);
        assert(s / 2 == h);
        lemma_hilbert_bound(xa2, ya2, (k - 1) as nat);
        lemma_hilbert_bound(xb2, yb2, (k - 1) as nat);
        assert(s * s == 4 * h * h) by (nonlinear_arith)
            requires
                s == h * 2,
        ;
    }
    assert(qa == qb) by (nonlinear_arith)
        requires
            s * s * qa + ra == s * s * qb + rb,
            0 <= ra < s * s,
            0 <= rb < s * s,
            0 <= qa <= 3,
            0 <= qb <= 3,
            s >= 1,
    ;
    assert(rxa == rxb && rya == ryb);
    if k > 0 {
        lemma_hilbert_injective(xa2, ya2, xb2, yb2, (k - 1) as nat);
    }
}

/// Hilbert law: distinct cells of the 2^16 by 2^16 grid get distinct
/// Hilbert values.
pub proof fn law_hilbert_distinct(x1: int, y1: int, x2: int, y2: int)
    requires
        0 <= x1 < HILBERT_N,
        0 <= y1 < HILBERT_N,
        0 <= x2 < HILBERT_N,
        0 <= y2 < HILBERT_N,
        x1 != x2 || y1 != y2,
    ensures
        hilbert_d(x1, y1, HILBERT_N as int / 2) != hilbert_d(x2, y2, HILBERT_N as int / 2),
{
    reveal_with_fuel(pw, 16);
    assert(pw(2, 15) == 32768);
    if hilbert_d(x1, y1, HILBERT_N as int / 2) == hilbert_d(x2, y2, HILBERT_N as int / 2) {
        lemma_hilbert_injective(x1, y1, x2, y2, 15);
    }
}

// ── R-tree structure ───────────────────────────────────────────────────────

/// `n / ns` rounded up.
pub open spec fn ceil_div(n: u64, ns: u64) -> u64 {
    (n / ns + if n % ns != 0 {
        1u64
    } else {
        0u64
    }) as u64
}

pub proof fn lemma_ceil_div_shrinks(n: u64, ns: u64)
    requires
        n > 1,
        ns >= 2,
    ensures
        ceil_div(n, ns) < n,
        ceil_div(n, ns) >= 1,
{
    assert(n / ns <= n / 2) by (nonlinear_arith)
        requires
            n > 1,
            ns >= 2,
    ;
    assert(n / ns * ns + n % ns == n) by (nonlinear_arith)
        requires
            ns >= 2,
    ;
    assert(n % ns < ns) by (nonlinear_arith)
        requires
            ns >= 2,
    ;
    if n / ns == 0 {
        assert(n % ns == n);
    }
}

/// The number of nodes at each level of the packed R-tree, from the items
/// up to the root: each level has `ceil(previous / ns)` nodes, until a level
/// of at most one node.
pub open spec fn level_sizes_spec(n: u64, ns: u64) -> Seq<u64>
    decreases n,
{
    if n <= 1 || ns < 2 {
        seq![n]
    } else {
        proof {
            lemma_ceil_div_shrinks(n, ns);
        }
        seq![n] + level_sizes_spec(ceil_div(n, ns), ns)
    }
}

/// Sum of a sequence of integers.
pub open spec fn seq_sum(s: Seq<u64>) -> int
    decreases s.len(),
{
    if s.len() == 0 {
        0
    } else {
        seq_sum(s.drop_last()) + s.last()
    }
}

/// Where each level starts in the flat node array.
pub open spec fn level_offsets_spec(sizes: Seq<u64>) -> Seq<int> {
    Seq::new(sizes.len(), |i: int| seq_sum(sizes.take(i)))
}

/// Total number of nodes of the tree for `n` items.
pub open spec fn total_nodes(n: u64, ns: u64) -> int {
    seq_sum(level_sizes_spec(n, ns))
}

pub proof fn lemma_prefix_sum_le(s: Seq<u64>, i: int)
    requires
        0 <= i <= s.len(),
    ensures
        seq_sum(s.take(i)) <= seq_sum(s),
        seq_sum(s.take(i)) >= 0,
    decreases s.len() - i,
{
    if i < s.len() {
        lemma_prefix_sum_le(s, i + 1);
        assert(s.take(i + 1).drop_last() =~= s.take(i));
    } else {
        assert(s.take(i) =~= s);
    }
    lemma_sum_nonneg(s.take(i));
}

pub proof fn lemma_sum_nonneg(s: Seq<u64>)
    ensures
        seq_sum(s) >= 0,
    decreases s.len(),
{
    if s.len() > 0 {
        lemma_sum_nonneg(s.drop_last());
    }
}

/// Facts about the levels: the first is the item count, the last a single
/// node (or none), each other the rounded-up quotient of the one below.
#[verifier::spinoff_prover]
#[verifier::rlimit(40)]
pub proof fn lemma_level_sizes(n: u64, ns: u64)
    requires
        n <= 1 || ns >= 2,
    ensures
        level_sizes_spec(n, ns).len() >= 1,
        level_sizes_spec(n, ns)[0] == n,
        level_sizes_spec(n, ns).last() <= 1,
        n >= 1 ==> level_sizes_spec(n, ns).last() == 1,
        forall|l: int|
            1 <= l < level_sizes_spec(n, ns).len() ==> #[trigger] level_sizes_spec(n, ns)[l]
                == ceil_div(level_sizes_spec(n, ns)[l - 1], ns) && level_sizes_spec(n, ns)[l - 1]
                > 1,
        forall|l: int|
            0 <= l < level_sizes_spec(n, ns).len() ==> #[trigger] level_sizes_spec(n, ns)[l] <= n,
        forall|l: int|
            0 <= l < level_sizes_spec(n, ns).len() && n >= 1 ==> #[trigger] level_sizes_spec(
                n,
                ns,
            )[l] >= 1,
    decreases n,
{
    if n > 1 {
        lemma_ceil_div_shrinks(n, ns);
        let m = ceil_div(n, ns);
        lemma_level_sizes(m, ns);
        let s = level_sizes_spec(n, ns);
        let t = level_sizes_spec(m, ns);
        assert(s == seq![n] + t);
        assert forall|l: int| 1 <= l < s.len() implies #[trigger] s[l] == ceil_div(s[l - 1], ns)
            && s[l - 1] > 1 by {
            if l == 1 {
                assert(s[1] == t[0]);
            } else {
                assert(s[l] == t[l - 1]);
                assert(s[l - 1] == t[l - 2]);
            }
        }
        assert forall|l: int| 0 <= l < s.len() implies #[trigger] s[l] <= n by {
            if l > 0 {
                assert(s[l] == t[l - 1]);
            }
        }
        assert forall|l: int| 0 <= l < s.len() && n >= 1 implies #[trigger] s[l] >= 1 by {
            if l > 0 {
                assert(s[l] == t[l - 1]);
            }
        }
    }
}

/// The facts of [`lemma_level_sizes`] at one level.
pub proof fn lemma_sizes_at(n: u64, ns: u64, l: int)
    requires
        n <= 1 || ns >= 2,
        0 <= l < level_sizes_spec(n, ns).len(),
    ensures
        level_sizes_spec(n, ns).len() >= 1,
        level_sizes_spec(n, ns)[0] == n,
        level_sizes_spec(n, ns)[l] <= n,
        n >= 1 ==> level_sizes_spec(n, ns)[l] >= 1,
        l >= 1 ==> level_sizes_spec(n, ns)[l] == ceil_div(level_sizes_spec(n, ns)[l - 1], ns)
            && level_sizes_spec(n, ns)[l - 1] > 1 && ns >= 2,
        l == level_sizes_spec(n, ns).len() - 1 ==> level_sizes_spec(n, ns)[l] <= 1,
        l == level_sizes_spec(n, ns).len() - 1 && n >= 1 ==> level_sizes_spec(n, ns)[l] == 1,
{
    lemma_level_sizes(n, ns);
    assert(level_sizes_spec(n, ns)[l] <= n);
}

/// Compute the number of nodes at each level of the packed R-tree.
pub fn level_sizes(num_items: u64, node_size: u16) -> (sizes: Vec<u64>)
    requires
        num_items <= 1 || node_size >= 2,
    ensures
        sizes@ == level_sizes_spec(num_items, node_size as u64),
{
    let ghost ns = node_size as u64;
    let mut sizes: Vec<u64> = Vec::new();
    sizes.push(num_items);
    let mut n = num_items;
    while n > 1
        invariant
            ns == node_size as u64,
            num_items <= 1 || ns >= 2,
            sizes@.len() >= 1,
            sizes@.last() == n,
            n <= num_items,
            level_sizes_spec(num_items, ns) == sizes@.drop_last() + level_sizes_spec(n, ns),
        decreases n,
    {
        proof {
            lemma_ceil_div_shrinks(n, ns);
        }
        let ghost before = sizes@;
        let ns64 = node_size as u64;
        let q = n / ns64;
        assert(q < n) by (nonlinear_arith)
            requires
                q == n / ns64,
                ns64 >= 2,
                n > 1,
        ;
        n = q + if n % ns64 != 0 {
            1
        } else {
            0
        };
        sizes.push(n);
        assert(sizes@.drop_last() =~= before);
        assert(before =~= before.drop_last() + seq![before.last()]);
    }
    assert(sizes@ =~= sizes@.drop_last() + seq![n]);
    sizes
}

/// Compute cumulative offsets into the flat node array for each level.
pub fn level_offsets(sizes: &[u64]) -> (offsets: Vec<u64>)
    requires
        seq_sum(sizes@) <= u64::MAX,
    ensures
        offsets@.len() == sizes@.len(),
        forall|i: int|
            0 <= i < sizes@.len() ==> #[trigger] offsets@[i] == level_offsets_spec(sizes@)[i],
{
    let mut offsets: Vec<u64> = Vec::new();
    let mut acc: u64 = 0;
    let mut i: usize = 0;
    while i < sizes.len()
        invariant
            i <= sizes.len(),
            seq_sum(sizes@) <= u64::MAX,
            acc == seq_sum(sizes@.take(i as int)),
            offsets@.len() == i,
            forall|k: int| 0 <= k < i ==> #[trigger] offsets@[k] == seq_sum(sizes@.take(k)),
        decreases sizes.len() - i,
    {
        offsets.push(acc);
        proof {
            assert(sizes@.take(i + 1).drop_last() =~= sizes@.take(i as int));
            lemma_prefix_sum_le(sizes@, i + 1);
        }
        acc = acc + sizes[i];
        i = i + 1;
    }
    offsets
}

/// The number of nodes of the tree of `num_items` items, all levels
/// together, or `None` when that number does not fit in a `u64`.
#[verifier::loop_isolation(false)]
pub fn node_count(num_items: u64, node_size: u16) -> (t: Option<u64>)
    requires
        num_items <= 1 || node_size >= 2,
    ensures
        match t {
            Some(c) => c == total_nodes(num_items, node_size as u64),
            None => total_nodes(num_items, node_size as u64) > u64::MAX,
        },
{
    let sizes = level_sizes(num_items, node_size);
    proof {
        lemma_offsets(sizes@);
    }
    let mut acc: u64 = 0;
    let mut i: usize = 0;
    assert(sizes@.take(0) =~= Seq::<u64>::empty());
    while i < sizes.len()
        invariant
            i <= sizes.len(),
            acc == seq_sum(sizes@.take(i as int)),
        decreases sizes.len() - i,
    {
        assert(sizes@.take(i + 1).drop_last() =~= sizes@.take(i as int));
        match acc.checked_add(sizes[i]) {
            Some(a) => {
                acc = a;
            },
            None => {
                assert(seq_sum(sizes@.take(i + 1)) == acc + sizes@[i as int]);
                assert(seq_sum(sizes@.take(i + 1)) <= seq_sum(sizes@));
                return None;
            },
        }
        i = i + 1;
    }
    assert(sizes@.take(i as int) =~= sizes@);
    Some(acc)
}

/// Where each level starts, and how levels follow one another.
pub proof fn lemma_offsets(sizes: Seq<u64>)
    ensures
        forall|l: int|
            0 <= l < sizes.len() ==> #[trigger] level_offsets_spec(sizes)[l] + sizes[l]
                == seq_sum(sizes.take(l + 1)),
        forall|l: int| 0 <= l <= sizes.len() ==> #[trigger] seq_sum(sizes.take(l)) <= seq_sum(sizes),
        forall|l: int| 0 <= l <= sizes.len() ==> #[trigger] seq_sum(sizes.take(l)) >= 0,
        sizes.len() > 0 ==> level_offsets_spec(sizes)[0] == 0,
        seq_sum(sizes.take(sizes.len() as int)) == seq_sum(sizes),
{
    assert forall|l: int| 0 <= l < sizes.len() implies #[trigger] level_offsets_spec(sizes)[l]
        + sizes[l] == seq_sum(sizes.take(l + 1)) by {
        assert(sizes.take(l + 1).drop_last() =~= sizes.take(l));
    }
    assert forall|l: int| 0 <= l <= sizes.len() implies #[trigger] seq_sum(sizes.take(l))
        <= seq_sum(sizes) by {
        lemma_prefix_sum_le(sizes, l);
    }
    assert forall|l: int| 0 <= l <= sizes.len() implies #[trigger] seq_sum(sizes.take(l)) >= 0 by {
        lemma_prefix_sum_le(sizes, l);
    }
    if sizes.len() > 0 {
        assert(sizes.take(0) =~= Seq::<u64>::empty());
    }
    assert(sizes.take(sizes.len() as int) =~= sizes);
}

/// Every node of a level has at least one child: `i < ceil(m / ns)` gives
/// `i * ns < m`.
pub proof fn lemma_child_start(m: u64, ns: u64, i: int)
    requires
        ns >= 2,
        0 <= i < ceil_div(m, ns),
    ensures
        i * ns < m,
{
    assert(m / ns * ns + m % ns == m && 0 <= m % ns < ns) by (nonlinear_arith)
        requires
            ns >= 2,
    ;
    assert(i * ns < m) by (nonlinear_arith)
        requires
            ns >= 2,
            0 <= i,
            i < (m / ns + if m % ns != 0 {
                1int
            } else {
                0int
            }),
            m / ns * ns + m % ns == m,
            0 <= m % ns < ns,
    ;
}

// ── Searching ──────────────────────────────────────────────────────────────

/// The number of children of node `node` of level `level` (at least 1):
/// those from `node * ns` up to `node * ns + ns`, within the level below.
pub open spec fn child_count(sizes: Seq<u64>, ns: int, level: int, node: int) -> nat {
    let start = node * ns;
    let end = if start + ns <= sizes[level - 1] {
        start + ns
    } else {
        sizes[level - 1] as int
    };
    if end >= start {
        (end - start) as nat
    } else {
        0
    }
}

/// What the search collects below a node whose box meets the query: the
/// first `k` children of node `node` of level `level >= 1`, visited in
/// order.
pub open spec fn search_children(
    hits: Seq<bool>,
    fi: Seq<u64>,
    sizes: Seq<u64>,
    ns: int,
    level: nat,
    node: int,
    k: nat,
) -> Seq<u64>
    decreases level, 1nat, k,
{
    if k == 0 || level == 0 {
        Seq::empty()
    } else {
        search_children(hits, fi, sizes, ns, level, node, (k - 1) as nat) + search_visit(
            hits,
            fi,
            sizes,
            ns,
            (level - 1) as nat,
            node * ns + k - 1,
        )
    }
}

/// What the search collects at node `c` of level `cl`: nothing when its box
/// does not meet the query; its feature index at the item level; otherwise
/// what it collects below it.
pub open spec fn search_visit(
    hits: Seq<bool>,
    fi: Seq<u64>,
    sizes: Seq<u64>,
    ns: int,
    cl: nat,
    c: int,
) -> Seq<u64>
    decreases cl + 1, 0nat, 0nat,
{
    if !hits[level_offsets_spec(sizes)[cl as int] + c] {
        Seq::empty()
    } else if cl == 0 {
        seq![fi[c]]
    } else {
        search_children(hits, fi, sizes, ns, cl, c, child_count(sizes, ns, cl as int, c))
    }
}

/// The items among the first `k` whose boxes meet the query, in order.
pub open spec fn search_scan(hits: Seq<bool>, fi: Seq<u64>, k: nat) -> Seq<u64>
    decreases k,
{
    if k == 0 {
        Seq::empty()
    } else {
        search_scan(hits, fi, (k - 1) as nat) + if hits[k - 1] {
            seq![fi[k - 1]]
        } else {
            Seq::empty()
        }
    }
}

/// The result of a search of the tree of `n` items with node size `ns`,
/// where `hits[j]` says whether the box of node `j` of the flat array meets
/// the query: with no internal nodes, the items that meet it; otherwise
/// what a depth-first walk from the root collects, entering only the nodes
/// that meet it (the root itself is not tested).
pub open spec fn search_spec(hits: Seq<bool>, fi: Seq<u64>, n: u64, ns: u64) -> Seq<u64> {
    let sizes = level_sizes_spec(n, ns);
    let root = sizes.len() - 1;
    if n == 0 {
        Seq::empty()
    } else if root == 0 {
        search_scan(hits, fi, n as nat)
    } else {
        search_children(
            hits,
            fi,
            sizes,
            ns as int,
            root as nat,
            0,
            child_count(sizes, ns as int, root, 0),
        )
    }
}

/// What a search needs of its inputs: a node size that lets the tree be
/// built, a hit for every node and a feature index for every item.
pub open spec fn search_inputs_ok(hits: Seq<bool>, fi: Seq<u64>, n: u64, ns: u64) -> bool {
    &&& n <= 1 || ns >= 2
    &&& total_nodes(n, ns) <= hits.len()
    &&& n <= fi.len()
}

#[verifier::spinoff_prover]
fn search_node(
    node_hits: &[bool],
    feature_indices: &[u64],
    sizes: &[u64],
    offsets: &[u64],
    node_size: u16,
    level: usize,
    node_idx: usize,
    results: &mut Vec<u64>,
)
    requires
        search_inputs_ok(node_hits@, feature_indices@, sizes@[0], node_size as u64),
        sizes@ == level_sizes_spec(sizes@[0], node_size as u64),
        offsets@.len() == sizes@.len(),
        forall|i: int|
            0 <= i < sizes@.len() ==> #[trigger] offsets@[i] == level_offsets_spec(sizes@)[i],
        1 <= level < sizes@.len(),
        node_idx < sizes@[level as int],
    ensures
        final(results)@ == old(results)@ + search_children(
            node_hits@,
            feature_indices@,
            sizes@,
            node_size as int,
            level as nat,
            node_idx as int,
            child_count(sizes@, node_size as int, level as int, node_idx as int),
        ),
    decreases level,
{
    let ghost n = sizes@[0];
    proof {
        lemma_sizes_at(n, node_size as u64, level as int);
        lemma_sizes_at(n, node_size as u64, level - 1);
        lemma_offsets(sizes@);
        lemma_child_start(sizes@[level - 1], node_size as u64, node_idx as int);
    }
    let ns = node_size as u64;
    let child_level = level - 1;
    let child_offset = offsets[child_level];
    let child_count_all = sizes[child_level];
    let child_start = node_idx as u64 * ns;
    let child_end = if child_count_all - child_start >= ns {
        child_start + ns
    } else {
        child_count_all
    };
    let hits_len = node_hits.len();
    proof {
        assert(level_offsets_spec(sizes@)[child_level as int] + sizes@[child_level as int]
            == seq_sum(sizes@.take(level as int)));
        assert(seq_sum(sizes@.take(level as int)) <= seq_sum(sizes@));
        assert(child_level == 0 ==> child_count_all == n);
    }
    let ghost base = results@;
    let mut c = child_start;
    while c < child_end
        invariant
            search_inputs_ok(node_hits@, feature_indices@, n, node_size as u64),
            sizes@ == level_sizes_spec(n, node_size as u64),
            n == sizes@[0],
            offsets@.len() == sizes@.len(),
            forall|i: int|
                0 <= i < sizes@.len() ==> #[trigger] offsets@[i] == level_offsets_spec(sizes@)[i],
            1 <= level < sizes@.len(),
            child_level == level - 1,
            hits_len == node_hits@.len(),
            ns == node_size as u64,
            ns >= 2,
            child_offset == level_offsets_spec(sizes@)[child_level as int],
            child_end <= child_count_all,
            child_count_all == sizes@[child_level as int],
            child_offset + child_count_all <= seq_sum(sizes@),
            child_level == 0 ==> child_count_all == n,
            child_start == node_idx * ns,
            child_end - child_start == child_count(
                sizes@,
                node_size as int,
                level as int,
                node_idx as int,
            ),
            child_start <= c <= child_end,
            results@ == base + search_children(
                node_hits@,
                feature_indices@,
                sizes@,
                node_size as int,
                level as nat,
                node_idx as int,
                (c - child_start) as nat,
            ),
        decreases child_end - c,
    {
        let ghost k = (c - child_start) as nat;
        let j = (child_offset + c) as usize;
        let ghost before = results@;
        if node_hits[j] {
            if child_level == 0 {
                // Reached the item level — add directly
                results.push(feature_indices[c as usize]);
            } else {
                search_node(
                    node_hits,
                    feature_indices,
                    sizes,
                    offsets,
                    node_size,
                    child_level,
                    c as usize,
                    results,
                );
            }
        }
        proof {
            assert(node_idx * node_size + (k + 1) - 1 == c);
            assert(results@ == before + search_visit(
                node_hits@,
                feature_indices@,
                sizes@,
                node_size as int,
                child_level as nat,
                c as int,
            ));
        }
        c = c + 1;
        assert(results@ =~= base + search_children(
            node_hits@,
            feature_indices@,
            sizes@,
            node_size as int,
            level as nat,
            node_idx as int,
            (c - child_start) as nat,
        ));
    }
}

/// Search the packed R-tree for the features whose boxes meet the query.
/// `node_hits[j]` says whether the box of node `j` of the flat node array
/// meets it. Returns original feature indices.
pub fn search_index(
    node_hits: &[bool],
    feature_indices: &[u64],
    num_items: u64,
    node_size: u16,
) -> (results: Vec<u64>)
    requires
        search_inputs_ok(node_hits@, feature_indices@, num_items, node_size as u64),
    ensures
        results@ == search_spec(node_hits@, feature_indices@, num_items, node_size as u64),
{
    let mut results: Vec<u64> = Vec::new();
    if num_items == 0 {
        return results;
    }
    let hits_len = node_hits.len();
    let sizes = level_sizes(num_items, node_size);
    proof {
        lemma_level_sizes(num_items, node_size as u64);
        lemma_offsets(sizes@);
    }
    let offsets = level_offsets(sizes.as_slice());
    let root_level = sizes.len() - 1;

    if root_level == 0 {
        // Only items, no internal nodes — linear scan
        assert(num_items == 1);
        assert(sizes@ =~= seq![1u64]);
        assert(seq_sum(sizes@) == 1) by {
            assert(sizes@.drop_last() =~= Seq::<u64>::empty());
        }
        let mut i: u64 = 0;
        while i < num_items
            invariant
                i <= num_items,
                num_items == 1,
                node_hits@.len() >= 1,
                feature_indices@.len() >= 1,
                search_inputs_ok(node_hits@, feature_indices@, num_items, node_size as u64),
                sizes@ == level_sizes_spec(num_items, node_size as u64),
                root_level == 0,
                results@ == search_scan(node_hits@, feature_indices@, i as nat),
            decreases num_items - i,
        {
            if node_hits[i as usize] {
                results.push(feature_indices[i as usize]);
            }
            i = i + 1;
            assert(results@ =~= search_scan(node_hits@, feature_indices@, i as nat));
        }
    } else {
        search_node(
            node_hits,
            feature_indices,
            sizes.as_slice(),
            offsets.as_slice(),
            node_size,
            root_level,
            0,
            &mut results,
        );
    }
    results
}

// ── Building ───────────────────────────────────────────────────────────────

/// Lexicographic order of (Hilbert value, feature index) pairs.
pub open spec fn pair_le(a: (u64, u64), b: (u64, u64)) -> bool {
    a.0 < b.0 || (a.0 == b.0 && a.1 <= b.1)
}

/// Each feature index with its Hilbert value, in feature order.
pub open spec fn keyed(h: Seq<u64>) -> Seq<(u64, u64)> {
    Seq::new(h.len(), |i: int| (h[i], i as u64))
}

/// `fi` lists every feature index once, ordered by Hilbert value and then by
/// index.
pub open spec fn is_hilbert_order(h: Seq<u64>, fi: Seq<u64>) -> bool {
    &&& fi.len() == h.len()
    &&& forall|k: int| 0 <= k < fi.len() ==> #[trigger] fi[k] < h.len()
    &&& Seq::new(fi.len(), |k: int| (h[fi[k] as int], fi[k])).to_multiset() == keyed(
        h,
    ).to_multiset()
    &&& forall|k: int, l: int|
        0 <= k < l < fi.len() ==> pair_le(
            (h[fi[k] as int], fi[k]),
            (h[fi[l] as int], fi[l]),
        )
}

/// The children of the nodes of level `l >= 1`: node `i` has the nodes
/// `i * ns ..` of level `l - 1` (at most `ns` of them), given as a range of
/// flat indices.
pub open spec fn level_ranges(sizes: Seq<u64>, ns: int, l: int) -> Seq<(u64, u64)> {
    let offs = level_offsets_spec(sizes);
    Seq::new(
        sizes[l] as nat,
        |i: int|
            (
                (offs[l - 1] + i * ns) as u64,
                (offs[l - 1] + i * ns + child_count(sizes, ns, l, i)) as u64,
            ),
    )
}

/// The children ranges of the levels `1 .. l`, level after level.
pub open spec fn layout_upto(sizes: Seq<u64>, ns: int, l: nat) -> Seq<(u64, u64)>
    decreases l,
{
    if l <= 1 {
        Seq::empty()
    } else {
        layout_upto(sizes, ns, (l - 1) as nat) + level_ranges(sizes, ns, l - 1)
    }
}

/// For each internal node of the tree of `n` items, in the order of the flat
/// node array, the flat range of its children.
pub open spec fn tree_layout_spec(n: u64, ns: u64) -> Seq<(u64, u64)> {
    let sizes = level_sizes_spec(n, ns);
    layout_upto(sizes, ns as int, sizes.len())
}

/// `<[T]>::sort` on pairs of integers: afterwards the vector holds the same
/// pairs, in nondecreasing order (std orders tuples lexicographically).
#[verifier::external_body]
fn sort_pairs(v: &mut Vec<(u64, u64)>)
    ensures
        final(v)@.to_multiset() == old(v)@.to_multiset(),
        forall|i: int, j: int|
            0 <= i < j < final(v)@.len() ==> pair_le(final(v)@[i], final(v)@[j]),
{
    v.sort();
}

/// The feature order of the index: every feature index once, by Hilbert
/// value and then by index.
pub fn hilbert_sort(hilbert: &[u64]) -> (feature_indices: Vec<u64>)
    ensures
        is_hilbert_order(hilbert@, feature_indices@),
{
    let ghost h = hilbert@;
    let mut items: Vec<(u64, u64)> = Vec::new();
    let mut i: usize = 0;
    while i < hilbert.len()
        invariant
            h == hilbert@,
            i <= hilbert.len(),
            items@ == keyed(h).take(i as int),
        decreases hilbert.len() - i,
    {
        items.push((hilbert[i], i as u64));
        i = i + 1;
        assert(items@ =~= keyed(h).take(i as int));
    }
    assert(items@ =~= keyed(h));
    sort_pairs(&mut items);
    proof {
        broadcast use vstd::seq_lib::group_to_multiset_ensures;

        assert(items@.to_multiset().len() == keyed(h).to_multiset().len());
        assert(items@.len() == h.len());

        assert forall|k: int| 0 <= k < items@.len() implies #[trigger] items@[k] == (
        h[items@[k].1 as int], items@[k].1) && items@[k].1 < h.len() by {
            assert(items@.contains(items@[k]));
            assert(items@.to_multiset().count(items@[k]) > 0);
            assert(keyed(h).contains(items@[k]));
            let j = choose|j: int| 0 <= j < keyed(h).len() && keyed(h)[j] == items@[k];
            assert(keyed(h)[j] == (h[j], j as u64));
        }
    }
    let mut feature_indices: Vec<u64> = Vec::new();
    let mut k: usize = 0;
    while k < items.len()
        invariant
            h == hilbert@,
            k <= items@.len(),
            items@.len() == h.len(),
            feature_indices@ == items@.take(k as int).map_values(|p: (u64, u64)| p.1),
        decreases items.len() - k,
    {
        feature_indices.push(items[k].1);
        k = k + 1;
        assert(feature_indices@ =~= items@.take(k as int).map_values(|p: (u64, u64)| p.1));
    }
    proof {
        assert(items@.take(k as int) =~= items@);
        assert(Seq::new(
            feature_indices@.len(),
            |k: int| (h[feature_indices@[k] as int], feature_indices@[k]),
        ) =~= items@);
    }
    feature_indices
}

/// The children of each internal node of the tree of `num_items` items.
pub fn tree_layout(num_items: u64, node_size: u16) -> (ranges: Vec<(u64, u64)>)
    requires
        num_items <= 1 || node_size >= 2,
        total_nodes(num_items, node_size as u64) <= u64::MAX,
    ensures
        ranges@ == tree_layout_spec(num_items, node_size as u64),
{
    let ghost nsg = node_size as u64;
    let sizes = level_sizes(num_items, node_size);
    let ghost offs = level_offsets_spec(sizes@);
    let offsets = level_offsets(sizes.as_slice());
    let ns = node_size as u64;
    let mut ranges: Vec<(u64, u64)> = Vec::new();
    let mut level: usize = 1;
    while level < sizes.len()
        invariant
            nsg == ns,
            ns == node_size as u64,
            num_items <= 1 || ns >= 2,
            sizes@ == level_sizes_spec(num_items, nsg),
            offs == level_offsets_spec(sizes@),
            offsets@.len() == sizes@.len(),
            forall|i: int| 0 <= i < sizes@.len() ==> #[trigger] offsets@[i] == offs[i],
            seq_sum(sizes@) <= u64::MAX,
            1 <= level <= sizes@.len(),
            ranges@ == layout_upto(sizes@, ns as int, level as nat),
        decreases sizes.len() - level,
    {
        let child_offset = offsets[level - 1];
        let child_count_all = sizes[level - 1];
        let count = sizes[level];
        proof {
            lemma_level_step(num_items, nsg, level as int);
        }
        let ghost lr = level_ranges(sizes@, ns as int, level as int);
        let ghost before = ranges@;
        let mut i: u64 = 0;
        while i < count
            invariant
                ns >= 2,
                1 <= level < sizes@.len(),
                child_offset == offs[level - 1],
                child_count_all == sizes@[level - 1],
                count == sizes@[level as int],
                count == ceil_div(child_count_all, ns),
                offs == level_offsets_spec(sizes@),
                child_offset + child_count_all <= u64::MAX,
                lr == level_ranges(sizes@, ns as int, level as int),
                i <= count,
                ranges@ == before + lr.take(i as int),
            decreases count - i,
        {
            proof {
                lemma_child_start(child_count_all, ns, i as int);
            }
            let child_start = i * ns;
            let child_end = if child_count_all - child_start >= ns {
                child_start + ns
            } else {
                child_count_all
            };
            let range = (child_offset + child_start, child_offset + child_end);
            ranges.push(range);
            assert(lr[i as int] == range);
            i = i + 1;
            assert(ranges@ =~= before + lr.take(i as int));
        }
        assert(lr.take(i as int) =~= lr);
        level = level + 1;
    }
    ranges
}

/// What building a level needs of the levels: the level below it ends
/// where it starts, and it has `ceil(below / ns)` nodes, all in the array.
pub proof fn lemma_level_step(n: u64, ns: u64, level: int)
    requires
        n <= 1 || ns >= 2,
        1 <= level < level_sizes_spec(n, ns).len(),
    ensures
        ({
            let sizes = level_sizes_spec(n, ns);
            let offs = level_offsets_spec(sizes);
            &&& ns >= 2
            &&& offs[level] == offs[level - 1] + sizes[level - 1]
            &&& offs[level] + sizes[level] <= seq_sum(sizes)
            &&& sizes[level] == ceil_div(sizes[level - 1], ns)
        }),
{
    let sizes = level_sizes_spec(n, ns);
    lemma_level_sizes(n, ns);
    lemma_offsets(sizes);
    assert(sizes[level] == ceil_div(sizes[level - 1], ns));
    assert(level_offsets_spec(sizes)[level] + sizes[level] == seq_sum(sizes.take(level + 1)));
    assert(level_offsets_spec(sizes)[level - 1] + sizes[level - 1] == seq_sum(
        sizes.take(level),
    ));
    assert(seq_sum(sizes.take(level + 1)) <= seq_sum(sizes));
}

/// Offsets grow with the level.
pub proof fn lemma_offsets_mono(sizes: Seq<u64>, a: int, b: int)
    requires
        0 <= a <= b < sizes.len(),
    ensures
        level_offsets_spec(sizes)[a] <= level_offsets_spec(sizes)[b],
    decreases b - a,
{
    if a < b {
        lemma_offsets_mono(sizes, a, b - 1);
        lemma_offsets(sizes);
    }
}

/// Build the packed Hilbert R-tree of `hilbert.len()` features from the
/// Hilbert values of their bounding box centres.
///
/// Returns `(feature_indices, child_ranges)`: `feature_indices[i]` is the
/// original feature index at sorted position `i` (so the item nodes of the
/// flat array are the features' boxes in that order), and `child_ranges`
/// gives, for each internal node in flat order, the flat range of its
/// children, whose boxes it covers.
pub fn build_index(hilbert: &[u64], node_size: u16) -> (res: (Vec<u64>, Vec<(u64, u64)>))
    requires
        hilbert@.len() <= 1 || node_size >= 2,
        total_nodes(hilbert@.len() as u64, node_size as u64) <= u64::MAX,
    ensures
        is_hilbert_order(hilbert@, res.0@),
        res.1@ == tree_layout_spec(hilbert@.len() as u64, node_size as u64),
{
    let num_items = hilbert.len() as u64;
    let feature_indices = hilbert_sort(hilbert);
    let ranges = tree_layout(num_items, node_size);
    (feature_indices, ranges)
}

// ── Serialization ──────────────────────────────────────────────────────────

/// A node box: min_x, min_y, max_x, max_y, little-endian.
pub open spec fn enc_envelope(e: EnvelopeBits) -> Seq<u8> {
    enc_u64(e.min_x) + enc_u64(e.min_y) + enc_u64(e.max_x) + enc_u64(e.max_y)
}

pub open spec fn u64_encoder() -> spec_fn(u64) -> Seq<u8> {
    |v: u64| enc_u64(v)
}

pub open spec fn envelope_encoder() -> spec_fn(EnvelopeBits) -> Seq<u8> {
    |e: EnvelopeBits| enc_envelope(e)
}

/// The spatial index section: node size, item count, the feature index of
/// each sorted position, then the box of every node, item level first.
pub open spec fn index_bytes(fi: Seq<u64>, nodes: Seq<EnvelopeBits>, ns: u16, n: u64) -> Seq<u8> {
    enc_u16(ns) + enc_u64(n) + enc_repeat(fi, u64_encoder()) + enc_repeat(
        nodes,
        envelope_encoder(),
    )
}

pub open spec fn parse_envelope(s: Seq<u8>, pos: int) -> Result<(EnvelopeBits, int), ErrorCase> {
    match parse_u64(s, pos) {
        Ok((min_x, p1)) => match parse_u64(s, p1) {
            Ok((min_y, p2)) => match parse_u64(s, p2) {
                Ok((max_x, p3)) => match parse_u64(s, p3) {
                    Ok((max_y, p4)) => Ok((EnvelopeBits { min_x, min_y, max_x, max_y }, p4)),
                    Err(e) => Err(e),
                },
                Err(e) => Err(e),
            },
            Err(e) => Err(e),
        },
        Err(e) => Err(e),
    }
}

pub open spec fn u64_item() -> spec_fn(Seq<u8>, int) -> Result<(u64, int), ErrorCase> {
    |s: Seq<u8>, p: int| parse_u64(s, p)
}

pub open spec fn envelope_item() -> spec_fn(Seq<u8>, int) -> Result<(EnvelopeBits, int), ErrorCase> {
    |s: Seq<u8>, p: int| parse_envelope(s, p)
}

/// The spatial index section at `pos`: node size, item count, feature
/// indices, then as many node boxes as the tree of that many items has.
pub open spec fn parse_index(s: Seq<u8>, pos: int) -> Result<
    ((Seq<u64>, Seq<EnvelopeBits>, u16, u64), int),
    ErrorCase,
> {
    match parse_u16(s, pos) {
        Ok((ns, p1)) => match parse_u64(s, p1) {
            Ok((n, p2)) => match parse_repeat(s, p2, n as nat, u64_item()) {
                Ok((fi, p3)) => match parse_repeat(
                    s,
                    p3,
                    total_nodes(n, ns as u64) as nat,
                    envelope_item(),
                ) {
                    Ok((nodes, p4)) => Ok(((fi, nodes, ns, n), p4)),
                    Err(e) => Err(e),
                },
                Err(e) => Err(e),
            },
            Err(e) => Err(e),
        },
        Err(e) => Err(e),
    }
}

/// The index section at `pos` has a node size that lets a tree be built for
/// its item count (at least 2 when there is more than one item), whenever
/// its header and feature indices can be read.
pub open spec fn index_node_size_ok(s: Seq<u8>, pos: int) -> bool {
    match parse_u16(s, pos) {
        Ok((ns, p1)) => match parse_u64(s, p1) {
            Ok((n, p2)) => match parse_repeat(s, p2, n as nat, u64_item()) {
                Ok(_) => n <= 1 || ns >= 2,
                Err(_) => true,
            },
            Err(_) => true,
        },
        Err(_) => true,
    }
}

/// Whether the index section at `pos` has a node size that a tree can be
/// built with for its item count, or cannot be read far enough to tell.
pub fn index_section_readable(data: &[u8], pos: usize) -> (r: bool)
    ensures
        r == index_node_size_ok(data@, pos as int),
{
    let ghost s = data@;
    match read_u16(data, pos) {
        Err(_) => true,
        Ok((ns, p1)) => match read_u64(data, p1) {
            Err(_) => true,
            Ok((n, p2)) => {
                proof {
                    crate::layout::lemma_u64_list(s, p2 as int, n as nat);
                }
                if n <= 1 || ns >= 2 {
                    true
                } else {
                    let avail = (data.len() - p2) as u64;
                    assert((n <= avail / 8) <==> (8 * n <= avail)) by (nonlinear_arith);
                    n > avail / 8
                }
            },
        },
    }
}

/// Rounding up a quotient by at least 2 at most halves, rounded up.
pub proof fn lemma_ceil_div_half(n: u64, ns: u64)
    requires
        ns >= 2,
    ensures
        2 * ceil_div(n, ns) <= n + 1,
{
    let q = n / ns;
    let r = n % ns;
    assert(q * ns + r == n && 0 <= r < ns) by (nonlinear_arith)
        requires
            ns >= 2,
            q == n / ns,
            r == n % ns,
    ;
    assert(2 * q <= q * ns) by (nonlinear_arith)
        requires
            ns >= 2,
            q >= 0,
    ;
    if r != 0 {
        assert(2 * q + 2 <= n + 1) by (nonlinear_arith)
            requires
                q * ns + r == n,
                1 <= r < ns,
                ns >= 2,
                2 * q <= q * ns,
        {
            if ns == 2 {
                assert(r == 1);
            } else {
                assert(q * ns >= 3 * q) by (nonlinear_arith)
                    requires
                        ns >= 3,
                        q >= 0,
                ;
            }
        }
    }
}

/// A tree of `n` items has at least `n` and at most `3 n` nodes.
pub proof fn lemma_total_nodes_bound(n: u64, ns: u64)
    requires
        n <= 1 || ns >= 2,
    ensures
        total_nodes(n, ns) <= 3 * n,
        total_nodes(n, ns) >= n,
    decreases n,
{
    let sizes = level_sizes_spec(n, ns);
    if n <= 1 {
        assert(sizes == seq![n]);
        lemma_sum_front(n, Seq::empty());
        assert(seq![n] + Seq::<u64>::empty() =~= seq![n]);
        assert(seq_sum(Seq::<u64>::empty()) == 0);
    } else {
        lemma_ceil_div_shrinks(n, ns);
        lemma_ceil_div_half(n, ns);
        let m = ceil_div(n, ns);
        lemma_total_nodes_bound(m, ns);
        let t = level_sizes_spec(m, ns);
        lemma_sum_front(n, t);
        assert(sizes == seq![n] + t);
    }
}

/// Summing a sequence with one more element in front.
pub proof fn lemma_sum_front(x: u64, t: Seq<u64>)
    ensures
        seq_sum(seq![x] + t) == x + seq_sum(t),
    decreases t.len(),
{
    let u = seq![x] + t;
    if t.len() > 0 {
        lemma_sum_front(x, t.drop_last());
        assert(u.drop_last() =~= seq![x] + t.drop_last());
        assert(u.last() == t.last());
    } else {
        assert(u =~= seq![x]);
        assert(u.drop_last() =~= Seq::<u64>::empty());
        assert(seq_sum(u.drop_last()) == 0);
    }
}

pub(crate) fn put_envelope(buf: &mut Vec<u8>, e: &EnvelopeBits)
    ensures
        final(buf)@ == old(buf)@ + enc_envelope(*e),
{
    put_u64(buf, e.min_x);
    put_u64(buf, e.min_y);
    put_u64(buf, e.max_x);
    put_u64(buf, e.max_y);
    assert(buf@ =~= old(buf)@ + enc_envelope(*e));
}

/// Write the spatial index section.
pub fn write_index(
    buf: &mut Vec<u8>,
    feature_indices: &[u64],
    nodes: &[EnvelopeBits],
    node_size: u16,
    num_items: u64,
)
    ensures
        final(buf)@ == old(buf)@ + index_bytes(feature_indices@, nodes@, node_size, num_items),
{
    put_u16(buf, node_size);
    put_u64(buf, num_items);

    // Feature index mapping
    let ghost base = buf@;
    let mut i: usize = 0;
    while i < feature_indices.len()
        invariant
            i <= feature_indices.len(),
            buf@ == base + enc_repeat(feature_indices@.take(i as int), u64_encoder()),
        decreases feature_indices.len() - i,
    {
        put_u64(buf, feature_indices[i]);
        proof {
            let t = feature_indices@.take(i + 1);
            assert(t.drop_last() =~= feature_indices@.take(i as int));
        }
        i = i + 1;
        assert(buf@ =~= base + enc_repeat(feature_indices@.take(i as int), u64_encoder()));
    }
    assert(feature_indices@.take(i as int) =~= feature_indices@);

    // Node bboxes (all levels, items first then internal bottom-up)
    let ghost base = buf@;
    let mut k: usize = 0;
    while k < nodes.len()
        invariant
            k <= nodes.len(),
            buf@ == base + enc_repeat(nodes@.take(k as int), envelope_encoder()),
        decreases nodes.len() - k,
    {
        put_envelope(buf, &nodes[k]);
        proof {
            let t = nodes@.take(k + 1);
            assert(t.drop_last() =~= nodes@.take(k as int));
        }
        k = k + 1;
        assert(buf@ =~= base + enc_repeat(nodes@.take(k as int), envelope_encoder()));
    }
    assert(nodes@.take(k as int) =~= nodes@);
    assert(buf@ =~= old(buf)@ + index_bytes(feature_indices@, nodes@, node_size, num_items));
}

pub(crate) fn read_envelope(data: &[u8], pos: usize) -> (res: Result<(EnvelopeBits, usize), ErffError>)
    ensures
        agrees(res, parse_envelope(data@, pos as int)),
{
    let (min_x, p1) = read_u64(data, pos)?;
    let (min_y, p2) = read_u64(data, p1)?;
    let (max_x, p3) = read_u64(data, p2)?;
    let (max_y, p4) = read_u64(data, p3)?;
    Ok((EnvelopeBits { min_x, min_y, max_x, max_y }, p4))
}

/// Read the spatial index section at `pos`:
/// `(feature_indices, nodes, node_size, num_items)`.
#[verifier::loop_isolation(false)]
pub fn read_index(data: &[u8], pos: usize) -> (res: Result<
    (Vec<u64>, Vec<EnvelopeBits>, u16, u64),
    ErffError,
>)
    requires
        index_node_size_ok(data@, pos as int),
    ensures
        match parse_index(data@, pos as int) {
            Ok((v, _)) => res matches Ok(r) && r@ == v,
            Err(c) => res matches Err(e) && e.case() == c,
        },
{
    let ghost s = data@;
    let (node_size, p1) = read_u16(data, pos)?;
    let (num_items, p2) = read_u64(data, p1)?;

    // Feature index mapping
    let mut feature_indices: Vec<u64> = Vec::new();
    let mut p = p2;
    let mut i: u64 = 0;
    while i < num_items
        invariant
            i <= num_items,
            parse_repeat(s, p2 as int, i as nat, u64_item()) == Ok::<_, ErrorCase>(
                (feature_indices@, p as int),
            ),
            p <= s.len(),
            p >= p2,
            p - p2 == 8 * i,
        decreases num_items - i,
    {
        match read_u64(data, p) {
            Ok((v, q)) => {
                feature_indices.push(v);
                p = q;
                i = i + 1;
            },
            Err(e) => {
                proof {
                    lemma_repeat_err_persists(s, p2 as int, (i + 1) as nat, num_items as nat, u64_item());
                }
                return Err(e);
            },
        }
    }
    let p3 = p;

    // Compute total node count
    proof {
        lemma_total_nodes_bound(num_items, node_size as u64);
        lemma_offsets(level_sizes_spec(num_items, node_size as u64));
    }
    let sizes = level_sizes(num_items, node_size);
    let offsets = level_offsets(sizes.as_slice());
    let last = sizes.len() - 1;
    let total_nodes = offsets[last] + sizes[last];

    let mut nodes: Vec<EnvelopeBits> = Vec::new();
    let mut k: u64 = 0;
    while k < total_nodes
        invariant
            k <= total_nodes,
            parse_repeat(s, p3 as int, k as nat, envelope_item()) == Ok::<_, ErrorCase>(
                (nodes@, p as int),
            ),
        decreases total_nodes - k,
    {
        match read_envelope(data, p) {
            Ok((e, q)) => {
                nodes.push(e);
                p = q;
                k = k + 1;
            },
            Err(err) => {
                proof {
                    lemma_repeat_err_persists(
                        s,
                        p3 as int,
                        (k + 1) as nat,
                        total_nodes as nat,
                        envelope_item(),
                    );
                }
                return Err(err);
            },
        }
    }
    Ok((feature_indices, nodes, node_size, num_items))
}

// ── What a search finds ───────────────────────────────────────────────────

/// Whether the box of node `i` of level `l` meets the query.
pub open spec fn node_hit(hits: Seq<bool>, sizes: Seq<u64>, l: int, i: int) -> bool {
    hits[level_offsets_spec(sizes)[l] + i]
}

/// A node meets the query whenever one of its children does, for every
/// node below the root (as holds when each node's box covers the boxes of
/// its children, the parent of node `a` of level `l` being node `a / ns` of
/// level `l + 1`).
pub open spec fn hits_monotone(hits: Seq<bool>, n: u64, ns: u64) -> bool {
    let sizes = level_sizes_spec(n, ns);
    forall|l: int, a: int|
        0 <= l && l + 2 < sizes.len() && 0 <= a < sizes[l] && #[trigger] node_hit(hits, sizes, l, a)
            ==> node_hit(hits, sizes, l + 1, a / ns as int)
}

/// The feature indices of the items `a .. b` whose boxes meet the query.
pub open spec fn hit_items(hits: Seq<bool>, fi: Seq<u64>, a: int, b: int) -> Seq<u64>
    decreases b - a,
{
    if b <= a {
        Seq::empty()
    } else {
        hit_items(hits, fi, a, b - 1) + if hits[b - 1] {
            seq![fi[b - 1]]
        } else {
            Seq::empty()
        }
    }
}

/// `ns` to the power `l`.
pub open spec fn pw(ns: int, l: nat) -> int
    decreases l,
{
    if l == 0 {
        1
    } else {
        pw(ns, (l - 1) as nat) * ns
    }
}

proof fn lemma_pw_pos(ns: int, l: nat)
    requires
        ns >= 1,
    ensures
        pw(ns, l) >= 1,
    decreases l,
{
    if l > 0 {
        lemma_pw_pos(ns, (l - 1) as nat);
        assert(pw(ns, (l - 1) as nat) * ns >= 1) by (nonlinear_arith)
            requires
                pw(ns, (l - 1) as nat) >= 1,
                ns >= 1,
        ;
    }
}

/// Level `l` has `ceil(n / ns^l)` nodes: its last node starts before item
/// `n`, and its nodes cover all items.
proof fn lemma_level_cover(n: u64, ns: u64, l: int)
    requires
        ns >= 2,
        n >= 1,
        0 <= l < level_sizes_spec(n, ns).len(),
    ensures
        (level_sizes_spec(n, ns)[l] - 1) * pw(ns as int, l as nat) < n,
        n <= level_sizes_spec(n, ns)[l] * pw(ns as int, l as nat),
    decreases l,
{
    lemma_sizes_at(n, ns, l);
    let sizes = level_sizes_spec(n, ns);
    if l > 0 {
        lemma_level_cover(n, ns, l - 1);
        let s64 = sizes[l - 1];
        let t = sizes[l] as int;
        let s = s64 as int;
        let p = pw(ns as int, (l - 1) as nat);
        lemma_pw_pos(ns as int, (l - 1) as nat);
        let q = s64 / ns;
        let r = s64 % ns;
        assert(q * ns + r == s64 && 0 <= r < ns && q <= s64 / 2) by (nonlinear_arith)
            requires
                ns >= 2,
                q == s64 / ns,
                r == s64 % ns,
        ;
        assert(t == q + if r != 0 {
            1int
        } else {
            0int
        });
        assert((t - 1) * ns <= s - 1 && s <= t * ns) by (nonlinear_arith)
            requires
                t == q + if r != 0 {
                    1int
                } else {
                    0int
                },
                q * ns + r == s,
                0 <= r < ns,
        ;
        assert((t - 1) * (p * ns) < n && n <= t * (p * ns)) by (nonlinear_arith)
            requires
                (s - 1) * p < n,
                n <= s * p,
                (t - 1) * ns <= s - 1,
                s <= t * ns,
                p >= 1,
                ns >= 2,
        ;
    }
}

/// Items `a .. b` then `b .. d` are items `a .. d`.
proof fn lemma_hit_items_concat(hits: Seq<bool>, fi: Seq<u64>, a: int, b: int, d: int)
    requires
        a <= b <= d,
    ensures
        hit_items(hits, fi, a, b) + hit_items(hits, fi, b, d) == hit_items(hits, fi, a, d),
    decreases d - b,
{
    if d == b {
        assert(hit_items(hits, fi, a, b) + Seq::<u64>::empty() =~= hit_items(hits, fi, a, b));
    } else {
        lemma_hit_items_concat(hits, fi, a, b, d - 1);
        assert(hit_items(hits, fi, a, b) + hit_items(hits, fi, b, d) =~= hit_items(hits, fi, a, b)
            + hit_items(hits, fi, b, d - 1) + (if hits[d - 1] {
            seq![fi[d - 1]]
        } else {
            Seq::<u64>::empty()
        }));
    }
}

/// When no item of `a .. b` meets the query, none is found there.
proof fn lemma_hit_items_none(hits: Seq<bool>, fi: Seq<u64>, a: int, b: int)
    requires
        forall|c: int| a <= c < b ==> !hits[c],
    ensures
        hit_items(hits, fi, a, b) == Seq::<u64>::empty(),
    decreases b - a,
{
    if b > a {
        lemma_hit_items_none(hits, fi, a, b - 1);
        assert(hit_items(hits, fi, a, b) =~= Seq::<u64>::empty());
    }
}

/// The items below a node that does not meet the query do not meet it
/// either (given monotone hits, for nodes below the root).
proof fn lemma_miss_below(hits: Seq<bool>, n: u64, ns: u64, l: int, c: int, item: int)
    requires
        ns >= 2,
        n >= 1,
        hits_monotone(hits, n, ns),
        0 <= l,
        l + 1 < level_sizes_spec(n, ns).len(),
        0 <= c < level_sizes_spec(n, ns)[l],
        !node_hit(hits, level_sizes_spec(n, ns), l, c),
        c * pw(ns as int, l as nat) <= item < (c + 1) * pw(ns as int, l as nat),
        item < n,
    ensures
        !hits[item],
    decreases l,
{
    let sizes = level_sizes_spec(n, ns);
    lemma_offsets(sizes);
    lemma_sizes_at(n, ns, l);
    if l == 0 {
        assert(level_offsets_spec(sizes)[0] == 0);
        assert(item == c);
    } else {
        let p = pw(ns as int, (l - 1) as nat);
        lemma_pw_pos(ns as int, (l - 1) as nat);
        let a = item / p;
        assert(a * p <= item < (a + 1) * p) by (nonlinear_arith)
            requires
                a == item / p,
                p >= 1,
                item >= 0,
        ;
        assert(c * ns <= a < (c + 1) * ns) by (nonlinear_arith)
            requires
                c * (p * ns) <= item < (c + 1) * (p * ns),
                a * p <= item < (a + 1) * p,
                p >= 1,
                ns >= 2,
        ;
        assert(a / (ns as int) == c) by (nonlinear_arith)
            requires
                c * ns <= a < (c + 1) * ns,
                ns >= 2,
        ;
        lemma_level_cover(n, ns, l - 1);
        assert(a < sizes[l - 1]) by (nonlinear_arith)
            requires
                a * p <= item,
                item < n,
                n <= sizes[l - 1] * p,
                p >= 1,
        ;
        if node_hit(hits, sizes, l - 1, a) {
            assert(node_hit(hits, sizes, l - 1 + 1, a / ns as int));
        }
        lemma_miss_below(hits, n, ns, l - 1, a, item);
    }
}

/// `x`, but at most `n`.
pub open spec fn clamp(x: int, n: int) -> int {
    if x <= n {
        x
    } else {
        n
    }
}

/// Below a node of level `l` (at most the root), the search collects the
/// items under its first `k` children that meet the query, in order.
#[verifier::spinoff_prover]
#[verifier::rlimit(60)]
proof fn lemma_search_children(
    hits: Seq<bool>,
    fi: Seq<u64>,
    n: u64,
    ns: u64,
    l: int,
    i: int,
    k: nat,
)
    requires
        ns >= 2,
        n >= 1,
        hits_monotone(hits, n, ns),
        1 <= l < level_sizes_spec(n, ns).len(),
        0 <= i < level_sizes_spec(n, ns)[l],
        k <= child_count(level_sizes_spec(n, ns), ns as int, l, i),
    ensures
        search_children(hits, fi, level_sizes_spec(n, ns), ns as int, l as nat, i, k)
            == hit_items(
            hits,
            fi,
            i * ns * pw(ns as int, (l - 1) as nat),
            clamp((i * ns + k) * pw(ns as int, (l - 1) as nat), n as int),
        ),
    decreases l, k,
{
    let sizes = level_sizes_spec(n, ns);
    let p = pw(ns as int, (l - 1) as nat);
    lemma_pw_pos(ns as int, (l - 1) as nat);
    lemma_sizes_at(n, ns, l);
    lemma_child_start(sizes[l - 1], ns, i);
    lemma_level_cover(n, ns, l - 1);
    assert(i * ns * p < n) by (nonlinear_arith)
        requires
            i * ns <= sizes[l - 1] - 1,
            (sizes[l - 1] - 1) * p < n,
            p >= 1,
            i * ns >= 0,
    ;
    if k == 0 {
        assert(hit_items(hits, fi, i * ns * p, (i * ns + 0) * p) =~= Seq::<u64>::empty());
    } else {
        let c = i * ns + k - 1;
        lemma_search_children(hits, fi, n, ns, l, i, (k - 1) as nat);
        assert(c < sizes[l - 1]);
        assert(c * p < n) by (nonlinear_arith)
            requires
                c <= sizes[l - 1] - 1,
                (sizes[l - 1] - 1) * p < n,
                p >= 1,
                c >= 0,
        ;
        let hi = clamp((c + 1) * p, n as int);
        assert((c + 1) * p == c * p + p && i * ns * p <= c * p) by (nonlinear_arith)
            requires
                c >= i * ns,
                i * ns >= 0,
                p >= 1,
        ;
        assert(c * p <= hi);
        // What visiting child `c` collects: the items under it.
        assert(search_visit(hits, fi, sizes, ns as int, (l - 1) as nat, c) == hit_items(
            hits,
            fi,
            c * p,
            hi,
        )) by {
            lemma_visit(hits, fi, n, ns, l, c);
        }
        assert(clamp((i * ns + (k - 1)) * p, n as int) == c * p);
        lemma_hit_items_concat(hits, fi, i * ns * p, c * p, hi);
    }
}

/// Visiting node `c` of level `l - 1` collects the items under it that meet
/// the query.
#[verifier::spinoff_prover]
#[verifier::rlimit(60)]
proof fn lemma_visit(hits: Seq<bool>, fi: Seq<u64>, n: u64, ns: u64, l: int, c: int)
    requires
        ns >= 2,
        n >= 1,
        hits_monotone(hits, n, ns),
        1 <= l < level_sizes_spec(n, ns).len(),
        0 <= c < level_sizes_spec(n, ns)[l - 1],
    ensures
        search_visit(hits, fi, level_sizes_spec(n, ns), ns as int, (l - 1) as nat, c)
            == hit_items(
            hits,
            fi,
            c * pw(ns as int, (l - 1) as nat),
            clamp((c + 1) * pw(ns as int, (l - 1) as nat), n as int),
        ),
    decreases l, 0nat,
{
    let sizes = level_sizes_spec(n, ns);
    let p = pw(ns as int, (l - 1) as nat);
    lemma_pw_pos(ns as int, (l - 1) as nat);
    lemma_sizes_at(n, ns, l - 1);
    lemma_level_cover(n, ns, l - 1);
    let hi = clamp((c + 1) * p, n as int);
    assert(c * p < n) by (nonlinear_arith)
        requires
            c <= sizes[l - 1] - 1,
            (sizes[l - 1] - 1) * p < n,
            p >= 1,
            c >= 0,
    ;
    if l == 1 {
        assert(p == 1);
        assert(level_offsets_spec(sizes)[0] == 0) by {
            lemma_offsets(sizes);
        }
        assert(hit_items(hits, fi, c, c + 1) =~= hit_items(hits, fi, c, c) + (if hits[c] {
            seq![fi[c]]
        } else {
            Seq::<u64>::empty()
        }));
        assert(hit_items(hits, fi, c, c) =~= Seq::<u64>::empty());
    } else if !node_hit(hits, sizes, l - 1, c) {
        assert forall|item: int| c * p <= item < hi implies !hits[item] by {
            lemma_miss_below(hits, n, ns, l - 1, c, item);
        }
        lemma_hit_items_none(hits, fi, c * p, hi);
    } else {
        let cc = child_count(sizes, ns as int, l - 1, c);
        lemma_sizes_at(n, ns, l - 1);
        let q = pw(ns as int, (l - 2) as nat);
        assert(p == q * ns);
        lemma_pw_pos(ns as int, (l - 2) as nat);
        lemma_level_cover(n, ns, l - 2);
        lemma_child_start(sizes[l - 2], ns, c);
        lemma_search_children(hits, fi, n, ns, l - 1, c, cc);
        assert(c * ns * q == c * p) by (nonlinear_arith)
            requires
                p == q * ns,
        ;
        // The last child of `c` ends where the items under `c` end.
        assert(clamp((c * ns + cc) * q, n as int) == hi) by {
            if c * ns + ns <= sizes[l - 2] {
                assert(cc == ns);
                assert((c * ns + ns) * q == (c + 1) * p) by (nonlinear_arith)
                    requires
                        p == q * ns,
                ;
            } else {
                assert(c * ns + cc == sizes[l - 2]);
                assert((c + 1) * p >= n) by (nonlinear_arith)
                    requires
                        p == q * ns,
                        c * ns + ns > sizes[l - 2],
                        sizes[l - 2] * q >= n,
                        q >= 1,
                ;
            }
        }
    }
}

/// The items `0 .. k` that meet the query, found by scanning.
proof fn lemma_scan_is_hit_items(hits: Seq<bool>, fi: Seq<u64>, k: nat)
    ensures
        search_scan(hits, fi, k) == hit_items(hits, fi, 0, k as int),
    decreases k,
{
    if k > 0 {
        lemma_scan_is_hit_items(hits, fi, (k - 1) as nat);
    }
}

/// Spatial search law: when a node meets the query whenever one of its
/// children does (which holds when every node's box covers its children's
/// boxes, as the index builds them), the search returns exactly the feature
/// indices of the items whose boxes meet the query, in item order: every
/// item found meets the query, and every item that meets it is found.
pub proof fn law_search_finds_exactly_the_hits(hits: Seq<bool>, fi: Seq<u64>, n: u64, ns: u64)
    requires
        search_inputs_ok(hits, fi, n, ns),
        hits_monotone(hits, n, ns),
    ensures
        search_spec(hits, fi, n, ns) == search_scan(hits, fi, n as nat),
{
    lemma_scan_is_hit_items(hits, fi, n as nat);
    let sizes = level_sizes_spec(n, ns);
    if n >= 1 && sizes.len() > 1 {
        let root = sizes.len() - 1;
        lemma_sizes_at(n, ns, root);
        lemma_search_children(
            hits,
            fi,
            n,
            ns,
            root,
            0,
            child_count(sizes, ns as int, root, 0),
        );
        lemma_level_cover(n, ns, root);
        lemma_level_cover(n, ns, root - 1);
        let p = pw(ns as int, (root - 1) as nat);
        let cc = child_count(sizes, ns as int, root, 0);
        assert(sizes[root] == 1);
        assert(cc == sizes[root - 1]) by {
            lemma_child_start(sizes[root - 1], ns, 0);
            assert(sizes[root - 1] <= ns) by {
                assert(ceil_div(sizes[root - 1], ns) == 1);
                let m = sizes[root - 1];
                let q = m / ns;
                let r = m % ns;
                assert(q * ns + r == m && r < ns && q <= m / 2) by (nonlinear_arith)
                    requires
                        ns >= 2,
                        q == m / ns,
                        r == m % ns,
                ;
                assert(q + (if r != 0 {
                    1int
                } else {
                    0int
                }) == 1);
                assert(m <= ns) by (nonlinear_arith)
                    requires
                        q + (if r != 0 {
                            1int
                        } else {
                            0int
                        }) == 1,
                        q * ns + r == m,
                        0 <= r < ns,
                        q >= 0,
                ;
            }
        }
        assert(clamp((0 * ns + cc) * p, n as int) == n as int) by {
            assert(cc * p >= n);
        }
        assert(0 * ns * p == 0);
    }
}

} // verus!
