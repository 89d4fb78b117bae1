//! Weights in the orders in which the kernels read them.

use vstd::prelude::*;

use crate::grid::{cell, lemma_cell, lemma_next_row, lemma_position};
use crate::ops::{tap_count, taps_of};

verus! {

// ---------------------------------------------------------------------------
// Input channels first
// ---------------------------------------------------------------------------

/// Where `[cout][cin][taps]` holds what stands at position `i` of
/// `[cin][cout][taps]`.
pub open spec fn swapped_from(i: int, cout: int, cin: int, taps: int) -> int {
    let (q, r) = (i / taps, i % taps);
    cell(taps, cell(cin, q % cout, q / cout), r)
}

/// The weights `[cout][cin][taps]` as `[cin][cout][taps]`; what follows them is
/// zero.
pub open spec fn swapped(w: Seq<u32>, cout: int, cin: int, taps: int) -> Seq<u32> {
    Seq::new(
        w.len(),
        |i: int|
            if i < cin * cout * taps {
                w[swapped_from(i, cout, cin, taps)]
            } else {
                0
            },
    )
}

proof fn lemma_swapped_at(cout: int, cin: int, taps: int, ci: int, co: int, r: int)
    requires
        0 <= ci < cin,
        0 <= co < cout,
        0 <= r < taps,
    ensures
        ({
            let i = cell(taps, cell(cout, ci, co), r);
            let s = cell(taps, cell(cin, co, ci), r);
            &&& 0 <= i < cin * cout * taps
            &&& swapped_from(i, cout, cin, taps) == s
            &&& 0 <= s < cin * cout * taps
            &&& 0 <= cell(cin, co, ci) * taps <= s
            &&& 0 <= co * cin <= cell(cin, co, ci) < cin * cout
        }),
{
    lemma_cell(cin, cout, ci, co);
    lemma_cell(cin * cout, taps, cell(cout, ci, co), r);
    lemma_cell(cout, cin, co, ci);
    assert(cin * cout == cout * cin) by (nonlinear_arith);
    lemma_cell(cout * cin, taps, cell(cin, co, ci), r);
}

/// Reorder `[cout][cin][taps]` to `[cin][cout][taps]`, for the kernel that walks
/// one input channel at a time.
pub fn swap_channels(w: &Vec<u32>, cout: usize, cin: usize, taps: usize) -> (r: Vec<u32>)
    requires
        cin * cout * taps <= w@.len(),
    ensures
        r@ == swapped(w@, cout as int, cin as int, taps as int),
{
    let n = w.len();
    let ghost full = swapped(w@, cout as int, cin as int, taps as int);
    let ghost (gout, gin, gt) = (cout as int, cin as int, taps as int);
    let mut out: Vec<u32> = Vec::new();
    let mut ci: usize = 0;
    assert(cell(gt, cell(gout, 0, 0), 0) == 0) by {
        assert(0 * gout == 0 && 0 * gt == 0) by (nonlinear_arith);
    }
    assert(full.take(0) =~= Seq::empty());
    while ci < cin
        invariant
            ci <= cin,
            n == w@.len(),
            cin * cout * taps <= n,
            gout == cout,
            gin == cin,
            gt == taps,
            full == swapped(w@, gout, gin, gt),
            out@ == full.take(cell(gt, cell(gout, ci as int, 0), 0)),
        decreases cin - ci,
    {
        let mut co: usize = 0;
        while co < cout
            invariant
                ci < cin,
                co <= cout,
                n == w@.len(),
                cin * cout * taps <= n,
                gout == cout,
                gin == cin,
                gt == taps,
                full == swapped(w@, gout, gin, gt),
                out@ == full.take(cell(gt, cell(gout, ci as int, co as int), 0)),
            decreases cout - co,
        {
            let mut r: usize = 0;
            while r < taps
                invariant
                    ci < cin,
                    co < cout,
                    r <= taps,
                    n == w@.len(),
                    cin * cout * taps <= n,
                    gout == cout,
                    gin == cin,
                    gt == taps,
                    full == swapped(w@, gout, gin, gt),
                    out@ == full.take(cell(gt, cell(gout, ci as int, co as int), r as int)),
                decreases taps - r,
            {
                let ghost i = cell(gt, cell(gout, ci as int, co as int), r as int);
                proof {
                    lemma_swapped_at(gout, gin, gt, ci as int, co as int, r as int);
                    assert(cin * cout <= cin * cout * taps) by (nonlinear_arith)
                        requires
                            taps >= 1,
                    ;
                }
                out.push(w[(co * cin + ci) * taps + r]);
                assert(out@ =~= full.take(i + 1));
                r += 1;
            }
            proof {
                lemma_next_row(gt, cell(gout, ci as int, co as int));
            }
            co += 1;
        }
        proof {
            lemma_next_row(gout, ci as int);
        }
        ci += 1;
    }
    assert(cell(gt, cell(gout, gin, 0), 0) == gin * gout * gt);
    while out.len() < n
        invariant
            n == w@.len(),
            gin * gout * gt <= out@.len() <= n,
            gout == cout,
            gin == cin,
            gt == taps,
            full == swapped(w@, gout, gin, gt),
            out@ == full.take(out@.len() as int),
        decreases n - out@.len(),
    {
        let ghost k = out@.len() as int;
        out.push(0);
        assert(out@ =~= full.take(k + 1));
    }
    assert(full.take(n as int) =~= full);
    out
}

/// Nothing is lost: reordering back gives the weights again.
pub proof fn swap_undoes_swap(w: Seq<u32>, cout: int, cin: int, taps: int)
    requires
        0 <= cout,
        0 <= cin,
        0 <= taps,
        w.len() == cin * cout * taps,
    ensures
        swapped(swapped(w, cout, cin, taps), cin, cout, taps) == w,
{
    let once = swapped(w, cout, cin, taps);
    let twice = swapped(once, cin, cout, taps);
    assert(cin * cout == cout * cin) by (nonlinear_arith);
    assert forall|i: int| 0 <= i < w.len() implies twice[i] == w[i] by {
        assert(0 <= cout * cin) by (nonlinear_arith)
            requires
                0 <= cout,
                0 <= cin,
        ;
        lemma_position(cout * cin, taps, i);
        let (q, r) = (i / taps, i % taps);
        lemma_position(cout, cin, q);
        let (co, ci) = (q / cin, q % cin);
        lemma_swapped_at(cin, cout, taps, co, ci, r);
        lemma_swapped_at(cout, cin, taps, ci, co, r);
    }
    assert(twice =~= w);
}

// ---------------------------------------------------------------------------
// One matrix per phase
// ---------------------------------------------------------------------------

/// The row of tap `t` of a phase in the 3x3 kernel, for stride 2 and padding 1.
pub open spec fn tap_row(ph: nat, t: int) -> int {
    if ph < 2 {
        1
    } else if ph == 2 {
        if t == 0 {
            0
        } else {
            2
        }
    } else {
        if t < 2 {
            0
        } else {
            2
        }
    }
}

/// The column of tap `t` of a phase in the 3x3 kernel.
pub open spec fn tap_col(ph: nat, t: int) -> int {
    if ph == 0 || ph == 2 {
        1
    } else if t % 2 == 0 {
        0
    } else {
        2
    }
}

fn tap_of(ph: usize, t: usize) -> (r: (usize, usize))
    ensures
        r.0 == tap_row(ph as nat, t as int),
        r.1 == tap_col(ph as nat, t as int),
        r.0 < 3,
        r.1 < 3,
{
    let row: usize = if ph < 2 {
        1
    } else if ph == 2 {
        if t == 0 {
            0
        } else {
            2
        }
    } else {
        if t < 2 {
            0
        } else {
            2
        }
    };
    let col: usize = if ph == 0 || ph == 2 {
        1
    } else if t % 2 == 0 {
        0
    } else {
        2
    };
    (row, col)
}

/// The position of a weight in `[cin][cout][3][3]`.
pub open spec fn kernel_at(cout: int, ci: int, co: int, ky: int, kx: int) -> int {
    cell(3, cell(3, cell(cout, ci, co), ky), kx)
}

/// The weights `[cin][cout][3][3]` of one phase as a matrix `[cout][cin*taps]`.
pub open spec fn phase_matrix(w: Seq<u32>, cin: int, cout: int, ph: nat) -> Seq<u32> {
    let taps = tap_count(ph) as int;
    let k = cin * taps;
    Seq::new(
        (cout * k) as nat,
        |i: int|
            {
                let (co, j) = (i / k, i % k);
                let (ci, t) = (j / taps, j % taps);
                w[kernel_at(cout, ci, co, tap_row(ph, t), tap_col(ph, t))]
            },
    )
}

proof fn lemma_kernel_at(cin: int, cout: int, ci: int, co: int, ky: int, kx: int)
    requires
        0 <= ci < cin,
        0 <= co < cout,
        0 <= ky < 3,
        0 <= kx < 3,
    ensures
        0 <= ci * cout,
        0 <= kernel_at(cout, ci, co, ky, kx) < cin * cout * 9,
        cell(cout, ci, co) < cin * cout,
{
    lemma_cell(cin, cout, ci, co);
}

/// Gather the weights of one phase: row `co` holds, for every input channel, the
/// phase's taps in their order.
pub fn gather_phase(w: &Vec<u32>, cin: usize, cout: usize, ph: usize) -> (r: Vec<u32>)
    requires
        cin * cout * 9 <= w@.len(),
        cin * tap_count(ph as nat) <= usize::MAX,
    ensures
        r@ == phase_matrix(w@, cin as int, cout as int, ph as nat),
{
    let n = w.len();
    let taps = taps_of(ph);
    let ghost full = phase_matrix(w@, cin as int, cout as int, ph as nat);
    let ghost (gout, gin, gt) = (cout as int, cin as int, taps as int);
    let ghost k = gin * gt;
    let mut out: Vec<u32> = Vec::new();
    let mut co: usize = 0;
    assert(cell(k, 0, 0) == 0) by {
        assert(0 * k == 0) by (nonlinear_arith);
    }
    assert(full.take(0) =~= Seq::empty());
    while co < cout
        invariant
            co <= cout,
            n == w@.len(),
            cin * cout * 9 <= n,
            taps == tap_count(ph as nat),
            gout == cout,
            gin == cin,
            gt == taps,
            k == gin * gt,
            full == phase_matrix(w@, gin, gout, ph as nat),
            out@ == full.take(cell(k, co as int, 0)),
        decreases cout - co,
    {
        let mut ci: usize = 0;
        assert(cell(gt, 0, 0) == 0) by {
            assert(0 * gt == 0) by (nonlinear_arith);
        }
        while ci < cin
            invariant
                co < cout,
                ci <= cin,
                n == w@.len(),
                cin * cout * 9 <= n,
                taps == tap_count(ph as nat),
                gout == cout,
                gin == cin,
                gt == taps,
                k == gin * gt,
                full == phase_matrix(w@, gin, gout, ph as nat),
                out@ == full.take(cell(k, co as int, cell(gt, ci as int, 0))),
            decreases cin - ci,
        {
            let mut t: usize = 0;
            while t < taps
                invariant
                    co < cout,
                    ci < cin,
                    t <= taps,
                    n == w@.len(),
                    cin * cout * 9 <= n,
                    taps == tap_count(ph as nat),
                    gout == cout,
                    gin == cin,
                    gt == taps,
                    k == gin * gt,
                    full == phase_matrix(w@, gin, gout, ph as nat),
                    out@ == full.take(cell(k, co as int, cell(gt, ci as int, t as int))),
                decreases taps - t,
            {
                let (ky, kx) = tap_of(ph, t);
                let ghost j = cell(gt, ci as int, t as int);
                let ghost i = cell(k, co as int, j);
                proof {
                    lemma_cell(gin, gt, ci as int, t as int);
                    lemma_cell(gout, k, co as int, j);
                    lemma_kernel_at(gin, gout, ci as int, co as int, ky as int, kx as int);
                }
                out.push(w[((ci * cout + co) * 3 + ky) * 3 + kx]);
                assert(out@ =~= full.take(i + 1));
                t += 1;
            }
            proof {
                lemma_next_row(gt, ci as int);
            }
            ci += 1;
        }
        proof {
            lemma_next_row(k, co as int);
        }
        co += 1;
    }
    assert(full.take(cell(k, gout, 0)) =~= full);
    out
}

/// Every weight of the 3x3 kernel belongs to exactly one tap of one phase.
pub proof fn taps_cover_kernel(ky: int, kx: int)
    requires
        0 <= ky < 3,
        0 <= kx < 3,
    ensures
        exists|ph: nat, t: int| #[trigger] is_tap(ph, t, ky, kx),
        forall|p: nat, s: int, q: nat, t: int|
            #[trigger] is_tap(p, s, ky, kx) && #[trigger] is_tap(q, t, ky, kx) ==> p == q && s == t,
{
    let ph: nat = if ky == 1 {
        if kx == 1 {
            0
        } else {
            1
        }
    } else {
        if kx == 1 {
            2
        } else {
            3
        }
    };
    let t: int = if ph == 0 {
        0
    } else if ph == 1 {
        kx / 2
    } else if ph == 2 {
        ky / 2
    } else {
        ky / 2 * 2 + kx / 2
    };
    assert(is_tap(ph, t, ky, kx));
}

/// Tap `t` of a phase reads row `ky` and column `kx` of the kernel.
pub open spec fn is_tap(ph: nat, t: int, ky: int, kx: int) -> bool {
    &&& ph < 4
    &&& 0 <= t < tap_count(ph)
    &&& tap_row(ph, t) == ky
    &&& tap_col(ph, t) == kx
}

/// The taps of a phase are the weights of the 3x3 kernel that meet its output pixels:
/// with stride 2 and padding 1, row `ky` meets an input row at output row `y` exactly
/// where `y + 1 - ky` is twice the number of that row, and so with the columns.
pub proof fn taps_meet_their_pixels(ph: nat, y: int, x: int, ky: int, kx: int)
    requires
        ph < 4,
        y % 2 == ph / 2,
        x % 2 == ph % 2,
        0 <= ky < 3,
        0 <= kx < 3,
    ensures
        (exists|t: int| #[trigger] is_tap(ph, t, ky, kx)) <==> (exists|iy: int, ix: int|
            #[trigger] meets(y, ky, iy) && #[trigger] meets(x, kx, ix)),
{
    taps_cover_kernel(ky, kx);
    if exists|iy: int, ix: int| #[trigger] meets(y, ky, iy) && #[trigger] meets(x, kx, ix) {
        let (q, t) = choose|q: nat, t: int| #[trigger] is_tap(q, t, ky, kx);
        assert(q == ph);
        assert(is_tap(ph, t, ky, kx));
    }
    if exists|t: int| #[trigger] is_tap(ph, t, ky, kx) {
        let (iy, ix) = ((y + 1 - ky) / 2, (x + 1 - kx) / 2);
        assert(meets(y, ky, iy) && meets(x, kx, ix));
    }
}

/// With stride 2 and padding 1, weight `k` of a kernel carries input `i` to output
/// `o`.
pub open spec fn meets(o: int, k: int, i: int) -> bool {
    o == 2 * i - 1 + k
}

/// The taps of a phase are in the order of the kernel, row by row.
pub proof fn taps_are_in_order(ph: nat, s: int, t: int)
    requires
        ph < 4,
        0 <= s < t < tap_count(ph),
    ensures
        3 * tap_row(ph, s) + tap_col(ph, s) < 3 * tap_row(ph, t) + tap_col(ph, t),
{
}

} // verus!
