//! All-pairs shortest paths (Floyd–Warshall) with overflow-safe relaxation.

use vstd::prelude::*;
use vstd::arithmetic::div_mod::lemma_fundamental_div_mod_converse_div;
use vstd::arithmetic::div_mod::lemma_fundamental_div_mod_converse_mod;

verus! {

/// The adjacency matrix as a sequence of rows.
pub open spec fn matrix_of(m: Seq<Vec<isize>>) -> Seq<Seq<isize>> {
    m.map_values(|r: Vec<isize>| r@)
}

/// Starting distance for the pair `(i, j)`: zero on the diagonal, the edge
/// weight where an edge exists, and the sentinel `isize::MAX` (meaning
/// "unreachable") where the adjacency entry is zero.
pub open spec fn fw_init(g: Seq<Seq<isize>>, i: int, j: int) -> isize {
    if i == j {
        0
    } else if g[i][j] != 0 {
        g[i][j]
    } else {
        isize::MAX
    }
}

/// The starting distances, stored row-major in one flat sequence.
pub open spec fn fw_seed(g: Seq<Seq<isize>>, n: int) -> Seq<isize> {
    Seq::new((n * n) as nat, |p: int| fw_init(g, p / n, p % n))
}

/// One relaxation: route `i -> k -> j` replaces the stored distance when the
/// sum is representable and smaller. A sum that would overflow is skipped,
/// never wrapped, so the sentinel stays in place.
pub open spec fn fw_relax(m: Seq<isize>, n: int, k: int, i: int, j: int) -> Seq<isize> {
    let s = m[i * n + k] + m[k * n + j];
    if isize::MIN <= s <= isize::MAX && s < m[i * n + j] {
        m.update(i * n + j, s as isize)
    } else {
        m
    }
}

/// The first `t` relaxations, taken in the order of the triple loop over
/// `k`, then `i`, then `j`.
pub open spec fn fw_iter(m0: Seq<isize>, n: int, t: nat) -> Seq<isize>
    decreases t,
{
    if t == 0 {
        m0
    } else {
        let s = t - 1;
        fw_relax(fw_iter(m0, n, (t - 1) as nat), n, s / (n * n), (s % (n * n)) / n, s % n)
    }
}

proof fn lemma_row_col(n: int, i: int, j: int)
    requires
        0 < n,
        0 <= i < n,
        0 <= j < n,
    ensures
        0 <= i * n + j < n * n,
        (i * n + j) / n == i,
        (i * n + j) % n == j,
{
    assert(0 <= i * n + j && i * n + j < n * n) by (nonlinear_arith)
        requires
            0 < n && 0 <= i < n && 0 <= j < n,
    ;
    lemma_fundamental_div_mod_converse_div(i * n + j, n, i, j);
    lemma_fundamental_div_mod_converse_mod(i * n + j, n, i, j);
}

proof fn lemma_step_decompose(n: int, k: int, i: int, j: int)
    requires
        0 < n,
        0 <= k < n,
        0 <= i < n,
        0 <= j < n,
    ensures
        0 <= k * (n * n) + i * n + j < n * n * n,
        (k * (n * n) + i * n + j) / (n * n) == k,
        ((k * (n * n) + i * n + j) % (n * n)) / n == i,
        (k * (n * n) + i * n + j) % n == j,
{
    let t = k * (n * n) + i * n + j;
    lemma_row_col(n, i, j);
    assert(0 <= t && t < n * n * n && t == k * (n * n) + (i * n + j) && t == (k * n + i) * n + j)
        by (nonlinear_arith)
        requires
            0 < n && 0 <= k < n && 0 <= i < n && 0 <= j < n,
            t == k * (n * n) + i * n + j,
    ;
    lemma_fundamental_div_mod_converse_div(t, n * n, k, i * n + j);
    lemma_fundamental_div_mod_converse_mod(t, n * n, k, i * n + j);
    lemma_fundamental_div_mod_converse_mod(t, n, k * n + i, j);
}

/// All-pairs shortest-path distances from an adjacency matrix in which `0`
/// means "no edge". The result is exactly the matrix produced by running
/// every relaxation `i -> k -> j` in the triple-loop order on the seeded
/// distances, skipping any relaxation whose sum would overflow.
///
/// The matrix must be square; its side is capped so that the row-major
/// position `i * n + j` fits a machine word on every platform.
pub fn floyd_warshall(adj: Vec<Vec<isize>>) -> (dist: Vec<Vec<isize>>)
    requires
        adj@.len() <= 0xFFFF,
        forall|i: int| 0 <= i < adj@.len() ==> (#[trigger] adj@[i])@.len() == adj@.len(),
    ensures
        dist@.len() == adj@.len(),
        forall|i: int| 0 <= i < adj@.len() ==> (#[trigger] dist@[i])@.len() == adj@.len(),
        forall|i: int, j: int|
            0 <= i < adj@.len() && 0 <= j < adj@.len() ==> (#[trigger] dist@[i]@[j]) == fw_iter(
                fw_seed(matrix_of(adj@), adj@.len() as int),
                adj@.len() as int,
                (adj@.len() * adj@.len() * adj@.len()) as nat,
            )[i * adj@.len() + j],
{
    let n = adj.len();
    let ghost g = matrix_of(adj@);
    let ghost nn = n as int;
    let mut m: Vec<isize> = Vec::new();
    let mut i: usize = 0;
    while i < n
        invariant
            i <= n,
            n == adj@.len(),
            n <= 0xFFFF,
            g == matrix_of(adj@),
            forall|r: int| 0 <= r < n ==> (#[trigger] adj@[r])@.len() == n,
            m@.len() == i * n,
            forall|p: int| 0 <= p < m@.len() ==> m@[p] == fw_seed(g, n as int)[p],
        decreases n - i,
    {
        let mut j: usize = 0;
        while j < n
            invariant
                i < n,
                j <= n,
                n == adj@.len(),
                n <= 0xFFFF,
                g == matrix_of(adj@),
                forall|r: int| 0 <= r < n ==> (#[trigger] adj@[r])@.len() == n,
                m@.len() == i * n + j,
                forall|p: int| 0 <= p < m@.len() ==> m@[p] == fw_seed(g, n as int)[p],
            decreases n - j,
        {
            proof {
                lemma_row_col(n as int, i as int, j as int);
                assert(g[i as int] == adj@[i as int]@);
            }
            let v: isize = if i == j {
                0
            } else {
                let w = adj[i][j];
                if w != 0 {
                    w
                } else {
                    isize::MAX
                }
            };
            m.push(v);
            j += 1;
        }
        proof {
            assert(i * (n as int) + n == (i + 1) * (n as int)) by (nonlinear_arith);
        }
        i += 1;
    }
    proof {
        assert(m@ =~= fw_seed(g, nn));
    }
    let ghost m0 = m@;
    let mut k: usize = 0;
    while k < n
        invariant
            k <= n,
            n == adj@.len(),
            n <= 0xFFFF,
            m@.len() == nn * nn,
            nn == n as int,
            m0 == fw_seed(g, nn),
            g == matrix_of(adj@),
            m@ == fw_iter(m0, nn, (k * (n as int) * (n as int)) as nat),
        decreases n - k,
    {
        let mut i2: usize = 0;
        while i2 < n
            invariant
                k < n,
                i2 <= n,
                n == adj@.len(),
                n <= 0xFFFF,
                m@.len() == nn * nn,
                nn == n as int,
                m0 == fw_seed(g, nn),
                g == matrix_of(adj@),
                m@ == fw_iter(m0, nn, (k * nn * nn + i2 * nn) as nat),
            decreases n - i2,
        {
            let mut j2: usize = 0;
            while j2 < n
                invariant
                    k < n,
                    i2 < n,
                    j2 <= n,
                    n == adj@.len(),
                    n <= 0xFFFF,
                    m@.len() == nn * nn,
                    nn == n as int,
                    m0 == fw_seed(g, nn),
                    g == matrix_of(adj@),
                    m@ == fw_iter(m0, nn, (k * nn * nn + i2 * nn + j2) as nat),
                decreases n - j2,
            {
                proof {
                    lemma_step_decompose(nn, k as int, i2 as int, j2 as int);
                    assert(nn * nn <= 0xFFFF * 0xFFFF) by (nonlinear_arith)
                        requires
                            0 <= nn <= 0xFFFF,
                    ;
                    lemma_row_col(nn, i2 as int, k as int);
                    lemma_row_col(nn, k as int, j2 as int);
                    lemma_row_col(nn, i2 as int, j2 as int);
                    assert((k * nn * nn + i2 * nn + j2) + 1 == k * nn * nn + i2 * nn + (j2 + 1));
                    assert(k * nn * nn == k * (nn * nn)) by (nonlinear_arith);
                }
                let a = m[i2 * n + k];
                let b = m[k * n + j2];
                let c = m[i2 * n + j2];
                if let Some(d) = a.checked_add(b) {
                    if d < c {
                        m.set(i2 * n + j2, d);
                    }
                }
                proof {
                    let t = (k * nn * nn + i2 * nn + j2) as nat;
                    assert(fw_iter(m0, nn, (t + 1) as nat) == fw_relax(
                        fw_iter(m0, nn, t),
                        nn,
                        k as int,
                        i2 as int,
                        j2 as int,
                    ));
                    assert(m@ =~= fw_relax(fw_iter(m0, nn, t), nn, k as int, i2 as int, j2 as int));
                }
                j2 += 1;
            }
            proof {
                assert(k * nn * nn + i2 * nn + nn == k * nn * nn + (i2 + 1) * nn)
                    by (nonlinear_arith);
            }
            i2 += 1;
        }
        proof {
            assert(k * nn * nn + nn * nn == (k + 1) * nn * nn) by (nonlinear_arith);
        }
        k += 1;
    }
    let ghost fin = fw_iter(m0, nn, (nn * nn * nn) as nat);
    proof {
        assert(n * (n as int) * (n as int) == nn * nn * nn);
        assert(m@ == fin);
    }
    let mut dist: Vec<Vec<isize>> = Vec::new();
    let mut r: usize = 0;
    while r < n
        invariant
            r <= n,
            n == adj@.len(),
            n <= 0xFFFF,
            nn == n as int,
            m@.len() == nn * nn,
            m@ == fin,
            dist@.len() == r,
            forall|i: int| 0 <= i < r ==> (#[trigger] dist@[i])@.len() == n,
            forall|i: int, j: int|
                0 <= i < r && 0 <= j < n ==> (#[trigger] dist@[i]@[j]) == fin[i * nn + j],
        decreases n - r,
    {
        let mut row: Vec<isize> = Vec::new();
        let mut c: usize = 0;
        while c < n
            invariant
                r < n,
                c <= n,
                n <= 0xFFFF,
                nn == n as int,
                m@.len() == nn * nn,
                m@ == fin,
                row@.len() == c,
                forall|j: int| 0 <= j < c ==> (#[trigger] row@[j]) == fin[r * nn + j],
            decreases n - c,
        {
            proof {
                lemma_row_col(nn, r as int, c as int);
                assert(nn * nn <= 0xFFFF * 0xFFFF) by (nonlinear_arith)
                    requires
                        0 <= nn <= 0xFFFF,
                ;
            }
            let x = m[r * n + c];
            row.push(x);
            c += 1;
        }
        dist.push(row);
        r += 1;
    }
    dist
}

} // verus!
