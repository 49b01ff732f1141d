use vstd::prelude::*;

use crate::graph::{
    canonical_pairs, degree_of, id_nodes, id_seq, lemma_degree_push, lemma_id_graph_wf, pair_lt,
    strictly_ordered, Graph,
};

verus! {

/// The pairs `(i, i+1), (i, i+2), ..., (i, n-1)`: row `i` of the canonical
/// enumeration of unordered pairs below `n`.
pub open spec fn row_pairs(i: u32, n: u32) -> Seq<(u32, u32)> {
    Seq::new(
        if i < n {
            (n - i - 1) as nat
        } else {
            0
        },
        |k: int| (i, (i + 1 + k) as u32),
    )
}

/// The first `rows` rows of the canonical pair enumeration, concatenated.
pub open spec fn pairs_below(n: u32, rows: int) -> Seq<(u32, u32)>
    decreases rows,
{
    if rows <= 0 {
        Seq::empty()
    } else {
        pairs_below(n, rows - 1) + row_pairs((rows - 1) as u32, n)
    }
}

/// All unordered pairs `(i, j)` with `i < j < n`, in canonical combinatorial
/// order: increasing `i`, then increasing `j`.
pub open spec fn complete_pairs(n: u32) -> Seq<(u32, u32)> {
    pairs_below(n, n as int)
}

/// The star edges `(0, 1), (0, 2), ..., (0, n)`.
pub open spec fn star_edges(n: u32) -> Seq<(u32, u32)> {
    Seq::new(n as nat, |k: int| (0u32, (k + 1) as u32))
}

/// The canonical pair enumeration is canonical (smaller endpoint first, both
/// below `n`), strictly ordered, and confined to first endpoints below `rows`.
pub proof fn lemma_pairs_below_props(n: u32, rows: int)
    requires
        0 <= rows <= n,
    ensures
        canonical_pairs(pairs_below(n, rows), n),
        strictly_ordered(pairs_below(n, rows)),
        forall|k: int|
            0 <= k < pairs_below(n, rows).len() ==> (#[trigger] pairs_below(n, rows)[k]).0 < rows,
    decreases rows,
{
    if rows > 0 {
        lemma_pairs_below_props(n, rows - 1);
        let prev = pairs_below(n, rows - 1);
        let row = row_pairs((rows - 1) as u32, n);
        let s = pairs_below(n, rows);
        assert forall|k: int| 0 <= k < s.len() implies (#[trigger] s[k]).0 < s[k].1 && s[k].1 < n
            && s[k].0 < rows by {
            if k >= prev.len() {
                assert(s[k] == row[k - prev.len()]);
            }
        }
        assert forall|k1: int, k2: int| 0 <= k1 < k2 < s.len() implies pair_lt(s[k1], s[k2]) by {
            if k2 >= prev.len() {
                assert(s[k2] == row[k2 - prev.len()]);
                if k1 >= prev.len() {
                    assert(s[k1] == row[k1 - prev.len()]);
                }
            }
        }
    }
}

/// The canonical pair enumeration of `rows` rows holds
/// `rows * (2n - rows - 1) / 2` pairs; with `rows == n` that is the binomial
/// count `n * (n - 1) / 2`.
pub proof fn lemma_pairs_below_len(n: u32, rows: int)
    requires
        0 <= rows <= n,
    ensures
        2 * pairs_below(n, rows).len() == rows * (2 * (n as int) - rows - 1),
    decreases rows,
{
    if rows > 0 {
        lemma_pairs_below_len(n, rows - 1);
        assert(pairs_below(n, rows) == pairs_below(n, rows - 1) + row_pairs((rows - 1) as u32, n));
        assert(row_pairs((rows - 1) as u32, n).len() == n - rows);
        assert(2 * pairs_below(n, rows).len() == (rows - 1) * (2 * (n as int) - rows) + 2 * ((
        n as int) - rows));
        assert((rows - 1) * (2 * (n as int) - rows) + 2 * ((n as int) - rows) == rows * (2 * (
        n as int) - rows - 1)) by (nonlinear_arith);
    } else {
        assert(rows * (2 * (n as int) - rows - 1) == 0) by (nonlinear_arith)
            requires
                rows == 0,
        ;
    }
}

proof fn lemma_pairs_below_contains(n: u32, rows: int, i: u32, j: u32)
    requires
        0 <= rows <= n,
    ensures
        pairs_below(n, rows).contains((i, j)) <==> (i < rows && i < j < n),
    decreases rows,
{
    if rows > 0 {
        lemma_pairs_below_contains(n, rows - 1, i, j);
        let prev = pairs_below(n, rows - 1);
        let row = row_pairs((rows - 1) as u32, n);
        let s = pairs_below(n, rows);
        if s.contains((i, j)) {
            let k = choose|k: int| 0 <= k < s.len() && s[k] == (i, j);
            if k < prev.len() {
                assert(prev[k] == (i, j));
                assert(prev.contains((i, j)));
            } else {
                assert(row[k - prev.len()] == (i, j));
            }
        }
        if i < rows && i < j && j < n {
            if i < rows - 1 {
                let k = choose|k: int| 0 <= k < prev.len() && prev[k] == (i, j);
                assert(s[k] == (i, j));
            } else {
                assert(row[j - i - 1] == (i, j));
                assert(s[prev.len() + (j - i - 1)] == (i, j));
            }
            assert(s.contains((i, j)));
        }
    }
}

/// A pair is an edge of the complete graph on `n` nodes exactly when it is an
/// unordered pair `(i, j)` with `i < j < n`. The certain-probability random
/// graph returns the same edge sequence, so the same holds of it.
pub proof fn lemma_complete_pairs_membership(n: u32, i: u32, j: u32)
    ensures
        complete_pairs(n).contains((i, j)) <==> i < j < n,
{
    lemma_pairs_below_contains(n, n as int, i, j);
}

/// Each node `1..=n` is a leaf of the star and node `0` its center.
pub proof fn lemma_star_degree(n: u32, v: u32)
    ensures
        degree_of(star_edges(n), v) == if v == 0 {
            n as nat
        } else if 1 <= v <= n {
            1nat
        } else {
            0nat
        },
    decreases n,
{
    if n == 0 {
        reveal(Seq::filter);
        assert(star_edges(0) =~= Seq::<(u32, u32)>::empty());
    } else {
        lemma_star_degree((n - 1) as u32, v);
        assert(star_edges((n - 1) as u32).push((0u32, n)) =~= star_edges(n));
        lemma_degree_push(star_edges((n - 1) as u32), (0u32, n), v);
    }
}

/// Returns the graph with nodes `0..n` and no edges.
pub fn empty_graph(n: u32) -> (g: Graph)
    ensures
        g.nodes@ == id_seq(n as int),
        g.edges@ == Seq::<(u32, u32)>::empty(),
        g.name@ == "empty graph"@,
        g.wf(),
{
    let g = Graph { name: "empty graph".to_owned(), nodes: id_nodes(n as u64), edges: Vec::new() };
    proof {
        lemma_id_graph_wf(g, n as int);
    }
    g
}

/// Returns the graph with nodes `0..n` and every unordered pair `(i, j)`,
/// `i < j`, as an edge, in canonical order.
pub fn complete_graph(n: u32) -> (g: Graph)
    ensures
        g.nodes@ == id_seq(n as int),
        g.edges@ == complete_pairs(n),
        2 * g.edges@.len() == (n as int) * ((n as int) - 1),
        g.name@ == if n <= 1 {
            "empty graph"@
        } else {
            "complete graph"@
        },
        g.wf(),
{
    if n <= 1 {
        proof {
            assert((n as int) * ((n as int) - 1) == 0) by (nonlinear_arith)
                requires
                    n <= 1,
            ;
            assert(pairs_below(n, 0) =~= Seq::<(u32, u32)>::empty());
            if n == 1 {
                assert(complete_pairs(1) =~= Seq::<(u32, u32)>::empty());
            }
        }
        return empty_graph(n);
    }
    let nodes = id_nodes(n as u64);
    let mut edges: Vec<(u32, u32)> = Vec::new();
    let mut i: u32 = 0;
    while i < n
        invariant
            i <= n,
            edges@ == pairs_below(n, i as int),
        decreases n - i,
    {
        let mut j: u32 = i + 1;
        proof {
            assert(pairs_below(n, i as int) + row_pairs(i, n).take(0) =~= pairs_below(n, i as int));
        }
        while j < n
            invariant
                i < n,
                i + 1 <= j <= n,
                edges@ == pairs_below(n, i as int) + row_pairs(i, n).take(j - i - 1),
            decreases n - j,
        {
            edges.push((i, j));
            proof {
                assert(row_pairs(i, n)[j - i - 1] == (i, j));
                assert(pairs_below(n, i as int) + row_pairs(i, n).take(j - i) =~= (pairs_below(
                    n,
                    i as int,
                ) + row_pairs(i, n).take(j - i - 1)).push((i, j)));
            }
            j += 1;
        }
        proof {
            assert(row_pairs(i, n).take(n - i - 1) =~= row_pairs(i, n));
        }
        i += 1;
    }
    proof {
        lemma_pairs_below_len(n, n as int);
    }
    let g = Graph { name: "complete graph".to_owned(), nodes, edges };
    proof {
        lemma_pairs_below_props(n, n as int);
        lemma_id_graph_wf(g, n as int);
    }
    g
}

/// Returns the star graph: center `0` connected to each of `1..=n`.
pub fn star_graph(n: u32) -> (g: Graph)
    ensures
        n == 0 ==> g.nodes@ == id_seq(0) && g.edges@ == Seq::<(u32, u32)>::empty() && g.name@
            == "empty graph"@,
        n > 0 ==> g.nodes@ == id_seq((n as int) + 1) && g.edges@ == star_edges(n) && g.name@
            == "star graph"@,
        g.wf(),
{
    if n == 0 {
        return empty_graph(n);
    }
    let nodes = id_nodes(n as u64 + 1);
    let mut edges: Vec<(u32, u32)> = Vec::new();
    let mut k: u32 = 0;
    proof {
        assert(star_edges(0) =~= Seq::<(u32, u32)>::empty());
    }
    while k < n
        invariant
            k <= n,
            edges@ == star_edges(k),
        decreases n - k,
    {
        edges.push((0, k + 1));
        proof {
            assert(star_edges(k).push((0u32, (k + 1) as u32)) =~= star_edges((k + 1) as u32));
        }
        k += 1;
    }
    let g = Graph { name: "star graph".to_owned(), nodes, edges };
    proof {
        lemma_id_graph_wf(g, (n as int) + 1);
    }
    g
}

} // verus!
