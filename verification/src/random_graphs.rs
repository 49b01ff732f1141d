use vstd::prelude::*;

use crate::decimal::{dec_digits, u32_to_decimal};
use crate::classic::{
    complete_graph, complete_pairs, empty_graph, lemma_pairs_below_props, lemma_star_degree,
    star_graph,
};
use crate::exception::NetworkRexError;
use crate::graph::{
    lemma_degree_absent, lemma_degree_concat, lemma_degree_positive, lemma_degree_push,
    lemma_id_graph_wf, lemma_id_seq_contains,
    canonical_pairs, distinct_pairs, degree_of, id_nodes, id_seq, strictly_ordered, Graph,
};
use crate::sampling::{rand_below, shuffle_ids};
use vstd::string::StringExecFns;

verus! {

/// An edge-inclusion probability, as the exact rational `num / den`.
/// Values at or below zero and at or above one are meaningful (they select
/// the degenerate branches of the Erdos-Renyi generator).
#[derive(Clone, Copy, Debug, PartialEq, Eq)]
pub struct EdgeProbability {
    pub num: u64,
    pub den: u64,
}

/// How many times `v` occurs in `s`.
pub open spec fn count_of(s: Seq<u32>, v: u32) -> nat {
    s.to_multiset().count(v)
}

/// Appending one identifier raises its own count by one and no other.
pub proof fn lemma_count_of_push(s: Seq<u32>, x: u32, v: u32)
    ensures
        count_of(s.push(x), v) == count_of(s, v) + if x == v {
            1int
        } else {
            0int
        },
{
    broadcast use vstd::multiset::group_multiset_axioms;

    vstd::seq_lib::to_multiset_build(s, x);
    if x == v {
        vstd::multiset::lemma_insert_increases_count_by_1(s.to_multiset(), x);
    } else {
        vstd::multiset::lemma_insert_other_elements_unchanged(s.to_multiset(), x, v);
    }
}

/// Counts add up across a concatenation.
pub proof fn lemma_count_of_concat(a: Seq<u32>, b: Seq<u32>, v: u32)
    ensures
        count_of(a + b, v) == count_of(a, v) + count_of(b, v),
{
    broadcast use vstd::multiset::group_multiset_axioms;

    vstd::seq_lib::lemma_multiset_commutative(a, b);
}

/// An identifier occurs in a sequence exactly when its count is positive.
pub proof fn lemma_count_of_contains(s: Seq<u32>, v: u32)
    ensures
        count_of(s, v) > 0 <==> s.contains(v),
{
    vstd::seq_lib::to_multiset_contains(s, v);
}

/// The empty sequence counts nothing.
pub proof fn lemma_count_of_empty(v: u32)
    ensures
        count_of(Seq::<u32>::empty(), v) == 0,
{
    broadcast use vstd::multiset::group_multiset_axioms;

    vstd::seq_lib::to_multiset_len(Seq::<u32>::empty());
    vstd::multiset::lemma_multiset_empty_len(Seq::<u32>::empty().to_multiset());
}

/// The unordered pair `{a, b}` with its smaller identifier first.
pub open spec fn canon_pair(a: u32, b: u32) -> (u32, u32) {
    if a <= b {
        (a, b)
    } else {
        (b, a)
    }
}

/// Whether a pairing attempt can still be completed: either no stubs are left
/// over, or two leftover stubs with distinct identifiers form an edge that is
/// not yet present.
pub open spec fn spec_suitable(edges: Seq<(u32, u32)>, leftover: Seq<u32>) -> bool {
    leftover.len() == 0 || exists|k1: int, k2: int|
        0 <= k1 < leftover.len() && 0 <= k2 < leftover.len() && leftover[k1] != leftover[k2]
            && !edges.contains(canon_pair(leftover[k1], leftover[k2]))
}

fn contains_pair(edges: &Vec<(u32, u32)>, p: (u32, u32)) -> (r: bool)
    ensures
        r == edges@.contains(p),
{
    let mut i: usize = 0;
    while i < edges.len()
        invariant
            i <= edges@.len(),
            forall|k: int| 0 <= k < i ==> edges@[k] != p,
        decreases edges@.len() - i,
    {
        let e = edges[i];
        if e.0 == p.0 && e.1 == p.1 {
            proof {
                assert(edges@[i as int] == p);
            }
            return true;
        }
        i += 1;
    }
    false
}

fn contains_id(ids: &Vec<u32>, x: u32) -> (r: bool)
    ensures
        r == ids@.contains(x),
{
    let mut i: usize = 0;
    while i < ids.len()
        invariant
            i <= ids@.len(),
            forall|k: int| 0 <= k < i ==> ids@[k] != x,
        decreases ids@.len() - i,
    {
        if ids[i] == x {
            proof {
                assert(ids@[i as int] == x);
            }
            return true;
        }
        i += 1;
    }
    false
}

/// Checks whether suitable edges remain for the current pairing attempt; if
/// not, the attempt has failed.
fn suitable(edges: &Vec<(u32, u32)>, leftover: &Vec<u32>) -> (r: bool)
    ensures
        r == spec_suitable(edges@, leftover@),
{
    if leftover.len() == 0 {
        return true;
    }
    let mut k1: usize = 0;
    while k1 < leftover.len()
        invariant
            k1 <= leftover@.len(),
            forall|a: int, b: int|
                #![trigger leftover@[a], leftover@[b]]
                0 <= a < k1 && 0 <= b < leftover@.len() ==> !(leftover@[a] != leftover@[b]
                    && !edges@.contains(canon_pair(leftover@[a], leftover@[b]))),
        decreases leftover@.len() - k1,
    {
        let mut k2: usize = 0;
        while k2 < leftover.len()
            invariant
                k1 < leftover@.len(),
                k2 <= leftover@.len(),
                forall|a: int, b: int|
                    #![trigger leftover@[a], leftover@[b]]
                    0 <= a < k1 && 0 <= b < leftover@.len() ==> !(leftover@[a] != leftover@[b]
                        && !edges@.contains(canon_pair(leftover@[a], leftover@[b]))),
                forall|b: int|
                    0 <= b < k2 ==> !(leftover@[k1 as int] != #[trigger] leftover@[b]
                        && !edges@.contains(canon_pair(leftover@[k1 as int], leftover@[b]))),
            decreases leftover@.len() - k2,
        {
            let s1 = leftover[k1];
            let s2 = leftover[k2];
            if s1 != s2 {
                let cp = if s1 <= s2 {
                    (s1, s2)
                } else {
                    (s2, s1)
                };
                if !contains_pair(edges, cp) {
                    proof {
                        assert(leftover@[k1 as int] != leftover@[k2 as int] && !edges@.contains(
                            canon_pair(leftover@[k1 as int], leftover@[k2 as int]),
                        ));
                    }
                    return true;
                }
            }
            k2 += 1;
        }
        k1 += 1;
    }
    false
}

/// Upper bound on restarted pairing attempts before the regular-graph
/// generator gives up with an error instead of retrying forever.
const PAIRING_ATTEMPTS: u64 = 1000;

/// Upper bound on refinement rounds within one pairing attempt.
const PAIRING_ROUNDS: u64 = 1000;

/// One attempt of the configuration model: shuffle the stub multiset, pair
/// stubs off two at a time, keep refining on the leftover stubs, and give up
/// (`None`) when the attempt becomes unsalvageable.
fn try_creation(n: u32, d: u32) -> (r: Option<Vec<(u32, u32)>>)
    requires
        0 < d < n,
        ((d as int) * (n as int)) % 2 == 0,
    ensures
        r matches Some(edges) ==> canonical_pairs(edges@, n) && distinct_pairs(edges@) && (
        forall|w: u32| w < n ==> degree_of(edges@, w) == d as nat) && 2 * edges@.len() == (
        d as int) * (n as int),
        d == 1 ==> r is Some,
{
    let ghost total: int = (d as int) * (n as int);
    let mut edges: Vec<(u32, u32)> = Vec::new();
    // The stub multiset: each node identifier repeated `d` times.
    let mut stubs: Vec<u32> = Vec::new();
    let mut v: u32 = 0;
    proof {
        assert forall|w: u32| count_of(Seq::<u32>::empty(), w) == 0 by {
            lemma_count_of_empty(w);
        }
    }
    while v < n
        invariant
            0 < d < n,
            v <= n,
            forall|k: int| 0 <= k < stubs@.len() ==> stubs@[k] < n,
            stubs@.len() == (v as int) * (d as int),
            forall|w: u32|
                w < n ==> count_of(stubs@, w) == if w < v {
                    d as nat
                } else {
                    0nat
                },
        decreases n - v,
    {
        let mut c: u32 = 0;
        while c < d
            invariant
                0 < d < n,
                v < n,
                c <= d,
                forall|k: int| 0 <= k < stubs@.len() ==> stubs@[k] < n,
                stubs@.len() == (v as int) * (d as int) + c,
                forall|w: u32|
                    w < n ==> count_of(stubs@, w) == if w < v {
                        d as nat
                    } else if w == v {
                        c as nat
                    } else {
                        0nat
                    },
            decreases d - c,
        {
            let ghost pre = stubs@;
            stubs.push(v);
            proof {
                assert forall|w: u32| w < n implies count_of(stubs@, w) == (if w < v {
                    d as nat
                } else if w == v {
                    (c + 1) as nat
                } else {
                    0nat
                }) by {
                    lemma_count_of_push(pre, v, w);
                }
            }
            c += 1;
        }
        proof {
            assert((v as int) * (d as int) + (d as int) == ((v as int) + 1) * (d as int))
                by (nonlinear_arith);
        }
        v += 1;
    }
    proof {
        assert forall|w: u32| w < n implies degree_of(edges@, w) == 0 by {
            lemma_degree_absent(edges@, w);
        }
        assert((n as int) * (d as int) == (d as int) * (n as int)) by (nonlinear_arith);
    }
    let mut rounds_left: u64 = PAIRING_ROUNDS;
    while stubs.len() > 0
        invariant
            0 < d < n,
            total == (d as int) * (n as int),
            total % 2 == 0,
            canonical_pairs(edges@, n),
            distinct_pairs(edges@),
            forall|k: int| 0 <= k < stubs@.len() ==> stubs@[k] < n,
            forall|w: u32| w < n ==> degree_of(edges@, w) + count_of(stubs@, w) == d as nat,
            2 * edges@.len() + stubs@.len() == total,
            stubs@.len() % 2 == 0,
            d == 1 ==> (stubs@.len() > 0 ==> rounds_left > 0),
        decreases rounds_left,
    {
        if rounds_left == 0 {
            return None;
        }
        rounds_left -= 1;
        let ghost pre_shuffle = stubs@;
        shuffle_ids(&mut stubs);
        proof {
            assert forall|k: int| 0 <= k < stubs@.len() implies stubs@[k] < n by {
                let x = stubs@[k];
                assert(stubs@.contains(x));
                lemma_count_of_contains(stubs@, x);
                lemma_count_of_contains(pre_shuffle, x);
                let j = choose|j: int| 0 <= j < pre_shuffle.len() && pre_shuffle[j] == x;
                assert(pre_shuffle[j] < n);
            }
        }
        let mut leftover: Vec<u32> = Vec::new();
        let mut idx: usize = 0;
        proof {
            assert forall|w: u32| count_of(Seq::<u32>::empty(), w) == 0 by {
                lemma_count_of_empty(w);
            }
            assert(stubs@.skip(0) =~= stubs@);
        }
        while idx < stubs.len()
            invariant
                0 < d < n,
                total == (d as int) * (n as int),
                idx % 2 == 0,
                idx <= stubs@.len(),
                stubs@.len() % 2 == 0,
                forall|k: int| 0 <= k < stubs@.len() ==> stubs@[k] < n,
                forall|k: int| 0 <= k < leftover@.len() ==> leftover@[k] < n,
                canonical_pairs(edges@, n),
                distinct_pairs(edges@),
                forall|w: u32|
                    w < n ==> degree_of(edges@, w) + count_of(leftover@, w) + count_of(
                        stubs@.skip(idx as int),
                        w,
                    ) == d as nat,
                2 * edges@.len() + leftover@.len() + (stubs@.len() - idx) == total,
                d == 1 ==> leftover@.len() == 0,
            decreases stubs@.len() - idx,
        {
            proof {
                assert(idx + 1 < stubs@.len());
            }
            let a = stubs[idx];
            let b = stubs[idx + 1];
            let (s1, s2) = if a <= b {
                (a, b)
            } else {
                (b, a)
            };
            let ghost rem = stubs@.skip(idx as int);
            let ghost pair_part = seq![a, b];
            proof {
                assert(rem =~= pair_part + stubs@.skip(idx as int + 2));
                assert(pair_part =~= Seq::<u32>::empty().push(a).push(b));
                assert forall|w: u32| w < n implies count_of(rem, w) == count_of(
                    stubs@.skip(idx as int + 2),
                    w,
                ) + (if a == w {
                    1int
                } else {
                    0int
                }) + (if b == w {
                    1int
                } else {
                    0int
                }) by {
                    lemma_count_of_concat(pair_part, stubs@.skip(idx as int + 2), w);
                    lemma_count_of_push(Seq::<u32>::empty().push(a), b, w);
                    lemma_count_of_push(Seq::<u32>::empty(), a, w);
                    lemma_count_of_empty(w);
                }
            }
            if s1 != s2 && !contains_pair(&edges, (s1, s2)) {
                let ghost pre_edges = edges@;
                edges.push((s1, s2));
                proof {
                    assert forall|w: u32| w < n implies degree_of(edges@, w) + count_of(
                        leftover@,
                        w,
                    ) + count_of(stubs@.skip(idx as int + 2), w) == d as nat by {
                        lemma_degree_push(pre_edges, (s1, s2), w);
                    }
                }
            } else {
                proof {
                    if d == 1 {
                        // With every identifier holding a single stub, the
                        // proposed pair has distinct endpoints and cannot
                        // already be an edge, so a pair never fails here.
                        assert(degree_of(edges@, a) + count_of(leftover@, a) + count_of(
                            stubs@.skip(idx as int),
                            a,
                        ) == d as nat);
                        assert(count_of(rem, a) <= 1);
                        assert(a != b);
                        assert(edges@.contains((s1, s2)));
                        lemma_degree_positive(edges@, (s1, s2), s1);
                        assert(degree_of(edges@, s1) + count_of(leftover@, s1) + count_of(
                            stubs@.skip(idx as int),
                            s1,
                        ) == d as nat);
                        assert(false);
                    }
                }
                let ghost pre_leftover = leftover@;
                leftover.push(a);
                leftover.push(b);
                proof {
                    assert forall|w: u32| w < n implies degree_of(edges@, w) + count_of(
                        leftover@,
                        w,
                    ) + count_of(stubs@.skip(idx as int + 2), w) == d as nat by {
                        lemma_count_of_push(pre_leftover, a, w);
                        lemma_count_of_push(pre_leftover.push(a), b, w);
                    }
                }
            }
            idx += 2;
        }
        proof {
            assert(stubs@.skip(stubs@.len() as int) =~= Seq::<u32>::empty());
            assert forall|w: u32| count_of(Seq::<u32>::empty(), w) == 0 by {
                lemma_count_of_empty(w);
            }
        }
        if !suitable(&edges, &leftover) {
            return None;
        }
        stubs = leftover;
    }
    proof {
        assert forall|w: u32| w < n implies degree_of(edges@, w) == d as nat by {
            lemma_count_of_empty(w);
            assert(stubs@ =~= Seq::<u32>::empty());
        }
    }
    Some(edges)
}

/// Produces a `d`-regular graph on nodes `0..n` by the configuration model:
/// random pairing of node stubs with refinement and restart, retried up to a
/// fixed attempt limit. Infeasible parameters are rejected up front.
pub fn random_regular_graph(d: u32, n: u32) -> (r: Result<Graph, NetworkRexError>)
    ensures
        ((d as int) * (n as int)) % 2 != 0 ==> (r matches Err(e) && e.message@
            == "n * d must be even"@),
        ((d as int) * (n as int)) % 2 == 0 && d >= n ==> (r matches Err(e) && e.message@
            == "the 0 <= d < n inequality must be satisfied"@),
        ((d as int) * (n as int)) % 2 == 0 && d == 0 && d < n ==> (r matches Ok(g) && g.nodes@
            == id_seq(n as int) && g.edges@ == Seq::<(u32, u32)>::empty() && g.name@
            == "empty graph"@),
        r matches Ok(g) ==> g.wf(),
        r matches Ok(g) ==> (d > 0 ==> ((d as int) * (n as int)) % 2 == 0 && d < n && g.nodes@
            == id_seq(n as int) && g.name@ == "random graph"@ && canonical_pairs(g.edges@, n)
            && distinct_pairs(g.edges@) && (forall|w: u32|
            w < n ==> degree_of(g.edges@, w) == d as nat) && 2 * g.edges@.len() == (d as int) * (
        n as int)),
        r matches Err(e) ==> (((d as int) * (n as int)) % 2 == 0 && d < n ==> e.message@
            == "failed to build a suitable edge set within the attempt limit"@),
        ((d as int) * (n as int)) % 2 == 0 && d < n && d <= 1 ==> r is Ok,
{
    proof {
        assert((d as int) * (n as int) <= (u32::MAX as int) * (u32::MAX as int))
            by (nonlinear_arith)
            requires
                d as int <= u32::MAX as int,
                n as int <= u32::MAX as int,
        ;
    }
    if ((d as u64) * (n as u64)) % 2 != 0 {
        return Err(NetworkRexError { message: "n * d must be even".to_owned() });
    }
    if !(d < n) {
        return Err(
            NetworkRexError { message: "the 0 <= d < n inequality must be satisfied".to_owned() },
        );
    }
    if d == 0 {
        return Ok(empty_graph(n));
    }
    // Even though a suitable edge set exists, one attempt is not guaranteed
    // to find it; retry with fresh attempts, up to the attempt limit.
    let mut attempts_left: u64 = PAIRING_ATTEMPTS;
    let mut found: Option<Vec<(u32, u32)>> = None;
    while found.is_none()
        invariant
            0 < d < n,
            ((d as int) * (n as int)) % 2 == 0,
            found matches Some(edges) ==> canonical_pairs(edges@, n) && distinct_pairs(edges@) && (
            forall|w: u32| w < n ==> degree_of(edges@, w) == d as nat) && 2 * edges@.len() == (
            d as int) * (n as int),
            d == 1 ==> (found is None ==> attempts_left == PAIRING_ATTEMPTS),
        decreases attempts_left,
    {
        if attempts_left == 0 {
            return Err(
                NetworkRexError {
                    message: "failed to build a suitable edge set within the attempt limit".to_owned(),
                },
            );
        }
        attempts_left -= 1;
        found = try_creation(n, d);
    }
    let edges = match found {
        Some(edges) => edges,
        None => {
            return Err(
                NetworkRexError {
                    message: "failed to build a suitable edge set within the attempt limit".to_owned(),
                },
            );
        },
    };
    let g = Graph { name: "random graph".to_owned(), nodes: id_nodes(n as u64), edges };
    proof {
        lemma_id_graph_wf(g, n as int);
    }
    Ok(g)
}

/// Upper bound on draws while sampling one batch of distinct attachment
/// targets before the attachment generator gives up with an error instead of
/// rejecting forever.
const ATTACHMENT_DRAWS: u64 = 100000;

/// No index holds the same identifier as another.
pub open spec fn distinct_ids(s: Seq<u32>) -> bool {
    forall|k1: int, k2: int| 0 <= k1 < k2 < s.len() ==> s[k1] != s[k2]
}

/// The identifier `x` repeated `count` times.
pub open spec fn repeat_id(x: u32, count: int) -> Seq<u32> {
    Seq::new(count as nat, |k: int| x)
}

/// The identifiers `1, 2, ..., count`.
pub open spec fn leaf_ids(count: u32) -> Seq<u32> {
    Seq::new(count as nat, |k: int| (k + 1) as u32)
}

/// The edges attaching `source` to each target in turn.
pub open spec fn attach_edges(source: u32, targets: Seq<u32>) -> Seq<(u32, u32)> {
    Seq::new(targets.len(), |k: int| (source, targets[k]))
}

/// Every edge is either a star-seed edge (center `0` to a leaf in `1..=m`) or
/// an attachment edge (a source above `m` to a strictly smaller target).
pub open spec fn seed_or_attach_edges(edges: Seq<(u32, u32)>, m: u32) -> bool {
    forall|k: int|
        0 <= k < edges.len() ==> (((#[trigger] edges[k]).0 == 0 && 1 <= edges[k].1 <= m) || (
        edges[k].0 > m && edges[k].1 < edges[k].0))
}

/// No index holds the reversal of the pair at another: together with
/// `distinct_pairs`, no unordered pair occurs twice in the edge list.
pub open spec fn no_reversed_pairs(s: Seq<(u32, u32)>) -> bool {
    forall|k1: int, k2: int|
        0 <= k1 < k2 < s.len() ==> !((#[trigger] s[k1]).0 == (#[trigger] s[k2]).1 && s[k1].1
            == s[k2].0)
}

/// A seed edge points up from the center and an attachment edge points down
/// from a node above the seed, so no edge can be another's reversal.
pub proof fn lemma_seed_attach_no_reversed(edges: Seq<(u32, u32)>, m: u32)
    requires
        seed_or_attach_edges(edges, m),
    ensures
        no_reversed_pairs(edges),
{
}

pub proof fn lemma_count_of_repeat(x: u32, count: int, w: u32)
    requires
        count >= 0,
    ensures
        count_of(repeat_id(x, count), w) == if w == x {
            count
        } else {
            0int
        },
    decreases count,
{
    if count == 0 {
        assert(repeat_id(x, 0) =~= Seq::<u32>::empty());
        lemma_count_of_empty(w);
    } else {
        lemma_count_of_repeat(x, count - 1, w);
        assert(repeat_id(x, count - 1).push(x) =~= repeat_id(x, count));
        lemma_count_of_push(repeat_id(x, count - 1), x, w);
    }
}

pub proof fn lemma_count_of_leaf_ids(count: u32, w: u32)
    ensures
        count_of(leaf_ids(count), w) == if 1 <= w <= count {
            1nat
        } else {
            0nat
        },
    decreases count,
{
    if count == 0 {
        assert(leaf_ids(0) =~= Seq::<u32>::empty());
        lemma_count_of_empty(w);
    } else {
        lemma_count_of_leaf_ids((count - 1) as u32, w);
        assert(leaf_ids((count - 1) as u32).push(count) =~= leaf_ids(count));
        lemma_count_of_push(leaf_ids((count - 1) as u32), count, w);
    }
}

/// Degrees contributed by one attachment batch: one edge per target for the
/// source, one per occurrence for every target.
pub proof fn lemma_attach_degree(source: u32, targets: Seq<u32>, w: u32)
    requires
        forall|k: int| 0 <= k < targets.len() ==> targets[k] != source,
    ensures
        w == source ==> degree_of(attach_edges(source, targets), w) == targets.len(),
        w != source ==> degree_of(attach_edges(source, targets), w) == count_of(targets, w),
    decreases targets.len(),
{
    if targets.len() == 0 {
        assert(attach_edges(source, targets) =~= Seq::<(u32, u32)>::empty());
        lemma_degree_absent(attach_edges(source, targets), w);
        assert(targets =~= Seq::<u32>::empty());
        lemma_count_of_empty(w);
    } else {
        let pre = targets.drop_last();
        lemma_attach_degree(source, pre, w);
        assert(attach_edges(source, pre).push((source, targets.last())) =~= attach_edges(
            source,
            targets,
        ));
        lemma_degree_push(attach_edges(source, pre), (source, targets.last()), w);
        assert(pre.push(targets.last()) =~= targets);
        lemma_count_of_push(pre, targets.last(), w);
    }
}

/// The attachment generator's validation message: it names the violated
/// constraint and the offending `m` and `n` values.
pub open spec fn attachment_error_text(n: u32, m: u32) -> Seq<char> {
    "the 1 <= m < n inequality must be satisfied, m = "@ + dec_digits(m as int) + ", n = "@
        + dec_digits(n as int)
}

/// Barabasi-Albert preferential attachment: grow from a star-graph seed of
/// `m + 1` nodes to `n` nodes, attaching each new node to `m` distinct
/// existing nodes drawn with probability proportional to their degree (by
/// rejection sampling over a repeated-node weight list).
pub fn barabasi_albert_graph(n: u32, m: u32) -> (r: Result<Graph, NetworkRexError>)
    ensures
        (m < 1 || m >= n) ==> (r matches Err(e) && e.message@ == attachment_error_text(n, m)),
        r matches Err(e) ==> (1 <= m && m < n ==> e.message@
            == "failed to sample distinct attachment targets within the draw limit"@),
        r matches Ok(g) ==> 1 <= m && m < n && g.nodes@ == id_seq(n as int) && g.name@
            == "star graph"@ && distinct_pairs(g.edges@) && (forall|k: int|
            0 <= k < g.edges@.len() ==> (#[trigger] g.edges@[k]).0 < n && g.edges@[k].1 < n
                && g.edges@[k].0 != g.edges@[k].1) && g.edges@.len() == m + (m as int) * ((n as int)
            - (m as int) - 1) && (forall|w: u32|
            m < w < n ==> degree_of(g.edges@, w) >= m as nat) && no_reversed_pairs(g.edges@)
            && g.wf(),
        1 <= m && m < n && (m == 1 || n == m + 1) ==> r is Ok,
{
    if m < 1 || m >= n {
        let mut message = "the 1 <= m < n inequality must be satisfied, m = ".to_owned();
        message.append(u32_to_decimal(m).as_str());
        message.append(", n = ");
        message.append(u32_to_decimal(n).as_str());
        proof {
            assert(message@ =~= attachment_error_text(n, m));
        }
        return Err(NetworkRexError { message });
    }
    // Seed: the star graph on m leaves, m + 1 nodes and m edges.
    let mut g = star_graph(m);
    proof {
        assert((m as int) * (((m as int) + 1) - (m as int) - 1) == 0) by (nonlinear_arith);
        assert(seed_or_attach_edges(g.edges@, m));
        assert forall|w: u32| w < m + 1 implies count_of(repeat_id(0u32, m as int) + leaf_ids(m), w)
            == degree_of(g.edges@, w) by {
            lemma_star_degree(m, w);
            lemma_count_of_concat(repeat_id(0u32, m as int), leaf_ids(m), w);
            lemma_count_of_repeat(0u32, m as int, w);
            lemma_count_of_leaf_ids(m, w);
        }
    }
    // The repeated-node weight list: each node once per unit of its current
    // degree, so the center m times and each leaf once.
    let mut repeated_nodes: Vec<u32> = Vec::new();
    let mut wk: u32 = 0;
    proof {
        assert(repeat_id(0u32, 0) =~= Seq::<u32>::empty());
    }
    while wk < m
        invariant
            wk <= m,
            repeated_nodes@ == repeat_id(0u32, wk as int),
        decreases m - wk,
    {
        repeated_nodes.push(0);
        proof {
            assert(repeat_id(0u32, wk as int).push(0u32) =~= repeat_id(0u32, wk as int + 1));
        }
        wk += 1;
    }
    let mut lk: u32 = 0;
    proof {
        assert(repeated_nodes@ + leaf_ids(0) =~= repeated_nodes@);
    }
    while lk < m
        invariant
            lk <= m,
            repeated_nodes@ == repeat_id(0u32, m as int) + leaf_ids(lk),
        decreases m - lk,
    {
        repeated_nodes.push(lk + 1);
        proof {
            assert((repeat_id(0u32, m as int) + leaf_ids(lk)).push((lk + 1) as u32) =~= repeat_id(
                0u32,
                m as int,
            ) + leaf_ids((lk + 1) as u32));
        }
        lk += 1;
    }
    let mut source: u32 = m + 1;
    while source < n
        invariant
            1 <= m < n,
            m + 1 <= source <= n,
            g.name@ == "star graph"@,
            g.nodes@ == id_seq(source as int),
            g.edges@.len() == m + (m as int) * ((source as int) - (m as int) - 1),
            distinct_pairs(g.edges@),
            forall|k: int|
                0 <= k < g.edges@.len() ==> (#[trigger] g.edges@[k]).0 < source && g.edges@[k].1
                    < source && g.edges@[k].0 != g.edges@[k].1,
            forall|w: u32| m < w < source ==> degree_of(g.edges@, w) >= m as nat,
            seed_or_attach_edges(g.edges@, m),
            forall|k: int| 0 <= k < repeated_nodes@.len() ==> repeated_nodes@[k] < source,
            forall|w: u32| w < source ==> count_of(repeated_nodes@, w) == degree_of(g.edges@, w),
            repeated_nodes@.len() == 2 * g.edges@.len(),
        decreases n - source,
    {
        // Draw m distinct targets from the weight list by rejection sampling.
        let mut targets: Vec<u32> = Vec::new();
        let mut draws_left: u64 = ATTACHMENT_DRAWS;
        while targets.len() < m as usize
            invariant
                1 <= m < n,
                m + 1 <= source,
                m + 1 < n,
                m == 1 ==> (targets@.len() == 0 ==> draws_left > 0),
                targets@.len() <= m,
                distinct_ids(targets@),
                forall|k: int| 0 <= k < targets@.len() ==> targets@[k] < source,
                repeated_nodes@.len() >= 2,
                forall|k: int| 0 <= k < repeated_nodes@.len() ==> repeated_nodes@[k] < source,
            decreases draws_left,
        {
            if draws_left == 0 {
                return Err(
                    NetworkRexError {
                        message: "failed to sample distinct attachment targets within the draw limit".to_owned(),
                    },
                );
            }
            draws_left -= 1;
            let idx = rand_below(repeated_nodes.len() as u64);
            let t = repeated_nodes[idx as usize];
            if !contains_id(&targets, t) {
                targets.push(t);
            }
        }
        // Register the new node and attach it to every target.
        g.add_node(source);
        proof {
            lemma_id_seq_contains(source as int, source);
            assert(id_seq(source as int).push(source) =~= id_seq(source as int + 1));
        }
        let ghost pre_edges = g.edges@;
        let ghost pre_weights = repeated_nodes@;
        let mut tj: usize = 0;
        proof {
            assert(pre_edges + attach_edges(source, targets@.take(0)) =~= pre_edges);
        }
        while tj < targets.len()
            invariant
                1 <= m < n,
                m + 1 <= source < n,
                tj <= targets@.len(),
                targets@.len() == m,
                distinct_ids(targets@),
                forall|k: int| 0 <= k < targets@.len() ==> targets@[k] < source,
                g.name@ == "star graph"@,
                g.nodes@ == id_seq(source as int + 1),
                g.edges@ == pre_edges + attach_edges(source, targets@.take(tj as int)),
            decreases targets@.len() - tj,
        {
            let t = targets[tj];
            g.add_edge(source, t);
            proof {
                lemma_id_seq_contains(source as int + 1, source);
                lemma_id_seq_contains(source as int + 1, t);
                assert(attach_edges(source, targets@.take(tj as int)).push((source, t))
                    =~= attach_edges(source, targets@.take(tj as int + 1)));
                assert((pre_edges + attach_edges(source, targets@.take(tj as int))).push(
                    (source, t),
                ) =~= pre_edges + attach_edges(source, targets@.take(tj as int + 1)));
            }
            tj += 1;
        }
        let ghost newpart = attach_edges(source, targets@);
        proof {
            assert(targets@.take(targets@.len() as int) =~= targets@);
            assert(g.edges@ == pre_edges + newpart);
            assert(m + (m as int) * ((source as int) - (m as int) - 1) + (m as int) == m + (
            m as int) * (((source as int) + 1) - (m as int) - 1)) by (nonlinear_arith);
            assert forall|k1: int, k2: int|
                0 <= k1 < k2 < g.edges@.len() implies g.edges@[k1] != g.edges@[k2] by {
                if k1 < pre_edges.len() && k2 >= pre_edges.len() {
                    assert(g.edges@[k1] == pre_edges[k1]);
                    assert(g.edges@[k2] == newpart[k2 - pre_edges.len()]);
                } else if k1 >= pre_edges.len() {
                    assert(g.edges@[k1] == newpart[k1 - pre_edges.len()]);
                    assert(g.edges@[k2] == newpart[k2 - pre_edges.len()]);
                }
            }
            assert forall|k: int| 0 <= k < g.edges@.len() implies (((#[trigger] g.edges@[k]).0
                == 0 && 1 <= g.edges@[k].1 <= m) || (g.edges@[k].0 > m && g.edges@[k].1
                < g.edges@[k].0)) by {
                if k >= pre_edges.len() {
                    assert(g.edges@[k] == newpart[k - pre_edges.len()]);
                }
            }
            assert forall|w: u32| w < source + 1 implies degree_of(g.edges@, w) == degree_of(
                pre_edges,
                w,
            ) + degree_of(newpart, w) by {
                lemma_degree_concat(pre_edges, newpart, w);
            }
            assert forall|w: u32| w < source + 1 implies count_of(
                pre_weights + targets@ + repeat_id(source, m as int),
                w,
            ) == degree_of(g.edges@, w) by {
                lemma_degree_concat(pre_edges, newpart, w);
                lemma_attach_degree(source, targets@, w);
                lemma_count_of_concat(pre_weights + targets@, repeat_id(source, m as int), w);
                lemma_count_of_concat(pre_weights, targets@, w);
                lemma_count_of_repeat(source, m as int, w);
                if w == source {
                    lemma_count_of_contains(pre_weights, w);
                    lemma_count_of_contains(targets@, w);
                    lemma_degree_absent(pre_edges, source);
                }
            }
            assert forall|w: u32| m < w < source + 1 implies degree_of(g.edges@, w)
                >= m as nat by {
                lemma_degree_concat(pre_edges, newpart, w);
                lemma_attach_degree(source, targets@, w);
                if w == source {
                    lemma_degree_absent(pre_edges, source);
                }
            }
        }
        // Reflect the new degrees in the weight list: each target once, the
        // source m times.
        let mut tk: usize = 0;
        proof {
            assert(pre_weights + targets@.take(0) =~= pre_weights);
        }
        while tk < targets.len()
            invariant
                tk <= targets@.len(),
                repeated_nodes@ == pre_weights + targets@.take(tk as int),
            decreases targets@.len() - tk,
        {
            let t = targets[tk];
            repeated_nodes.push(t);
            proof {
                assert((pre_weights + targets@.take(tk as int)).push(targets@[tk as int])
                    =~= pre_weights + targets@.take(tk as int + 1));
            }
            tk += 1;
        }
        proof {
            assert(targets@.take(targets@.len() as int) =~= targets@);
            assert(repeated_nodes@ + repeat_id(source, 0) =~= repeated_nodes@);
        }
        let mut sk: u32 = 0;
        while sk < m
            invariant
                sk <= m,
                repeated_nodes@ == pre_weights + targets@ + repeat_id(source, sk as int),
            decreases m - sk,
        {
            repeated_nodes.push(source);
            proof {
                assert((pre_weights + targets@ + repeat_id(source, sk as int)).push(source)
                    =~= pre_weights + targets@ + repeat_id(source, sk as int + 1));
            }
            sk += 1;
        }
        source += 1;
    }
    proof {
        lemma_id_graph_wf(g, n as int);
        lemma_seed_attach_no_reversed(g.edges@, m);
    }
    Ok(g)
}

/// Erdos-Renyi G(n, p): nodes `0..n`; each unordered pair `(i, j)`, `i < j`,
/// is kept independently with probability `p`. A probability at or below zero
/// yields the edgeless graph; one at or above one yields the deterministic
/// complete graph.
pub fn gnp_random_graph(n: u32, p: EdgeProbability) -> (g: Graph)
    requires
        p.den > 0,
    ensures
        g.nodes@ == id_seq(n as int),
        canonical_pairs(g.edges@, n),
        strictly_ordered(g.edges@),
        p.num == 0 ==> g.edges@ == Seq::<(u32, u32)>::empty() && g.name@ == "random graph"@,
        p.num >= p.den ==> g.edges@ == complete_pairs(n) && 2 * g.edges@.len() == (n as int) * ((
        n as int) - 1) && g.name@ == (if n <= 1 {
            "empty graph"@
        } else {
            "complete graph"@
        }),
        0 < p.num < p.den ==> g.name@ == "random graph"@,
        g.wf(),
{
    let nodes = id_nodes(n as u64);
    if p.num == 0 {
        let g = Graph { name: "random graph".to_owned(), nodes, edges: Vec::new() };
        proof {
            lemma_id_graph_wf(g, n as int);
        }
        return g;
    }
    if p.num >= p.den {
        proof {
            lemma_pairs_below_props(n, n as int);
        }
        return complete_graph(n);
    }
    let mut edges: Vec<(u32, u32)> = Vec::new();
    let mut i: u32 = 0;
    while i < n
        invariant
            p.den > 0,
            i <= n,
            canonical_pairs(edges@, n),
            strictly_ordered(edges@),
            forall|k: int| 0 <= k < edges@.len() ==> (#[trigger] edges@[k]).0 < i,
        decreases n - i,
    {
        let mut j: u32 = i + 1;
        while j < n
            invariant
                p.den > 0,
                i < n,
                i + 1 <= j <= n,
                canonical_pairs(edges@, n),
                strictly_ordered(edges@),
                forall|k: int|
                    0 <= k < edges@.len() ==> (#[trigger] edges@[k]).0 < i || (edges@[k].0 == i
                        && edges@[k].1 < j),
            decreases n - j,
        {
            let draw = rand_below(p.den);
            if draw < p.num {
                edges.push((i, j));
            }
            j += 1;
        }
        i += 1;
    }
    let g = Graph { name: "random graph".to_owned(), nodes, edges };
    proof {
        lemma_id_graph_wf(g, n as int);
    }
    g
}

} // verus!
