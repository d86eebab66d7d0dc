//! Elementary cycles of the package dependency graph.
use vstd::prelude::*;
use graph_cycles::Cycles;

verus! {

/// Whether the edge list holds the edge `a -> b`.
pub open spec fn has_edge(edges: Seq<(u32, u32)>, a: int, b: int) -> bool {
    exists|k: int| 0 <= k < edges.len() && edges[k].0 as int == a && edges[k].1 as int == b
}

/// The graph of an edge list.
pub open spec fn edge_graph(edges: Seq<(u32, u32)>) -> spec_fn(int, int) -> bool {
    |a: int, b: int| has_edge(edges, a, b)
}

/// `c` is an elementary cycle of `g`: distinct nodes, each with an edge to the next,
/// and the last with an edge back to the first.
pub open spec fn is_cycle(g: spec_fn(int, int) -> bool, c: Seq<usize>) -> bool {
    &&& c.len() >= 1
    &&& forall|i: int, j: int| 0 <= i < j < c.len() ==> c[i] != c[j]
    &&& forall|i: int| 0 <= i < c.len() - 1 ==> #[trigger] g(c[i] as int, c[i + 1] as int)
    &&& g(c.last() as int, c[0] as int)
}

/// `c` turned to start at its node `k`.
pub open spec fn rotate(c: Seq<usize>, k: int) -> Seq<usize> {
    c.skip(k) + c.take(k)
}

/// `d` is `c` read from another starting node: the same cycle.
pub open spec fn rotation_of(d: Seq<usize>, c: Seq<usize>) -> bool {
    exists|k: int| 0 <= k < c.len() && d == rotate(c, k)
}

proof fn lemma_rotate_index(c: Seq<usize>, k: int, i: int)
    requires
        0 <= k < c.len(),
        0 <= i < c.len(),
    ensures
        rotate(c, k).len() == c.len(),
        rotate(c, k)[i] == if i < c.len() - k {
            c[i + k]
        } else {
            c[i + k - c.len()]
        },
{
}

/// A cycle read from another starting node is still a cycle.
pub proof fn lemma_rotate_cycle(g: spec_fn(int, int) -> bool, c: Seq<usize>, k: int)
    requires
        is_cycle(g, c),
        0 <= k < c.len(),
    ensures
        is_cycle(g, rotate(c, k)),
{
    let d = rotate(c, k);
    let n = c.len();
    assert forall|i: int, j: int| 0 <= i < j < d.len() implies d[i] != d[j] by {
        lemma_rotate_index(c, k, i);
        lemma_rotate_index(c, k, j);
    }
    assert forall|i: int| 0 <= i < d.len() - 1 implies #[trigger] g(d[i] as int, d[i + 1] as int) by {
        lemma_rotate_index(c, k, i);
        lemma_rotate_index(c, k, i + 1);
        if i + 1 < n - k {
            assert(g(c[i + k] as int, c[i + k + 1] as int));
        } else if i == n - k - 1 {
        } else {
            assert(g(c[i + k - n] as int, c[i + k - n + 1] as int));
        }
    }
    lemma_rotate_index(c, k, n - 1);
    lemma_rotate_index(c, k, 0);
    if k > 0 {
        assert(g(c[k - 1] as int, c[k] as int));
    }
}

/// Reading a cycle from another node can be undone.
pub proof fn lemma_rotation_symmetric(d: Seq<usize>, c: Seq<usize>)
    requires
        rotation_of(d, c),
    ensures
        rotation_of(c, d),
{
    let k = choose|k: int| 0 <= k < c.len() && d == rotate(c, k);
    let n = c.len();
    let m = if k == 0 { 0 } else { n - k };
    assert(c =~= rotate(d, m)) by {
        assert forall|i: int| 0 <= i < n implies c[i] == rotate(d, m)[i] by {
            lemma_rotate_index(d, m, i);
            if i < n - m {
                lemma_rotate_index(c, k, i + m);
            } else {
                lemma_rotate_index(c, k, i + m - n);
            }
        }
    }
}

/// Two readings in a row are one reading.
pub proof fn lemma_rotation_transitive(e: Seq<usize>, d: Seq<usize>, c: Seq<usize>)
    requires
        rotation_of(e, d),
        rotation_of(d, c),
    ensures
        rotation_of(e, c),
{
    let a = choose|a: int| 0 <= a < c.len() && d == rotate(c, a);
    let b = choose|b: int| 0 <= b < d.len() && e == rotate(d, b);
    let n = c.len();
    let m = if a + b < n { a + b } else { a + b - n };
    assert(e =~= rotate(c, m)) by {
        assert forall|i: int| 0 <= i < n implies e[i] == rotate(c, m)[i] by {
            lemma_rotate_index(c, m, i);
            lemma_rotate_index(d, b, i);
            if i < n - b {
                lemma_rotate_index(c, a, i + b);
            } else {
                lemma_rotate_index(c, a, i + b - n);
            }
        }
    }
}

/// Relies on `graph_cycles::Cycles::cycles` on a `petgraph::Graph` built with
/// `Graph::from_edges`: Johnson's algorithm reports every elementary cycle of the
/// graph, each as the list of its nodes from one of them. `from_edges` panics on a
/// node index of `u32::MAX` and on `u32::MAX` edges.
#[verifier::external_body]
fn all_cycles(edges: &Vec<(u32, u32)>) -> (r: Vec<Vec<usize>>)
    requires
        edges@.len() < u32::MAX,
        forall|k: int| 0 <= k < edges@.len() ==> (#[trigger] edges@[k]).0 < u32::MAX && edges@[k].1 < u32::MAX,
    ensures
        forall|c: Seq<usize>|
            is_cycle(edge_graph(edges@), c) ==> exists|i: int|
                0 <= i < r@.len() && rotation_of(c, #[trigger] r@[i]@),
{
    let g = petgraph::Graph::<(), ()>::from_edges(edges);
    g.cycles().into_iter().map(|c| c.into_iter().map(|n| n.index()).collect()).collect()
}

pub(crate) fn edge_exists(edges: &Vec<(u32, u32)>, a: usize, b: usize) -> (r: bool)
    ensures
        r == has_edge(edges@, a as int, b as int),
{
    let mut k: usize = 0;
    while k < edges.len()
        invariant
            k <= edges@.len(),
            forall|j: int| 0 <= j < k ==> !(edges@[j].0 as int == a && edges@[j].1 as int == b),
        decreases edges@.len() - k,
    {
        if edges[k].0 as usize == a && edges[k].1 as usize == b {
            return true;
        }
        k = k + 1;
    }
    false
}

fn check_cycle(edges: &Vec<(u32, u32)>, c: &Vec<usize>) -> (r: bool)
    ensures
        r == is_cycle(edge_graph(edges@), c@),
{
    let ghost g = edge_graph(edges@);
    let n = c.len();
    if n == 0 {
        return false;
    }
    let mut i: usize = 0;
    while i < n
        invariant
            n == c@.len(),
            i <= n,
            forall|x: int, y: int| 0 <= x < y < c@.len() && x < i ==> c@[x] != c@[y],
        decreases n - i,
    {
        let mut j: usize = i + 1;
        while j < n
            invariant
                n == c@.len(),
                i < n,
                i < j <= n,
                forall|x: int, y: int| 0 <= x < y < c@.len() && x < i ==> c@[x] != c@[y],
                forall|y: int| i < y < j ==> c@[i as int] != c@[y],
            decreases n - j,
        {
            if c[i] == c[j] {
                return false;
            }
            j = j + 1;
        }
        i = i + 1;
    }
    let mut i: usize = 0;
    while i + 1 < n
        invariant
            n == c@.len(),
            n >= 1,
            i < n,
            g == edge_graph(edges@),
            forall|x: int| 0 <= x < i ==> #[trigger] g(c@[x] as int, c@[x + 1] as int),
        decreases n - i,
    {
        let ok = edge_exists(edges, c[i], c[i + 1]);
        assert(g(c@[i as int] as int, c@[i + 1] as int) == ok);
        if !ok {
            return false;
        }
        i = i + 1;
    }
    let ok = edge_exists(edges, c[n - 1], c[0]);
    assert(g(c@[n - 1] as int, c@[0] as int) == ok);
    ok
}

fn check_rotation(d: &Vec<usize>, c: &Vec<usize>) -> (r: bool)
    ensures
        r == rotation_of(d@, c@),
{
    let n = c.len();
    if d.len() != n {
        return false;
    }
    let mut k: usize = 0;
    while k < n
        invariant
            n == c@.len() == d@.len(),
            k <= n,
            forall|m: int| 0 <= m < k ==> d@ != rotate(c@, m),
        decreases n - k,
    {
        let mut i: usize = 0;
        let mut same = true;
        while i < n && same
            invariant
                n == c@.len() == d@.len(),
                k < n,
                i <= n,
                same ==> forall|x: int| 0 <= x < i ==> d@[x] == rotate(c@, k as int)[x],
                !same ==> d@ != rotate(c@, k as int),
            decreases n - i,
        {
            proof {
                lemma_rotate_index(c@, k as int, i as int);
            }
            let e = if i < n - k { c[i + k] } else { c[i - (n - k)] };
            if d[i] != e {
                same = false;
            }
            i = i + 1;
        }
        if same {
            assert(d@ =~= rotate(c@, k as int));
            return true;
        }
        k = k + 1;
    }
    false
}

/// Every elementary cycle of the graph of `edges`, each once, read from some node.
pub fn elementary_cycles(edges: &Vec<(u32, u32)>) -> (r: Vec<Vec<usize>>)
    requires
        edges@.len() < u32::MAX,
        forall|k: int| 0 <= k < edges@.len() ==> (#[trigger] edges@[k]).0 < u32::MAX && edges@[k].1 < u32::MAX,
    ensures
        forall|i: int| 0 <= i < r@.len() ==> is_cycle(edge_graph(edges@), #[trigger] r@[i]@),
        forall|i: int, j: int|
            0 <= i < r@.len() && 0 <= j < r@.len() && i != j ==> !rotation_of(
                #[trigger] r@[i]@,
                #[trigger] r@[j]@,
            ),
        forall|c: Seq<usize>|
            is_cycle(edge_graph(edges@), c) ==> exists|i: int|
                0 <= i < r@.len() && rotation_of(c, #[trigger] r@[i]@),
{
    let ghost g = edge_graph(edges@);
    let found = all_cycles(edges);
    let mut r: Vec<Vec<usize>> = Vec::new();
    let mut i: usize = 0;
    while i < found.len()
        invariant
            g == edge_graph(edges@),
            i <= found@.len(),
            forall|a: int| 0 <= a < r@.len() ==> is_cycle(g, #[trigger] r@[a]@),
            forall|a: int, b: int|
                0 <= a < r@.len() && 0 <= b < r@.len() && a != b ==> !rotation_of(
                    #[trigger] r@[a]@,
                    #[trigger] r@[b]@,
                ),
            forall|a: int|
                0 <= a < i && is_cycle(g, #[trigger] found@[a]@) ==> exists|b: int|
                    0 <= b < r@.len() && rotation_of(found@[a]@, #[trigger] r@[b]@),
        decreases found@.len() - i,
    {
        if check_cycle(edges, &found[i]) {
            let mut j: usize = 0;
            let mut seen = false;
            while j < r.len() && !seen
                invariant
                    i < found@.len(),
                    j <= r@.len(),
                    forall|b: int| 0 <= b < j ==> !rotation_of(found@[i as int]@, #[trigger] r@[b]@),
                    seen ==> j < r@.len() && rotation_of(found@[i as int]@, r@[j as int]@),
                decreases r@.len() - j + (if seen { 0int } else { 1int }),
            {
                if check_rotation(&found[i], &r[j]) {
                    seen = true;
                } else {
                    j = j + 1;
                }
            }
            if !seen {
                let ghost x = found@[i as int]@;
                let ghost before = r@;
                r.push(found[i].clone());
                proof {
                    assert(r@[before.len() as int]@ == x);
                    assert forall|a: int, b: int|
                        0 <= a < r@.len() && 0 <= b < r@.len() && a != b implies !rotation_of(
                            #[trigger] r@[a]@,
                            #[trigger] r@[b]@,
                        ) by {
                        if a == before.len() {
                            assert(r@[b] == before[b]);
                        } else if b == before.len() {
                            assert(r@[a] == before[a]);
                            if rotation_of(r@[a]@, x) {
                                lemma_rotation_symmetric(r@[a]@, x);
                            }
                        } else {
                            assert(r@[a] == before[a] && r@[b] == before[b]);
                        }
                    }
                    assert(x == rotate(x, 0));
                    assert(rotation_of(x, r@[before.len() as int]@));
                    assert forall|a: int|
                        0 <= a < i + 1 && is_cycle(g, #[trigger] found@[a]@) implies exists|b: int|
                            0 <= b < r@.len() && rotation_of(found@[a]@, #[trigger] r@[b]@) by {
                        if a < i {
                            let b = choose|b: int| 0 <= b < before.len() && rotation_of(found@[a]@, #[trigger] before[b]@);
                            assert(r@[b] == before[b]);
                        }
                    }
                }
            }
        }
        i = i + 1;
    }
    proof {
        assert forall|c: Seq<usize>| is_cycle(g, c) implies exists|b: int|
            0 <= b < r@.len() && rotation_of(c, #[trigger] r@[b]@) by {
            let a = choose|a: int| 0 <= a < found@.len() && rotation_of(c, #[trigger] found@[a]@);
            lemma_rotation_symmetric(c, found@[a]@);
            let k = choose|k: int| 0 <= k < c.len() && found@[a]@ == rotate(c, k);
            lemma_rotate_cycle(g, c, k);
            let b = choose|b: int| 0 <= b < r@.len() && rotation_of(found@[a]@, #[trigger] r@[b]@);
            lemma_rotation_transitive(c, found@[a]@, r@[b]@);
        }
    }
    r
}

/// A graph whose nodes can be ranked so that every edge climbs has no cycle.
pub proof fn lemma_ranked_graph_has_no_cycle(
    g: spec_fn(int, int) -> bool,
    rank: spec_fn(int) -> int,
    c: Seq<usize>,
)
    requires
        forall|a: int, b: int| #[trigger] g(a, b) ==> rank(a) < rank(b),
    ensures
        !is_cycle(g, c),
{
    if is_cycle(g, c) {
        let n = c.len();
        assert forall|i: int| 0 <= i < n implies rank(c[0] as int) <= rank(#[trigger] c[i] as int) by {
            lemma_rank_climbs(g, rank, c, i);
        }
        assert(g(c.last() as int, c[0] as int));
        assert(rank(c[n - 1] as int) < rank(c[0] as int));
    }
}

proof fn lemma_rank_climbs(g: spec_fn(int, int) -> bool, rank: spec_fn(int) -> int, c: Seq<usize>, i: int)
    requires
        forall|a: int, b: int| #[trigger] g(a, b) ==> rank(a) < rank(b),
        is_cycle(g, c),
        0 <= i < c.len(),
    ensures
        rank(c[0] as int) <= rank(c[i] as int),
    decreases i,
{
    if i > 0 {
        lemma_rank_climbs(g, rank, c, i - 1);
        let j = i - 1;
        assert(g(c[j] as int, c[j + 1] as int));
    }
}

} // verus!
