use vstd::prelude::*;

verus! {

/// There is an edge between distinct nodes `i` and `j` of the pattern `g`.
pub open spec fn edge(g: Seq<Seq<bool>>, i: int, j: int) -> bool {
    i != j && g[i][j]
}

/// `p` is a walk through valid nodes of `g` along edges.
pub open spec fn is_walk(g: Seq<Seq<bool>>, p: Seq<int>) -> bool {
    &&& p.len() >= 1
    &&& forall|k: int| 0 <= k < p.len() ==> 0 <= #[trigger] p[k] < g.len()
    &&& forall|k: int| 0 <= k < p.len() - 1 ==> edge(g, #[trigger] p[k], p[k + 1])
}

/// Some walk of `g` leads from `i` to `j`.
pub open spec fn connected(g: Seq<Seq<bool>>, i: int, j: int) -> bool {
    exists|p: Seq<int>| #[trigger] is_walk(g, p) && p[0] == i && p.last() == j
}

/// `g` is a square, symmetric pattern.
pub open spec fn symmetric(g: Seq<Seq<bool>>) -> bool {
    &&& forall|i: int| 0 <= i < g.len() ==> (#[trigger] g[i]).len() == g.len()
    &&& forall|i: int, j: int| 0 <= i < g.len() && 0 <= j < g.len() ==> g[i][j] == g[j][i]
}

/// Node `i` is the lowest index of its cluster.
pub open spec fn is_root(g: Seq<Seq<bool>>, i: int) -> bool {
    forall|j: int| 0 <= j < i ==> !connected(g, j, i)
}

/// The number of cluster roots among the nodes below `m`.
pub open spec fn roots_below(g: Seq<Seq<bool>>, m: int) -> nat
    decreases m,
{
    if m <= 0 {
        0
    } else {
        roots_below(g, m - 1) + if is_root(g, m - 1) {
            1nat
        } else {
            0nat
        }
    }
}

/// `labels` is the cluster labelling of `g`: two nodes share a label exactly
/// when they are connected, and clusters are numbered from zero in the order
/// of their lowest node.
pub open spec fn is_cluster_labelling(g: Seq<Seq<bool>>, labels: Seq<usize>) -> bool {
    &&& labels.len() == g.len()
    &&& forall|i: int| 0 <= i < g.len() ==> (#[trigger] labels[i]) < roots_below(g, g.len() as int)
    &&& forall|i: int, j: int|
        0 <= i < g.len() && 0 <= j < g.len() ==> (#[trigger] labels[i] == #[trigger] labels[j]
            <==> connected(g, i, j))
    &&& forall|i: int| 0 <= i < g.len() && is_root(g, i) ==> #[trigger] labels[i] == roots_below(g, i)
}

/// How many of the first `m` entries of `labels` are still unassigned.
spec fn unassigned_count(labels: Seq<usize>, m: int) -> nat
    decreases m,
{
    if m <= 0 {
        0
    } else {
        unassigned_count(labels, m - 1) + if labels[m - 1] == usize::MAX {
            1nat
        } else {
            0nat
        }
    }
}

proof fn lemma_unassigned_prefix(labels: Seq<usize>, m: int, i: int, v: usize)
    requires
        0 <= m <= i < labels.len(),
    ensures
        unassigned_count(labels.update(i, v), m) == unassigned_count(labels, m),
    decreases m,
{
    if m > 0 {
        lemma_unassigned_prefix(labels, m - 1, i, v);
    }
}

proof fn lemma_unassigned_assign(labels: Seq<usize>, m: int, i: int, v: usize)
    requires
        0 <= i < m <= labels.len(),
        labels[i] == usize::MAX,
        v != usize::MAX,
    ensures
        unassigned_count(labels.update(i, v), m) + 1 == unassigned_count(labels, m),
    decreases m,
{
    if i == m - 1 {
        lemma_unassigned_prefix(labels, m - 1, i, v);
    } else {
        lemma_unassigned_assign(labels, m - 1, i, v);
    }
}

proof fn lemma_connected_refl(g: Seq<Seq<bool>>, i: int)
    requires
        0 <= i < g.len(),
    ensures
        connected(g, i, i),
{
    let p = seq![i];
    assert(is_walk(g, p));
}

proof fn lemma_connected_step(g: Seq<Seq<bool>>, i: int, j: int, k: int)
    requires
        connected(g, i, j),
        edge(g, j, k),
        0 <= k < g.len(),
    ensures
        connected(g, i, k),
{
    let p = choose|p: Seq<int>| #[trigger] is_walk(g, p) && p[0] == i && p.last() == j;
    let q = p.push(k);
    assert forall|x: int| 0 <= x < q.len() - 1 implies edge(g, #[trigger] q[x], q[x + 1]) by {
        if x < p.len() - 1 {
            assert(q[x] == p[x] && q[x + 1] == p[x + 1]);
        }
    }
    assert(is_walk(g, q));
}

proof fn lemma_connected_symm(g: Seq<Seq<bool>>, i: int, j: int)
    requires
        symmetric(g),
        connected(g, i, j),
    ensures
        connected(g, j, i),
{
    let p = choose|p: Seq<int>| #[trigger] is_walk(g, p) && p[0] == i && p.last() == j;
    let q = Seq::new(p.len(), |x: int| p[p.len() - 1 - x]);
    assert forall|x: int| 0 <= x < q.len() - 1 implies edge(g, #[trigger] q[x], q[x + 1]) by {
        let y = p.len() - 2 - x;
        assert(edge(g, p[y], p[y + 1]));
    }
    assert forall|x: int| 0 <= x < q.len() implies 0 <= #[trigger] q[x] < g.len() by {
        assert(0 <= p[p.len() - 1 - x] < g.len());
    }
    assert(is_walk(g, q));
}

proof fn lemma_connected_trans(g: Seq<Seq<bool>>, i: int, j: int, k: int)
    requires
        connected(g, i, j),
        connected(g, j, k),
    ensures
        connected(g, i, k),
{
    let p = choose|p: Seq<int>| #[trigger] is_walk(g, p) && p[0] == i && p.last() == j;
    let r = choose|r: Seq<int>| #[trigger] is_walk(g, r) && r[0] == j && r.last() == k;
    let q = p + r.drop_first();
    assert forall|x: int| 0 <= x < q.len() implies 0 <= #[trigger] q[x] < g.len() by {
        if x < p.len() {
            assert(q[x] == p[x]);
        } else {
            assert(q[x] == r[x - p.len() + 1]);
        }
    }
    assert forall|x: int| 0 <= x < q.len() - 1 implies edge(g, #[trigger] q[x], q[x + 1]) by {
        if x < p.len() - 1 {
            assert(q[x] == p[x] && q[x + 1] == p[x + 1]);
        } else if x == p.len() - 1 {
            assert(q[x] == r[0] && q[x + 1] == r[1]);
        } else {
            let y = x - p.len() + 1;
            assert(q[x] == r[y] && q[x + 1] == r[y + 1]);
        }
    }
    assert(is_walk(g, q));
}

/// A label that no edge leaves spreads along every walk.
proof fn lemma_label_spreads(g: Seq<Seq<bool>>, labels: Seq<usize>, c: usize, i: int, j: int)
    requires
        labels.len() == g.len(),
        forall|a: int, b: int|
            0 <= a < g.len() && 0 <= b < g.len() && labels[a] == c && #[trigger] edge(g, a, b)
                ==> labels[b] == c,
        connected(g, i, j),
        labels[i] == c,
    ensures
        labels[j] == c,
{
    let p = choose|p: Seq<int>| #[trigger] is_walk(g, p) && p[0] == i && p.last() == j;
    lemma_walk_keeps_label(g, labels, c, p, p.len() - 1);
}

proof fn lemma_walk_keeps_label(g: Seq<Seq<bool>>, labels: Seq<usize>, c: usize, p: Seq<int>, k: int)
    requires
        labels.len() == g.len(),
        forall|a: int, b: int|
            0 <= a < g.len() && 0 <= b < g.len() && labels[a] == c && #[trigger] edge(g, a, b)
                ==> labels[b] == c,
        is_walk(g, p),
        labels[p[0]] == c,
        0 <= k < p.len(),
    ensures
        labels[p[k]] == c,
    decreases k,
{
    if k > 0 {
        lemma_walk_keeps_label(g, labels, c, p, k - 1);
        assert(edge(g, p[k - 1], p[k]));
        assert(0 <= p[k - 1] < g.len() && 0 <= p[k] < g.len());
    }
}

proof fn lemma_roots_bounded(g: Seq<Seq<bool>>, m: int)
    requires
        m >= 0,
    ensures
        roots_below(g, m) <= m,
    decreases m,
{
    if m > 0 {
        lemma_roots_bounded(g, m - 1);
    }
}

/// The last cluster below `m` starts at some root.
proof fn lemma_last_root(g: Seq<Seq<bool>>, m: int)
    requires
        roots_below(g, m) > 0,
    ensures
        exists|i: int| 0 <= i < m && is_root(g, i) && #[trigger] roots_below(g, i) + 1 == roots_below(g, m),
    decreases m,
{
    if !is_root(g, m - 1) {
        lemma_last_root(g, m - 1);
        let i = choose|i: int| 0 <= i < m - 1 && is_root(g, i) && #[trigger] roots_below(g, i) + 1 == roots_below(g, m - 1);
        assert(roots_below(g, i) + 1 == roots_below(g, m));
    } else {
        assert(roots_below(g, m - 1) + 1 == roots_below(g, m));
    }
}

/// Every node of a cluster labelling carries a label below the number of
/// clusters, that number is at most the number of nodes, and two nodes that
/// no walk of positive cells joins lie in different clusters.
pub proof fn lemma_labelling_separates(g: Seq<Seq<bool>>, labels: Seq<usize>, i: int, j: int)
    requires
        is_cluster_labelling(g, labels),
        0 <= i < g.len(),
        0 <= j < g.len(),
        !connected(g, i, j),
    ensures
        labels[i] < roots_below(g, g.len() as int),
        roots_below(g, g.len() as int) <= g.len(),
        labels[i] != labels[j],
{
    lemma_roots_bounded(g, g.len() as int);
}

/// The support of a coherence matrix: which off-diagonal cells are positive.
///
/// Its view is the square, symmetric pattern of rows.
pub struct SupportGraph {
    rows: Vec<Vec<bool>>,
}

impl View for SupportGraph {
    type V = Seq<Seq<bool>>;

    closed spec fn view(&self) -> Seq<Seq<bool>> {
        Seq::new(self.rows@.len(), |i: int| self.rows@[i]@)
    }
}

impl SupportGraph {
    #[verifier::type_invariant]
    spec fn square_and_symmetric(&self) -> bool {
        symmetric(self@)
    }

    /// The pattern given by `rows`, when it is square and symmetric.
    pub fn from_rows(rows: Vec<Vec<bool>>) -> (r: Option<SupportGraph>)
        ensures
            r is Some <==> symmetric(Seq::new(rows@.len(), |i: int| rows@[i]@)),
            r matches Some(g) ==> g@ == Seq::new(rows@.len(), |i: int| rows@[i]@),
            r matches Some(g) ==> symmetric(g@),
    {
        let ghost pat = Seq::new(rows@.len(), |i: int| rows@[i]@);
        let n = rows.len();
        let mut i: usize = 0;
        while i < n
            invariant
                n == rows@.len(),
                pat == Seq::new(rows@.len(), |i: int| rows@[i]@),
                i <= n,
                forall|a: int| 0 <= a < i ==> (#[trigger] pat[a]).len() == n,
            decreases n - i,
        {
            if rows[i].len() != n {
                assert(pat[i as int].len() != pat.len());
                return None;
            }
            i = i + 1;
        }
        let mut a: usize = 0;
        while a < n
            invariant
                n == rows@.len(),
                pat == Seq::new(rows@.len(), |i: int| rows@[i]@),
                a <= n,
                forall|x: int| 0 <= x < n ==> (#[trigger] pat[x]).len() == n,
                forall|x: int, y: int| 0 <= x < a && 0 <= y < n ==> pat[x][y] == pat[y][x],
            decreases n - a,
        {
            let mut b: usize = 0;
            while b < n
                invariant
                    n == rows@.len(),
                    pat == Seq::new(rows@.len(), |i: int| rows@[i]@),
                    a < n,
                    b <= n,
                    forall|x: int| 0 <= x < n ==> (#[trigger] pat[x]).len() == n,
                    forall|x: int, y: int| 0 <= x < a && 0 <= y < n ==> pat[x][y] == pat[y][x],
                    forall|y: int| 0 <= y < b ==> pat[a as int][y] == pat[y][a as int],
                decreases n - b,
            {
                assert(pat[a as int].len() == n && pat[b as int].len() == n);
                if rows[a][b] != rows[b][a] {
                    assert(pat[a as int][b as int] != pat[b as int][a as int]);
                    return None;
                }
                b = b + 1;
            }
            a = a + 1;
        }
        let g = SupportGraph { rows };
        assert(g@ =~= pat);
        Some(g)
    }

    /// Labels every node with its cluster: nodes share a label exactly when
    /// a walk of positive cells joins them, and clusters are numbered from
    /// zero in the order of their lowest node.
    pub fn find_clusters(&self) -> (labels: Vec<usize>)
        ensures
            is_cluster_labelling(self@, labels@),
    {
        proof {
            use_type_invariant(self);
        }
        let ghost g = self@;
        let n = self.rows.len();
        let mut labels: Vec<usize> = Vec::new();
        let mut k: usize = 0;
        while k < n
            invariant
                k <= n,
                labels@.len() == k,
                forall|x: int| 0 <= x < k ==> labels@[x] == usize::MAX,
            decreases n - k,
        {
            labels.push(usize::MAX);
            k = k + 1;
        }
        let mut current: usize = 0;
        let ghost mut rep: Seq<int> = Seq::empty();
        let mut start: usize = 0;
        while start < n
            invariant
                g == self@,
                symmetric(g),
                n == g.len(),
                labels@.len() == n,
                start <= n,
                current <= start,
                current == roots_below(g, start as int),
                forall|i: int| 0 <= i < n ==> labels@[i] == usize::MAX || labels@[i] < current,
                forall|i: int| 0 <= i < start ==> labels@[i] != usize::MAX,
                forall|a: int, b: int|
                    0 <= a < n && 0 <= b < n && labels@[a] < current && #[trigger] edge(g, a, b)
                        ==> labels@[b] == labels@[a],
                rep.len() == current,
                forall|c: int|
                    0 <= c < current ==> 0 <= #[trigger] rep[c] < start && labels@[rep[c]] == c
                        && is_root(g, rep[c]) && roots_below(g, rep[c]) == c,
                forall|i: int|
                    0 <= i < n && #[trigger] labels@[i] < current ==> connected(g, rep[labels@[i] as int], i),
            decreases n - start,
        {
            if labels[start] != usize::MAX {
                proof {
                    assert(labels@[start as int] < current);
                    assert(!is_root(g, start as int));
                }
            } else {
                proof {
                    assert forall|j: int| 0 <= j < start implies !connected(g, j, start as int) by {
                        if connected(g, j, start as int) {
                            lemma_label_spreads(g, labels@, labels@[j], j, start as int);
                        }
                    }
                }
                labels.set(start, current);
                proof {
                    lemma_connected_refl(g, start as int);
                }
                let mut stack: Vec<usize> = Vec::new();
                stack.push(start);
                proof {
                    assert(stack@[0] == start);
                    assert forall|a: int| 0 <= a < n && labels@[a] == current implies a == start by {}
                }
                while stack.len() > 0
                    invariant
                        g == self@,
                        symmetric(g),
                        n == g.len(),
                        labels@.len() == n,
                        start < n,
                        current <= start,
                        current == roots_below(g, start as int),
                        is_root(g, start as int),
                        labels@[start as int] == current,
                        forall|i: int| 0 <= i < n ==> labels@[i] == usize::MAX || labels@[i] <= current,
                        forall|i: int| 0 <= i < start ==> labels@[i] != usize::MAX,
                        forall|a: int, b: int|
                            0 <= a < n && 0 <= b < n && labels@[a] < current && #[trigger] edge(g, a, b)
                                ==> labels@[b] == labels@[a],
                        forall|k: int|
                            0 <= k < stack@.len() ==> 0 <= #[trigger] stack@[k] < n && labels@[stack@[k] as int]
                                == current,
                        forall|a: int, b: int|
                            0 <= a < n && 0 <= b < n && labels@[a] == current && !stack@.contains(a as usize)
                                && #[trigger] edge(g, a, b) ==> labels@[b] == current,
                        forall|i: int| 0 <= i < n && #[trigger] labels@[i] == current ==> connected(g, start as int, i),
                        rep.len() == current,
                        forall|c: int|
                            0 <= c < current ==> 0 <= #[trigger] rep[c] < start && labels@[rep[c]] == c
                                && is_root(g, rep[c]) && roots_below(g, rep[c]) == c,
                        forall|i: int|
                            0 <= i < n && #[trigger] labels@[i] < current ==> connected(g, rep[labels@[i] as int], i),
                    decreases 2 * unassigned_count(labels@, n as int) + stack@.len(),
                {
                    let ghost measure = 2 * unassigned_count(labels@, n as int) + stack@.len();
                    let ghost before = stack@;
                    let node = stack.pop().unwrap();
                    proof {
                        assert(before == stack@.push(node));
                        assert(labels@[node as int] == current);
                    }
                    let mut nb: usize = 0;
                    while nb < n
                        invariant
                            g == self@,
                            symmetric(g),
                            n == g.len(),
                            labels@.len() == n,
                            start < n,
                            node < n,
                            before == stack@.push(node) || nb > 0,
                            labels@[node as int] == current,
                            labels@[start as int] == current,
                            is_root(g, start as int),
                            current <= start,
                            current == roots_below(g, start as int),
                            nb <= n,
                            2 * unassigned_count(labels@, n as int) + stack@.len() < measure,
                            forall|i: int| 0 <= i < n ==> labels@[i] == usize::MAX || labels@[i] <= current,
                            forall|i: int| 0 <= i < start ==> labels@[i] != usize::MAX,
                            forall|a: int, b: int|
                                0 <= a < n && 0 <= b < n && labels@[a] < current && #[trigger] edge(g, a, b)
                                    ==> labels@[b] == labels@[a],
                            forall|k: int|
                                0 <= k < stack@.len() ==> 0 <= #[trigger] stack@[k] < n && labels@[stack@[k] as int]
                                    == current,
                            forall|a: int, b: int|
                                0 <= a < n && 0 <= b < n && labels@[a] == current && a != node
                                    && !stack@.contains(a as usize) && #[trigger] edge(g, a, b) ==> labels@[b]
                                    == current,
                            forall|b: int| 0 <= b < nb && #[trigger] edge(g, node as int, b) ==> labels@[b] == current,
                            forall|i: int| 0 <= i < n && #[trigger] labels@[i] == current ==> connected(g, start as int, i),
                            rep.len() == current,
                            forall|c: int|
                                0 <= c < current ==> 0 <= #[trigger] rep[c] < start && labels@[rep[c]] == c
                                    && is_root(g, rep[c]) && roots_below(g, rep[c]) == c,
                            forall|i: int|
                                0 <= i < n && #[trigger] labels@[i] < current ==> connected(g, rep[labels@[i] as int], i),
                        decreases n - nb,
                    {
                        proof {
                            assert(g[node as int].len() == n);
                        }
                        if labels[nb] == usize::MAX && self.rows[node][nb] {
                            proof {
                                assert(edge(g, node as int, nb as int));
                                lemma_connected_step(g, start as int, node as int, nb as int);
                                lemma_unassigned_assign(labels@, n as int, nb as int, current);
                            }
                            let ghost old_stack = stack@;
                            let ghost old_labels = labels@;
                            labels.set(nb, current);
                            stack.push(nb);
                            proof {
                                assert forall|x: usize| old_stack.contains(x) implies stack@.contains(x) by {
                                    let w = choose|w: int| 0 <= w < old_stack.len() && old_stack[w] == x;
                                    assert(stack@[w] == x);
                                }
                                assert forall|a: int, b: int|
                                    0 <= a < n && 0 <= b < n && labels@[a] == current && a != node
                                        && !stack@.contains(a as usize) && #[trigger] edge(g, a, b) implies labels@[b]
                                        == current by {
                                    assert(stack@[stack@.len() - 1] == nb);
                                    assert(a != nb);
                                    assert(!old_stack.contains(a as usize));
                                    assert(old_labels[a] == current);
                                }
                            }
                        } else {
                            proof {
                                if edge(g, node as int, nb as int) && labels@[nb as int] < current {
                                    assert(edge(g, nb as int, node as int));
                                }
                            }
                        }
                        nb = nb + 1;
                    }
                }
                proof {
                    rep = rep.push(start as int);
                }
                current = current + 1;
            }
            start = start + 1;
        }
        proof {
            assert forall|i: int, j: int| 0 <= i < n && 0 <= j < n implies (#[trigger] labels@[i]
                == #[trigger] labels@[j] <==> connected(g, i, j)) by {
                let c = labels@[i] as int;
                assert(labels@[i] < current);
                assert(labels@[j] < current);
                if labels@[i] == labels@[j] {
                    lemma_connected_symm(g, rep[c], i);
                    lemma_connected_trans(g, i, rep[c], j);
                }
                if connected(g, i, j) {
                    lemma_label_spreads(g, labels@, labels@[i], i, j);
                }
            }
            assert forall|i: int| 0 <= i < n && is_root(g, i) implies #[trigger] labels@[i] == roots_below(g, i) by {
                let c = labels@[i] as int;
                let r = rep[c];
                assert(labels@[i] < current);
                if r < i {
                    assert(!connected(g, r, i));
                } else if i < r {
                    lemma_connected_symm(g, r, i);
                    assert(!connected(g, i, r));
                }
            }
        }
        labels
    }

    /// The number of clusters: one more than the highest label, or zero for
    /// an empty pattern.
    pub fn num_clusters(&self) -> (r: usize)
        ensures
            r == roots_below(self@, self@.len() as int),
            r <= self@.len(),
    {
        let labels = self.find_clusters();
        let ghost g = self@;
        proof {
            lemma_roots_bounded(g, g.len() as int);
        }
        if labels.len() == 0 {
            return 0;
        }
        let mut highest: usize = labels[0];
        let mut i: usize = 1;
        while i < labels.len()
            invariant
                is_cluster_labelling(g, labels@),
                1 <= i <= labels@.len(),
                forall|j: int| 0 <= j < i ==> labels@[j] <= highest,
                exists|j: int| 0 <= j < labels@.len() && labels@[j] == highest,
            decreases labels@.len() - i,
        {
            if labels[i] > highest {
                highest = labels[i];
            }
            i = i + 1;
        }
        proof {
            let w = choose|j: int| 0 <= j < labels@.len() && labels@[j] == highest;
            assert(labels@[w] < roots_below(g, g.len() as int));
            lemma_last_root(g, g.len() as int);
            let t = choose|t: int| 0 <= t < g.len() && is_root(g, t) && #[trigger] roots_below(g, t) + 1 == roots_below(g, g.len() as int);
            assert(labels@[t] == roots_below(g, t));
        }
        highest + 1
    }

    /// The number of nodes.
    pub fn size(&self) -> (r: usize)
        ensures
            r == self@.len(),
    {
        self.rows.len()
    }
}

} // verus!
