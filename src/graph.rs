//! The dependency graph of a set of packages and the strategies that turn it
//! into a deployment order.
use crate::dependency::{occurrences, PackageDependency};
use crate::ordered::{
    counter_entries, counter_map_get_index, counter_map_index_of, counter_map_insert,
    counter_map_len, counter_map_new, counter_map_set_at, keys_unique,
};
use indexmap::IndexMap;
use vstd::prelude::*;

verus! {

/// How many times `v` occurs in `s`.
pub open spec fn count_in(s: Seq<usize>, v: usize) -> nat
    decreases s.len(),
{
    if s.len() == 0 {
        0
    } else {
        count_in(s.drop_last(), v) + if s.last() == v {
            1nat
        } else {
            0nat
        }
    }
}

/// The number of edges into `v` that leave one of the first `k` nodes not yet
/// marked in `done`.
pub open spec fn pending(adj: Seq<Seq<usize>>, done: Seq<bool>, v: usize, k: int) -> nat
    decreases k,
{
    if k <= 0 {
        0
    } else {
        pending(adj, done, v, k - 1) + if done[k - 1] {
            0nat
        } else {
            count_in(adj[k - 1], v)
        }
    }
}

/// The positions below `k` whose degree is zero, in order.
pub open spec fn zero_degree_positions(degrees: Seq<usize>, k: int) -> Seq<usize>
    decreases k,
{
    if k <= 0 {
        Seq::empty()
    } else if degrees[k - 1] == 0 {
        zero_degree_positions(degrees, k - 1).push((k - 1) as usize)
    } else {
        zero_degree_positions(degrees, k - 1)
    }
}

proof fn lemma_zero_degree_positions_len(degrees: Seq<usize>, k: int)
    ensures
        zero_degree_positions(degrees, k).len() <= if k < 0 { 0 } else { k },
    decreases k,
{
    if k > 0 {
        lemma_zero_degree_positions_len(degrees, k - 1);
    }
}

/// The positions below `k` whose degree is positive, in order.
pub open spec fn positive_degree_positions(degrees: Seq<usize>, k: int) -> Seq<usize>
    decreases k,
{
    if k <= 0 {
        Seq::empty()
    } else if degrees[k - 1] > 0 {
        positive_degree_positions(degrees, k - 1).push((k - 1) as usize)
    } else {
        positive_degree_positions(degrees, k - 1)
    }
}

/// The in-degree of each of the `n` nodes of `adj`.
pub open spec fn in_counts(adj: Seq<Seq<usize>>, n: int) -> Seq<usize> {
    Seq::new(n as nat, |v: int| pending(adj, none_done(n), v as usize, n) as usize)
}

/// Kahn's step for one placed node: its dependents from the `t`-th on each
/// lose one from their count, and each whose count reaches zero joins the
/// back of the order.
pub open spec fn release_dependents(succ: Seq<usize>, t: int, deg: Seq<usize>, order: Seq<usize>) -> (Seq<usize>, Seq<usize>)
    decreases succ.len() - t,
{
    if t < 0 || t >= succ.len() {
        (deg, order)
    } else {
        let w = succ[t];
        let d = (deg[w as int] - 1) as usize;
        release_dependents(
            succ,
            t + 1,
            deg.update(w as int, d),
            if d == 0 {
                order.push(w)
            } else {
                order
            },
        )
    }
}

/// Kahn's queue, drained from position `head` of `order`: each node in turn
/// releases its dependents, until no node is left to take.
pub open spec fn drain_queue(adj: Seq<Seq<usize>>, deg: Seq<usize>, order: Seq<usize>, head: int, n: int) -> (Seq<usize>, Seq<usize>)
    decreases n - head,
{
    if head < 0 || head >= order.len() || head >= n {
        (deg, order)
    } else {
        let next = release_dependents(adj[order[head] as int], 0, deg, order);
        drain_queue(adj, next.0, next.1, head + 1, n)
    }
}

/// Kahn's order of the nodes of `adj`: the nodes without incoming edges in
/// node order, then each node as its last incoming edge is released, first in
/// first out; then the nodes never released (on or behind a cycle), in node order.
pub open spec fn kahn_positions(adj: Seq<Seq<usize>>) -> Seq<usize> {
    let n = adj.len() as int;
    let deg = in_counts(adj, n);
    let drained = drain_queue(adj, deg, zero_degree_positions(deg, n), 0, n);
    drained.1 + positive_degree_positions(drained.0, n)
}

/// Kahn's order as names.
pub open spec fn kahn_order_of(names: Seq<Seq<char>>, adj: Seq<Seq<usize>>) -> Seq<Seq<char>> {
    kahn_positions(adj).map_values(|i: usize| names[i as int])
}

/// `n` flags, all clear.
pub open spec fn none_done(n: int) -> Seq<bool> {
    Seq::new(n as nat, |i: int| false)
}

/// The package named `importer` imports `dep`, and `dep` names a package of `pkgs`.
pub open spec fn imports_package(pkgs: Seq<PackageDependency>, importer: Seq<char>, dep: Seq<
    char,
>) -> bool {
    &&& exists|i: int| 0 <= i < pkgs.len() && pkgs[i].name@ == importer && #[trigger] pkgs[i].import_views().contains(dep)
    &&& exists|j: int| 0 <= j < pkgs.len() && #[trigger] pkgs[j].name@ == dep
}

/// The dependents of package `u` among the first `k` packages: each package
/// position, in order, once for each of its imports that names `u`.
pub open spec fn dependents_upto(pkgs: Seq<PackageDependency>, u: int, k: int) -> Seq<usize>
    decreases k,
{
    if k <= 0 {
        Seq::empty()
    } else {
        dependents_upto(pkgs, u, k - 1) + Seq::new(
            occurrences(pkgs[k - 1].import_views(), pkgs[u].name@),
            |i: int| (k - 1) as usize,
        )
    }
}

/// For each package, the positions of the packages that import it, once per import.
pub open spec fn package_dependents(pkgs: Seq<PackageDependency>) -> Seq<Seq<usize>> {
    Seq::new(pkgs.len(), |u: int| dependents_upto(pkgs, u, pkgs.len() as int))
}

/// The members of `ss` that are among `names`, in order.
pub open spec fn among(ss: Seq<Seq<char>>, names: Seq<Seq<char>>) -> Seq<Seq<char>>
    decreases ss.len(),
{
    if ss.len() == 0 {
        Seq::empty()
    } else if names.contains(ss.last()) {
        among(ss.drop_last(), names).push(ss.last())
    } else {
        among(ss.drop_last(), names)
    }
}

proof fn lemma_occurrences_among(ss: Seq<Seq<char>>, names: Seq<Seq<char>>, x: Seq<char>)
    requires
        names.contains(x),
    ensures
        occurrences(among(ss, names), x) == occurrences(ss, x),
    decreases ss.len(),
{
    if ss.len() > 0 {
        lemma_occurrences_among(ss.drop_last(), names, x);
        if names.contains(ss.last()) {
            lemma_occurrences_push(among(ss.drop_last(), names), ss.last(), x);
        }
        assert(ss =~= ss.drop_last().push(ss.last()));
        lemma_occurrences_push(ss.drop_last(), ss.last(), x);
    }
}

proof fn lemma_dependents_upto_among(pkgs: Seq<PackageDependency>, kept: Seq<PackageDependency>, u: int, k: int)
    requires
        pkgs.len() == kept.len(),
        0 <= u < pkgs.len(),
        k <= pkgs.len(),
        forall|i: int| 0 <= i < pkgs.len() ==> #[trigger] kept[i].name == pkgs[i].name,
        forall|i: int|
            0 <= i < pkgs.len() ==> #[trigger] kept[i].import_views() == among(
                pkgs[i].import_views(),
                package_names(pkgs),
            ),
    ensures
        dependents_upto(kept, u, k) == dependents_upto(pkgs, u, k),
    decreases k,
{
    if k > 0 {
        lemma_dependents_upto_among(pkgs, kept, u, k - 1);
        assert(package_names(pkgs)[u] == pkgs[u].name@);
        lemma_occurrences_among(pkgs[k - 1].import_views(), package_names(pkgs), pkgs[u].name@);
        assert(kept[u].name == pkgs[u].name);
    }
}

/// Imports that name no package of the input play no part: keeping only the
/// imports that name a package leaves every package's dependents, and so the
/// deployment order, as they are.
pub proof fn lemma_unknown_imports_ignored(pkgs: Seq<PackageDependency>, kept: Seq<PackageDependency>)
    requires
        pkgs.len() == kept.len(),
        forall|i: int| 0 <= i < pkgs.len() ==> #[trigger] kept[i].name == pkgs[i].name,
        forall|i: int|
            0 <= i < pkgs.len() ==> #[trigger] kept[i].import_views() == among(
                pkgs[i].import_views(),
                package_names(pkgs),
            ),
    ensures
        package_names(kept) == package_names(pkgs),
        package_dependents(kept) == package_dependents(pkgs),
{
    assert(package_names(kept) =~= package_names(pkgs));
    assert forall|u: int| 0 <= u < pkgs.len() implies #[trigger] package_dependents(kept)[u] == package_dependents(pkgs)[u] by {
        lemma_dependents_upto_among(pkgs, kept, u, pkgs.len() as int);
    }
    assert(package_dependents(kept) =~= package_dependents(pkgs));
}

/// The names of `pkgs`, in order.
pub open spec fn package_names(pkgs: Seq<PackageDependency>) -> Seq<Seq<char>> {
    pkgs.map_values(|p: PackageDependency| p.name@)
}

/// `order` names each of `names` exactly once and nothing else.
pub open spec fn lists_each_once(order: Seq<Seq<char>>, names: Seq<Seq<char>>) -> bool {
    &&& order.len() == names.len()
    &&& order.no_duplicates()
    &&& forall|i: int| 0 <= i < names.len() ==> #[trigger] order.contains(names[i])
}

pub proof fn lemma_count_push(s: Seq<usize>, x: usize, v: usize)
    ensures
        count_in(s.push(x), v) == count_in(s, v) + if x == v {
            1nat
        } else {
            0nat
        },
{
    assert(s.push(x).drop_last() =~= s);
}

pub proof fn lemma_count_take(s: Seq<usize>, t: int, v: usize)
    requires
        0 <= t < s.len(),
    ensures
        count_in(s.take(t + 1), v) == count_in(s.take(t), v) + if s[t] == v {
            1nat
        } else {
            0nat
        },
{
    assert(s.take(t + 1) =~= s.take(t).push(s[t]));
    lemma_count_push(s.take(t), s[t], v);
}

pub proof fn lemma_count_take_le(s: Seq<usize>, t: int, v: usize)
    requires
        0 <= t <= s.len(),
    ensures
        count_in(s.take(t), v) <= count_in(s, v),
    decreases s.len() - t,
{
    if t == s.len() {
        assert(s.take(t) =~= s);
    } else {
        lemma_count_take(s, t, v);
        lemma_count_take_le(s, t + 1, v);
    }
}

pub proof fn lemma_count_contains(s: Seq<usize>, v: usize)
    ensures
        count_in(s, v) > 0 <==> s.contains(v),
    decreases s.len(),
{
    if s.len() > 0 {
        lemma_count_contains(s.drop_last(), v);
        if s.drop_last().contains(v) {
            let i = choose|i: int| 0 <= i < s.drop_last().len() && s.drop_last()[i] == v;
            assert(s[i] == v);
        }
        if s.contains(v) && s.last() != v {
            let i = choose|i: int| 0 <= i < s.len() && s[i] == v;
            assert(s.drop_last()[i] == v);
        }
    }
}

pub proof fn lemma_occurrences_push(ss: Seq<Seq<char>>, x: Seq<char>, y: Seq<char>)
    ensures
        occurrences(ss.push(x), y) == occurrences(ss, y) + if x == y {
            1nat
        } else {
            0nat
        },
{
    assert(ss.push(x).drop_last() =~= ss);
}

pub proof fn lemma_occurrences_contains(ss: Seq<Seq<char>>, x: Seq<char>)
    ensures
        occurrences(ss, x) > 0 <==> ss.contains(x),
    decreases ss.len(),
{
    if ss.len() > 0 {
        lemma_occurrences_contains(ss.drop_last(), x);
        if ss.drop_last().contains(x) {
            let i = choose|i: int| 0 <= i < ss.drop_last().len() && ss.drop_last()[i] == x;
            assert(ss[i] == x);
        }
        if ss.contains(x) && ss.last() != x {
            let i = choose|i: int| 0 <= i < ss.len() && ss[i] == x;
            assert(ss.drop_last()[i] == x);
        }
    }
}

/// Appending `v` to the list of node `u` adds one edge into `v` from `u`.
pub proof fn lemma_pending_push(adj: Seq<Seq<usize>>, done: Seq<bool>, u: int, v: usize, w: usize, k: int)
    requires
        0 <= u < adj.len(),
        k <= adj.len(),
        k <= done.len(),
    ensures
        pending(adj.update(u, adj[u].push(v)), done, w, k) == pending(adj, done, w, k) + if u < k
            && !done[u] && v == w {
            1nat
        } else {
            0nat
        },
    decreases k,
{
    if k > 0 {
        lemma_pending_push(adj, done, u, v, w, k - 1);
        if k - 1 == u {
            lemma_count_push(adj[u], v, w);
        }
    }
}

/// Marking node `u` done removes its edges from the pending count.
pub proof fn lemma_pending_done(adj: Seq<Seq<usize>>, done: Seq<bool>, u: int, w: usize, k: int)
    requires
        0 <= u < done.len(),
        k <= adj.len(),
        k <= done.len(),
        !done[u],
    ensures
        pending(adj, done.update(u, true), w, k) + if u < k {
            count_in(adj[u], w)
        } else {
            0nat
        } == pending(adj, done, w, k),
    decreases k,
{
    if k > 0 {
        lemma_pending_done(adj, done, u, w, k - 1);
    }
}

/// With no pending edge into `w`, every node not done has no edge into `w`.
pub proof fn lemma_pending_zero(adj: Seq<Seq<usize>>, done: Seq<bool>, w: usize, k: int, u: int)
    requires
        pending(adj, done, w, k) == 0,
        0 <= u < k,
        k <= adj.len(),
        k <= done.len(),
        !done[u],
    ensures
        !adj[u].contains(w),
    decreases k,
{
    lemma_count_contains(adj[u], w);
    if u < k - 1 {
        lemma_pending_zero(adj, done, w, k - 1, u);
    }
}

/// With a pending edge into `w`, some node not done has an edge into `w`.
pub proof fn lemma_pending_positive(adj: Seq<Seq<usize>>, done: Seq<bool>, w: usize, k: int) -> (u: int)
    requires
        pending(adj, done, w, k) > 0,
        k <= adj.len(),
        k <= done.len(),
    ensures
        0 <= u < k,
        !done[u],
        adj[u].contains(w),
    decreases k,
{
    if k <= 0 {
        0
    } else if !done[k - 1] && count_in(adj[k - 1], w) > 0 {
        lemma_count_contains(adj[k - 1], w);
        k - 1
    } else {
        lemma_pending_positive(adj, done, w, k - 1)
    }
}

/// Distinct indices below `n` number at most `n`.
pub proof fn lemma_distinct_bounded(s: Seq<usize>, n: usize)
    requires
        s.no_duplicates(),
        forall|i: int| 0 <= i < s.len() ==> s[i] < n,
    ensures
        s.len() <= n,
{
    let si = s.map_values(|x: usize| x as int);
    assert(si.no_duplicates()) by {
        assert forall|i: int, j: int| 0 <= i < si.len() && 0 <= j < si.len() && i != j implies si[i] != si[j] by {
            assert(s[i] != s[j]);
        }
    }
    si.unique_seq_to_set();
    vstd::set_lib::lemma_int_range(0, n as int);
    assert(si.to_set().subset_of(vstd::set_lib::set_int_range(0, n as int)));
    vstd::set_lib::lemma_len_subset(si.to_set(), vstd::set_lib::set_int_range(0, n as int));
}

/// The dependency graph of a set of packages: an edge `u -> v` means that
/// package `v` imports package `u`.
pub struct DependencyGraph {
    /// Each package name with its in-degree, in first-seen order.
    in_degree: IndexMap<String, usize>,
    /// For each package position, the positions of the packages importing it.
    adj: Vec<Vec<usize>>,
}

impl DependencyGraph {
    /// The package names, in first-seen order.
    pub closed spec fn names(&self) -> Seq<Seq<char>> {
        counter_entries(self.in_degree).map_values(|e: (Seq<char>, usize)| e.0)
    }

    /// The in-degree of each package.
    pub closed spec fn degrees(&self) -> Seq<usize> {
        counter_entries(self.in_degree).map_values(|e: (Seq<char>, usize)| e.1)
    }

    /// For each package, the positions of its dependents (one per import).
    pub closed spec fn dependents(&self) -> Seq<Seq<usize>> {
        self.adj@.map_values(|a: Vec<usize>| a@)
    }

    /// The packages that require no package of the graph, in graph order.
    pub open spec fn sources(&self) -> Seq<Seq<char>> {
        zero_degree_positions(self.degrees(), self.names().len() as int).map_values(
            |i: usize| self.names()[i as int],
        )
    }

    /// Package `dep` is required by package `dependent`.
    pub open spec fn required_by(&self, dep: Seq<char>, dependent: Seq<char>) -> bool {
        exists|u: int, v: int|
            0 <= u < self.names().len() && 0 <= v < self.names().len() && self.names()[u] == dep
                && self.names()[v] == dependent && #[trigger] self.dependents()[u].contains(
                v as usize,
            )
    }

    /// Every package ranks above the packages it requires.
    pub open spec fn ranked_by(&self, rank: spec_fn(Seq<char>) -> nat) -> bool {
        forall|a: Seq<char>, b: Seq<char>| #[trigger] self.required_by(a, b) ==> rank(a) < rank(b)
    }

    /// The graph has no cycle: its packages can be ranked so that every
    /// package ranks above those it requires.
    pub open spec fn acyclic(&self) -> bool {
        exists|rank: spec_fn(Seq<char>) -> nat| #[trigger] self.ranked_by(rank)
    }

    /// Names are unique, edges stay inside the graph, and each in-degree counts
    /// the edges into its package.
    pub closed spec fn wf(&self) -> bool {
        let n = self.names().len();
        &&& keys_unique(counter_entries(self.in_degree))
        &&& self.adj@.len() == n
        &&& forall|u: int, t: int|
            0 <= u < n && 0 <= t < self.dependents()[u].len() ==> #[trigger] self.dependents()[u][t] < n
        &&& forall|v: int|
            0 <= v < n ==> #[trigger] self.degrees()[v] == pending(
                self.dependents(),
                none_done(n as int),
                v as usize,
                n as int,
            )
    }
}

/// Builds the dependency graph of `packages`: one node per package, in input
/// order, and an edge from `u` to `v` for each import of `v` that names `u`.
/// Imports naming no package of the input are left out.
pub fn build_dependency_graph(packages: &Vec<PackageDependency>) -> (g: DependencyGraph)
    requires
        package_names(packages@).no_duplicates(),
    ensures
        g.wf(),
        g.names() == package_names(packages@),
        g.dependents() == package_dependents(packages@),
        forall|u: int, v: int|
            0 <= u < packages@.len() && 0 <= v < packages@.len() ==> #[trigger] count_in(
                g.dependents()[u],
                v as usize,
            ) == occurrences(packages@[v].import_views(), packages@[u].name@),
        forall|v: int|
            0 <= v < packages@.len() ==> #[trigger] g.degrees()[v] == pending(
                g.dependents(),
                none_done(packages@.len() as int),
                v as usize,
                packages@.len() as int,
            ),
        forall|a: Seq<char>, b: Seq<char>|
            #[trigger] g.required_by(a, b) <==> imports_package(packages@, b, a),
{
    let n = packages.len();
    let mut in_degree = counter_map_new();
    let mut adj: Vec<Vec<usize>> = Vec::new();
    let mut i: usize = 0;
    while i < n
        invariant
            0 <= i <= n,
            n == packages@.len(),
            package_names(packages@).no_duplicates(),
            counter_entries(in_degree).len() == i,
            forall|k: int| 0 <= k < i ==> #[trigger] counter_entries(in_degree)[k] == (packages@[k].name@, 0usize),
            keys_unique(counter_entries(in_degree)),
            adj@.len() == i,
            forall|k: int| 0 <= k < i ==> (#[trigger] adj@[k])@ == Seq::<usize>::empty(),
        decreases n - i,
    {
        let name = packages[i].name.clone();
        assert forall|k: int| 0 <= k < counter_entries(in_degree).len() implies counter_entries(in_degree)[k].0 != name@ by {
            assert(package_names(packages@)[k] != package_names(packages@)[i as int]);
        }
        counter_map_insert(&mut in_degree, name, 0);
        adj.push(Vec::new());
        i += 1;
    }
    let ghost names = package_names(packages@);
    assert forall|u: int, w: int| 0 <= u < n && 0 <= w < n implies #[trigger] count_in(adj@[u]@, w as usize) == 0 by {
        assert(adj@[u]@ =~= Seq::<usize>::empty());
    }
    assert forall|w: int| 0 <= w < n implies #[trigger] counter_entries(in_degree)[w].1 == pending(
        adj@.map_values(|a: Vec<usize>| a@), none_done(n as int), w as usize, n as int) by {
        lemma_pending_empty(adj@.map_values(|a: Vec<usize>| a@), none_done(n as int), w as usize, n as int);
    }
    let mut v: usize = 0;
    while v < n
        invariant
            0 <= v <= n,
            n == packages@.len(),
            names == package_names(packages@),
            names.no_duplicates(),
            counter_entries(in_degree).len() == n,
            forall|k: int| 0 <= k < n ==> #[trigger] counter_entries(in_degree)[k].0 == names[k],
            keys_unique(counter_entries(in_degree)),
            adj@.len() == n,
            forall|u: int, t: int| 0 <= u < n && 0 <= t < adj@[u]@.len() ==> #[trigger] adj@[u]@[t] < n,
            forall|u: int, w: int|
                0 <= u < n && 0 <= w < n ==> #[trigger] count_in(adj@[u]@, w as usize) == if w < v {
                    occurrences(packages@[w].import_views(), names[u])
                } else {
                    0nat
                },
            forall|u: int| 0 <= u < n ==> (#[trigger] adj@[u])@ == dependents_upto(packages@, u, v as int),
            forall|w: int|
                0 <= w < n ==> #[trigger] counter_entries(in_degree)[w].1 == pending(
                    adj@.map_values(|a: Vec<usize>| a@),
                    none_done(n as int),
                    w as usize,
                    n as int,
                ),
        decreases n - v,
    {
        let imports = &packages[v].imports;
        let ghost views = packages@[v as int].import_views();
        let mut t: usize = 0;
        assert forall|u: int| 0 <= u < n implies occurrences(#[trigger] views.take(0), names[u]) == 0 by {
            assert(views.take(0) =~= Seq::<Seq<char>>::empty());
        }
        let ghost cur_adj = adj@.map_values(|a: Vec<usize>| a@);
        assert forall|u: int| 0 <= u < n implies count_in(#[trigger] cur_adj[u], v) == 0 by {
            assert(count_in(adj@[u]@, (v as int) as usize) == 0);
        }
        proof { lemma_pending_empty(cur_adj, none_done(n as int), v, n as int); }
        assert forall|u: int| 0 <= u < n implies (#[trigger] adj@[u])@ == dependents_upto(packages@, u, v as int)
            + Seq::new(occurrences(views.take(0), names[u]), |i: int| v) by {
            assert(dependents_upto(packages@, u, v as int) + Seq::new(0, |i: int| v) =~= dependents_upto(packages@, u, v as int));
        }
        while t < imports.len()
            invariant
                0 <= v < n,
                0 <= t <= imports@.len(),
                imports == &packages@[v as int].imports,
                views == packages@[v as int].import_views(),
                n == packages@.len(),
                names == package_names(packages@),
                names.no_duplicates(),
                counter_entries(in_degree).len() == n,
                forall|k: int| 0 <= k < n ==> #[trigger] counter_entries(in_degree)[k].0 == names[k],
                keys_unique(counter_entries(in_degree)),
                adj@.len() == n,
                forall|u: int, s: int| 0 <= u < n && 0 <= s < adj@[u]@.len() ==> #[trigger] adj@[u]@[s] < n,
                forall|u: int, w: int|
                    0 <= u < n && 0 <= w < n ==> #[trigger] count_in(adj@[u]@, w as usize) == if w < v {
                        occurrences(packages@[w].import_views(), names[u])
                    } else if w == v {
                        occurrences(views.take(t as int), names[u])
                    } else {
                        0nat
                    },
                forall|w: int|
                    0 <= w < n ==> #[trigger] counter_entries(in_degree)[w].1 == pending(
                        adj@.map_values(|a: Vec<usize>| a@),
                        none_done(n as int),
                        w as usize,
                        n as int,
                    ),
                counter_entries(in_degree)[v as int].1 <= t,
                forall|u: int| 0 <= u < n ==> (#[trigger] adj@[u])@ == dependents_upto(packages@, u, v as int)
                    + Seq::new(occurrences(views.take(t as int), names[u]), |i: int| v),
            decreases imports@.len() - t,
        {
            let ghost old_adj = adj@.map_values(|a: Vec<usize>| a@);
            let ghost old_entries = counter_entries(in_degree);
            assert(views.take(t + 1) =~= views.take(t as int).push(views[t as int]));
            assert forall|u: int| 0 <= u < n implies occurrences(#[trigger] views.take(t + 1), names[u])
                == occurrences(views.take(t as int), names[u]) + if views[t as int] == names[u] { 1nat } else { 0nat } by {
                lemma_occurrences_push(views.take(t as int), views[t as int], names[u]);
            }
            match counter_map_index_of(&in_degree, &imports[t]) {
                Some(u) => {
                    let cur = match counter_map_get_index(&in_degree, v) {
                        Some((_, d)) => *d,
                        None => 0,
                    };
                    counter_map_set_at(&mut in_degree, v, cur + 1);
                    adj[u].push(v);
                    assert(adj@.map_values(|a: Vec<usize>| a@) =~= old_adj.update(u as int, old_adj[u as int].push(v)));
                    assert forall|w: int| 0 <= w < n implies #[trigger] counter_entries(in_degree)[w].1 == pending(
                        adj@.map_values(|a: Vec<usize>| a@), none_done(n as int), w as usize, n as int) by {
                        lemma_pending_push(old_adj, none_done(n as int), u as int, v, w as usize, n as int);
                    }
                    assert forall|x: int, w: int| 0 <= x < n && 0 <= w < n implies #[trigger] count_in(adj@[x]@, w as usize) == if w < v {
                        occurrences(packages@[w].import_views(), names[x])
                    } else if w == v {
                        occurrences(views.take(t + 1), names[x])
                    } else {
                        0nat
                    } by {
                        if x == u {
                            lemma_count_push(old_adj[x], v, w as usize);
                        } else {
                            assert(names[x] != names[u as int]);
                        }
                    }
                    assert forall|x: int| 0 <= x < n implies (#[trigger] adj@[x])@ == dependents_upto(packages@, x, v as int)
                        + Seq::new(occurrences(views.take(t + 1), names[x]), |i: int| v) by {
                        if x == u {
                            let m = occurrences(views.take(t as int), names[x]);
                            assert(Seq::new(m, |i: int| v).push(v) =~= Seq::new(m + 1, |i: int| v));
                            assert((dependents_upto(packages@, x, v as int) + Seq::new(m, |i: int| v)).push(v)
                                =~= dependents_upto(packages@, x, v as int) + Seq::new(m + 1, |i: int| v));
                        } else {
                            assert(names[x] != names[u as int]);
                        }
                    }
                },
                None => {
                    assert forall|x: int| 0 <= x < n implies views[t as int] != #[trigger] names[x] by {
                        assert(counter_entries(in_degree)[x].0 == names[x]);
                    }
                },
            }
            t += 1;
        }
        assert(views.take(t as int) =~= views);
        assert forall|u: int| 0 <= u < n implies (#[trigger] adj@[u])@ == dependents_upto(packages@, u, v + 1) by {
            assert(packages@[v as int].import_views() == views);
            assert(names[u] == packages@[u].name@);
        }
        v += 1;
    }
    let g = DependencyGraph { in_degree, adj };
    assert forall|a: Seq<char>, b: Seq<char>| #[trigger] g.required_by(a, b) <==> imports_package(packages@, b, a) by {
        if g.required_by(a, b) {
            let (u, w) = choose|u: int, w: int|
                0 <= u < g.names().len() && 0 <= w < g.names().len() && g.names()[u] == a
                    && g.names()[w] == b && #[trigger] g.dependents()[u].contains(w as usize);
            lemma_count_contains(g.dependents()[u], w as usize);
            lemma_occurrences_contains(packages@[w].import_views(), a);
            assert(packages@[u].name@ == a);
            assert(packages@[w].import_views().contains(a));
        }
        if imports_package(packages@, b, a) {
            let i = choose|i: int| 0 <= i < packages@.len() && packages@[i].name@ == b && #[trigger] packages@[i].import_views().contains(a);
            let j = choose|j: int| 0 <= j < packages@.len() && #[trigger] packages@[j].name@ == a;
            lemma_occurrences_contains(packages@[i].import_views(), a);
            assert(names[j] == a);
            lemma_count_contains(g.dependents()[j], i as usize);
            assert(g.dependents()[j].contains(i as usize));
        }
    }
    assert(g.names() =~= package_names(packages@));
    assert(g.dependents() =~= package_dependents(packages@));
    g
}

/// No edge is pending while all lists are empty.
proof fn lemma_pending_empty(adj: Seq<Seq<usize>>, done: Seq<bool>, w: usize, k: int)
    requires
        k <= adj.len(),
        forall|u: int| 0 <= u < k ==> count_in(#[trigger] adj[u], w) == 0,
    ensures
        pending(adj, done, w, k) == 0,
    decreases k,
{
    if k > 0 {
        lemma_pending_empty(adj, done, w, k - 1);
    }
}

/// `order` puts every required package before the packages that require it.
pub open spec fn in_dependency_order(order: Seq<Seq<char>>, graph: DependencyGraph) -> bool {
    forall|p: int, q: int|
        0 <= p < order.len() && 0 <= q < order.len() && #[trigger] graph.required_by(order[p], order[q])
            ==> p < q
}

/// A way of turning a dependency graph into a deployment order.
pub trait ResolutionStrategy {
    /// The order the strategy gives a graph with these package names and,
    /// for each package, the positions of its dependents.
    spec fn ordering(&self, names: Seq<Seq<char>>, dependents: Seq<Seq<usize>>) -> Seq<Seq<char>>;

    /// The strategy's order of `graph`, which depends on the graph alone. It
    /// lists every package of `graph` once; when the graph has no cycle, each
    /// package comes after all the packages it requires.
    fn resolve(&self, graph: &DependencyGraph) -> (order: Vec<String>)
        requires
            graph.wf(),
        ensures
            order@.map_values(|s: String| s@) == self.ordering(graph.names(), graph.dependents()),
            lists_each_once(order@.map_values(|s: String| s@), graph.names()),
            graph.acyclic() ==> in_dependency_order(order@.map_values(|s: String| s@), *graph),
    ;
}

/// Kahn's topological sort: packages whose requirements are all placed are
/// placed in first-seen order; packages on a cycle come last, in graph order.
pub struct TopoSort;

/// Every node is done when none is left with a pending edge and the edges
/// climb a ranking.
proof fn lemma_ranked_all_done(adj: Seq<Seq<usize>>, done: Seq<bool>, n: int, rank: spec_fn(int) -> nat)
    requires
        adj.len() == n,
        done.len() == n,
        forall|v: int| 0 <= v < n && !done[v] ==> pending(adj, done, v as usize, n) > 0,
        forall|u: int, v: int| 0 <= u < n && 0 <= v < n && #[trigger] adj[u].contains(v as usize) ==> rank(u) < rank(v),
    ensures
        forall|v: int| 0 <= v < n ==> done[v],
{
    assert forall|v: int| 0 <= v < n implies done[v] by {
        if !done[v] {
            lemma_descend(adj, done, n, rank, v, rank(v) + 1);
        }
    }
}

/// From a node not done, a chain of `k` steps back along edges through nodes
/// not done reaches a node ranked at least `k` lower.
proof fn lemma_descend(adj: Seq<Seq<usize>>, done: Seq<bool>, n: int, rank: spec_fn(int) -> nat, v: int, k: nat) -> (w: int)
    requires
        adj.len() == n,
        done.len() == n,
        0 <= v < n,
        !done[v],
        forall|x: int| 0 <= x < n && !done[x] ==> pending(adj, done, x as usize, n) > 0,
        forall|u: int, x: int| 0 <= u < n && 0 <= x < n && #[trigger] adj[u].contains(x as usize) ==> rank(u) < rank(x),
    ensures
        0 <= w < n,
        !done[w],
        rank(w) + k <= rank(v),
    decreases k,
{
    if k == 0 {
        v
    } else {
        let w = lemma_descend(adj, done, n, rank, v, (k - 1) as nat);
        let u = lemma_pending_positive(adj, done, w as usize, n);
        assert(adj[u].contains((w as usize) as usize));
        u
    }
}

/// The positions of the nodes of `graph` in Kahn's order: every node once;
/// when the graph has no cycle, every edge points forward.
fn kahn_order(graph: &DependencyGraph) -> (order: Vec<usize>)
    requires
        graph.wf(),
    ensures
        order@.len() == graph.names().len(),
        order@.no_duplicates(),
        forall|p: int| 0 <= p < order@.len() ==> #[trigger] order@[p] < graph.names().len(),
        forall|v: int| 0 <= v < graph.names().len() ==> #[trigger] order@.contains(v as usize),
        order@.take(zero_degree_positions(graph.degrees(), graph.names().len() as int).len() as int)
            == zero_degree_positions(graph.degrees(), graph.names().len() as int),
        order@ == kahn_positions(graph.dependents()),
        graph.acyclic() ==> forall|p: int, q: int|
            0 <= p < order@.len() && 0 <= q < order@.len() && #[trigger] graph.dependents()[order@[p] as int].contains(#[trigger] order@[q])
                ==> p < q,
{
    let n = counter_map_len(&graph.in_degree);
    let ghost adj = graph.dependents();
    let ghost acyc = graph.acyclic();
    let mut deg: Vec<usize> = Vec::new();
    let mut order: Vec<usize> = Vec::new();
    let ghost mut pos: Seq<int> = Seq::new(n as nat, |i: int| -1);
    let ghost mut done: Seq<bool> = none_done(n as int);
    let mut i: usize = 0;
    while i < n
        invariant
            graph.wf(),
            n == graph.names().len(),
            adj == graph.dependents(),
            done == none_done(n as int),
            0 <= i <= n,
            deg@.len() == i,
            forall|v: int| 0 <= v < i ==> #[trigger] deg@[v] == graph.degrees()[v],
            pos.len() == n,
            order@.len() <= i,
            order@.no_duplicates(),
            forall|p: int| 0 <= p < order@.len() ==> #[trigger] order@[p] < i,
            forall|p: int| 0 <= p < order@.len() ==> #[trigger] pos[order@[p] as int] == p,
            forall|v: int| 0 <= v < n ==> -1 <= #[trigger] pos[v] < order@.len(),
            forall|v: int| 0 <= v < n && pos[v] >= 0 ==> #[trigger] order@[pos[v]] == v,
            forall|v: int| 0 <= v < n ==> (#[trigger] pos[v] >= 0 <==> (v < i && graph.degrees()[v] == 0)),
            order@ == zero_degree_positions(graph.degrees(), i as int),
        decreases n - i,
    {
        match counter_map_get_index(&graph.in_degree, i) {
            Some((_, d)) => {
                deg.push(*d);
                if *d == 0 {
                    proof {
                        pos = pos.update(i as int, order@.len() as int);
                    }
                    order.push(i);
                }
            },
            None => {},
        }
        i += 1;
    }
    let ghost sources = order@;
    proof {
        assert forall|v: int| 0 <= v < n implies #[trigger] deg@[v] == pending(adj, done, v as usize, n as int) by {
            assert(deg@[v] == graph.degrees()[v]);
        }
        assert forall|u: int, v: int|
            0 <= u < n && 0 <= v < n && pos[v] >= 0 && #[trigger] adj[u].contains(v as usize)
                implies 0 <= pos[u] < pos[v] by {
            assert(deg@[v] == graph.degrees()[v]);
            lemma_pending_zero(adj, done, v as usize, n as int, u);
        }
    }
    let ghost total = drain_queue(adj, graph.degrees(), sources, 0, n as int);
    proof {
        assert(deg@ =~= graph.degrees());
        assert(graph.degrees() =~= in_counts(adj, n as int));
    }
    let mut head: usize = 0;
    while head < order.len()
        invariant
            drain_queue(adj, deg@, order@, head as int, n as int) == total,
            total == drain_queue(adj, graph.degrees(), sources, 0, n as int),
            graph.wf(),
            n == graph.names().len(),
            adj == graph.dependents(),
            acyc == graph.acyclic(),
            deg@.len() == n,
            pos.len() == n,
            done.len() == n,
            head <= order@.len() <= n,
            sources.len() <= order@.len(),
            order@.take(sources.len() as int) == sources,
            order@.no_duplicates(),
            forall|p: int| 0 <= p < order@.len() ==> #[trigger] order@[p] < n,
            forall|p: int| 0 <= p < order@.len() ==> #[trigger] pos[order@[p] as int] == p,
            forall|v: int| 0 <= v < n ==> -1 <= #[trigger] pos[v] < order@.len(),
            forall|v: int| 0 <= v < n && pos[v] >= 0 ==> #[trigger] order@[pos[v]] == v,
            forall|v: int| 0 <= v < n ==> #[trigger] done[v] == (0 <= pos[v] < head),
            forall|v: int| 0 <= v < n ==> #[trigger] deg@[v] == pending(adj, done, v as usize, n as int),
            forall|v: int| 0 <= v < n ==> (#[trigger] deg@[v] == 0 <==> pos[v] >= 0),
            forall|u: int, v: int|
                0 <= u < n && 0 <= v < n && pos[v] >= 0 && #[trigger] adj[u].contains(v as usize)
                    ==> 0 <= pos[u] < pos[v],
        decreases n - head,
    {
        let u = order[head];
        let ghost done2 = done.update(u as int, true);
        assert forall|x: int| 0 <= x < n implies #[trigger] deg@[x] + count_in(adj[u as int].take(0), x as usize)
            == pending(adj, done2, x as usize, n as int) + count_in(adj[u as int], x as usize) by {
            assert(adj[u as int].take(0) =~= Seq::<usize>::empty());
            lemma_pending_done(adj, done, u as int, x as usize, n as int);
        }
        let succ = &graph.adj[u];
        let ghost deg_s = deg@;
        let ghost order_s = order@;
        let mut t: usize = 0;
        while t < succ.len()
            invariant
                release_dependents(adj[u as int], t as int, deg@, order@) == release_dependents(adj[u as int], 0, deg_s, order_s),
                graph.wf(),
                n == graph.names().len(),
                adj == graph.dependents(),
                acyc == graph.acyclic(),
                0 <= u < n,
                succ@ == adj[u as int],
                0 <= t <= succ@.len(),
                deg@.len() == n,
                pos.len() == n,
                done2.len() == n,
                head < order@.len() <= n,
                order@[head as int] == u,
                sources.len() <= order@.len(),
                order@.take(sources.len() as int) == sources,
                order@.no_duplicates(),
                forall|p: int| 0 <= p < order@.len() ==> #[trigger] order@[p] < n,
                forall|p: int| 0 <= p < order@.len() ==> #[trigger] pos[order@[p] as int] == p,
                forall|v: int| 0 <= v < n ==> -1 <= #[trigger] pos[v] < order@.len(),
                forall|v: int| 0 <= v < n && pos[v] >= 0 ==> #[trigger] order@[pos[v]] == v,
                forall|v: int| 0 <= v < n ==> #[trigger] done2[v] == (0 <= pos[v] < head + 1),
                forall|x: int| 0 <= x < n ==> #[trigger] deg@[x] + count_in(adj[u as int].take(t as int), x as usize)
                    == pending(adj, done2, x as usize, n as int) + count_in(adj[u as int], x as usize),
                forall|v: int| 0 <= v < n ==> (#[trigger] deg@[v] == 0 <==> pos[v] >= 0),
                forall|a: int, v: int|
                    0 <= a < n && 0 <= v < n && pos[v] >= 0 && #[trigger] adj[a].contains(v as usize)
                        ==> 0 <= pos[a] < pos[v],
            decreases succ@.len() - t,
        {
            let w = succ[t];
            proof {
                lemma_count_take(adj[u as int], t as int, w);
                lemma_count_take_le(adj[u as int], t + 1, w);
                assert(deg@[w as int] + count_in(adj[u as int].take(t as int), (w as int) as usize)
                    == pending(adj, done2, (w as int) as usize, n as int) + count_in(adj[u as int], (w as int) as usize));
                assert forall|x: int| 0 <= x < n implies #[trigger] count_in(adj[u as int].take(t + 1), x as usize)
                    == count_in(adj[u as int].take(t as int), x as usize) + if adj[u as int][t as int] == x as usize { 1nat } else { 0nat } by {
                    lemma_count_take(adj[u as int], t as int, x as usize);
                }
            }
            let dw = deg[w] - 1;
            deg.set(w, dw);
            if dw == 0 {
                proof {
                    let L = order@.len() as int;
                    lemma_count_take_le(adj[u as int], t + 1, w);
                    assert(pending(adj, done2, (w as int) as usize, n as int) == 0);
                    assert forall|a: int| 0 <= a < n && #[trigger] adj[a].contains(w) implies 0 <= pos[a] < L by {
                        if !done2[a] {
                            lemma_pending_zero(adj, done2, w, n as int, a);
                        }
                    }
                    pos = pos.update(w as int, L);
                }
                let ghost before_push = order@;
                order.push(w);
                proof {
                    lemma_distinct_bounded(order@, n);
                    assert(order@.take(sources.len() as int) =~= before_push.take(sources.len() as int));
                }
            }
            t += 1;
        }
        proof {
            assert(adj[u as int].take(t as int) =~= adj[u as int]);
            done = done2;
        }
        head += 1;
    }
    let ghost kahn_len = order@.len();
    let ghost kahn_prefix = order@;
    assert(total == (deg@, order@));
    proof {
        if acyc {
            let rank = choose|rank: spec_fn(Seq<char>) -> nat| #[trigger] graph.ranked_by(rank);
            let irank = |i: int| rank(graph.names()[i]);
            assert forall|a: int, v: int| 0 <= a < n && 0 <= v < n && #[trigger] adj[a].contains(v as usize) implies irank(a) < irank(v) by {
                assert(graph.required_by(graph.names()[a], graph.names()[v]));
            }
            assert forall|v: int| 0 <= v < n && !done[v] implies pending(adj, done, v as usize, n as int) > 0 by {
                assert(deg@[v] == pending(adj, done, v as usize, n as int));
            }
            lemma_ranked_all_done(adj, done, n as int, irank);
        }
    }
    let mut v: usize = 0;
    while v < n
        invariant
            graph.wf(),
            n == graph.names().len(),
            adj == graph.dependents(),
            acyc == graph.acyclic(),
            0 <= v <= n,
            deg@.len() == n,
            pos.len() == n,
            done.len() == n,
            kahn_len <= order@.len() <= n,
            sources.len() <= order@.len(),
            order@.take(sources.len() as int) == sources,
            order@.no_duplicates(),
            forall|p: int| 0 <= p < order@.len() ==> #[trigger] order@[p] < n,
            forall|p: int| 0 <= p < order@.len() ==> #[trigger] pos[order@[p] as int] == p,
            forall|x: int| 0 <= x < n ==> -1 <= #[trigger] pos[x] < order@.len(),
            forall|x: int| 0 <= x < n && pos[x] >= 0 ==> #[trigger] order@[pos[x]] == x,
            forall|x: int| 0 <= x < n ==> (#[trigger] pos[x] >= 0 <==> (x < v || deg@[x] == 0)),
            acyc ==> forall|x: int| 0 <= x < n ==> #[trigger] done[x],
            forall|x: int| 0 <= x < n ==> #[trigger] done[x] == (0 <= pos[x] < kahn_len),
            forall|x: int| 0 <= x < n ==> (#[trigger] deg@[x] == 0 <==> done[x]),
            acyc ==> order@.len() == kahn_len,
            order@ == kahn_prefix + positive_degree_positions(deg@, v as int),
            total == (deg@, kahn_prefix),
            acyc ==> forall|a: int, x: int|
                0 <= a < n && 0 <= x < n && pos[x] >= 0 && #[trigger] adj[a].contains(x as usize)
                    ==> 0 <= pos[a] < pos[x],
        decreases n - v,
    {
        assert(kahn_prefix + positive_degree_positions(deg@, v + 1) =~= if deg@[v as int] > 0 {
            (kahn_prefix + positive_degree_positions(deg@, v as int)).push(v)
        } else {
            kahn_prefix + positive_degree_positions(deg@, v as int)
        });
        if deg[v] > 0 {
            proof {
                pos = pos.update(v as int, order@.len() as int);
            }
            let ghost before_push = order@;
            order.push(v);
            proof {
                lemma_distinct_bounded(order@, n);
                assert(order@.take(sources.len() as int) =~= before_push.take(sources.len() as int));
            }
        }
        v += 1;
    }
    proof {
        let ps = Seq::new(n as nat, |x: int| pos[x] as usize);
        assert forall|i: int, j: int| 0 <= i < ps.len() && 0 <= j < ps.len() && i != j implies ps[i] != ps[j] by {
            assert(order@[pos[i]] == i);
            assert(order@[pos[j]] == j);
        }
        assert(ps.no_duplicates());
        lemma_distinct_bounded(ps, order.len());
        assert forall|x: int| 0 <= x < n implies #[trigger] order@.contains(x as usize) by {
            assert(order@[pos[x]] == x);
        }
        if acyc {
            assert forall|p: int, q: int|
                0 <= p < order@.len() && 0 <= q < order@.len() && #[trigger] adj[order@[p] as int].contains(#[trigger] order@[q])
                    implies p < q by {
                assert(pos[order@[q] as int] == q);
                assert(pos[order@[p] as int] == p);
                assert(adj[order@[p] as int].contains((order@[q] as int) as usize));
            }
        }
    }
    order
}

impl ResolutionStrategy for TopoSort {
    open spec fn ordering(&self, names: Seq<Seq<char>>, dependents: Seq<Seq<usize>>) -> Seq<Seq<char>> {
        kahn_order_of(names, dependents)
    }

    fn resolve(&self, graph: &DependencyGraph) -> (order: Vec<String>)
        ensures
            order@.map_values(|s: String| s@).take(graph.sources().len() as int) == graph.sources(),
    {
        self.sort(graph)
    }
}

impl TopoSort {
    /// Kahn's order of `graph` (see `kahn_positions`): every package once; the
    /// packages that require none come first, in graph order; when the graph
    /// has no cycle, each package comes after all the packages it requires.
    pub fn sort(&self, graph: &DependencyGraph) -> (order: Vec<String>)
        requires
            graph.wf(),
        ensures
            order@.map_values(|s: String| s@) == kahn_order_of(graph.names(), graph.dependents()),
            lists_each_once(order@.map_values(|s: String| s@), graph.names()),
            graph.acyclic() ==> in_dependency_order(order@.map_values(|s: String| s@), *graph),
            order@.map_values(|s: String| s@).take(graph.sources().len() as int) == graph.sources(),
    {
        let idx = kahn_order(graph);
        let ghost names = graph.names();
        let mut out: Vec<String> = Vec::new();
        let mut p: usize = 0;
        while p < idx.len()
            invariant
                graph.wf(),
                names == graph.names(),
                idx@.len() == names.len(),
                forall|k: int| 0 <= k < idx@.len() ==> #[trigger] idx@[k] < names.len(),
                0 <= p <= idx@.len(),
                out@.len() == p,
                forall|k: int| 0 <= k < p ==> (#[trigger] out@[k])@ == names[idx@[k] as int],
            decreases idx@.len() - p,
        {
            match counter_map_get_index(&graph.in_degree, idx[p]) {
                Some((name, _)) => out.push(name.clone()),
                None => {},
            }
            p += 1;
        }
        let ghost views = out@.map_values(|s: String| s@);
        proof {
            assert forall|i: int, j: int| 0 <= i < views.len() && 0 <= j < views.len() && i != j implies views[i] != views[j] by {
                assert(views[i] == names[idx@[i] as int]);
                assert(views[j] == names[idx@[j] as int]);
                assert(idx@[i] != idx@[j]);
                assert(counter_entries(graph.in_degree)[idx@[i] as int].0 != counter_entries(graph.in_degree)[idx@[j] as int].0);
            }
            assert forall|i: int| 0 <= i < names.len() implies #[trigger] views.contains(names[i]) by {
                assert(idx@.contains(i as usize));
                let k = choose|k: int| 0 <= k < idx@.len() && idx@[k] == i as usize;
                assert(views[k] == names[i]);
            }
            if graph.acyclic() {
                assert forall|a: int, b: int|
                    0 <= a < views.len() && 0 <= b < views.len() && #[trigger] graph.required_by(views[a], views[b])
                        implies a < b by {
                    let (u, v) = choose|u: int, v: int|
                        0 <= u < names.len() && 0 <= v < names.len() && names[u] == views[a]
                            && names[v] == views[b] && #[trigger] graph.dependents()[u].contains(v as usize);
                    assert(views[a] == names[idx@[a] as int]);
                    assert(views[b] == names[idx@[b] as int]);
                    if u != idx@[a] as int {
                        assert(counter_entries(graph.in_degree)[u].0 != counter_entries(graph.in_degree)[idx@[a] as int].0);
                    }
                    if v != idx@[b] as int {
                        assert(counter_entries(graph.in_degree)[v].0 != counter_entries(graph.in_degree)[idx@[b] as int].0);
                    }
                    assert(graph.dependents()[idx@[a] as int].contains(idx@[b]));
                }
            }
            assert(views =~= kahn_order_of(names, graph.dependents()));
            let z = zero_degree_positions(graph.degrees(), names.len() as int);
            lemma_zero_degree_positions_len(graph.degrees(), names.len() as int);
            assert(views.take(graph.sources().len() as int) =~= graph.sources()) by {
                assert forall|p: int| 0 <= p < z.len() implies views[p] == names[z[p] as int] by {
                    assert(idx@.take(z.len() as int)[p] == z[p]);
                }
            }
        }
        out
    }
}

} // verus!
