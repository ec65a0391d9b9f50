//! Ordering the nodes of a dependency graph so that every node comes after
//! the nodes it depends on.

use vstd::prelude::*;
use vstd::set_lib::{lemma_int_range, lemma_len_subset, lemma_subset_equality, set_int_range};

verus! {

/// The graph as the specifications see it: row `i` lists the nodes that
/// node `i` depends on.
pub open spec fn rows(g: &Vec<Vec<usize>>) -> Seq<Seq<usize>> {
    Seq::new(g@.len(), |i: int| g@[i]@)
}

/// Every row names nodes of the graph, and names none twice.
pub open spec fn well_formed(g: Seq<Seq<usize>>) -> bool {
    &&& forall|i: int, k: int|
        0 <= i < g.len() && 0 <= k < g[i].len() ==> (#[trigger] g[i][k]) < g.len()
    &&& forall|i: int| 0 <= i < g.len() ==> (#[trigger] g[i]).no_duplicates()
}

/// Node `i` depends on node `j`.
pub open spec fn depends(g: Seq<Seq<usize>>, i: int, j: int) -> bool {
    0 <= i < g.len() && 0 <= j < g.len() && g[i].contains(j as usize)
}

/// `path` leads from a node back to itself along dependencies.
pub open spec fn is_cycle(g: Seq<Seq<usize>>, path: Seq<int>) -> bool {
    &&& path.len() >= 2
    &&& path.first() == path.last()
    &&& forall|t: int| 0 <= t < path.len() - 1 ==> depends(g, #[trigger] path[t], path[t + 1])
}

/// Some node depends on itself, directly or through others.
pub open spec fn has_cycle(g: Seq<Seq<usize>>) -> bool {
    exists|path: Seq<int>| is_cycle(g, path)
}

/// Node `x` stands somewhere in `order`.
pub open spec fn holds(order: Seq<usize>, x: int) -> bool {
    exists|k: int| 0 <= k < order.len() && #[trigger] order[k] as int == x
}

/// Where node `x` stands in `order`.
pub open spec fn place(order: Seq<usize>, x: int) -> int {
    choose|k: int| 0 <= k < order.len() && #[trigger] order[k] as int == x
}

/// `order` holds every node of `g` exactly once, and each node stands
/// behind all the nodes that it depends on.
pub open spec fn is_publish_order(g: Seq<Seq<usize>>, order: Seq<usize>) -> bool {
    &&& order.len() == g.len()
    &&& forall|k: int| 0 <= k < order.len() ==> #[trigger] order[k] < g.len()
    &&& order.no_duplicates()
    &&& forall|x: int| 0 <= x < g.len() ==> #[trigger] holds(order, x)
    &&& forall|a: int, b: int|
        0 <= a < order.len() && 0 <= b < order.len() && depends(
            g,
            #[trigger] order[a] as int,
            #[trigger] order[b] as int,
        ) ==> b < a
}

/// The graph has a cycle, so its nodes cannot be ordered.
#[derive(Clone, Copy, Debug, PartialEq, Eq, Structural)]
pub struct DependencyCycle;

/// Among the first `upto` nodes, how many that are not done depend on `j`.
pub open spec fn waiting(g: Seq<Seq<usize>>, done: Seq<bool>, j: usize, upto: int) -> nat
    decreases upto,
{
    if upto <= 0 {
        0
    } else {
        waiting(g, done, j, upto - 1) + if !done[upto - 1] && g[upto - 1].contains(j) {
            1nat
        } else {
            0nat
        }
    }
}

proof fn lemma_waiting_bound(g: Seq<Seq<usize>>, done: Seq<bool>, j: usize, upto: int)
    requires
        0 <= upto,
    ensures
        waiting(g, done, j, upto) <= upto,
    decreases upto,
{
    if upto > 0 {
        lemma_waiting_bound(g, done, j, upto - 1);
    }
}

proof fn lemma_waiting_zero(g: Seq<Seq<usize>>, done: Seq<bool>, j: usize, upto: int, i: int)
    requires
        0 <= i < upto,
        waiting(g, done, j, upto) == 0,
        !done[i],
    ensures
        !g[i].contains(j),
    decreases upto,
{
    if i < upto - 1 {
        lemma_waiting_zero(g, done, j, upto - 1, i);
    }
}

proof fn lemma_waiting_some(g: Seq<Seq<usize>>, done: Seq<bool>, j: usize, upto: int) -> (i: int)
    requires
        waiting(g, done, j, upto) > 0,
    ensures
        0 <= i < upto,
        !done[i],
        g[i].contains(j),
    decreases upto,
{
    if !done[upto - 1] && g[upto - 1].contains(j) {
        upto - 1
    } else {
        lemma_waiting_some(g, done, j, upto - 1)
    }
}

proof fn lemma_waiting_mark(g: Seq<Seq<usize>>, done: Seq<bool>, j: usize, upto: int, x: int)
    requires
        0 <= x < done.len(),
        0 <= upto <= done.len(),
        !done[x],
    ensures
        waiting(g, done, j, upto) == waiting(g, done.update(x, true), j, upto) + if x < upto
            && g[x].contains(j) {
            1nat
        } else {
            0nat
        },
    decreases upto,
{
    if upto > 0 {
        lemma_waiting_mark(g, done, j, upto - 1, x);
    }
}

/// A sequence of distinct numbers, all from `0` up to `n`, has at most `n`
/// items; with exactly `n`, it holds every such number.
proof fn lemma_distinct_numbers(t: Seq<int>, n: nat)
    requires
        t.no_duplicates(),
        forall|k: int| 0 <= k < t.len() ==> 0 <= #[trigger] t[k] < n,
    ensures
        t.len() <= n,
        t.len() == n ==> forall|x: int| 0 <= x < n ==> #[trigger] t.contains(x),
{
    t.unique_seq_to_set();
    lemma_int_range(0, n as int);
    assert(t.to_set().subset_of(set_int_range(0, n as int))) by {
        assert forall|v: int| t.to_set().contains(v) implies set_int_range(0, n as int).contains(
            v,
        ) by {
            let k = choose|k: int| 0 <= k < t.len() && t[k] == v;
            assert(0 <= t[k] < n);
        }
    }
    lemma_len_subset(t.to_set(), set_int_range(0, n as int));
    if t.len() == n {
        lemma_subset_equality(t.to_set(), set_int_range(0, n as int));
        assert forall|x: int| 0 <= x < n implies #[trigger] t.contains(x) by {
            assert(set_int_range(0, n as int).contains(x));
            assert(t.to_set().contains(x));
        }
    }
}

/// The same of nodes.
proof fn lemma_distinct_below(s: Seq<usize>, n: nat)
    requires
        s.no_duplicates(),
        forall|k: int| 0 <= k < s.len() ==> #[trigger] s[k] < n,
    ensures
        s.len() <= n,
        s.len() == n ==> forall|x: int| 0 <= x < n ==> #[trigger] holds(s, x),
{
    let t = s.map_values(|x: usize| x as int);
    assert(t.no_duplicates()) by {
        assert forall|i: int, j: int| 0 <= i < t.len() && 0 <= j < t.len() && i != j implies t[i]
            != t[j] by {
            assert(s[i] != s[j]);
        }
    }
    assert forall|k: int| 0 <= k < t.len() implies 0 <= #[trigger] t[k] < n by {
        assert(s[k] < n);
    }
    lemma_distinct_numbers(t, n);
    if s.len() == n {
        assert forall|x: int| 0 <= x < n implies #[trigger] holds(s, x) by {
            assert(t.contains(x));
            let k = choose|k: int| 0 <= k < t.len() && t[k] == x;
            assert(s[k] as int == x);
        }
    }
}

/// An order in which every node stands behind its dependencies exists only
/// for a graph without a cycle.
pub proof fn lemma_order_excludes_cycle(g: Seq<Seq<usize>>, order: Seq<usize>)
    requires
        is_publish_order(g, order),
    ensures
        !has_cycle(g),
{
    if has_cycle(g) {
        let path = choose|path: Seq<int>| is_cycle(g, path);
        lemma_path_descends(g, order, path, path.len() - 1);
        let first = place(order, path[0]);
        let last = place(order, path[path.len() - 1]);
        assert(last < first);
    }
}

proof fn lemma_path_descends(g: Seq<Seq<usize>>, order: Seq<usize>, path: Seq<int>, t: int)
    requires
        is_publish_order(g, order),
        is_cycle(g, path),
        0 < t < path.len(),
    ensures
        0 <= place(order, path[t]) < place(order, path[0]) < order.len(),
        order[place(order, path[0])] == path[0],
    decreases t,
{
    assert(depends(g, path[t - 1], path[t]));
    assert(depends(g, path[0], path[1]));
    assert(holds(order, path[t - 1]));
    assert(holds(order, path[t]));
    assert(holds(order, path[0]));
    let a = place(order, path[t - 1]);
    let b = place(order, path[t]);
    assert(depends(g, order[a] as int, order[b] as int));
    if t > 1 {
        lemma_path_descends(g, order, path, t - 1);
    }
}


/// No node is done.
pub open spec fn none_done(n: nat) -> Seq<bool> {
    Seq::new(n, |i: int| false)
}

/// How many nodes depend on `j`.
pub open spec fn dependants(g: Seq<Seq<usize>>, j: int) -> usize {
    waiting(g, none_done(g.len()), j as usize, g.len() as int) as usize
}

/// The nodes below `upto` that no node depends on, in rising order.
pub open spec fn free_nodes(g: Seq<Seq<usize>>, upto: int) -> Seq<usize>
    decreases upto,
{
    if upto <= 0 {
        Seq::empty()
    } else if dependants(g, upto - 1) == 0 {
        free_nodes(g, upto - 1).push((upto - 1) as usize)
    } else {
        free_nodes(g, upto - 1)
    }
}

/// What becomes of the counts of dependants and of the stack of ready
/// nodes when a node is taken whose dependencies are `row`, from the
/// `k`-th of them on: each dependency has one dependant less, and is put on
/// the stack when it has none left.
pub open spec fn release(row: Seq<usize>, k: int, counts: Seq<usize>, ready: Seq<usize>) -> (
    Seq<usize>,
    Seq<usize>,
)
    decreases row.len() - k,
{
    if k < 0 || k >= row.len() {
        (counts, ready)
    } else {
        let dep = row[k];
        let left = (counts[dep as int] - 1) as usize;
        release(
            row,
            k + 1,
            counts.update(dep as int, left),
            if left == 0 {
                ready.push(dep)
            } else {
                ready
            },
        )
    }
}

/// The nodes in the order in which they are taken: always the one on top
/// of the stack of ready nodes, for at most `turns` turns, after those
/// already `taken`.
pub open spec fn take_ready(
    g: Seq<Seq<usize>>,
    counts: Seq<usize>,
    ready: Seq<usize>,
    taken: Seq<usize>,
    turns: nat,
) -> Seq<usize>
    decreases turns,
{
    if ready.len() == 0 || turns == 0 {
        taken
    } else {
        let x = ready.last();
        let (counts, ready) = release(g[x as int], 0, counts, ready.drop_last());
        take_ready(g, counts, ready, taken.push(x), (turns - 1) as nat)
    }
}

/// The nodes of `g` in the order in which they are taken off the graph: a
/// node is taken once nothing that is left depends on it. To begin with
/// the nodes that nothing depends on are ready, the last of them on top.
pub open spec fn taken(g: Seq<Seq<usize>>) -> Seq<usize> {
    take_ready(
        g,
        Seq::new(g.len(), |j: int| dependants(g, j)),
        free_nodes(g, g.len() as int),
        Seq::empty(),
        g.len(),
    )
}

/// What holds of the nodes placed so far: each is marked done and stands
/// once, every node marked done is placed, and whatever depends on a placed
/// node was placed before it.
spec fn placed_ok(g: Seq<Seq<usize>>, placed: Seq<usize>, done: Seq<bool>) -> bool {
    &&& done.len() == g.len()
    &&& placed.no_duplicates()
    &&& forall|k: int| 0 <= k < placed.len() ==> #[trigger] placed[k] < g.len() && done[placed[k] as int]
    &&& forall|x: int| 0 <= x < g.len() && done[x] ==> #[trigger] holds(placed, x)
    &&& forall|b: int, i: int|
        0 <= b < placed.len() && #[trigger] depends(g, i, placed[b] as int) ==> exists|a: int|
            0 <= a < b && #[trigger] placed[a] as int == i
}

/// What holds of the nodes that are ready to be placed: none is done, none
/// is waited for, and every such node is among them.
spec fn ready_ok(g: Seq<Seq<usize>>, ready: Seq<usize>, counts: Seq<usize>, done: Seq<bool>) -> bool {
    &&& ready.no_duplicates()
    &&& forall|k: int|
        0 <= k < ready.len() ==> #[trigger] ready[k] < g.len() && !done[ready[k] as int]
            && counts[ready[k] as int] == 0
    &&& forall|x: int|
        0 <= x < g.len() && counts[x] == 0 && !done[x] ==> #[trigger] holds(ready, x)
}

/// `j` stands in `row` at `k` or later.
spec fn occurs_from(row: Seq<usize>, k: int, j: int) -> bool {
    exists|m: int| k <= m < row.len() && #[trigger] row[m] as int == j
}

/// Some node that is not done depends on `j`.
spec fn blocked(g: Seq<Seq<usize>>, done: Seq<bool>, j: int) -> bool {
    exists|i: int| 0 <= i < g.len() && !done[i] && #[trigger] depends(g, i, j)
}

/// From nodes that each have another such node depending on them, a path
/// of any length can be walked against the dependencies.
proof fn lemma_walk(g: Seq<Seq<usize>>, done: Seq<bool>, end: int, len: nat) -> (path: Seq<int>)
    requires
        done.len() == g.len(),
        0 <= end < g.len(),
        !done[end],
        forall|j: int| 0 <= j < g.len() && !done[j] ==> #[trigger] blocked(g, done, j),
    ensures
        path.len() == len + 1,
        path.last() == end,
        forall|t: int| 0 <= t < path.len() ==> 0 <= #[trigger] path[t] < g.len() && !done[path[t]],
        forall|t: int| 0 <= t < path.len() - 1 ==> depends(g, #[trigger] path[t], path[t + 1]),
    decreases len,
{
    if len == 0 {
        seq![end]
    } else {
        let rest = lemma_walk(g, done, end, (len - 1) as nat);
        let head = rest[0];
        assert(blocked(g, done, head));
        let i = choose|i: int| 0 <= i < g.len() && !done[i] && depends(g, i, head);
        let path = seq![i] + rest;
        assert forall|t: int| 0 <= t < path.len() - 1 implies depends(
            g,
            #[trigger] path[t],
            path[t + 1],
        ) by {
            if t > 0 {
                assert(path[t] == rest[t - 1]);
                assert(path[t + 1] == rest[t]);
            }
        }
        path
    }
}

/// Nodes that each have another such node depending on them lie on a cycle.
proof fn lemma_stuck_is_cycle(g: Seq<Seq<usize>>, done: Seq<bool>, end: int)
    requires
        done.len() == g.len(),
        0 <= end < g.len(),
        !done[end],
        forall|j: int| 0 <= j < g.len() && !done[j] ==> #[trigger] blocked(g, done, j),
    ensures
        has_cycle(g),
{
    let n = g.len();
    let path = lemma_walk(g, done, end, n);
    if path.no_duplicates() {
        lemma_distinct_numbers(path, n);
        assert(false);
    }
    let (a, b) = choose|a: int, b: int|
        0 <= a < path.len() && 0 <= b < path.len() && a != b && path[a] == path[b];
    let (lo, hi) = if a < b {
        (a, b)
    } else {
        (b, a)
    };
    let cycle = path.subrange(lo, hi + 1);
    assert forall|t: int| 0 <= t < cycle.len() - 1 implies depends(
        g,
        #[trigger] cycle[t],
        cycle[t + 1],
    ) by {
        assert(cycle[t] == path[lo + t]);
        assert(cycle[t + 1] == path[lo + t + 1]);
    }
    assert(is_cycle(g, cycle));
}

/// Orders the nodes of `g` so that each comes after the nodes it depends
/// on, or finds that a cycle forbids it.
///
/// Nodes that nothing waits for are taken last-found first, and the order
/// in which they were taken is reversed at the end.
pub fn publish_order(g: &Vec<Vec<usize>>) -> (r: Result<Vec<usize>, DependencyCycle>)
    requires
        well_formed(rows(g)),
    ensures
        match r {
            Ok(order) => is_publish_order(rows(g), order@) && order@ == taken(rows(g)).reverse(),
            Err(_) => has_cycle(rows(g)),
        },
        r is Ok <==> !has_cycle(rows(g)),
{
    let n = g.len();
    let ghost gs = rows(g);
    let ghost mut done = none_done(n as nat);

    // How many nodes depend on each node.
    let mut counts: Vec<usize> = Vec::new();
    while counts.len() < n
        invariant
            counts@.len() <= n,
            forall|j: int| 0 <= j < counts@.len() ==> counts@[j] == 0,
        decreases n - counts.len(),
    {
        counts.push(0);
    }
    let mut i: usize = 0;
    while i < n
        invariant
            n == g.len(),
            gs == rows(g),
            well_formed(gs),
            counts@.len() == n,
            0 <= i <= n,
            done == none_done(n as nat),
            forall|j: int| 0 <= j < n ==> counts@[j] == waiting(gs, done, j as usize, i as int),
        decreases n - i,
    {
        let row = &g[i];
        assert(row@ == gs[i as int]);
        let mut k: usize = 0;
        while k < row.len()
            invariant
                n == g.len(),
                gs == rows(g),
                well_formed(gs),
                counts@.len() == n,
                0 <= i < n,
                row@ == gs[i as int],
                0 <= k <= row.len(),
                done == none_done(n as nat),
                forall|j: int|
                    0 <= j < n ==> counts@[j] == waiting(gs, done, j as usize, i as int) + if exists|
                        m: int,
                    |
                        0 <= m < k && #[trigger] row@[m] as int == j {
                        1nat
                    } else {
                        0nat
                    },
            decreases row.len() - k,
        {
            let dep = row[k];
            proof {
                assert(gs[i as int][k as int] < n);
                lemma_waiting_bound(gs, done, dep, i as int);
                assert(!(exists|m: int| 0 <= m < k && #[trigger] row@[m] as int == dep as int));
            }
            let ghost before = counts@;
            counts.set(dep, counts[dep] + 1);
            proof {
                assert forall|j: int| 0 <= j < n implies counts@[j] == waiting(
                    gs,
                    done,
                    j as usize,
                    i as int,
                ) + if exists|m: int| 0 <= m < k + 1 && #[trigger] row@[m] as int == j {
                    1nat
                } else {
                    0nat
                } by {
                    if j == dep {
                        assert(row@[k as int] as int == j);
                    } else if exists|m: int| 0 <= m < k + 1 && #[trigger] row@[m] as int == j {
                        let m = choose|m: int| 0 <= m < k + 1 && #[trigger] row@[m] as int == j;
                        assert(m < k);
                    }
                }
            }
            k += 1;
        }
        proof {
            assert forall|j: int| 0 <= j < n implies counts@[j] == waiting(
                gs,
                done,
                j as usize,
                i + 1,
            ) by {
                let hit = exists|m: int| 0 <= m < row@.len() && #[trigger] row@[m] as int == j;
                if hit {
                    let m = choose|m: int| 0 <= m < row@.len() && #[trigger] row@[m] as int == j;
                    assert(row@[m] == j as usize);
                    assert(gs[i as int].contains(j as usize));
                } else if gs[i as int].contains(j as usize) {
                    let m = choose|m: int| 0 <= m < row@.len() && row@[m] == j as usize;
                    assert(row@[m] as int == j);
                }
            }
        }
        i += 1;
    }

    // The nodes that nothing depends on.
    let mut ready: Vec<usize> = Vec::new();
    let mut j: usize = 0;
    proof {
        assert forall|j: int| 0 <= j < n implies counts@[j] == dependants(gs, j) by {
            lemma_waiting_bound(gs, done, j as usize, n as int);
        }
        assert(counts@ =~= Seq::new(gs.len(), |j: int| dependants(gs, j)));
    }
    while j < n
        invariant
            counts@.len() == n,
            n == gs.len(),
            0 <= j <= n,
            forall|j: int| 0 <= j < n ==> counts@[j] == dependants(gs, j),
            ready@ == free_nodes(gs, j as int),
            ready@.no_duplicates(),
            forall|k: int|
                0 <= k < ready@.len() ==> #[trigger] ready@[k] < j && counts@[ready@[k] as int] == 0,
            forall|x: int| 0 <= x < j && counts@[x] == 0 ==> #[trigger] holds(ready@, x),
        decreases n - j,
    {
        if counts[j] == 0 {
            let ghost before = ready@;
            ready.push(j);
            proof {
                assert forall|x: int| 0 <= x < j + 1 && counts@[x] == 0 implies #[trigger] holds(
                    ready@,
                    x,
                ) by {
                    if x < j {
                        assert(holds(before, x));
                        let k = choose|k: int| 0 <= k < before.len() && #[trigger] before[k] as int == x;
                        assert(ready@[k] as int == x);
                    } else {
                        assert(ready@[before.len() as int] as int == x);
                    }
                }
            }
        }
        j += 1;
    }

    let mut placed: Vec<usize> = Vec::new();
    while ready.len() > 0
        invariant
            take_ready(gs, counts@, ready@, placed@, (n - placed@.len()) as nat) == taken(gs),
            n == g.len(),
            gs == rows(g),
            well_formed(gs),
            counts@.len() == n,
            placed@.len() <= n,
            placed_ok(gs, placed@, done),
            ready_ok(gs, ready@, counts@, done),
            forall|j: int| 0 <= j < n ==> counts@[j] == waiting(gs, done, j as usize, n as int),
        decreases n - placed@.len(),
    {
        let ghost ready_before = ready@;
        let ghost placed_before = placed@;
        let ghost done_before = done;
        let x = ready.pop().unwrap();
        assert(x == ready_before[ready_before.len() - 1]);
        assert(ready@ =~= ready_before.drop_last());
        placed.push(x);
        let row = &g[x];
        proof {
            done = done_before.update(x as int, true);
            assert(row@ == gs[x as int]);
            // Nothing that is not yet placed depends on `x`.
            assert forall|i: int| #[trigger] depends(gs, i, x as int) implies done_before[i] by {
                if !done_before[i] {
                    lemma_waiting_zero(gs, done_before, x, n as int, i);
                }
            }
            // `x` depends on nothing that is placed.
            assert forall|m: int| 0 <= m < row@.len() implies !done[#[trigger] row@[m] as int] by {
                let d = row@[m];
                assert(gs[x as int][m] < n);
                assert(gs[x as int].contains(d));
                assert(depends(gs, x as int, d as int));
                if d == x {
                    assert(done_before[x as int]);
                } else if done_before[d as int] {
                    assert(holds(placed_before, d as int));
                    let b = choose|b: int|
                        0 <= b < placed_before.len() && #[trigger] placed_before[b] as int == d as int;
                    assert(depends(gs, x as int, placed_before[b] as int));
                    let a = choose|a: int| 0 <= a < b && #[trigger] placed_before[a] as int == x as int;
                    assert(done_before[placed_before[a] as int]);
                }
            }
            assert(placed@.no_duplicates()) by {
                assert forall|a: int, b: int|
                    0 <= a < placed@.len() && 0 <= b < placed@.len() && a != b implies placed@[a]
                    != placed@[b] by {
                    if a < placed_before.len() {
                        assert(done_before[placed_before[a] as int]);
                    }
                    if b < placed_before.len() {
                        assert(done_before[placed_before[b] as int]);
                    }
                }
            }
            lemma_distinct_below(placed@, n as nat);
            assert forall|y: int| 0 <= y < n && done[y] implies #[trigger] holds(placed@, y) by {
                if y == x {
                    assert(placed@[placed_before.len() as int] as int == y);
                } else {
                    assert(holds(placed_before, y));
                    let k = choose|k: int|
                        0 <= k < placed_before.len() && #[trigger] placed_before[k] as int == y;
                    assert(placed@[k] as int == y);
                }
            }
            assert forall|b: int, i: int|
                0 <= b < placed@.len() && #[trigger] depends(
                    gs,
                    i,
                    placed@[b] as int,
                ) implies exists|a: int| 0 <= a < b && #[trigger] placed@[a] as int == i by {
                if b < placed_before.len() {
                    assert(depends(gs, i, placed_before[b] as int));
                    let a = choose|a: int| 0 <= a < b && #[trigger] placed_before[a] as int == i;
                    assert(placed@[a] as int == i);
                } else {
                    assert(done_before[i]);
                    assert(holds(placed_before, i));
                    let a = choose|a: int|
                        0 <= a < placed_before.len() && #[trigger] placed_before[a] as int == i;
                    assert(placed@[a] as int == i);
                }
            }
            assert(placed_ok(gs, placed@, done));
            assert forall|j: int| 0 <= j < n implies counts@[j] == waiting(
                gs,
                done,
                j as usize,
                n as int,
            ) + if occurs_from(row@, 0, j) {
                1nat
            } else {
                0nat
            } by {
                lemma_waiting_mark(gs, done_before, j as usize, n as int, x as int);
                if gs[x as int].contains(j as usize) {
                    let m = choose|m: int| 0 <= m < row@.len() && row@[m] == j as usize;
                    assert(row@[m] as int == j);
                } else if occurs_from(row@, 0, j) {
                    let m = choose|m: int| 0 <= m < row@.len() && #[trigger] row@[m] as int == j;
                    assert(row@[m] == j as usize);
                }
            }
            assert forall|k: int| 0 <= k < ready@.len() implies #[trigger] ready@[k] < n
                && !done[ready@[k] as int] && counts@[ready@[k] as int] == 0 by {
                assert(ready@[k] == ready_before[k]);
                assert(ready_before[k] != ready_before[ready_before.len() - 1]);
            }
            assert forall|y: int| 0 <= y < n && counts@[y] == 0 && !done[y] implies #[trigger] holds(
                ready@,
                y,
            ) by {
                assert(holds(ready_before, y));
                let k = choose|k: int|
                    0 <= k < ready_before.len() && #[trigger] ready_before[k] as int == y;
                assert(ready@[k] as int == y);
            }
        }
        let ghost counts_start = counts@;
        let ghost ready_start = ready@;
        let mut k: usize = 0;
        while k < row.len()
            invariant
                release(row@, k as int, counts@, ready@) == release(
                    row@,
                    0,
                    counts_start,
                    ready_start,
                ),
                n == g.len(),
                gs == rows(g),
                well_formed(gs),
                counts@.len() == n,
                x < n,
                row@ == gs[x as int],
                0 <= k <= row.len(),
                done.len() == n,
                forall|m: int| 0 <= m < row@.len() ==> !done[#[trigger] row@[m] as int],
                ready_ok(gs, ready@, counts@, done),
                forall|j: int|
                    0 <= j < n ==> counts@[j] == waiting(gs, done, j as usize, n as int)
                        + if occurs_from(row@, k as int, j) {
                        1nat
                    } else {
                        0nat
                    },
            decreases row.len() - k,
        {
            let dep = row[k];
            let ghost counts_before = counts@;
            let ghost ready_inner = ready@;
            proof {
                assert(gs[x as int][k as int] < n);
                assert(row@[k as int] as int == dep as int);
                assert(occurs_from(row@, k as int, dep as int));
                assert(!occurs_from(row@, k + 1, dep as int));
                assert(!done[row@[k as int] as int]);
            }
            counts.set(dep, counts[dep] - 1);
            proof {
                assert forall|j: int| 0 <= j < n implies counts@[j] == waiting(
                    gs,
                    done,
                    j as usize,
                    n as int,
                ) + if occurs_from(row@, k + 1, j) {
                    1nat
                } else {
                    0nat
                } by {
                    if j != dep {
                        if occurs_from(row@, k as int, j) {
                            let m = choose|m: int|
                                k <= m < row@.len() && #[trigger] row@[m] as int == j;
                            assert(m != k);
                            assert(occurs_from(row@, k + 1, j));
                        }
                        if occurs_from(row@, k + 1, j) {
                            let m = choose|m: int|
                                k + 1 <= m < row@.len() && #[trigger] row@[m] as int == j;
                            assert(occurs_from(row@, k as int, j));
                        }
                    }
                }
                // `dep` was waited for until now, so it is not among the ready.
                assert forall|t: int| 0 <= t < ready@.len() implies #[trigger] ready@[t] != dep by {
                    assert(counts_before[ready@[t] as int] == 0);
                }
            }
            if counts[dep] == 0 {
                ready.push(dep);
                proof {
                    assert forall|y: int|
                        0 <= y < n && counts@[y] == 0 && !done[y] implies #[trigger] holds(
                        ready@,
                        y,
                    ) by {
                        if y == dep {
                            assert(ready@[ready_inner.len() as int] as int == y);
                        } else {
                            assert(counts_before[y] == 0);
                            assert(holds(ready_inner, y));
                            let t = choose|t: int|
                                0 <= t < ready_inner.len() && #[trigger] ready_inner[t] as int == y;
                            assert(ready@[t] as int == y);
                        }
                    }
                }
            } else {
                proof {
                    assert forall|y: int|
                        0 <= y < n && counts@[y] == 0 && !done[y] implies #[trigger] holds(
                        ready@,
                        y,
                    ) by {
                        assert(counts_before[y] == 0);
                    }
                }
            }
            k += 1;
        }
        proof {
            assert forall|j: int| 0 <= j < n implies !occurs_from(row@, row@.len() as int, j) by {}
        }
    }

    if placed.len() != n {
        proof {
            lemma_distinct_below(placed@, n as nat);
            // Some node was never placed: had all been, they would be `n`.
            assert(exists|y: int| 0 <= y < n && !done[y]) by {
                if forall|y: int| 0 <= y < n ==> done[y] {
                    let all = Seq::new(n as nat, |y: int| place(placed@, y) as usize);
                    assert forall|y: int| 0 <= y < n implies 0 <= place(placed@, y) < placed@.len()
                        && placed@[place(placed@, y)] as int == y by {
                        assert(holds(placed@, y));
                    }
                    assert(all.no_duplicates()) by {
                        assert forall|a: int, b: int|
                            0 <= a < all.len() && 0 <= b < all.len() && a != b implies all[a]
                            != all[b] by {
                            assert(placed@[place(placed@, a)] as int == a);
                            assert(placed@[place(placed@, b)] as int == b);
                        }
                    }
                    lemma_distinct_below(all, placed@.len());
                    assert(false);
                }
            }
            assert forall|j: int| 0 <= j < n && !done[j] implies #[trigger] blocked(gs, done, j) by {
                if counts@[j] == 0 {
                    assert(holds(ready@, j));
                }
                let i = lemma_waiting_some(gs, done, j as usize, n as int);
                assert(depends(gs, i, j));
            }
            let stuck = choose|y: int| 0 <= y < n && !done[y];
            lemma_stuck_is_cycle(gs, done, stuck);
        }
        return Err(DependencyCycle);
    }
    let mut order: Vec<usize> = Vec::new();
    let mut t: usize = n;
    while t > 0
        invariant
            placed@.len() == n,
            0 <= t <= n,
            order@.len() == n - t,
            forall|k: int| 0 <= k < order@.len() ==> order@[k] == placed@[n - 1 - k],
        decreases t,
    {
        t -= 1;
        order.push(placed[t]);
    }
    proof {
        lemma_distinct_below(placed@, n as nat);
        assert forall|y: int| 0 <= y < n implies #[trigger] holds(order@, y) by {
            assert(holds(placed@, y));
            let k = choose|k: int| 0 <= k < placed@.len() && #[trigger] placed@[k] as int == y;
            assert(order@[n - 1 - k] as int == y);
        }
        assert forall|a: int, b: int|
            0 <= a < order@.len() && 0 <= b < order@.len() && depends(
                gs,
                #[trigger] order@[a] as int,
                #[trigger] order@[b] as int,
            ) implies b < a by {
            assert(depends(gs, order@[a] as int, placed@[n - 1 - b] as int));
            let e = choose|e: int|
                0 <= e < n - 1 - b && #[trigger] placed@[e] as int == order@[a] as int;
            assert(placed@[e] == placed@[n - 1 - a]);
        }
        assert(is_publish_order(gs, order@));
        lemma_order_excludes_cycle(gs, order@);
        assert(order@ =~= placed@.reverse());
    }
    Ok(order)
}

} // verus!
