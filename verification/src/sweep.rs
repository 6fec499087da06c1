//! The course of a breadth-first search over numbered nodes, as the proofs
//! follow it: what has been found, in which order and by which links, and
//! what holds of it at every moment.

use crate::path::{
    first_index, is_first_index, lemma_first_index_unique, lemma_lex_le_push, lemma_lex_lt_last,
    lemma_lex_lt_le, lemma_lex_lt_push, lex_le, lex_lt,
};
use vstd::prelude::*;

verus! {

/// A chain of nodes, by their numbers.
pub(crate) open spec fn id_path(links: Seq<Seq<usize>>, q: Seq<usize>) -> bool {
    &&& q.len() >= 1
    &&& forall|k: int| 0 <= k < q.len() ==> (#[trigger] q[k]) < links.len()
    &&& forall|k: int| 0 <= k < q.len() - 1 ==> links[(#[trigger] q[k]) as int].contains(q[k + 1])
}

/// How far a search has come. `order` lists the nodes found so far, in the
/// order in which they were found; those before `head` have had all their
/// links followed, and of the node at `head` the first `scanned` links have
/// been followed. Of a found node `depth` is the number of steps on which it
/// was reached, `pos` its place in `order`, `slot` the place in its parent's
/// links of the link that led to it, and `code` the places of all the links
/// on the way to it from the root.
pub(crate) struct Sweep {
    pub(crate) order: Seq<usize>,
    pub(crate) head: int,
    pub(crate) scanned: int,
    pub(crate) pos: Seq<int>,
    pub(crate) depth: Seq<nat>,
    pub(crate) visited: Seq<bool>,
    pub(crate) parent: Seq<Option<usize>>,
    pub(crate) slot: Seq<int>,
    pub(crate) code: Seq<Seq<int>>,
}

/// Every link leads to a node.
pub(crate) open spec fn links_closed(links: Seq<Seq<usize>>) -> bool {
    forall|i: int, k: int|
        0 <= i < links.len() && 0 <= k < links[i].len() ==> (#[trigger] links[i][k]) < links.len()
}

/// The node whose links are being followed.
pub(crate) open spec fn current(st: Sweep) -> int {
    st.order[st.head] as int
}

/// There is an entry for each node, the root was found first and without a
/// step, and `order` and `pos` agree on which nodes were found and where.
pub(crate) open spec fn sweep_shape(links: Seq<Seq<usize>>, root: int, st: Sweep) -> bool {
    let n = links.len();
    &&& 0 <= root < n
    &&& st.pos.len() == n
    &&& st.depth.len() == n
    &&& st.visited.len() == n
    &&& st.parent.len() == n
    &&& 0 <= st.head <= st.order.len()
    &&& st.order.len() >= 1
    &&& st.order[0] == root
    &&& st.visited[root]
    &&& st.depth[root] == 0
    &&& if st.head < st.order.len() {
        0 <= st.scanned <= links[current(st)].len()
    } else {
        st.scanned == 0
    }
    &&& forall|i: int|
        0 <= i < st.order.len() ==> {
            let v = #[trigger] st.order[i];
            v < n && st.visited[v as int] && st.pos[v as int] == i
        }
    &&& forall|v: int|
        0 <= v < n && #[trigger] st.visited[v] ==> 0 <= st.pos[v] < st.order.len()
            && st.order[st.pos[v]] == v
}

/// Each found node but the root has a parent: a found node that is linked to
/// it and was reached on one step less. No other node has one.
pub(crate) open spec fn sweep_tree(links: Seq<Seq<usize>>, root: int, st: Sweep) -> bool {
    forall|v: int|
        0 <= v < links.len() ==> if st.visited[v] && v != root {
            match #[trigger] st.parent[v] {
                Some(p) => p < links.len() && st.visited[p as int] && links[p as int].contains(
                    v as usize,
                ) && st.depth[v] == st.depth[p as int] + 1,
                None => false,
            }
        } else {
            st.parent[v] is None
        }
}

/// Nodes were found in the order of their depth, none lies more than one step
/// deeper than the current node, and a link between two found nodes leads at
/// most one step deeper.
pub(crate) open spec fn sweep_levels(links: Seq<Seq<usize>>, st: Sweep) -> bool {
    let n = links.len();
    &&& forall|u: int, v: int|
        0 <= u < n && 0 <= v < n && st.visited[u] && st.visited[v] && st.pos[u] <= st.pos[v]
            ==> #[trigger] st.depth[u] <= #[trigger] st.depth[v]
    &&& st.head < st.order.len() ==> forall|v: int|
        0 <= v < n && st.visited[v] ==> #[trigger] st.depth[v] <= st.depth[current(st)] + 1
    &&& forall|u: int, t: int|
        0 <= u < n && st.visited[u] && 0 <= t < links[u].len() && st.visited[links[u][t] as int]
            ==> st.depth[(#[trigger] links[u][t]) as int] <= st.depth[u] + 1
}

/// Every link that has been followed leads to a found node.
pub(crate) open spec fn sweep_closed(links: Seq<Seq<usize>>, st: Sweep) -> bool {
    forall|u: int, t: int|
        0 <= u < links.len() && st.visited[u] && 0 <= t < links[u].len() && (st.pos[u] < st.head
            || (st.pos[u] == st.head && t < st.scanned)) ==> st.visited[(
        #[trigger] links[u][t]) as int]
}

/// What holds of a search at every moment.
pub(crate) open spec fn sweep_inv(links: Seq<Seq<usize>>, root: int, st: Sweep) -> bool {
    &&& links_closed(links)
    &&& sweep_shape(links, root, st)
    &&& sweep_tree(links, root, st)
    &&& sweep_levels(links, st)
    &&& sweep_closed(links, st)
}

/// The search before its first step: only the root is found.
pub(crate) open spec fn sweep_start(n: nat, root: int) -> Sweep {
    Sweep {
        order: seq![root as usize],
        head: 0,
        scanned: 0,
        pos: Seq::new(n, |i: int| 0int),
        depth: Seq::new(n, |i: int| 0nat),
        visited: Seq::new(n, |i: int| i == root),
        parent: Seq::new(n, |i: int| None::<usize>),
        slot: Seq::new(n, |i: int| 0int),
        code: Seq::new(n, |i: int| Seq::<int>::empty()),
    }
}

/// The search after the next link of the current node led to a node already
/// found.
pub(crate) open spec fn sweep_skip(st: Sweep) -> Sweep {
    Sweep { scanned: st.scanned + 1, ..st }
}

/// The search after the next link of the current node led to a new node.
pub(crate) open spec fn sweep_discover(links: Seq<Seq<usize>>, st: Sweep) -> Sweep {
    let u = current(st);
    let w = links[u][st.scanned];
    Sweep {
        order: st.order.push(w),
        head: st.head,
        scanned: st.scanned + 1,
        pos: st.pos.update(w as int, st.order.len() as int),
        depth: st.depth.update(w as int, st.depth[u] + 1),
        visited: st.visited.update(w as int, true),
        parent: st.parent.update(w as int, Some(u as usize)),
        slot: st.slot.update(w as int, st.scanned),
        code: st.code.update(w as int, st.code[u].push(st.scanned)),
    }
}

/// The search after all links of the current node were followed.
pub(crate) open spec fn sweep_advance(st: Sweep) -> Sweep {
    Sweep { head: st.head + 1, scanned: 0, ..st }
}

/// It holds before the first step.
pub(crate) proof fn lemma_sweep_start(links: Seq<Seq<usize>>, root: int)
    requires
        links_closed(links),
        0 <= root < links.len(),
        root <= usize::MAX,
    ensures
        sweep_inv(links, root, sweep_start(links.len(), root)),
{
}

/// It still holds after a link that led to a node already found.
pub(crate) proof fn lemma_sweep_skip(links: Seq<Seq<usize>>, root: int, st: Sweep)
    requires
        sweep_inv(links, root, st),
        st.head < st.order.len(),
        st.scanned < links[current(st)].len(),
        st.visited[links[current(st)][st.scanned] as int],
    ensures
        sweep_inv(links, root, sweep_skip(st)),
{
}

/// It still holds after a link that led to a new node.
pub(crate) proof fn lemma_sweep_discover(links: Seq<Seq<usize>>, root: int, st: Sweep)
    requires
        sweep_inv(links, root, st),
        st.head < st.order.len(),
        st.scanned < links[current(st)].len(),
        !st.visited[links[current(st)][st.scanned] as int],
    ensures
        sweep_inv(links, root, sweep_discover(links, st)),
{
    let n = links.len();
    let u = current(st);
    let w = links[u][st.scanned] as int;
    let nx = sweep_discover(links, st);
    assert(st.order[st.head] == u);
    assert(0 <= w < n);
    assert(w != root);
    assert(w != u);
    assert(sweep_shape(links, root, nx)) by {
        assert forall|i: int| 0 <= i < nx.order.len() implies {
            let v = #[trigger] nx.order[i];
            v < n && nx.visited[v as int] && nx.pos[v as int] == i
        } by {
            if i < st.order.len() {
                assert(nx.order[i] == st.order[i]);
            }
        }
        assert forall|v: int| 0 <= v < n && #[trigger] nx.visited[v] implies 0 <= nx.pos[v]
            < nx.order.len() && nx.order[nx.pos[v]] == v by {
            if v != w {
                assert(st.visited[v]);
            }
        }
    }
    assert(sweep_tree(links, root, nx)) by {
        assert forall|v: int| 0 <= v < n implies if nx.visited[v] && v != root {
            match #[trigger] nx.parent[v] {
                Some(p) => p < n && nx.visited[p as int] && links[p as int].contains(v as usize)
                    && nx.depth[v] == nx.depth[p as int] + 1,
                None => false,
            }
        } else {
            nx.parent[v] is None
        } by {
            if v == w {
                assert(links[u][st.scanned] == v as usize);
            } else {
                let _ = st.parent[v];
            }
        }
    }
    assert(sweep_closed(links, nx)) by {
        assert forall|x: int, t: int|
            0 <= x < n && nx.visited[x] && 0 <= t < links[x].len() && (nx.pos[x] < nx.head || (
            nx.pos[x] == nx.head && t < nx.scanned)) implies nx.visited[(
        #[trigger] links[x][t]) as int] by {
            assert(x != w);
            assert(st.visited[x]);
            if st.pos[x] == st.head {
                assert(x == u);
            }
        }
    }
    assert(sweep_levels(links, nx)) by {
        assert forall|x: int, v: int|
            0 <= x < n && 0 <= v < n && nx.visited[x] && nx.visited[v] && nx.pos[x]
                <= nx.pos[v] implies #[trigger] nx.depth[x] <= #[trigger] nx.depth[v] by {
            if x != w && v != w {
                assert(st.depth[x] <= st.depth[v]);
            } else if x != w {
                assert(st.depth[x] <= st.depth[u] + 1);
            }
        }
        assert forall|v: int| 0 <= v < n && nx.visited[v] implies #[trigger] nx.depth[v]
            <= nx.depth[current(nx)] + 1 by {
            if v != w {
                assert(st.depth[v] <= st.depth[u] + 1);
            }
        }
        assert forall|x: int, t: int|
            0 <= x < n && nx.visited[x] && 0 <= t < links[x].len() && nx.visited[links[x][t] as int]
            implies nx.depth[(#[trigger] links[x][t]) as int] <= nx.depth[x] + 1 by {
            let y = links[x][t] as int;
            if x != w && y != w {
                assert(st.depth[y] <= st.depth[x] + 1);
            } else if x != w {
                assert(st.visited[x]);
                assert(!(st.pos[x] < st.head));
                assert(st.pos[u] <= st.pos[x]);
                assert(st.depth[u] <= st.depth[x]);
            } else if y != w {
                assert(st.depth[y] <= st.depth[u] + 1);
            }
        }
    }
}

/// It still holds when the search goes on to the next node.
pub(crate) proof fn lemma_sweep_advance(links: Seq<Seq<usize>>, root: int, st: Sweep)
    requires
        sweep_inv(links, root, st),
        st.head < st.order.len(),
        st.scanned == links[current(st)].len(),
    ensures
        sweep_inv(links, root, sweep_advance(st)),
{
    let n = links.len();
    let u = current(st);
    let nx = sweep_advance(st);
    assert(st.order[st.head] == u);
    assert(sweep_closed(links, nx)) by {
        assert forall|x: int, t: int|
            0 <= x < n && nx.visited[x] && 0 <= t < links[x].len() && (nx.pos[x] < nx.head || (
            nx.pos[x] == nx.head && t < nx.scanned)) implies nx.visited[(
        #[trigger] links[x][t]) as int] by {
            if st.pos[x] == st.head {
                assert(x == u);
            }
        }
    }
    if nx.head < nx.order.len() {
        let u2 = current(nx);
        assert(st.order[nx.head] == u2);
        assert(st.pos[u] <= st.pos[u2]);
        assert(st.depth[u] <= st.depth[u2]);
        assert forall|v: int| 0 <= v < n && nx.visited[v] implies #[trigger] nx.depth[v]
            <= nx.depth[current(nx)] + 1 by {
            assert(st.depth[v] <= st.depth[u] + 1);
        }
    }
}

/// No more nodes are found than there are.
pub(crate) proof fn lemma_sweep_bounded(links: Seq<Seq<usize>>, root: int, st: Sweep)
    requires
        sweep_inv(links, root, st),
    ensures
        st.order.len() <= links.len(),
{
    let n = links.len() as int;
    let places = st.order.map_values(|v: usize| v as int);
    assert(places.no_duplicates()) by {
        assert forall|i: int, j: int|
            0 <= i < places.len() && 0 <= j < places.len() && i != j implies places[i]
            != places[j] by {
            let a = st.order[i];
            let b = st.order[j];
            assert(st.pos[a as int] == i && st.pos[b as int] == j);
        }
    }
    places.unique_seq_to_set();
    vstd::set_lib::lemma_int_range(0, n);
    assert(places.to_set().subset_of(vstd::set_lib::set_int_range(0, n))) by {
        assert forall|x: int| places.to_set().contains(x) implies vstd::set_lib::set_int_range(
            0,
            n,
        ).contains(x) by {
            let i = places.index_of(x);
            assert(places[i] == st.order[i] as int);
        }
    }
    vstd::set_lib::lemma_len_subset(places.to_set(), vstd::set_lib::set_int_range(0, n));
}

/// A chain of nodes from the root, as far as it runs through found nodes,
/// reaches each in no fewer steps than the search did; and it cannot leave
/// the found nodes before it has made as many steps as the search needed for
/// the current node.
pub(crate) proof fn lemma_path_bound(links: Seq<Seq<usize>>, root: int, st: Sweep, q: Seq<usize>, k: int)
    requires
        sweep_inv(links, root, st),
        st.head < st.order.len(),
        id_path(links, q),
        q[0] == root,
        0 <= k < q.len(),
    ensures
        (st.visited[q[k] as int] && st.depth[q[k] as int] <= k) || st.depth[current(st)] < k,
    decreases k,
{
    if k > 0 {
        lemma_path_bound(links, root, st, q, k - 1);
        let a = q[k - 1] as int;
        let b = q[k] as int;
        let u = current(st);
        assert(st.order[st.head] == u);
        if st.visited[a] && st.depth[a] <= k - 1 {
            assert(links[a].contains(q[k]));
            let t = links[a].index_of(q[k]);
            assert(links[a][t] == q[k]);
            if st.visited[b] {
                assert(st.depth[b] <= st.depth[a] + 1);
            } else {
                assert(!(st.pos[a] < st.head));
                assert(st.pos[u] <= st.pos[a]);
                assert(st.depth[u] <= st.depth[a]);
            }
        }
    }
}

/// When every found node has had its links followed, a chain of nodes from
/// the root never leaves the found nodes.
pub(crate) proof fn lemma_path_stays(links: Seq<Seq<usize>>, root: int, st: Sweep, q: Seq<usize>, k: int)
    requires
        sweep_inv(links, root, st),
        st.head == st.order.len(),
        id_path(links, q),
        q[0] == root,
        0 <= k < q.len(),
    ensures
        st.visited[q[k] as int],
    decreases k,
{
    if k > 0 {
        lemma_path_stays(links, root, st, q, k - 1);
        let a = q[k - 1] as int;
        assert(links[a].contains(q[k]));
        let t = links[a].index_of(q[k]);
        assert(links[a][t] == q[k]);
    }
}

/// The links that a chain of nodes takes: for each node but the last, the
/// first place of the next node in its links.
pub(crate) open spec fn id_route(links: Seq<Seq<usize>>, q: Seq<usize>) -> Seq<int> {
    Seq::new((q.len() - 1) as nat, |k: int| first_index(links[q[k] as int], q[k + 1]))
}

/// If `q` is a chain of `d` steps from the root to `v`, the links of `c` come
/// no later than those it takes.
pub(crate) open spec fn beats(links: Seq<Seq<usize>>, root: int, v: int, d: nat, c: Seq<int>, q: Seq<usize>) -> bool {
    id_path(links, q) && q[0] == root && q[q.len() - 1] == v && q.len() == d + 1 ==> lex_le(
        c,
        id_route(links, q),
    )
}

/// What holds at every moment of the links by which the found nodes were
/// reached: nodes of one depth were found in the order of their links, and
/// no chain of as many steps reaches a node by earlier links.
pub(crate) open spec fn sweep_routes(links: Seq<Seq<usize>>, root: int, st: Sweep) -> bool {
    let n = links.len();
    &&& st.code.len() == n
    &&& st.slot.len() == n
    &&& forall|v: int| 0 <= v < n && st.visited[v] ==> (#[trigger] st.code[v]).len() == st.depth[v]
    &&& forall|v: int|
        0 <= v < n && st.visited[v] && v != root ==> {
            let p = st.parent[v].unwrap() as int;
            &&& is_first_index(links[p], v as usize, #[trigger] st.slot[v])
            &&& st.code[v] == st.code[p].push(st.slot[v])
            &&& st.pos[p] <= st.head
            &&& st.pos[p] == st.head ==> st.slot[v] < st.scanned
        }
    &&& forall|u: int, v: int|
        0 <= u < n && 0 <= v < n && st.visited[u] && st.visited[v] && st.pos[u] < st.pos[v]
            && st.depth[u] == st.depth[v] ==> lex_lt(#[trigger] st.code[u], #[trigger] st.code[v])
    &&& forall|v: int, q: Seq<usize>|
        0 <= v < n && st.visited[v] ==> #[trigger] beats(
            links,
            root,
            v,
            st.depth[v],
            st.code[v],
            q,
        )
}

/// It holds before the first step.
pub(crate) proof fn lemma_routes_start(links: Seq<Seq<usize>>, root: int)
    requires
        links_closed(links),
        0 <= root < links.len(),
        root <= usize::MAX,
    ensures
        sweep_routes(links, root, sweep_start(links.len(), root)),
{
    let st = sweep_start(links.len(), root);
    assert forall|v: int, q: Seq<usize>| 0 <= v < links.len() && st.visited[v] implies #[trigger] beats(
        links,
        root,
        v,
        st.depth[v],
        st.code[v],
        q,
    ) by {
        if q.len() == 1 {
            assert(id_route(links, q) =~= Seq::<int>::empty());
        }
    }
}

/// It still holds after a link that led to a node already found.
pub(crate) proof fn lemma_routes_skip(links: Seq<Seq<usize>>, root: int, st: Sweep)
    requires
        sweep_inv(links, root, st),
        sweep_routes(links, root, st),
        st.head < st.order.len(),
        st.scanned < links[current(st)].len(),
    ensures
        sweep_routes(links, root, sweep_skip(st)),
{
    let nx = sweep_skip(st);
    assert forall|v: int, q: Seq<usize>| 0 <= v < links.len() && nx.visited[v] implies #[trigger] beats(
        links,
        root,
        v,
        nx.depth[v],
        nx.code[v],
        q,
    ) by {
        assert(beats(links, root, v, st.depth[v], st.code[v], q));
    }
}

/// It still holds when the search goes on to the next node.
pub(crate) proof fn lemma_routes_advance(links: Seq<Seq<usize>>, root: int, st: Sweep)
    requires
        sweep_inv(links, root, st),
        sweep_routes(links, root, st),
        st.head < st.order.len(),
    ensures
        sweep_routes(links, root, sweep_advance(st)),
{
    let nx = sweep_advance(st);
    assert forall|v: int, q: Seq<usize>| 0 <= v < links.len() && nx.visited[v] implies #[trigger] beats(
        links,
        root,
        v,
        nx.depth[v],
        nx.code[v],
        q,
    ) by {
        assert(beats(links, root, v, st.depth[v], st.code[v], q));
    }
}

/// The link that leads to a new node is the first of the current node's
/// links that leads there.
pub(crate) proof fn lemma_new_slot(links: Seq<Seq<usize>>, root: int, st: Sweep)
    requires
        sweep_inv(links, root, st),
        st.head < st.order.len(),
        st.scanned < links[current(st)].len(),
        !st.visited[links[current(st)][st.scanned] as int],
    ensures
        is_first_index(links[current(st)], links[current(st)][st.scanned], st.scanned),
{
    let u = current(st);
    assert(st.order[st.head] == u);
    assert forall|j: int| 0 <= j < st.scanned implies (#[trigger] links[u][j]) != links[u][st.scanned] by {
        assert(st.visited[links[u][j] as int]);
    }
}

/// No chain of as many steps reaches a new node by earlier links than those
/// by which the search reached it.
pub(crate) proof fn lemma_new_node_beats(links: Seq<Seq<usize>>, root: int, st: Sweep, q: Seq<usize>)
    requires
        sweep_inv(links, root, st),
        sweep_routes(links, root, st),
        st.head < st.order.len(),
        st.scanned < links[current(st)].len(),
        !st.visited[links[current(st)][st.scanned] as int],
    ensures
        beats(
            links,
            root,
            links[current(st)][st.scanned] as int,
            st.depth[current(st)] + 1,
            st.code[current(st)].push(st.scanned),
            q,
        ),
{
    let u = current(st);
    let w = links[u][st.scanned];
    let d = st.depth[u] as int;
    let c = st.code[u].push(st.scanned);
    assert(st.order[st.head] == u);
    if id_path(links, q) && q[0] == root && q[q.len() - 1] == w && q.len() == d + 2 {
        let x = q[d] as int;
        let front = q.take(d + 1);
        lemma_path_bound(links, root, st, q, d);
        assert(st.visited[x] && st.depth[x] <= d);
        assert(links[x].contains(q[d + 1]));
        let t = links[x].index_of(w);
        assert(links[x][t] == w);
        assert(!(st.pos[x] < st.head));
        assert(st.pos[u] <= st.pos[x]);
        assert(st.depth[u] <= st.depth[x]);
        assert(id_path(links, front)) by {
            assert forall|k: int| 0 <= k < front.len() - 1 implies links[(
            #[trigger] front[k]) as int].contains(front[k + 1]) by {
                assert(front[k] == q[k] && front[k + 1] == q[k + 1]);
            }
        }
        assert(beats(links, root, x, st.depth[x], st.code[x], front));
        assert(lex_le(st.code[x], id_route(links, front)));
        let last = first_index(links[x], w);
        assert(id_route(links, q) =~= id_route(links, front).push(last)) by {
            assert forall|k: int| 0 <= k < d implies id_route(links, q)[k] == id_route(
                links,
                front,
            )[k] by {
                assert(front[k] == q[k] && front[k + 1] == q[k + 1]);
            }
        }
        if x == u {
            lemma_new_slot(links, root, st);
            lemma_first_index_unique(links[u], w, st.scanned);
            lemma_lex_le_push(st.code[u], id_route(links, front), st.scanned);
        } else {
            assert(st.order[st.pos[x]] == x);
            assert(st.pos[u] < st.pos[x]);
            assert(lex_lt(st.code[u], st.code[x]));
            lemma_lex_lt_le(st.code[u], st.code[x], id_route(links, front));
            lemma_lex_lt_push(st.code[u], id_route(links, front), st.scanned, last);
        }
    }
}

/// It still holds after a link that led to a new node.
pub(crate) proof fn lemma_routes_discover(links: Seq<Seq<usize>>, root: int, st: Sweep)
    requires
        sweep_inv(links, root, st),
        sweep_routes(links, root, st),
        st.head < st.order.len(),
        st.scanned < links[current(st)].len(),
        !st.visited[links[current(st)][st.scanned] as int],
    ensures
        sweep_routes(links, root, sweep_discover(links, st)),
{
    let n = links.len();
    let u = current(st);
    let w = links[u][st.scanned] as int;
    let nx = sweep_discover(links, st);
    assert(st.order[st.head] == u);
    assert(0 <= w < n);
    assert(w != root);
    assert(w != u);
    lemma_new_slot(links, root, st);
    assert forall|v: int| 0 <= v < n && nx.visited[v] implies (#[trigger] nx.code[v]).len()
        == nx.depth[v] by {
        if v != w {
            assert(st.code[v].len() == st.depth[v]);
        } else {
            assert(st.code[u].len() == st.depth[u]);
        }
    }
    assert forall|v: int| 0 <= v < n && nx.visited[v] && v != root implies {
        let p = nx.parent[v].unwrap() as int;
        &&& is_first_index(links[p], v as usize, #[trigger] nx.slot[v])
        &&& nx.code[v] == nx.code[p].push(nx.slot[v])
        &&& nx.pos[p] <= nx.head
        &&& nx.pos[p] == nx.head ==> nx.slot[v] < nx.scanned
    } by {
        if v != w {
            let _ = st.slot[v];
            let _ = st.parent[v];
            let p = st.parent[v].unwrap() as int;
            assert(st.visited[p]);
            assert(p != w);
        }
    }
    assert forall|x: int, y: int|
        0 <= x < n && 0 <= y < n && nx.visited[x] && nx.visited[y] && nx.pos[x] < nx.pos[y]
            && nx.depth[x] == nx.depth[y] implies lex_lt(
        #[trigger] nx.code[x],
        #[trigger] nx.code[y],
    ) by {
        if x != w && y != w {
            assert(lex_lt(st.code[x], st.code[y]));
        } else if y == w && x != w {
            let _ = st.slot[x];
            let _ = st.parent[x];
            let px = st.parent[x].unwrap() as int;
            assert(st.depth[px] == st.depth[u]);
            assert(st.code[x] == st.code[px].push(st.slot[x]));
            if st.pos[px] == st.head {
                assert(st.order[st.pos[px]] == px);
                lemma_lex_lt_last(st.code[u], st.slot[x], st.scanned);
            } else {
                assert(lex_lt(st.code[px], st.code[u]));
                lemma_lex_lt_push(st.code[px], st.code[u], st.slot[x], st.scanned);
            }
        } else {
            assert(x == w);
            assert(st.visited[y]);
        }
    }
    assert forall|v: int, q: Seq<usize>| 0 <= v < n && nx.visited[v] implies #[trigger] beats(
        links,
        root,
        v,
        nx.depth[v],
        nx.code[v],
        q,
    ) by {
        if v != w {
            assert(beats(links, root, v, st.depth[v], st.code[v], q));
        } else {
            lemma_new_node_beats(links, root, st, q);
        }
    }
}

} // verus!
