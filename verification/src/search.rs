//! Breadth-first search over the word graph, and the shortest chain of linked
//! words that it finds.

use crate::graph::{
    arena_map, has_edge, is_arena, lemma_arena_index, names, words_of, Adjacency, Graph, Word,
};
use crate::path::{
    connected, first_index, is_path, is_preferred, is_recorded, joins, lemma_alone_preferred,
    lemma_first_index, lemma_first_index_unique, lemma_lex_le_antisymmetric,
    lemma_lex_lt_irreflexive, lemma_nothing_before_root, lemma_preferred_unique, lex_le, lex_lt,
    met_before, route, shortlex_lt,
};
use crate::queue::Queue;
use crate::sweep::{
    beats, current, id_path, id_route, lemma_path_bound, lemma_path_stays, lemma_routes_advance,
    lemma_routes_discover, lemma_routes_skip, lemma_routes_start, lemma_sweep_advance,
    lemma_sweep_bounded, lemma_sweep_discover, lemma_sweep_skip, lemma_sweep_start, sweep_advance,
    sweep_discover, sweep_inv, sweep_routes, sweep_skip, sweep_start, Sweep,
};
use crate::word::same_word;
use vstd::prelude::*;

verus! {

/// The words met when walking `d` times from `v` to the recorded parent, in
/// the order from the last one met to `v`.
pub open spec fn trail(parents: Map<Word, Word>, v: Word, d: nat) -> Seq<Word>
    decreases d,
{
    if d == 0 {
        seq![v]
    } else {
        trail(parents, parents[v], (d - 1) as nat).push(v)
    }
}

/// Walking from `v` to the recorded parent reaches `root` after exactly `d`
/// steps, and not before.
pub open spec fn leads_back(parents: Map<Word, Word>, root: Word, v: Word, d: nat) -> bool
    decreases d,
{
    if d == 0 {
        v == root
    } else {
        v != root && parents.contains_key(v) && leads_back(
            parents,
            root,
            parents[v],
            (d - 1) as nat,
        )
    }
}

/// The recorded parents lead from `goal` back to `root`, and the words met on
/// the way are, from `root` to `goal`, the preferred chain between the two.
pub open spec fn records_preferred(
    m: Adjacency,
    parents: Map<Word, Word>,
    root: Word,
    goal: Word,
) -> bool {
    exists|d: nat| #[trigger]
        leads_back(parents, root, goal, d) && is_preferred(m, trail(parents, goal, d), root, goal)
}

/// In the list of a node's words a word has the place that its node has in
/// the node's links.
proof fn lemma_first_index_names(labels: Seq<Word>, ids: Seq<usize>, j: usize)
    requires
        labels.no_duplicates(),
        forall|k: int| 0 <= k < ids.len() ==> (#[trigger] ids[k]) < labels.len(),
        j < labels.len(),
        ids.contains(j),
    ensures
        first_index(names(ids, labels), labels[j as int]) == first_index(ids, j),
{
    lemma_first_index(ids, j);
    let f = first_index(ids, j);
    let list = names(ids, labels);
    assert(list[f] == labels[j as int]);
    assert forall|t: int| 0 <= t < f implies list[t] != labels[j as int] by {
        assert(ids[t] != j);
        assert(list[t] == labels[ids[t] as int]);
    }
    lemma_first_index_unique(list, labels[j as int], f);
}

/// The model of recorded parents: each word whose node has a parent, with the
/// word of that parent.
pub open spec fn parent_words(labels: Seq<Word>, parent: Seq<Option<usize>>) -> Map<Word, Word> {
    Map::new(
        |w: Word| labels.contains(w) && parent[labels.index_of(w)] is Some,
        |w: Word| labels[parent[labels.index_of(w)].unwrap() as int],
    )
}

/// The node numbers of a chain of words.
spec fn ids_of(labels: Seq<Word>, q: Seq<Word>) -> Seq<usize> {
    Seq::new(q.len(), |k: int| labels.index_of(q[k]) as usize)
}

/// A chain of two or more words runs through words of the graph only, and
/// their nodes form a chain of nodes.
proof fn lemma_word_path_ids(labels: Seq<Word>, links: Seq<Seq<usize>>, q: Seq<Word>)
    requires
        is_arena(labels, links),
        labels.len() <= usize::MAX,
        is_path(arena_map(labels, links), q),
        q.len() >= 2,
    ensures
        id_path(links, ids_of(labels, q)),
        ids_of(labels, q).len() == q.len(),
        forall|k: int|
            0 <= k < q.len() ==> labels.contains(#[trigger] q[k]) && labels[ids_of(
                labels,
                q,
            )[k] as int] == q[k],
{
    let m = arena_map(labels, links);
    let ids = ids_of(labels, q);
    assert forall|k: int| 0 <= k < q.len() - 1 implies labels.contains(#[trigger] q[k])
        && labels.contains(q[k + 1]) && links[labels.index_of(q[k])].contains(
        labels.index_of(q[k + 1]) as usize,
    ) by {
        assert(has_edge(m, q[k], q[k + 1]));
        let i = labels.index_of(q[k]);
        let list = names(links[i], labels);
        assert(list.contains(q[k + 1]));
        let t = list.index_of(q[k + 1]);
        let j = links[i][t];
        assert(labels[j as int] == q[k + 1]);
        lemma_arena_index(labels, j as int);
    }
    assert forall|k: int| 0 <= k < q.len() implies labels.contains(#[trigger] q[k]) && labels[ids[k] as int]
        == q[k] && ids[k] < links.len() by {
        if k < q.len() - 1 {
            assert(labels.contains(q[k]));
        } else {
            let _ = q[k - 1];
            assert(labels.contains(q[k - 1 + 1]));
        }
    }
    assert forall|k: int| 0 <= k < ids.len() - 1 implies links[(#[trigger] ids[k]) as int].contains(
        ids[k + 1],
    ) by {
        let _ = q[k];
    }
}

/// The recorded parents lead from a found node back to the root on as many
/// steps as the search needed for it, along a chain of the graph.
proof fn lemma_tree_trail(
    labels: Seq<Word>,
    links: Seq<Seq<usize>>,
    root: int,
    st: Sweep,
    v: int,
)
    requires
        is_arena(labels, links),
        sweep_inv(links, root, st),
        sweep_routes(links, root, st),
        0 <= v < links.len(),
        st.visited[v],
    ensures
        ({
            let parents = parent_words(labels, st.parent);
            let t = trail(parents, labels[v], st.depth[v]);
            &&& leads_back(parents, labels[root], labels[v], st.depth[v])
            &&& joins(arena_map(labels, links), t, labels[root], labels[v])
            &&& t.len() == st.depth[v] + 1
            &&& route(arena_map(labels, links), t) == st.code[v]
        }),
    decreases st.depth[v],
{
    let m = arena_map(labels, links);
    let parents = parent_words(labels, st.parent);
    let d = st.depth[v];
    if v == root {
        assert(is_path(m, seq![labels[v]]));
        assert(st.code[v].len() == 0);
        assert(route(m, seq![labels[v]]) =~= st.code[v]);
    } else {
        let _ = st.parent[v];
        let p = st.parent[v].unwrap() as int;
        lemma_tree_trail(labels, links, root, st, p);
        lemma_arena_index(labels, v);
        lemma_arena_index(labels, p);
        assert(parents.contains_key(labels[v]));
        assert(parents[labels[v]] == labels[p]);
        let inner = trail(parents, labels[p], st.depth[p]);
        let t = trail(parents, labels[v], d);
        assert(t == inner.push(labels[v]));
        assert(has_edge(m, labels[p], labels[v])) by {
            let idx = links[p].index_of(v as usize);
            assert(links[p][idx] == v);
            assert(names(links[p], labels)[idx] == labels[v]);
        }
        assert forall|k: int| 0 <= k < t.len() - 1 implies has_edge(m, #[trigger] t[k], t[k + 1]) by {
            if k < inner.len() - 1 {
                assert(t[k] == inner[k] && t[k + 1] == inner[k + 1]);
            }
        }
        let _ = st.slot[v];
        lemma_first_index_names(labels, links[p], v as usize);
        lemma_first_index_unique(links[p], v as usize, st.slot[v]);
        assert(m[labels[p]] == names(links[p], labels));
        assert(route(m, t) =~= route(m, inner).push(st.slot[v])) by {
            assert forall|k: int| 0 <= k < inner.len() - 1 implies route(m, t)[k] == route(
                m,
                inner,
            )[k] by {
                assert(t[k] == inner[k] && t[k + 1] == inner[k + 1]);
            }
            assert(t[inner.len() - 1] == labels[p]);
            assert(t[inner.len() as int] == labels[v]);
        }
    }
}

/// A chain of two or more words takes the links that the chain of its nodes
/// takes.
proof fn lemma_route_ids(labels: Seq<Word>, links: Seq<Seq<usize>>, q: Seq<Word>)
    requires
        is_arena(labels, links),
        labels.len() <= usize::MAX,
        is_path(arena_map(labels, links), q),
        q.len() >= 2,
    ensures
        route(arena_map(labels, links), q) == id_route(links, ids_of(labels, q)),
{
    let m = arena_map(labels, links);
    let ids = ids_of(labels, q);
    lemma_word_path_ids(labels, links, q);
    assert forall|k: int| 0 <= k < q.len() - 1 implies route(m, q)[k] == id_route(links, ids)[k] by {
        let i = ids[k] as int;
        let j = ids[k + 1];
        assert(labels.contains(q[k]) && labels[i] == q[k]);
        assert(labels.contains(q[k + 1]) && labels[j as int] == q[k + 1]);
        lemma_arena_index(labels, i);
        assert(m[q[k]] == names(links[i], labels));
        assert(links[i].contains(j));
        lemma_first_index_names(labels, links[i], j);
    }
    assert(route(m, q) =~= id_route(links, ids));
}

/// While a search has a current node, the recorded parents lead from every
/// found node back to the root along the preferred chain.
proof fn lemma_found_preferred(
    labels: Seq<Word>,
    links: Seq<Seq<usize>>,
    root: int,
    v: int,
    st: Sweep,
)
    requires
        is_arena(labels, links),
        labels.len() <= usize::MAX,
        sweep_inv(links, root, st),
        sweep_routes(links, root, st),
        st.head < st.order.len(),
        0 <= v < links.len(),
        st.visited[v],
    ensures
        ({
            let parents = parent_words(labels, st.parent);
            &&& leads_back(parents, labels[root], labels[v], st.depth[v])
            &&& is_preferred(
                arena_map(labels, links),
                trail(parents, labels[v], st.depth[v]),
                labels[root],
                labels[v],
            )
        }),
{
    let m = arena_map(labels, links);
    let parents = parent_words(labels, st.parent);
    lemma_tree_trail(labels, links, root, st, v);
    let t = trail(parents, labels[v], st.depth[v]);
    lemma_arena_index(labels, root);
    lemma_arena_index(labels, v);
    assert forall|q: Seq<Word>| #[trigger] joins(m, q, labels[root], labels[v]) implies t.len()
        <= q.len() by {
        if q.len() >= 2 {
            lemma_word_path_ids(labels, links, q);
            let ids = ids_of(labels, q);
            let last = q.len() - 1;
            assert(ids[0] == root);
            assert(ids[last] == v);
            lemma_path_bound(links, root, st, ids, last);
            assert(st.depth[v] <= st.depth[current(st)] + 1);
        } else {
            assert(q[0] == labels[root] && q[0] == labels[v]);
            assert(v == root);
        }
    }
    assert forall|q: Seq<Word>| #[trigger]
        joins(m, q, labels[root], labels[v]) && q.len() == t.len() implies lex_le(
        route(m, t),
        route(m, q),
    ) by {
        if q.len() >= 2 {
            lemma_word_path_ids(labels, links, q);
            lemma_route_ids(labels, links, q);
            let ids = ids_of(labels, q);
            assert(ids[0] == root);
            assert(ids[q.len() - 1] == v);
            assert(beats(links, root, v, st.depth[v], st.code[v], ids));
        } else {
            assert(route(m, t) =~= route(m, q));
        }
    }
}

/// A word with a recorded parent is the word of a found node other than the
/// root.
proof fn lemma_recorded_is_found(
    labels: Seq<Word>,
    links: Seq<Seq<usize>>,
    root: int,
    st: Sweep,
    w: Word,
)
    requires
        is_arena(labels, links),
        sweep_inv(links, root, st),
        parent_words(labels, st.parent).contains_key(w),
    ensures
        labels.contains(w),
        st.visited[labels.index_of(w)],
        w != labels[root],
{
    let i = labels.index_of(w);
    let _ = st.parent[i];
}

/// When the goal becomes the current node, a word with a recorded parent
/// stands in the list of a word met before the goal.
proof fn lemma_recorded_forward(
    labels: Seq<Word>,
    links: Seq<Seq<usize>>,
    root: int,
    goal: int,
    st: Sweep,
    w: Word,
)
    requires
        is_arena(labels, links),
        labels.len() <= usize::MAX,
        sweep_inv(links, root, st),
        sweep_routes(links, root, st),
        st.head < st.order.len(),
        current(st) == goal,
        st.scanned == 0,
        parent_words(labels, st.parent).contains_key(w),
    ensures
        is_recorded(arena_map(labels, links), labels[root], labels[goal], w),
{
    let m = arena_map(labels, links);
    let pm = parent_words(labels, st.parent);
    let rw = labels[root];
    let gw = labels[goal];
    assert(st.order[st.head] == goal);
    lemma_found_preferred(labels, links, root, goal, st);
    lemma_tree_trail(labels, links, root, st, goal);
    let tg = trail(pm, gw, st.depth[goal]);
    lemma_recorded_is_found(labels, links, root, st, w);
    let i = labels.index_of(w);
    let _ = st.parent[i];
    let _ = st.slot[i];
    let p = st.parent[i].unwrap() as int;
    lemma_arena_index(labels, p);
    assert(has_edge(m, labels[p], w)) by {
        let idx = links[p].index_of(i as usize);
        assert(links[p][idx] == i);
        assert(names(links[p], labels)[idx] == w);
    }
    lemma_found_preferred(labels, links, root, p, st);
    lemma_tree_trail(labels, links, root, st, p);
    let tp = trail(pm, labels[p], st.depth[p]);
    assert(st.pos[p] < st.head);
    assert(st.depth[p] <= st.depth[goal]);
    assert(st.code[p].len() == st.depth[p]);
    assert(st.code[goal].len() == st.depth[goal]);
    if st.depth[p] == st.depth[goal] {
        assert(lex_lt(st.code[p], st.code[goal]));
    }
    assert(shortlex_lt(route(m, tp), route(m, tg)));
    assert(is_preferred(m, tp, rw, labels[p]) && is_preferred(m, tg, rw, gw));
    assert(met_before(m, rw, labels[p], gw));
}

/// While a search has a current node, a word to which a chain leads that is
/// no longer than the search's way to the current node is the word of a
/// found node, and the links of that chain come no earlier than those by
/// which the search reached the node.
proof fn lemma_near_is_found(
    labels: Seq<Word>,
    links: Seq<Seq<usize>>,
    root: int,
    st: Sweep,
    c: Seq<Word>,
    pw: Word,
)
    requires
        is_arena(labels, links),
        labels.len() <= usize::MAX,
        sweep_inv(links, root, st),
        sweep_routes(links, root, st),
        st.head < st.order.len(),
        labels.contains(pw),
        is_preferred(arena_map(labels, links), c, labels[root], pw),
        c.len() <= st.depth[current(st)] + 1,
    ensures
        st.visited[labels.index_of(pw)],
        route(arena_map(labels, links), c) == st.code[labels.index_of(pw)],
{
    let m = arena_map(labels, links);
    let pm = parent_words(labels, st.parent);
    let rw = labels[root];
    let a = labels.index_of(pw);
    lemma_arena_index(labels, root);
    lemma_arena_index(labels, a);
    assert(joins(m, c, rw, pw));
    if c.len() >= 2 {
        lemma_word_path_ids(labels, links, c);
        let ids = ids_of(labels, c);
        let last = c.len() - 1;
        assert(ids[0] == root);
        assert(ids[last] == a);
        lemma_path_bound(links, root, st, ids, last);
    } else {
        assert(c[0] == rw && c[0] == pw);
        assert(a == root);
    }
    assert(st.visited[a]);
    lemma_found_preferred(labels, links, root, a, st);
    lemma_tree_trail(labels, links, root, st, a);
    let ta = trail(pm, pw, st.depth[a]);
    lemma_preferred_unique(m, c, ta, rw, pw);
}

/// Of two found nodes the one whose links come first was found first.
proof fn lemma_earlier_code_earlier_pos(links: Seq<Seq<usize>>, root: int, st: Sweep, a: int, b: int)
    requires
        sweep_inv(links, root, st),
        sweep_routes(links, root, st),
        0 <= a < links.len(),
        0 <= b < links.len(),
        st.visited[a],
        st.visited[b],
        shortlex_lt(st.code[a], st.code[b]),
    ensures
        st.pos[a] < st.pos[b],
{
    assert(st.code[a].len() == st.depth[a]);
    assert(st.code[b].len() == st.depth[b]);
    if st.pos[a] >= st.pos[b] {
        if st.pos[a] == st.pos[b] {
            assert(st.order[st.pos[a]] == a);
            assert(st.order[st.pos[b]] == b);
            lemma_lex_lt_irreflexive(st.code[a]);
        } else {
            assert(st.depth[b] <= st.depth[a]);
            assert(lex_lt(st.code[a], st.code[b]));
            assert(lex_lt(st.code[b], st.code[a]));
            lemma_lex_le_antisymmetric(st.code[a], st.code[b]);
            lemma_lex_lt_irreflexive(st.code[a]);
        }
    }
}

/// When the goal becomes the current node, a word other than the root's
/// that stands in the list of a word met before the goal has a recorded
/// parent.
proof fn lemma_recorded_backward(
    labels: Seq<Word>,
    links: Seq<Seq<usize>>,
    root: int,
    goal: int,
    st: Sweep,
    w: Word,
)
    requires
        is_arena(labels, links),
        labels.len() <= usize::MAX,
        sweep_inv(links, root, st),
        sweep_routes(links, root, st),
        st.head < st.order.len(),
        current(st) == goal,
        st.scanned == 0,
        is_recorded(arena_map(labels, links), labels[root], labels[goal], w),
    ensures
        parent_words(labels, st.parent).contains_key(w),
{
    let m = arena_map(labels, links);
    let pm = parent_words(labels, st.parent);
    let rw = labels[root];
    let gw = labels[goal];
    assert(st.order[st.head] == goal);
    lemma_arena_index(labels, goal);
    let pw = choose|p: Word| has_edge(m, p, w) && #[trigger] met_before(m, rw, p, gw);
    let (ca, cb) = choose|ca: Seq<Word>, cb: Seq<Word>|
        #![trigger is_preferred(m, ca, rw, pw), is_preferred(m, cb, rw, gw)]
        is_preferred(m, ca, rw, pw) && is_preferred(m, cb, rw, gw) && shortlex_lt(
            route(m, ca),
            route(m, cb),
        );
    assert(joins(m, cb, rw, gw));
    assert(joins(m, ca, rw, pw));
    lemma_found_preferred(labels, links, root, goal, st);
    lemma_tree_trail(labels, links, root, st, goal);
    let tg = trail(pm, gw, st.depth[goal]);
    lemma_preferred_unique(m, cb, tg, rw, gw);
    assert(labels.contains(pw));
    let a = labels.index_of(pw);
    assert(route(m, ca).len() == ca.len() - 1);
    assert(route(m, cb).len() == cb.len() - 1);
    lemma_near_is_found(labels, links, root, st, ca, pw);
    lemma_earlier_code_earlier_pos(links, root, st, a, goal);
    let list = names(links[a], labels);
    assert(list.contains(w));
    let t = list.index_of(w);
    let i = links[a][t] as int;
    assert(labels[i] == w);
    lemma_arena_index(labels, i);
    lemma_arena_index(labels, root);
    assert(st.visited[links[a][t] as int]);
    let _ = st.parent[i];
}

/// When every found node has had its links followed and the goal is not
/// among them, no chain leads from the root to the goal.
proof fn lemma_goal_missed(
    labels: Seq<Word>,
    links: Seq<Seq<usize>>,
    root: int,
    goal: int,
    st: Sweep,
)
    requires
        is_arena(labels, links),
        labels.len() <= usize::MAX,
        sweep_inv(links, root, st),
        st.head == st.order.len(),
        0 <= goal < links.len(),
        !st.visited[goal],
    ensures
        !connected(arena_map(labels, links), labels[root], labels[goal]),
{
    let m = arena_map(labels, links);
    lemma_arena_index(labels, root);
    lemma_arena_index(labels, goal);
    assert forall|q: Seq<Word>| !joins(m, q, labels[root], labels[goal]) by {
        if joins(m, q, labels[root], labels[goal]) {
            assert(q.len() >= 2);
            lemma_word_path_ids(labels, links, q);
            let ids = ids_of(labels, q);
            let last = q.len() - 1;
            assert(ids[0] == root);
            assert(ids[last] == goal);
            lemma_path_stays(links, root, st, ids, last);
        }
    }
}

/// No chain leads from a word to another word that the graph does not hold,
/// nor from a word that the graph does not hold to another word.
proof fn lemma_stranger_unconnected(labels: Seq<Word>, links: Seq<Seq<usize>>, a: Word, b: Word)
    requires
        is_arena(labels, links),
        labels.len() <= usize::MAX,
        a != b,
        !labels.contains(a) || !labels.contains(b),
    ensures
        !connected(arena_map(labels, links), a, b),
{
    let m = arena_map(labels, links);
    assert forall|q: Seq<Word>| !joins(m, q, a, b) by {
        if joins(m, q, a, b) {
            assert(q.len() >= 2);
            lemma_word_path_ids(labels, links, q);
            assert(labels.contains(q[0]));
            assert(labels.contains(q[q.len() - 1]));
        }
    }
}

/// Why a search found no chain.
#[derive(Debug, Clone, Copy, PartialEq, Eq)]
pub enum SearchError<'g> {
    /// The word, other than the goal, from which the search was to start is
    /// not a word of the graph.
    InvalidWord(&'g str),
    /// No chain of linked words leads from the start to the goal.
    NoPathFound,
}

/// What a search for a chain may answer, with words as character sequences.
pub enum Outcome {
    /// The chain that was found.
    Chain(Seq<Word>),
    /// The word that was refused as a start.
    InvalidWord(Word),
    /// There is no chain.
    NoPathFound,
}

/// The answer that a result of `find_shortest_path` stands for.
pub open spec fn outcome_of(result: Result<Vec<&str>, SearchError>) -> Outcome {
    match result {
        Ok(path) => Outcome::Chain(words_of(path@)),
        Err(SearchError::InvalidWord(w)) => Outcome::InvalidWord(w@),
        Err(SearchError::NoPathFound) => Outcome::NoPathFound,
    }
}

/// The answer `o` is the right one for a search from `start` to `stop`: the
/// preferred chain where there is a chain; `start` as an invalid word where
/// it differs from `stop` and the graph does not hold it; and no path where
/// the graph holds `start` and no chain leads from it to `stop`.
pub open spec fn is_outcome(m: Adjacency, start: Word, stop: Word, o: Outcome) -> bool {
    match o {
        Outcome::Chain(p) => is_preferred(m, p, start, stop),
        Outcome::InvalidWord(w) => w == start && start != stop && !m.contains_key(start),
        Outcome::NoPathFound => start != stop && m.contains_key(start) && !connected(
            m,
            start,
            stop,
        ),
    }
}

/// A search has one right answer only: whatever meets the contract of
/// `find_shortest_path` for a graph and two words is the same answer, so two
/// searches of one graph between the same words agree.
pub proof fn lemma_outcome_unique(m: Adjacency, start: Word, stop: Word, o1: Outcome, o2: Outcome)
    requires
        is_outcome(m, start, stop, o1),
        is_outcome(m, start, stop, o2),
    ensures
        o1 == o2,
{
    if let Outcome::Chain(p) = o1 {
        lemma_chain_excludes_failure(m, start, stop, p);
    }
    if let Outcome::Chain(q) = o2 {
        lemma_chain_excludes_failure(m, start, stop, q);
    }
    if let Outcome::Chain(p) = o1 {
        if let Outcome::Chain(q) = o2 {
            lemma_preferred_unique(m, p, q, start, stop);
        }
    }
}

/// Where a chain leads from `start` to `stop`, the two are connected, and
/// the graph holds `start` unless it is `stop`.
pub proof fn lemma_chain_excludes_failure(m: Adjacency, start: Word, stop: Word, p: Seq<Word>)
    requires
        joins(m, p, start, stop),
    ensures
        connected(m, start, stop),
        start != stop ==> m.contains_key(start),
{
    if start != stop {
        assert(p.len() >= 2);
        assert(has_edge(m, p[0], p[1]));
    }
}

/// A word is always connected with itself, and a word that the graph does
/// not hold with no other.
pub proof fn lemma_connected_cases(m: Adjacency, start: Word, stop: Word)
    ensures
        start == stop ==> connected(m, start, stop),
        start != stop && !m.contains_key(start) ==> !connected(m, start, stop),
{
    if start == stop {
        assert(is_path(m, seq![start]));
        assert(joins(m, seq![start], start, stop));
    } else if !m.contains_key(start) {
        assert forall|p: Seq<Word>| !joins(m, p, start, stop) by {
            if joins(m, p, start, stop) {
                lemma_chain_excludes_failure(m, start, stop, p);
            }
        }
    }
}

/// For each word that a search found, other than the root, the word from
/// which it was found first.
pub struct ParentMap<'a, 'g> {
    graph: &'a Graph<'g>,
    parent: Vec<Option<usize>>,
}

impl<'a, 'g> View for ParentMap<'a, 'g> {
    type V = Map<Word, Word>;

    closed spec fn view(&self) -> Map<Word, Word> {
        parent_words(self.graph.labels(), self.parent@)
    }
}

impl<'a, 'g> ParentMap<'a, 'g> {
    #[verifier::type_invariant]
    spec fn well_formed(&self) -> bool {
        &&& self.parent@.len() == self.graph.labels().len()
        &&& forall|i: int|
            0 <= i < self.parent@.len() ==> match #[trigger] self.parent@[i] {
                Some(p) => p < self.parent@.len(),
                None => true,
            }
    }

    /// The parent recorded for `word`, if there is one.
    pub fn get(&self, word: &str) -> (found: Option<&'g str>)
        ensures
            match found {
                Some(p) => self@.contains_key(word@) && p@ == self@[word@],
                None => !self@.contains_key(word@),
            },
    {
        proof {
            use_type_invariant(self);
        }
        let _nodes: usize = self.graph.node_count();
        match self.graph.node_id(word) {
            None => None,
            Some(id) => {
                proof {
                    lemma_arena_index(self.graph.labels(), id as int);
                }
                match self.parent[id] {
                    None => None,
                    Some(p) => {
                        assert(self.parent@[id as int] == Some(p));
                        Some(self.graph.label(p))
                    },
                }
            },
        }
    }
}

/// A vector of `n` copies of `value`.
fn repeated<T: Copy>(value: T, n: usize) -> (v: Vec<T>)
    ensures
        v@ == Seq::new(n as nat, |i: int| value),
{
    let mut v: Vec<T> = Vec::new();
    let mut i: usize = 0;
    while i < n
        invariant
            i <= n,
            v@ == Seq::new(i as nat, |k: int| value),
        decreases n - i,
    {
        v.push(value);
        i += 1;
        assert(v@ =~= Seq::new(i as nat, |k: int| value));
    }
    v
}

/// Searches the graph breadth first from `root` until `goal` is met. The
/// words found are taken in the order in which they were found, and the
/// links of each in the order of its list; a word found for the first time is
/// recorded with the word whose link led to it.
///
/// On success the goal comes back with the recorded parents. A word has one
/// exactly where it is not the root and stands in the list of a word that
/// the search met before the goal. They lead from the goal, and from every
/// other word that has one, back to the root along the preferred chain: a
/// shortest one, and among the shortest ones the one that takes the earliest
/// links. A root that is the goal is met at once, whether or not the graph
/// holds it, and nothing is recorded.
///
/// Otherwise a root that the graph does not hold is an invalid word, and
/// there is no path where the graph holds the root and no chain leads from
/// it to the goal.
pub fn bfs<'a, 'g>(graph: &'a Graph<'g>, root: &'g str, goal: &'g str) -> (result: Result<
    (&'g str, ParentMap<'a, 'g>),
    SearchError<'g>,
>)
    ensures
        match result {
            Ok(found) => {
                &&& found.0@ == goal@
                &&& records_preferred(graph@, found.1@, root@, goal@)
                &&& forall|w: Word| #[trigger]
                    found.1@.contains_key(w) <==> is_recorded(graph@, root@, goal@, w)
                &&& forall|w: Word| #[trigger]
                    found.1@.contains_key(w) ==> records_preferred(graph@, found.1@, root@, w)
            },
            Err(SearchError::InvalidWord(w)) => w@ == root@ && root@ != goal@
                && !graph@.contains_key(root@),
            Err(SearchError::NoPathFound) => root@ != goal@ && graph@.contains_key(root@)
                && !connected(graph@, root@, goal@),
        },
{
    let n = graph.node_count();
    let ghost labels = graph.labels();
    let ghost links = graph.links();
    let mut parent: Vec<Option<usize>> = repeated(None, n);
    if same_word(root, goal) {
        let parents = ParentMap { graph, parent };
        proof {
            lemma_alone_preferred(graph@, goal@);
            assert(leads_back(parents@, root@, goal@, 0));
            assert(trail(parents@, goal@, 0) == seq![goal@]);
            assert forall|w: Word| !is_recorded(graph@, root@, goal@, w) by {
                assert forall|p: Word| !met_before(graph@, root@, p, goal@) by {
                    lemma_nothing_before_root(graph@, root@, p);
                }
            }
        }
        return Ok((goal, parents));
    }
    let root_id = match graph.node_id(root) {
        Some(id) => id,
        None => {
            return Err(SearchError::InvalidWord(root));
        },
    };
    let goal_id = match graph.node_id(goal) {
        Some(id) => id,
        None => {
            proof {
                lemma_stranger_unconnected(labels, links, root@, goal@);
            }
            return Err(SearchError::NoPathFound);
        },
    };
    let mut q: Queue<usize> = Queue::new();
    let mut visited: Vec<bool> = repeated(false, n);
    visited.set(root_id, true);
    q.enqueue(root_id);
    let ghost mut st = sweep_start(n as nat, root_id as int);
    proof {
        lemma_sweep_start(links, root_id as int);
        lemma_routes_start(links, root_id as int);
        assert(visited@ =~= st.visited);
        assert(parent@ =~= st.parent);
        assert(q@ =~= st.order.skip(0));
    }
    while !q.is_empty()
        invariant
            n == links.len(),
            labels == graph.labels(),
            links == graph.links(),
            is_arena(labels, links),
            root_id < n,
            goal_id < n,
            root_id != goal_id,
            labels[root_id as int] == root@,
            labels[goal_id as int] == goal@,
            sweep_inv(links, root_id as int, st),
            sweep_routes(links, root_id as int, st),
            st.scanned == 0,
            visited@ == st.visited,
            parent@ == st.parent,
            q@ == st.order.skip(st.head),
            forall|v: int| 0 <= v < n && #[trigger] st.visited[v] && st.pos[v] < st.head ==> v != goal_id,
        decreases n - st.head,
    {
        let v = q.dequeue().unwrap();
        proof {
            lemma_sweep_bounded(links, root_id as int, st);
        }
        assert(v == st.order[st.head]);
        if v == goal_id {
            proof {
                lemma_found_preferred(labels, links, root_id as int, goal_id as int, st);
            }
            let parents = ParentMap { graph, parent };
            proof {
                let d = st.depth[goal_id as int];
                assert(parents@ == parent_words(labels, st.parent));
                assert(leads_back(parents@, root@, goal@, d));
                assert(is_preferred(graph@, trail(parents@, goal@, d), root@, goal@));
                assert(records_preferred(graph@, parents@, root@, goal@));
                assert forall|w: Word| #[trigger]
                    parents@.contains_key(w) <==> is_recorded(graph@, root@, goal@, w) by {
                    if parents@.contains_key(w) {
                        lemma_recorded_forward(labels, links, root_id as int, goal_id as int, st, w);
                    }
                    if is_recorded(graph@, root@, goal@, w) {
                        lemma_recorded_backward(labels, links, root_id as int, goal_id as int, st, w);
                    }
                }
                assert forall|w: Word| #[trigger] parents@.contains_key(w) implies w != root@
                    && records_preferred(graph@, parents@, root@, w) by {
                    lemma_recorded_is_found(labels, links, root_id as int, st, w);
                    let i = labels.index_of(w);
                    lemma_found_preferred(labels, links, root_id as int, i, st);
                    assert(leads_back(parents@, root@, w, st.depth[i]));
                }
            }
            return Ok((goal, parents));
        }
        let nbrs = graph.links_of(v);
        let mut idx: usize = 0;
        let ghost head = st.head;
        while idx < nbrs.len()
            invariant
                n == links.len(),
                links == graph.links(),
                root_id < n,
                v < n,
                v != goal_id,
                sweep_inv(links, root_id as int, st),
                sweep_routes(links, root_id as int, st),
                st.head == head,
                st.head < st.order.len(),
                current(st) == v,
                nbrs@ == links[v as int],
                idx == st.scanned,
                idx <= nbrs@.len(),
                visited@ == st.visited,
                parent@ == st.parent,
                q@ == st.order.skip(st.head + 1),
                forall|x: int|
                    0 <= x < n && #[trigger] st.visited[x] && st.pos[x] < st.head ==> x != goal_id,
            decreases nbrs@.len() - idx,
        {
            let w = nbrs[idx];
            assert(w == links[v as int][idx as int]);
            if !visited[w] {
                proof {
                    lemma_sweep_discover(links, root_id as int, st);
                    lemma_routes_discover(links, root_id as int, st);
                }
                visited.set(w, true);
                parent.set(w, Some(v));
                q.enqueue(w);
                proof {
                    st = sweep_discover(links, st);
                    assert(q@ =~= st.order.skip(st.head + 1));
                }
            } else {
                proof {
                    lemma_sweep_skip(links, root_id as int, st);
                    lemma_routes_skip(links, root_id as int, st);
                    st = sweep_skip(st);
                }
            }
            idx += 1;
        }
        proof {
            lemma_sweep_advance(links, root_id as int, st);
            lemma_routes_advance(links, root_id as int, st);
            st = sweep_advance(st);
        }
    }
    proof {
        assert(st.head == st.order.len());
        lemma_goal_missed(labels, links, root_id as int, goal_id as int, st);
    }
    Err(SearchError::NoPathFound)
}

/// A walk of `d` steps meets `d + 1` words and ends with the word it began
/// at; before that word stand the words of the walk from its parent.
proof fn lemma_trail_shape(parents: Map<Word, Word>, v: Word, d: nat)
    ensures
        trail(parents, v, d).len() == d + 1,
        trail(parents, v, d)[d as int] == v,
        d > 0 ==> forall|k: int|
            0 <= k < d ==> #[trigger] trail(parents, v, d)[k] == trail(
                parents,
                parents[v],
                (d - 1) as nat,
            )[k],
    decreases d,
{
    if d > 0 {
        lemma_trail_shape(parents, parents[v], (d - 1) as nat);
    }
}

/// The items of `v` from the last to the first.
fn reversed<T: Copy>(v: &Vec<T>) -> (r: Vec<T>)
    ensures
        r@ == v@.reverse(),
{
    let mut r: Vec<T> = Vec::new();
    let mut k: usize = v.len();
    while k > 0
        invariant
            k <= v@.len(),
            r@.len() == v@.len() - k,
            forall|j: int| 0 <= j < r@.len() ==> r@[j] == v@[v@.len() - 1 - j],
        decreases k,
    {
        k -= 1;
        r.push(v[k]);
    }
    assert(r@ =~= v@.reverse());
    r
}

/// The preferred chain of linked words from `start` to `end`: a shortest one,
/// and among the shortest ones the one that takes the earliest links. It is
/// the chain that a breadth-first search from `start` finds, read from the
/// parents that the search recorded.
///
/// A chain is owed exactly where one exists; `start` alone is the chain where
/// the two words are the same. Otherwise a `start` that the graph does not
/// hold is reported as invalid, and any other pair of words without a chain
/// as having no path.
pub fn find_shortest_path<'g>(graph: &Graph<'g>, start: &'g str, end: &'g str) -> (result: Result<
    Vec<&'g str>,
    SearchError<'g>,
>)
    ensures
        is_outcome(graph@, start@, end@, outcome_of(result)),
        result is Ok <==> connected(graph@, start@, end@),
        result matches Err(SearchError::InvalidWord(_)) <==> start@ != end@ && !graph@.contains_key(
            start@,
        ),
        result matches Err(SearchError::NoPathFound) <==> graph@.contains_key(start@) && !connected(
            graph@,
            start@,
            end@,
        ),
        start@ == end@ ==> result is Ok && words_of(result->Ok_0@) == seq![start@],
{
    let (sol, parent_map) = match bfs(graph, start, end) {
        Ok(found) => found,
        Err(e) => {
            proof {
                lemma_connected_cases(graph@, start@, end@);
            }
            return Err(e);
        },
    };
    let ghost parents = parent_map@;
    let ghost d = choose|d: nat| #[trigger]
        leads_back(parents, start@, end@, d) && is_preferred(
            graph@,
            trail(parents, end@, d),
            start@,
            end@,
        );
    let ghost whole = trail(parents, end@, d);
    let ghost mut left: nat = d;
    let mut ptr = sol;
    let mut path: Vec<&'g str> = Vec::new();
    proof {
        lemma_trail_shape(parents, end@, d);
    }
    while !same_word(ptr, start)
        invariant
            parents == parent_map@,
            whole == trail(parents, end@, d),
            whole.len() == d + 1,
            left <= d,
            path@.len() == d - left,
            leads_back(parents, start@, ptr@, left),
            forall|k: int| 0 <= k <= left ==> #[trigger] trail(parents, ptr@, left)[k] == whole[k],
            forall|j: int| 0 <= j < path@.len() ==> (#[trigger] path@[j])@ == whole[d - j],
        decreases left,
    {
        proof {
            lemma_trail_shape(parents, ptr@, left);
        }
        let ghost child = ptr@;
        path.push(ptr);
        ptr = parent_map.get(ptr).unwrap();
        proof {
            assert forall|k: int| 0 <= k <= left - 1 implies #[trigger] trail(
                parents,
                ptr@,
                (left - 1) as nat,
            )[k] == whole[k] by {
                assert(trail(parents, child, left)[k] == whole[k]);
            }
            left = (left - 1) as nat;
        }
    }
    proof {
        lemma_trail_shape(parents, ptr@, left);
    }
    path.push(start);
    let path = reversed(&path);
    proof {
        assert(words_of(path@) =~= whole);
        assert(joins(graph@, whole, start@, end@));
        lemma_chain_excludes_failure(graph@, start@, end@, whole);
        if start@ == end@ {
            assert(is_path(graph@, seq![start@]));
            assert(joins(graph@, seq![start@], start@, end@));
            assert(whole =~= seq![start@]);
        }
    }
    Ok(path)
}

} // verus!
