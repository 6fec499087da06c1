//! Chains of linked words: what a chain is, when one is shortest, and which
//! of several shortest chains is the preferred one.

use crate::graph::{has_edge, Adjacency, Word};
use vstd::prelude::*;

verus! {

/// A chain of words of the graph: each word is linked to the next. A single
/// word is a chain, whether or not the graph holds it.
pub open spec fn is_path(m: Adjacency, p: Seq<Word>) -> bool {
    p.len() >= 1 && forall|k: int| 0 <= k < p.len() - 1 ==> has_edge(m, #[trigger] p[k], p[k + 1])
}

/// The chain `p` begins with `start` and ends with `stop`.
pub open spec fn joins(m: Adjacency, p: Seq<Word>, start: Word, stop: Word) -> bool {
    is_path(m, p) && p[0] == start && p[p.len() - 1] == stop
}

/// Some chain leads from `start` to `stop`.
pub open spec fn connected(m: Adjacency, start: Word, stop: Word) -> bool {
    exists|p: Seq<Word>| joins(m, p, start, stop)
}

/// The chain `p` leads from `start` to `stop`, and no chain that does so is
/// shorter.
pub open spec fn is_shortest(m: Adjacency, p: Seq<Word>, start: Word, stop: Word) -> bool {
    joins(m, p, start, stop) && forall|q: Seq<Word>| #[trigger]
        joins(m, q, start, stop) ==> p.len() <= q.len()
}

/// `i` is the first place at which `v` stands in `list`.
pub open spec fn is_first_index<T>(list: Seq<T>, v: T, i: int) -> bool {
    0 <= i < list.len() && list[i] == v && forall|j: int| 0 <= j < i ==> list[j] != v
}

/// The first place at which `v` stands in `list`.
pub open spec fn first_index<T>(list: Seq<T>, v: T) -> int {
    choose|i: int| is_first_index(list, v, i)
}

/// What stands in a list has a first place there.
pub proof fn lemma_first_index<T>(list: Seq<T>, v: T)
    requires
        list.contains(v),
    ensures
        is_first_index(list, v, first_index(list, v)),
{
    list.index_of_first_ensures(v);
    let i = list.index_of_first(v).unwrap();
    assert(is_first_index(list, v, i));
}

/// There is one first place only.
pub proof fn lemma_first_index_unique<T>(list: Seq<T>, v: T, i: int)
    requires
        is_first_index(list, v, i),
    ensures
        first_index(list, v) == i,
{
    let f = first_index(list, v);
    assert(is_first_index(list, v, f));
    if f < i {
        assert(list[f] != v);
    }
    if i < f {
        assert(list[i] != v);
    }
}

/// The links that a chain takes: for each word but the last, the first place
/// of the next word in its list.
pub open spec fn route(m: Adjacency, p: Seq<Word>) -> Seq<int> {
    Seq::new((p.len() - 1) as nat, |k: int| first_index(m[p[k]], p[k + 1]))
}

/// The two rows of numbers agree before place `k`, and there the first holds
/// the smaller number.
pub open spec fn first_less_at(a: Seq<int>, b: Seq<int>, k: int) -> bool {
    0 <= k < a.len() && k < b.len() && a[k] < b[k] && forall|j: int| 0 <= j < k ==> a[j] == b[j]
}

/// Of two rows of equal length, `a` holds the smaller number at the first
/// place where they differ.
pub open spec fn lex_lt(a: Seq<int>, b: Seq<int>) -> bool {
    a.len() == b.len() && exists|k: int| first_less_at(a, b, k)
}

/// The rows are equal, or `a` comes first.
pub open spec fn lex_le(a: Seq<int>, b: Seq<int>) -> bool {
    a == b || lex_lt(a, b)
}

/// The same number behind both rows keeps their order.
pub proof fn lemma_lex_le_push(a: Seq<int>, b: Seq<int>, x: int)
    requires
        lex_le(a, b),
    ensures
        lex_le(a.push(x), b.push(x)),
{
    if a != b {
        let k = choose|k: int| first_less_at(a, b, k);
        assert(first_less_at(a.push(x), b.push(x), k));
    }
}

/// A row that comes first still does with any numbers behind the two.
pub proof fn lemma_lex_lt_push(a: Seq<int>, b: Seq<int>, x: int, y: int)
    requires
        lex_lt(a, b),
    ensures
        lex_lt(a.push(x), b.push(y)),
{
    let k = choose|k: int| first_less_at(a, b, k);
    assert(first_less_at(a.push(x), b.push(y), k));
}

/// Behind the same row the smaller number comes first.
pub proof fn lemma_lex_lt_last(a: Seq<int>, x: int, y: int)
    requires
        x < y,
    ensures
        lex_lt(a.push(x), a.push(y)),
{
    assert(first_less_at(a.push(x), a.push(y), a.len() as int));
}

/// What comes before a row comes before every row that is not before that
/// one.
pub proof fn lemma_lex_lt_le(a: Seq<int>, b: Seq<int>, c: Seq<int>)
    requires
        lex_lt(a, b),
        lex_le(b, c),
    ensures
        lex_lt(a, c),
{
    if b != c {
        let k1 = choose|k: int| first_less_at(a, b, k);
        let k2 = choose|k: int| first_less_at(b, c, k);
        if k1 <= k2 {
            assert(first_less_at(a, c, k1));
        } else {
            assert(first_less_at(a, c, k2));
        }
    }
}

/// Two rows of which neither comes after the other are equal.
pub proof fn lemma_lex_le_antisymmetric(a: Seq<int>, b: Seq<int>)
    requires
        lex_le(a, b),
        lex_le(b, a),
    ensures
        a == b,
{
    if a != b {
        let k1 = choose|k: int| first_less_at(a, b, k);
        let k2 = choose|k: int| first_less_at(b, a, k);
        if k1 < k2 {
            assert(b[k1] == a[k1]);
        } else if k2 < k1 {
            assert(a[k2] == b[k2]);
        }
    }
}

/// No row comes before itself.
pub proof fn lemma_lex_lt_irreflexive(a: Seq<int>)
    ensures
        !lex_lt(a, a),
{
    assert forall|k: int| !first_less_at(a, a, k) by {}
}

/// The shorter row comes first, and of two rows of equal length the one that
/// holds the smaller number at the first place where they differ.
pub open spec fn shortlex_lt(a: Seq<int>, b: Seq<int>) -> bool {
    a.len() < b.len() || lex_lt(a, b)
}

/// The chain `p` is the preferred one from `start` to `stop`: it is a
/// shortest one, and among the shortest ones it takes the earliest links.
/// That is, at the first word where it parts from another shortest chain it
/// follows a link that stands earlier in that word's list.
pub open spec fn is_preferred(m: Adjacency, p: Seq<Word>, start: Word, stop: Word) -> bool {
    &&& is_shortest(m, p, start, stop)
    &&& forall|q: Seq<Word>| #[trigger]
        joins(m, q, start, stop) && q.len() == p.len() ==> lex_le(route(m, p), route(m, q))
}

/// A breadth-first search from `root` meets `a` before `b`: the preferred
/// chain to `a` is shorter than that to `b`, or as long and takes an earlier
/// link where the two part.
pub open spec fn met_before(m: Adjacency, root: Word, a: Word, b: Word) -> bool {
    exists|ca: Seq<Word>, cb: Seq<Word>|
        #![trigger is_preferred(m, ca, root, a), is_preferred(m, cb, root, b)]
        is_preferred(m, ca, root, a) && is_preferred(m, cb, root, b) && shortlex_lt(
            route(m, ca),
            route(m, cb),
        )
}

/// A breadth-first search from `root` that ends when it meets `goal` has
/// found `w` from another word: `w` is not the root, and it stands in the
/// list of a word that the search met before `goal`.
pub open spec fn is_recorded(m: Adjacency, root: Word, goal: Word, w: Word) -> bool {
    w != root && exists|p: Word| has_edge(m, p, w) && #[trigger] met_before(m, root, p, goal)
}

/// From a word to itself the preferred chain is the word alone.
pub proof fn lemma_alone_preferred(m: Adjacency, w: Word)
    ensures
        is_preferred(m, seq![w], w, w),
{
    let alone = seq![w];
    assert(is_path(m, alone));
    assert forall|q: Seq<Word>| #[trigger] joins(m, q, w, w) && q.len() == alone.len() implies lex_le(
        route(m, alone),
        route(m, q),
    ) by {
        assert(route(m, alone) =~= route(m, q));
    }
}

/// A search meets no word before its root.
pub proof fn lemma_nothing_before_root(m: Adjacency, root: Word, a: Word)
    ensures
        !met_before(m, root, a, root),
{
    assert forall|ca: Seq<Word>, cb: Seq<Word>|
        #![trigger is_preferred(m, ca, root, a), is_preferred(m, cb, root, root)]
        !(is_preferred(m, ca, root, a) && is_preferred(m, cb, root, root) && shortlex_lt(
            route(m, ca),
            route(m, cb),
        )) by {
        if is_preferred(m, cb, root, root) {
            assert(is_path(m, seq![root]));
            assert(joins(m, seq![root], root, root));
            assert(cb.len() == 1);
            assert(route(m, cb).len() == 0);
            assert forall|k: int| !first_less_at(route(m, ca), route(m, cb), k) by {}
        }
    }
}

/// A chain is given by its first word and the links it takes.
pub proof fn lemma_route_gives_chain(m: Adjacency, p: Seq<Word>, q: Seq<Word>, k: int)
    requires
        is_path(m, p),
        is_path(m, q),
        p.len() == q.len(),
        p[0] == q[0],
        route(m, p) == route(m, q),
        0 <= k < p.len(),
    ensures
        p[k] == q[k],
    decreases k,
{
    if k > 0 {
        lemma_route_gives_chain(m, p, q, k - 1);
        let w = p[k - 1];
        assert(has_edge(m, p[k - 1], p[k - 1 + 1]));
        assert(has_edge(m, q[k - 1], q[k - 1 + 1]));
        lemma_first_index(m[w], p[k]);
        lemma_first_index(m[w], q[k]);
        assert(route(m, p)[k - 1] == first_index(m[w], p[k]));
        assert(route(m, q)[k - 1] == first_index(m[w], q[k]));
    }
}

/// Between two words there is one preferred chain at most.
pub proof fn lemma_preferred_unique(
    m: Adjacency,
    p: Seq<Word>,
    q: Seq<Word>,
    start: Word,
    stop: Word,
)
    requires
        is_preferred(m, p, start, stop),
        is_preferred(m, q, start, stop),
    ensures
        p == q,
{
    assert(joins(m, p, start, stop));
    assert(joins(m, q, start, stop));
    assert(p.len() == q.len());
    lemma_lex_le_antisymmetric(route(m, p), route(m, q));
    assert forall|k: int| 0 <= k < p.len() implies p[k] == q[k] by {
        lemma_route_gives_chain(m, p, q, k);
    }
    assert(p =~= q);
}

} // verus!
