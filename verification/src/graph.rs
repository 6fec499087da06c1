//! The word graph: every word that has a partner, with its partners in the
//! order in which they were linked to it.

use crate::word::{is_one_char_diff, one_char_diff, same_word};
use vstd::prelude::*;

verus! {

/// A word, as the sequence of its characters.
pub type Word = Seq<char>;

/// The mathematical model of a graph: each word that has been linked, with the
/// words linked to it, oldest link first.
pub type Adjacency = Map<Word, Seq<Word>>;

/// The words linked to `a` so far; none for a word the graph does not hold.
pub open spec fn adjacency(m: Adjacency, a: Word) -> Seq<Word> {
    if m.contains_key(a) {
        m[a]
    } else {
        Seq::empty()
    }
}

/// `b` stands in the list of words linked to `a`.
pub open spec fn has_edge(m: Adjacency, a: Word, b: Word) -> bool {
    m.contains_key(a) && m[a].contains(b)
}

/// The model after `b` was put at the end of `a`'s list.
pub open spec fn append_neighbor(m: Adjacency, a: Word, b: Word) -> Adjacency {
    m.insert(a, adjacency(m, a).push(b))
}

/// The model after `a` and `b` were linked in both directions.
pub open spec fn link(m: Adjacency, a: Word, b: Word) -> Adjacency {
    append_neighbor(append_neighbor(m, a, b), b, a)
}

/// Every link goes both ways: `b` stands in the list of `a` exactly where `a`
/// stands in the list of `b`.
pub open spec fn is_symmetric(m: Adjacency) -> bool {
    forall|a: Word, b: Word| #[trigger] has_edge(m, a, b) ==> has_edge(m, b, a)
}

/// Linking two words keeps every link going both ways.
pub proof fn lemma_link_symmetric(m: Adjacency, a: Word, b: Word)
    requires
        is_symmetric(m),
    ensures
        is_symmetric(link(m, a, b)),
{
    let m1 = append_neighbor(m, a, b);
    let m2 = link(m, a, b);
    let la = adjacency(m, a);
    let lb = adjacency(m1, b);
    assert(la.push(b)[la.len() as int] == b);
    assert(lb.push(a)[lb.len() as int] == a);
    assert forall|x: Word, y: Word| #[trigger] has_edge(m2, x, y) implies has_edge(m2, y, x) by {
        let k = m2[x].index_of(y);
        assert(m2[x][k] == y);
        if (x == a && y == b) || (x == b && y == a) {
            assert(m2[b] == lb.push(a));
            if a != b {
                assert(m2[a] == la.push(b));
            } else {
                assert(m2[a][la.len() as int] == b);
            }
        } else {
            // the link stood in the graph before
            if x == b {
                if k < lb.len() {
                    assert(lb[k] == y);
                    if a == b {
                        if k < la.len() {
                            assert(la[k] == y);
                        }
                    }
                }
            } else if x == a {
                if k < la.len() {
                    assert(la[k] == y);
                }
            }
            assert(has_edge(m, x, y));
            assert(has_edge(m, y, x));
            let j = m[y].index_of(x);
            assert(m[y][j] == x);
            if y == a {
                assert(m1[y][j] == x);
            }
            if y == b {
                assert(lb[j] == x);
                assert(m2[y][j] == x);
            } else {
                assert(m2[y][j] == x);
            }
        }
    }
}

/// The words behind a list of node numbers.
pub open spec fn names(ids: Seq<usize>, labels: Seq<Word>) -> Seq<Word> {
    ids.map_values(|k: usize| labels[k as int])
}

/// Node `i` carries the word `labels[i]` and is linked to the nodes
/// `links[i]`; no word is carried twice and every link leads to a node.
pub open spec fn is_arena(labels: Seq<Word>, links: Seq<Seq<usize>>) -> bool {
    &&& labels.len() == links.len()
    &&& labels.no_duplicates()
    &&& forall|i: int, k: int|
        0 <= i < links.len() && 0 <= k < links[i].len() ==> (#[trigger] links[i][k])
            < labels.len()
}

/// The model that numbered nodes stand for.
pub open spec fn arena_map(labels: Seq<Word>, links: Seq<Seq<usize>>) -> Adjacency {
    Map::new(
        |w: Word| labels.contains(w),
        |w: Word| names(links[labels.index_of(w)], labels),
    )
}

/// In an arena a word is found at its own node and nowhere else.
pub proof fn lemma_arena_index(labels: Seq<Word>, i: int)
    requires
        labels.no_duplicates(),
        0 <= i < labels.len(),
    ensures
        labels.contains(labels[i]),
        labels.index_of(labels[i]) == i,
{
    assert(labels.contains(labels[i]));
}

/// A fresh node without links shows in the model as a word with an empty list.
proof fn lemma_arena_new_node(labels: Seq<Word>, links: Seq<Seq<usize>>, w: Word)
    requires
        is_arena(labels, links),
        !labels.contains(w),
    ensures
        is_arena(labels.push(w), links.push(Seq::empty())),
        arena_map(labels.push(w), links.push(Seq::empty())) == arena_map(labels, links).insert(
            w,
            Seq::empty(),
        ),
{
    let labels2 = labels.push(w);
    let links2 = links.push(Seq::<usize>::empty());
    assert(labels2.no_duplicates()) by {
        assert forall|i: int, j: int|
            0 <= i < labels2.len() && 0 <= j < labels2.len() && i != j implies labels2[i]
            != labels2[j] by {
            if i < labels.len() {
                assert(labels.contains(labels[i]));
            }
            if j < labels.len() {
                assert(labels.contains(labels[j]));
            }
        }
    }
    assert(is_arena(labels2, links2));
    let m = arena_map(labels, links);
    let m2 = arena_map(labels2, links2);
    assert forall|x: Word| #[trigger] m2.contains_key(x) <==> m.insert(
        w,
        Seq::empty(),
    ).contains_key(x) by {
        if labels.contains(x) {
            let i = labels.index_of(x);
            assert(labels2[i] == x);
        }
        assert(labels2[labels.len() as int] == w);
        if labels2.contains(x) {
            let i = labels2.index_of(x);
            if i < labels.len() {
                assert(labels[i] == x);
            }
        }
    }
    assert forall|x: Word| #[trigger] m2.contains_key(x) implies m2[x] == m.insert(
        w,
        Seq::empty(),
    )[x] by {
        let i = labels2.index_of(x);
        lemma_arena_index(labels2, i);
        if i < labels.len() {
            lemma_arena_index(labels, i);
            assert(labels[i] == x);
            assert(names(links2[i], labels2) =~= names(links[i], labels));
        } else {
            assert(x == w);
            assert(names(links2[i], labels2) =~= Seq::<Word>::empty());
        }
    }
    assert(m2 =~= m.insert(w, Seq::empty()));
}

/// One more link at a node shows in the model as one more word at the end of
/// that node's list.
proof fn lemma_arena_new_link(labels: Seq<Word>, links: Seq<Seq<usize>>, i: int, j: usize)
    requires
        is_arena(labels, links),
        0 <= i < labels.len(),
        j < labels.len(),
    ensures
        is_arena(labels, links.update(i, links[i].push(j))),
        arena_map(labels, links.update(i, links[i].push(j))) == append_neighbor(
            arena_map(labels, links),
            labels[i],
            labels[j as int],
        ),
{
    let links2 = links.update(i, links[i].push(j));
    assert(is_arena(labels, links2)) by {
        assert forall|a: int, k: int|
            0 <= a < links2.len() && 0 <= k < links2[a].len() implies (#[trigger] links2[a][k])
            < labels.len() by {
            if a == i && k < links[i].len() {
                assert(links2[a][k] == links[i][k]);
            } else if a != i {
                assert(links2[a][k] == links[a][k]);
            }
        }
    }
    let m = arena_map(labels, links);
    let m2 = arena_map(labels, links2);
    let target = append_neighbor(m, labels[i], labels[j as int]);
    lemma_arena_index(labels, i);
    assert forall|x: Word| #[trigger] m2.contains_key(x) implies m2[x] == target[x] by {
        let a = labels.index_of(x);
        lemma_arena_index(labels, a);
        if a == i {
            assert(names(links2[i], labels) =~= names(links[i], labels).push(labels[j as int]));
        }
    }
    assert(m2 =~= target);
}

/// Linking two words gives the same model whether or not they were first
/// entered with empty lists.
proof fn lemma_link_after_entry(m: Adjacency, a: Word, b: Word)
    ensures
        ({
            let m1 = if m.contains_key(a) {
                m
            } else {
                m.insert(a, Seq::empty())
            };
            let m2 = if m1.contains_key(b) {
                m1
            } else {
                m1.insert(b, Seq::empty())
            };
            link(m2, a, b) == link(m, a, b)
        }),
{
    let m1 = if m.contains_key(a) {
        m
    } else {
        m.insert(a, Seq::empty())
    };
    let m2 = if m1.contains_key(b) {
        m1
    } else {
        m1.insert(b, Seq::empty())
    };
    assert(adjacency(m2, a) =~= adjacency(m, a));
    assert(adjacency(m2, b) =~= adjacency(m, b));
    assert(link(m2, a, b) =~= link(m, a, b));
}

/// A node of the graph: its word and the numbers of the nodes linked to it.
struct Node<'g> {
    word: &'g str,
    neighbors: Vec<usize>,
}

/// The words of a row of nodes.
spec fn node_labels(nodes: Seq<Node>) -> Seq<Word> {
    Seq::new(nodes.len(), |i: int| nodes[i].word@)
}

/// The links of a row of nodes.
spec fn node_links(nodes: Seq<Node>) -> Seq<Seq<usize>> {
    Seq::new(nodes.len(), |i: int| nodes[i].neighbors@)
}

/// The number of the node that carries `word`.
fn find_node(nodes: &Vec<Node>, word: &str) -> (found: Option<usize>)
    ensures
        match found {
            Some(i) => i < nodes@.len() && node_labels(nodes@)[i as int] == word@,
            None => !node_labels(nodes@).contains(word@),
        },
{
    let mut i: usize = 0;
    while i < nodes.len()
        invariant
            i <= nodes@.len(),
            forall|k: int| 0 <= k < i ==> node_labels(nodes@)[k] != word@,
        decreases nodes@.len() - i,
    {
        if same_word(nodes[i].word, word) {
            return Some(i);
        }
        i += 1;
    }
    None
}

/// The number of the node that carries `word`, which is entered as a new node
/// without links if no node carries it yet.
fn intern<'g>(nodes: &mut Vec<Node<'g>>, word: &'g str) -> (id: usize)
    requires
        is_arena(node_labels(old(nodes)@), node_links(old(nodes)@)),
    ensures
        id < final(nodes)@.len(),
        node_labels(final(nodes)@)[id as int] == word@,
        old(nodes)@.len() <= final(nodes)@.len(),
        forall|i: int|
            0 <= i < old(nodes)@.len() ==> #[trigger] node_labels(final(nodes)@)[i]
                == node_labels(old(nodes)@)[i],
        is_arena(node_labels(final(nodes)@), node_links(final(nodes)@)),
        arena_map(node_labels(final(nodes)@), node_links(final(nodes)@)) == ({
            let m = arena_map(node_labels(old(nodes)@), node_links(old(nodes)@));
            if m.contains_key(word@) {
                m
            } else {
                m.insert(word@, Seq::empty())
            }
        }),
{
    match find_node(nodes, word) {
        Some(i) => i,
        None => {
            let id = nodes.len();
            proof {
                lemma_arena_new_node(node_labels(nodes@), node_links(nodes@), word@);
            }
            nodes.push(Node { word, neighbors: Vec::new() });
            assert(node_labels(nodes@) =~= node_labels(old(nodes)@).push(word@));
            assert(node_links(nodes@) =~= node_links(old(nodes)@).push(Seq::empty()));
            id
        },
    }
}

/// The word graph. Its words are borrowed from the dictionary it was built
/// from.
pub struct Graph<'g> {
    nodes: Vec<Node<'g>>,
}

impl<'g> View for Graph<'g> {
    type V = Adjacency;

    /// Each word of the graph with the words linked to it.
    open spec fn view(&self) -> Adjacency {
        arena_map(self.labels(), self.links())
    }
}

impl<'g> Graph<'g> {
    /// The words of the nodes, by node number.
    pub closed spec fn labels(&self) -> Seq<Word> {
        node_labels(self.nodes@)
    }

    /// The links of the nodes, by node number.
    pub closed spec fn links(&self) -> Seq<Seq<usize>> {
        node_links(self.nodes@)
    }

    #[verifier::type_invariant]
    spec fn well_formed(&self) -> bool {
        is_arena(self.labels(), self.links())
    }

    /// A graph without words.
    pub fn new() -> (graph: Self)
        ensures
            graph@ == Map::<Word, Seq<Word>>::empty(),
            is_symmetric(graph@),
    {
        let graph = Graph { nodes: Vec::new() };
        assert(graph@ =~= Map::<Word, Seq<Word>>::empty());
        graph
    }

    /// Links `a` and `b` in both directions: each is put at the end of the
    /// other's list, and a word the graph did not hold is entered first.
    pub fn add_edge(&mut self, a: &'g str, b: &'g str)
        ensures
            final(self)@ == link(old(self)@, a@, b@),
            is_symmetric(old(self)@) ==> is_symmetric(final(self)@),
    {
        proof {
            use_type_invariant(&*self);
            if is_symmetric(self@) {
                lemma_link_symmetric(self@, a@, b@);
            }
        }
        let mut nodes: Vec<Node<'g>> = Vec::new();
        core::mem::swap(&mut self.nodes, &mut nodes);
        let ia = intern(&mut nodes, a);
        let ib = intern(&mut nodes, b);
        let ghost labels = node_labels(nodes@);
        let ghost links0 = node_links(nodes@);
        let ghost links1 = links0.update(ia as int, links0[ia as int].push(ib));
        let ghost links2 = links1.update(ib as int, links1[ib as int].push(ia));
        proof {
            lemma_link_after_entry(old(self)@, a@, b@);
            lemma_arena_new_link(labels, links0, ia as int, ib);
            lemma_arena_new_link(labels, links1, ib as int, ia);
        }
        nodes[ia].neighbors.push(ib);
        assert(node_labels(nodes@) =~= labels);
        assert(node_links(nodes@) =~= links1);
        nodes[ib].neighbors.push(ia);
        assert(node_labels(nodes@) =~= labels);
        assert(node_links(nodes@) =~= links2);
        self.nodes = nodes;
    }

    /// The words linked to `word`, oldest link first, if the graph holds it.
    pub fn neighbors(&self, word: &str) -> (found: Option<Vec<&'g str>>)
        ensures
            match found {
                Some(list) => self@.contains_key(word@) && list@.map_values(|s: &str| s@)
                    == self@[word@],
                None => !self@.contains_key(word@),
            },
    {
        proof {
            use_type_invariant(self);
        }
        match find_node(&self.nodes, word) {
            None => None,
            Some(id) => {
                proof {
                    lemma_arena_index(self.labels(), id as int);
                }
                let ids = &self.nodes[id].neighbors;
                let mut list: Vec<&'g str> = Vec::new();
                let mut k: usize = 0;
                while k < ids.len()
                    invariant
                        k <= ids@.len(),
                        ids@ == self.links()[id as int],
                        is_arena(self.labels(), self.links()),
                        id < self.labels().len(),
                        list@.len() == k,
                        forall|t: int|
                            0 <= t < k ==> (#[trigger] list@[t])@ == self.labels()[ids@[t] as int],
                    decreases ids@.len() - k,
                {
                    let next = ids[k];
                    assert(next == self.links()[id as int][k as int]);
                    list.push(self.nodes[next].word);
                    k += 1;
                }
                assert(list@.map_values(|s: &str| s@) =~= names(ids@, self.labels()));
                Some(list)
            },
        }
    }

    /// The number of nodes.
    pub(crate) fn node_count(&self) -> (n: usize)
        ensures
            n == self.labels().len(),
            is_arena(self.labels(), self.links()),
    {
        proof {
            use_type_invariant(self);
        }
        self.nodes.len()
    }

    /// The number of the node that carries `word`.
    pub(crate) fn node_id(&self, word: &str) -> (found: Option<usize>)
        ensures
            match found {
                Some(i) => i < self.labels().len() && self.labels()[i as int] == word@,
                None => !self.labels().contains(word@),
            },
    {
        find_node(&self.nodes, word)
    }

    /// The word of node `id`.
    pub(crate) fn label(&self, id: usize) -> (word: &'g str)
        requires
            id < self.labels().len(),
        ensures
            word@ == self.labels()[id as int],
    {
        self.nodes[id].word
    }

    /// The nodes linked to node `id`.
    pub(crate) fn links_of(&self, id: usize) -> (ids: &Vec<usize>)
        requires
            id < self.labels().len(),
        ensures
            ids@ == self.links()[id as int],
    {
        &self.nodes[id].neighbors
    }
}

/// The character sequences of a list of strings.
pub open spec fn words_of(list: Seq<&str>) -> Seq<Word> {
    list.map_values(|s: &str| s@)
}

/// What the pair of dictionary entries `i` and `j` adds to the list of `w`:
/// the other word where the pair is linked and one of the two is `w`.
pub open spec fn pair_partner(dict: Seq<Word>, w: Word, i: int, j: int) -> Seq<Word> {
    if !one_char_diff(dict[i], dict[j]) {
        Seq::empty()
    } else if dict[i] == w {
        seq![dict[j]]
    } else if dict[j] == w {
        seq![dict[i]]
    } else {
        Seq::empty()
    }
}

/// What the pairs of entry `i` with the entries after it and before `upto`
/// add to the list of `w`, in the order of those entries.
pub open spec fn row_partners(dict: Seq<Word>, w: Word, i: int, upto: int) -> Seq<Word>
    decreases upto - i,
{
    if upto <= i + 1 {
        Seq::empty()
    } else {
        row_partners(dict, w, i, upto - 1) + pair_partner(dict, w, i, upto - 1)
    }
}

/// What the pairs whose earlier entry stands before `rows` add to the list of
/// `w`.
pub open spec fn partners_before(dict: Seq<Word>, w: Word, rows: int) -> Seq<Word>
    decreases rows,
{
    if rows <= 0 {
        Seq::empty()
    } else {
        partners_before(dict, w, rows - 1) + row_partners(dict, w, rows - 1, dict.len() as int)
    }
}

/// The words linked to `w` by a dictionary: for each pair of entries, taken
/// by the earlier entry and then by the later one, the other word where the
/// two differ in exactly one position and one of them is `w`.
pub open spec fn partners(dict: Seq<Word>, w: Word) -> Seq<Word> {
    partners_before(dict, w, dict.len() as int)
}

/// The graph of a dictionary: every word that has a partner, with its
/// partners.
pub open spec fn word_graph(dict: Seq<Word>) -> Adjacency {
    Map::new(|w: Word| partners(dict, w).len() > 0, |w: Word| partners(dict, w))
}

/// The lists when the pairs of the entries before `i`, and those of entry `i`
/// with the entries before `j`, have been taken.
pub open spec fn partners_so_far(dict: Seq<Word>, w: Word, i: int, j: int) -> Seq<Word> {
    partners_before(dict, w, i) + row_partners(dict, w, i, j)
}

/// The graph when the pairs of the entries before `i`, and those of entry `i`
/// with the entries before `j`, have been taken.
pub open spec fn graph_so_far(dict: Seq<Word>, i: int, j: int) -> Adjacency {
    Map::new(
        |w: Word| partners_so_far(dict, w, i, j).len() > 0,
        |w: Word| partners_so_far(dict, w, i, j),
    )
}

/// Taking the pair of entries `i` and `j` links the two words where they
/// differ in exactly one position and changes nothing otherwise.
proof fn lemma_graph_step(dict: Seq<Word>, i: int, j: int)
    requires
        0 <= i < j < dict.len(),
    ensures
        graph_so_far(dict, i, j + 1) == (if one_char_diff(dict[i], dict[j]) {
            link(graph_so_far(dict, i, j), dict[i], dict[j])
        } else {
            graph_so_far(dict, i, j)
        }),
{
    let before = graph_so_far(dict, i, j);
    let after = graph_so_far(dict, i, j + 1);
    assert forall|w: Word| #[trigger]
        partners_so_far(dict, w, i, j + 1) == partners_so_far(dict, w, i, j) + pair_partner(
            dict,
            w,
            i,
            j,
        ) by {
        assert(partners_so_far(dict, w, i, j + 1) =~= partners_so_far(dict, w, i, j)
            + pair_partner(dict, w, i, j));
    }
    if one_char_diff(dict[i], dict[j]) {
        let a = dict[i];
        let b = dict[j];
        let target = link(before, a, b);
        assert forall|w: Word| after.contains_key(w) == target.contains_key(w) by {
            let _ = partners_so_far(dict, w, i, j + 1);
        }
        assert forall|w: Word| #[trigger] after.contains_key(w) implies after[w] == target[w] by {
            let _ = partners_so_far(dict, w, i, j + 1);
            assert(after[w] =~= target[w]);
        }
        assert(after =~= target);
    } else {
        assert forall|w: Word| #[trigger] after.contains_key(w) == before.contains_key(w) by {
            assert(partners_so_far(dict, w, i, j + 1) =~= partners_so_far(dict, w, i, j));
        }
        assert forall|w: Word| #[trigger] after.contains_key(w) implies after[w] == before[w] by {
            assert(partners_so_far(dict, w, i, j + 1) =~= partners_so_far(dict, w, i, j));
        }
        assert(after =~= before);
    }
}

/// Before any pair is taken the graph is empty.
proof fn lemma_graph_start(dict: Seq<Word>)
    ensures
        graph_so_far(dict, 0, 1) == Map::<Word, Seq<Word>>::empty(),
{
    assert forall|w: Word| (#[trigger] partners_so_far(dict, w, 0, 1)).len() == 0 by {
        assert(partners_so_far(dict, w, 0, 1) =~= Seq::<Word>::empty());
    }
    assert(graph_so_far(dict, 0, 1) =~= Map::<Word, Seq<Word>>::empty());
}

/// When entry `i` has been paired with every later entry, the turn of the
/// next entry begins with the same graph.
proof fn lemma_graph_next_row(dict: Seq<Word>, i: int)
    requires
        0 <= i < dict.len(),
    ensures
        graph_so_far(dict, i, dict.len() as int) == graph_so_far(dict, i + 1, i + 2),
{
    let n = dict.len() as int;
    assert forall|w: Word| #[trigger]
        partners_so_far(dict, w, i, n) == partners_so_far(dict, w, i + 1, i + 2) by {
        assert(partners_so_far(dict, w, i, n) =~= partners_so_far(dict, w, i + 1, i + 2));
    }
    assert(graph_so_far(dict, i, n) =~= graph_so_far(dict, i + 1, i + 2));
}

/// When every entry has had its turn the graph is the graph of the
/// dictionary.
proof fn lemma_graph_done(dict: Seq<Word>)
    ensures
        graph_so_far(dict, dict.len() as int, dict.len() as int + 1) == word_graph(dict),
{
    let n = dict.len() as int;
    assert forall|w: Word| #[trigger] partners_so_far(dict, w, n, n + 1) == partners(dict, w) by {
        assert(partners_so_far(dict, w, n, n + 1) =~= partners(dict, w));
    }
    assert(graph_so_far(dict, n, n + 1) =~= word_graph(dict));
}

/// A word stands in two lists put together where it stands in one of them.
proof fn lemma_concat_contains(front: Seq<Word>, back: Seq<Word>, v: Word)
    ensures
        (front + back).contains(v) <==> front.contains(v) || back.contains(v),
{
    let both = front + back;
    if front.contains(v) {
        let k = front.index_of(v);
        assert(both[k] == v);
    }
    if back.contains(v) {
        let k = back.index_of(v);
        assert(both[front.len() + k] == v);
    }
    if both.contains(v) {
        let k = both.index_of(v);
        if k < front.len() {
            assert(front[k] == v);
        } else {
            assert(back[k - front.len()] == v);
        }
    }
}

/// The pair of entries `i` and `j` puts `v` into the list of `w`.
pub open spec fn pair_gives(dict: Seq<Word>, w: Word, v: Word, i: int, j: int) -> bool {
    0 <= i < j < dict.len() && pair_partner(dict, w, i, j).contains(v)
}

/// A pair that puts `v` into the list of `w` is a pair of the two words, in
/// one order or the other, and they differ in exactly one position.
proof fn lemma_pair_gives(dict: Seq<Word>, w: Word, v: Word, i: int, j: int)
    requires
        0 <= i < j < dict.len(),
    ensures
        pair_gives(dict, w, v, i, j) <==> one_char_diff(w, v) && ((dict[i] == w && dict[j] == v)
            || (dict[j] == w && dict[i] == v)),
{
    crate::word::lemma_one_char_diff_symmetric(w, v);
    let got = pair_partner(dict, w, i, j);
    if got.contains(v) {
        assert(got.len() > 0);
        assert(got[got.index_of(v)] == v);
    }
    if one_char_diff(w, v) && dict[i] == w && dict[j] == v {
        assert(got[0] == v);
    }
    if one_char_diff(w, v) && dict[j] == w && dict[i] == v {
        assert(w != v);
        assert(got[0] == v);
    }
}

/// What the pairs of one entry put into a list is what one of its pairs puts
/// there.
proof fn lemma_row_partners(dict: Seq<Word>, w: Word, v: Word, i: int, upto: int)
    requires
        0 <= i,
        upto <= dict.len(),
    ensures
        row_partners(dict, w, i, upto).contains(v) <==> exists|j: int|
            j < upto && #[trigger] pair_gives(dict, w, v, i, j),
    decreases upto - i,
{
    if upto <= i + 1 {
        assert(!row_partners(dict, w, i, upto).contains(v));
    } else {
        lemma_row_partners(dict, w, v, i, upto - 1);
        lemma_concat_contains(
            row_partners(dict, w, i, upto - 1),
            pair_partner(dict, w, i, upto - 1),
            v,
        );
        if pair_partner(dict, w, i, upto - 1).contains(v) {
            assert(pair_gives(dict, w, v, i, upto - 1));
        }
    }
}

/// What stands in a list was put there by one of the pairs taken.
proof fn lemma_partners_before(dict: Seq<Word>, w: Word, v: Word, rows: int)
    requires
        rows <= dict.len(),
    ensures
        partners_before(dict, w, rows).contains(v) <==> exists|i: int, j: int|
            i < rows && #[trigger] pair_gives(dict, w, v, i, j),
    decreases rows,
{
    if rows <= 0 {
        assert(!partners_before(dict, w, rows).contains(v));
    } else {
        lemma_partners_before(dict, w, v, rows - 1);
        lemma_row_partners(dict, w, v, rows - 1, dict.len() as int);
        lemma_concat_contains(
            partners_before(dict, w, rows - 1),
            row_partners(dict, w, rows - 1, dict.len() as int),
            v,
        );
        if row_partners(dict, w, rows - 1, dict.len() as int).contains(v) {
            let j = choose|j: int| j < dict.len() && #[trigger] pair_gives(dict, w, v, rows - 1, j);
            assert(pair_gives(dict, w, v, rows - 1, j));
        }
    }
}

/// The graph of a dictionary links two words exactly where both are entries
/// of the dictionary and they differ in exactly one position: such a pair is
/// linked in both directions, and no other pair is linked at all.
pub proof fn lemma_word_graph_edges(dict: Seq<Word>, a: Word, b: Word)
    ensures
        has_edge(word_graph(dict), a, b) <==> dict.contains(a) && dict.contains(b)
            && one_char_diff(a, b),
{
    lemma_partners_before(dict, a, b, dict.len() as int);
    let list = partners(dict, a);
    if has_edge(word_graph(dict), a, b) {
        let (i, j) = choose|i: int, j: int|
            i < dict.len() && #[trigger] pair_gives(dict, a, b, i, j);
        lemma_pair_gives(dict, a, b, i, j);
        assert(dict[i] == a || dict[j] == a);
        assert(dict[i] == b || dict[j] == b);
    }
    if dict.contains(a) && dict.contains(b) && one_char_diff(a, b) {
        let i = dict.index_of(a);
        let j = dict.index_of(b);
        assert(i != j);
        if i < j {
            lemma_pair_gives(dict, a, b, i, j);
            assert(pair_gives(dict, a, b, i, j));
        } else {
            lemma_pair_gives(dict, a, b, j, i);
            assert(pair_gives(dict, a, b, j, i));
        }
        assert(list.contains(b));
        assert(list.len() > 0);
    }
}

/// In the graph of a dictionary every link goes both ways: `b` stands in the
/// list of `a` exactly where `a` stands in the list of `b`.
pub proof fn lemma_word_graph_symmetric(dict: Seq<Word>, a: Word, b: Word)
    ensures
        has_edge(word_graph(dict), a, b) == has_edge(word_graph(dict), b, a),
{
    lemma_word_graph_edges(dict, a, b);
    lemma_word_graph_edges(dict, b, a);
    crate::word::lemma_one_char_diff_symmetric(a, b);
}

/// Builds the graph of a dictionary. Every pair of entries is examined once,
/// by the earlier entry and then by the later one; where the two words differ
/// in exactly one position, each is put at the end of the other's list.
pub fn build_graph_from_dict<'g>(dict: &[&'g str]) -> (graph: Graph<'g>)
    ensures
        graph@ == word_graph(words_of(dict@)),
        forall|a: Word, b: Word| #[trigger]
            has_edge(graph@, a, b) <==> words_of(dict@).contains(a) && words_of(
                dict@,
            ).contains(b) && one_char_diff(a, b),
        is_symmetric(graph@),
{
    let ghost words = words_of(dict@);
    let mut graph = Graph::new();
    let n = dict.len();
    let mut i: usize = 0;
    proof {
        lemma_graph_start(words);
    }
    while i < n
        invariant
            n == dict@.len(),
            words == words_of(dict@),
            i <= n,
            graph@ == graph_so_far(words, i as int, i as int + 1),
        decreases n - i,
    {
        let mut j: usize = i + 1;
        while j < n
            invariant
                n == dict@.len(),
                words == words_of(dict@),
                i < j <= n,
                graph@ == graph_so_far(words, i as int, j as int),
            decreases n - j,
        {
            proof {
                lemma_graph_step(words, i as int, j as int);
            }
            if is_one_char_diff(dict[i], dict[j]) {
                graph.add_edge(dict[i], dict[j]);
            }
            j += 1;
        }
        proof {
            lemma_graph_next_row(words, i as int);
        }
        i += 1;
    }
    proof {
        lemma_graph_done(words);
        assert forall|a: Word, b: Word| #[trigger]
            has_edge(graph@, a, b) <==> words.contains(a) && words.contains(b) && one_char_diff(
                a,
                b,
            ) by {
            lemma_word_graph_edges(words, a, b);
        }
        assert forall|a: Word, b: Word| #[trigger] has_edge(graph@, a, b) implies has_edge(
            graph@,
            b,
            a,
        ) by {
            lemma_word_graph_symmetric(words, a, b);
        }
    }
    graph
}

} // verus!
