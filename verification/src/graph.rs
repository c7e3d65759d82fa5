use crate::id_lists::{contains_id, IdLists};
use crate::types::{statistics_hold, ConnectedGroup, LiraElement};
use std::collections::HashSet;
use vstd::prelude::*;

verus! {

broadcast use vstd::std_specs::hash::group_hash_axioms;

/// Above this many elements only the first ones take part in the analysis.
pub const MAX_ELEMENTS_FOR_ANALYSIS: usize = 10000;

/// How often `x` occurs in `s`.
pub open spec fn count_of(s: Seq<u32>, x: u32) -> nat
    decreases s.len(),
{
    if s.len() == 0 {
        0
    } else {
        count_of(s.drop_last(), x) + if s.last() == x {
            1nat
        } else {
            0nat
        }
    }
}

/// The element numbers recorded at node `n`: one entry per occurrence of `n`
/// in an element's node list, in element order.
pub open spec fn ids_at_node(elems: Seq<LiraElement>, n: u32) -> Seq<u32>
    decreases elems.len(),
{
    if elems.len() == 0 {
        Seq::empty()
    } else {
        ids_at_node(elems.drop_last(), n) + Seq::new(
            count_of(elems.last().nodes@, n),
            |_i: int| elems.last().id,
        )
    }
}

/// Whether some element uses node `n`.
pub open spec fn node_used(elems: Seq<LiraElement>, n: u32) -> bool {
    exists|i: int| 0 <= i < elems.len() && #[trigger] elems[i].nodes@.contains(n)
}

/// The index "node -> element numbers" of a list of elements.
pub open spec fn node_index(elems: Seq<LiraElement>) -> Map<u32, Seq<u32>> {
    Map::new(|n: u32| node_used(elems, n), |n: u32| ids_at_node(elems, n))
}

/// Whether a node's element list can link elements: it has two entries or
/// more.
pub open spec fn linking_list(l: Seq<u32>) -> bool {
    2 <= l.len()
}

/// Two distinct elements are linked when some node lists both of them.
pub open spec fn linked(index: Map<u32, Seq<u32>>, a: u32, b: u32) -> bool {
    &&& a != b
    &&& exists|n: u32|
        #![trigger index[n]]
        index.contains_key(n) && linking_list(index[n]) && index[n].contains(a)
            && index[n].contains(b)
}

/// Edge of an adjacency table.
pub open spec fn has_edge(g: Map<u32, Seq<u32>>, a: u32, b: u32) -> bool {
    g.contains_key(a) && g[a].contains(b)
}

/// A non-empty walk along `edge`.
pub open spec fn is_walk(edge: spec_fn(u32, u32) -> bool, p: Seq<u32>) -> bool {
    &&& p.len() > 0
    &&& forall|i: int| 0 <= i < p.len() - 1 ==> #[trigger] edge(p[i], p[i + 1])
}

/// `b` can be reached from `a` along `edge`.
pub open spec fn reachable(edge: spec_fn(u32, u32) -> bool, a: u32, b: u32) -> bool {
    exists|p: Seq<u32>| #[trigger] is_walk(edge, p) && p[0] == a && p.last() == b
}

/// The set of element numbers of a list of elements.
pub open spec fn element_ids(elems: Seq<LiraElement>) -> Set<u32> {
    Set::new(|x: u32| exists|i: int| 0 <= i < elems.len() && #[trigger] elems[i].id == x)
}

proof fn lemma_count_push(s: Seq<u32>, v: u32, x: u32)
    ensures
        count_of(s.push(v), x) == count_of(s, x) + if v == x {
            1nat
        } else {
            0nat
        },
{
    assert(s.push(v).drop_last() =~= s);
}

proof fn lemma_count_contains(s: Seq<u32>, x: u32)
    ensures
        count_of(s, x) > 0 <==> s.contains(x),
    decreases s.len(),
{
    if s.len() > 0 {
        lemma_count_contains(s.drop_last(), x);
        if s.drop_last().contains(x) {
            let i = choose|i: int| 0 <= i < s.drop_last().len() && s.drop_last()[i] == x;
            assert(s[i] == x);
        }
        if s.contains(x) && s.last() != x {
            let i = choose|i: int| 0 <= i < s.len() && s[i] == x;
            assert(s.drop_last()[i] == x);
        }
    }
}

/// Facts about `ids_at_node` when one more element is taken.
proof fn lemma_ids_step(elems: Seq<LiraElement>, i: int, n: u32)
    requires
        0 <= i < elems.len(),
    ensures
        ids_at_node(elems.take(i + 1), n) == ids_at_node(elems.take(i), n) + Seq::new(
            count_of(elems[i].nodes@, n),
            |_k: int| elems[i].id,
        ),
{
    assert(elems.take(i + 1).drop_last() =~= elems.take(i));
}

proof fn lemma_used_step(elems: Seq<LiraElement>, i: int, n: u32)
    requires
        0 <= i < elems.len(),
    ensures
        node_used(elems.take(i + 1), n) <==> node_used(elems.take(i), n) || elems[i].nodes@.contains(
            n,
        ),
{
    let a = elems.take(i);
    let b = elems.take(i + 1);
    if node_used(b, n) {
        let k = choose|k: int| 0 <= k < b.len() && #[trigger] b[k].nodes@.contains(n);
        if k < i {
            assert(a[k] == elems[k] && b[k] == elems[k]);
            assert(a[k].nodes@.contains(n));
            assert(node_used(a, n));
        } else {
            assert(b[k] == elems[i]);
        }
    }
    if node_used(a, n) {
        let k = choose|k: int| 0 <= k < a.len() && #[trigger] a[k].nodes@.contains(n);
        assert(b[k] == elems[k] && a[k] == elems[k]);
        assert(b[k].nodes@.contains(n));
        assert(node_used(b, n));
    }
    if elems[i].nodes@.contains(n) {
        assert(b[i] == elems[i]);
        assert(b[i].nodes@.contains(n));
        assert(node_used(b, n));
    }
}

/// How strongly one element is tied into the model.
#[derive(Debug, Clone, Copy, PartialEq, Eq, Structural)]
pub struct ElementConnectivity {
    /// Number of the element
    pub element_id: u32,
    /// Number of elements it is linked with
    pub direct_connections: usize,
    /// Number of its nodes that other entries of the index share
    pub shared_nodes: usize,
}

/// Nodes whose index entry lists `element_id` and more than one entry.
pub open spec fn shared_node_set(index: Map<u32, Seq<u32>>, element_id: u32) -> Set<u32> {
    Set::new(
        |n: u32| index.contains_key(n) && index[n].contains(element_id) && index[n].len() > 1,
    )
}

/// Connectivity analyzer: an index "node -> elements" and the graph of
/// elements that share a node.
pub struct GraphAnalyzer {
    element_graph: IdLists,
    node_to_elements: IdLists,
}

impl GraphAnalyzer {
    pub closed spec fn wf(&self) -> bool {
        &&& self.element_graph.wf()
        &&& self.node_to_elements.wf()
        &&& forall|a: u32| #[trigger]
            self.element_graph.as_map().contains_key(a) ==> self.element_graph.as_map()[a].no_duplicates()
    }

    /// The node index as a map.
    pub closed spec fn index_view(&self) -> Map<u32, Seq<u32>> {
        self.node_to_elements.as_map()
    }

    /// The element graph as a map from an element to its neighbours.
    pub closed spec fn graph_view(&self) -> Map<u32, Seq<u32>> {
        self.element_graph.as_map()
    }

    /// The graph holds exactly the links that the index defines.
    pub open spec fn graph_matches_index(&self) -> bool {
        forall|a: u32, b: u32|
            #[trigger] has_edge(self.graph_view(), a, b) <==> linked(self.index_view(), a, b)
    }

    /// Creates an analyzer with an empty index and an empty graph.
    pub fn new() -> (g: Self)
        ensures
            g.wf(),
            g.index_view() == Map::<u32, Seq<u32>>::empty(),
            g.graph_view() == Map::<u32, Seq<u32>>::empty(),
            g.graph_matches_index(),
    {
        GraphAnalyzer { element_graph: IdLists::new(), node_to_elements: IdLists::new() }
    }

    /// The element numbers recorded at a node.
    pub fn elements_at_node(&self, node: u32) -> (r: Option<&Vec<u32>>)
        requires
            self.wf(),
        ensures
            r is Some <==> self.index_view().contains_key(node),
            r matches Some(l) ==> l@ == self.index_view()[node],
    {
        self.node_to_elements.get(node)
    }

    /// Stage 1: builds the index "node -> element numbers".
    pub fn build_node_index(&mut self, elements: &[LiraElement])
        requires
            old(self).wf(),
        ensures
            final(self).wf(),
            final(self).index_view() == node_index(elements@),
            final(self).graph_view() == old(self).graph_view(),
    {
        self.node_to_elements.clear();
        let mut i: usize = 0;
        while i < elements.len()
            invariant
                i <= elements.len(),
                self.wf(),
                self.graph_view() == old(self).graph_view(),
                forall|n: u32| #[trigger]
                    self.index_view().contains_key(n) <==> node_used(elements@.take(i as int), n),
                forall|n: u32| #[trigger]
                    self.index_view().contains_key(n) ==> self.index_view()[n] == ids_at_node(
                        elements@.take(i as int),
                        n,
                    ),
            decreases elements.len() - i,
        {
            let element = &elements[i];
            let mut j: usize = 0;
            while j < element.nodes.len()
                invariant
                    i < elements.len(),
                    element == elements@[i as int],
                    j <= element.nodes.len(),
                    self.wf(),
                    self.graph_view() == old(self).graph_view(),
                    forall|n: u32| #[trigger]
                        self.index_view().contains_key(n) <==> node_used(elements@.take(i as int), n)
                            || element.nodes@.take(j as int).contains(n),
                    forall|n: u32| #[trigger]
                        self.index_view().contains_key(n) ==> self.index_view()[n] == ids_at_node(
                            elements@.take(i as int),
                            n,
                        ) + Seq::new(
                            count_of(element.nodes@.take(j as int), n),
                            |_k: int| element.id,
                        ),
                decreases element.nodes.len() - j,
            {
                let node_id = element.nodes[j];
                let ghost before = self.index_view();
                self.node_to_elements.append(node_id, element.id);
                proof {
                    let t = element.nodes@.take(j as int);
                    let t1 = element.nodes@.take(j + 1);
                    assert(t1 =~= t.push(node_id));
                    assert forall|n: u32| #[trigger]
                        self.index_view().contains_key(n) implies self.index_view()[n] == ids_at_node(
                        elements@.take(i as int),
                        n,
                    ) + Seq::new(count_of(t1, n), |_k: int| element.id) by {
                        lemma_count_push(t, node_id, n);
                        if n == node_id {
                            lemma_count_contains(t, n);
                            if before.contains_key(n) {
                                assert(self.index_view()[n] =~= ids_at_node(
                                    elements@.take(i as int),
                                    n,
                                ) + Seq::new(count_of(t1, n), |_k: int| element.id));
                            } else {
                                assert(!node_used(elements@.take(i as int), n));
                                assert(count_of(t, n) == 0);
                                lemma_no_ids_unused(elements@.take(i as int), n);
                                assert(self.index_view()[n] =~= ids_at_node(
                                    elements@.take(i as int),
                                    n,
                                ) + Seq::new(count_of(t1, n), |_k: int| element.id));
                            }
                        }
                    }
                    assert forall|n: u32| #[trigger]
                        self.index_view().contains_key(n) <==> node_used(elements@.take(i as int), n)
                            || t1.contains(n) by {
                        if t1.contains(n) && n != node_id {
                            let k = choose|k: int| 0 <= k < t1.len() && t1[k] == n;
                            assert(t[k] == n);
                        }
                        if t.contains(n) {
                            let k = choose|k: int| 0 <= k < t.len() && t[k] == n;
                            assert(t1[k] == n);
                        }
                        assert(t1[j as int] == node_id);
                    }
                }
                j += 1;
            }
            proof {
                assert(element.nodes@.take(j as int) =~= element.nodes@);
                assert forall|n: u32| #[trigger]
                    self.index_view().contains_key(n) implies self.index_view()[n] == ids_at_node(
                    elements@.take(i + 1),
                    n,
                ) by {
                    lemma_ids_step(elements@, i as int, n);
                }
                assert forall|n: u32|
                    #[trigger] self.index_view().contains_key(n) <==> node_used(
                        elements@.take(i + 1),
                        n,
                    ) by {
                    lemma_used_step(elements@, i as int, n);
                }
            }
            i += 1;
        }
        proof {
            assert(elements@.take(i as int) =~= elements@);
            assert(self.index_view() =~= node_index(elements@));
        }
    }

    /// Stage 2: links every two distinct elements that share a node. An
    /// element is stored in the graph only with a link.
    pub fn build_element_graph(&mut self)
        requires
            old(self).wf(),
        ensures
            final(self).wf(),
            final(self).index_view() == old(self).index_view(),
            final(self).graph_matches_index(),
            lists_nonempty(final(self).graph_view()),
    {
        self.element_graph.clear();
        let mut p: usize = 0;
        while p < self.node_to_elements.len()
            invariant
                self.wf(),
                self.index_view() == old(self).index_view(),
                self.node_to_elements == old(self).node_to_elements,
                lists_nonempty(self.graph_view()),
                p <= self.node_to_elements.key_seq().len(),
                forall|a: u32, b: u32|
                    #[trigger] has_edge(self.graph_view(), a, b) <==> linked_upto(
                        self.node_to_elements,
                        p as int,
                        a,
                        b,
                    ),
            decreases self.node_to_elements.key_seq().len() - p,
        {
            let l = self.node_to_elements.list(p);
            let ghost ls = l@;
            if 2 <= l.len() {
                let mut x: usize = 0;
                while x < l.len()
                    invariant
                        self.wf(),
                        self.node_to_elements == old(self).node_to_elements,
                        lists_nonempty(self.graph_view()),
                        l@ == ls,
                        ls == self.node_to_elements.list_at(p as int),
                        linking_list(ls),
                        p < self.node_to_elements.key_seq().len(),
                        x <= l.len(),
                        forall|a: u32, b: u32|
                            #[trigger] has_edge(self.graph_view(), a, b) <==> linked_upto(
                                self.node_to_elements,
                                p as int,
                                a,
                                b,
                            ) || (a != b && ls.take(x as int).contains(a) && ls.contains(b)),
                    decreases l.len() - x,
                {
                    let mut y: usize = 0;
                    while y < l.len()
                        invariant
                            self.wf(),
                            self.node_to_elements == old(self).node_to_elements,
                            lists_nonempty(self.graph_view()),
                            l@ == ls,
                            ls == self.node_to_elements.list_at(p as int),
                            linking_list(ls),
                            p < self.node_to_elements.key_seq().len(),
                            x < l.len(),
                            y <= l.len(),
                            forall|a: u32, b: u32|
                                #[trigger] has_edge(self.graph_view(), a, b) <==> linked_upto(
                                    self.node_to_elements,
                                    p as int,
                                    a,
                                    b,
                                ) || (a != b && ls.take(x as int).contains(a) && ls.contains(b)) || (
                                a != b && a == ls[x as int] && ls.take(y as int).contains(b)),
                        decreases l.len() - y,
                    {
                        let e1 = l[x];
                        let e2 = l[y];
                        let ghost g0 = self.graph_view();
                        if e1 != e2 {
                            add_edge(&mut self.element_graph, e1, e2);
                        }
                        proof {
                            assert(ls.take(y + 1) =~= ls.take(y as int).push(e2));
                            assert forall|a: u32, b: u32|
                                #[trigger] has_edge(self.graph_view(), a, b) <==> linked_upto(
                                    self.node_to_elements,
                                    p as int,
                                    a,
                                    b,
                                ) || (a != b && ls.take(x as int).contains(a) && ls.contains(b)) || (
                                a != b && a == ls[x as int] && ls.take(y + 1).contains(b)) by {
                                let ty = ls.take(y as int);
                                assert(has_edge(g0, a, b) <==> linked_upto(
                                    self.node_to_elements,
                                    p as int,
                                    a,
                                    b,
                                ) || (a != b && ls.take(x as int).contains(a) && ls.contains(b)) || (
                                a != b && a == ls[x as int] && ty.contains(b)));
                                if ty.push(e2).contains(b) && b != e2 {
                                    let k = choose|k: int| 0 <= k < ty.push(e2).len() && ty.push(e2)[k] == b;
                                    assert(ty[k] == b);
                                }
                                if ty.contains(b) {
                                    let k = choose|k: int| 0 <= k < ty.len() && ty[k] == b;
                                    assert(ty.push(e2)[k] == b);
                                }
                                assert(ty.push(e2)[y as int] == e2);
                            }
                        }
                        y += 1;
                    }
                    proof {
                        assert(ls.take(y as int) =~= ls);
                        assert(ls.take(x + 1) =~= ls.take(x as int).push(ls[x as int]));
                        assert forall|a: u32, b: u32|
                            #[trigger] has_edge(self.graph_view(), a, b) <==> linked_upto(
                                self.node_to_elements,
                                p as int,
                                a,
                                b,
                            ) || (a != b && ls.take(x + 1).contains(a) && ls.contains(b)) by {
                            let tx = ls.take(x as int);
                            let e1 = ls[x as int];
                            if tx.push(e1).contains(a) && a != e1 {
                                let k = choose|k: int| 0 <= k < tx.push(e1).len() && tx.push(e1)[k] == a;
                                assert(tx[k] == a);
                            }
                            if tx.contains(a) {
                                let k = choose|k: int| 0 <= k < tx.len() && tx[k] == a;
                                assert(tx.push(e1)[k] == a);
                            }
                            assert(tx.push(e1)[x as int] == e1);
                        }
                    }
                    x += 1;
                }
                proof {
                    assert(ls.take(x as int) =~= ls);
                    assert forall|a: u32, b: u32|
                        #[trigger] has_edge(self.graph_view(), a, b) <==> linked_upto(
                            self.node_to_elements,
                            p + 1,
                            a,
                            b,
                        ) by {
                        if linked_upto(self.node_to_elements, p + 1, a, b) && !linked_upto(self.node_to_elements, p as int, a, b) {
                            let q = choose|q: int|
                                #![trigger self.node_to_elements.list_at(q)]
                                0 <= q < p + 1 && linking_list(self.node_to_elements.list_at(q)) && self.node_to_elements.list_at(q).contains(a)
                                    && self.node_to_elements.list_at(q).contains(b);
                            assert(q == p);
                        }
                    }
                }
            } else {
                proof {
                    assert forall|a: u32, b: u32|
                        #[trigger] has_edge(self.graph_view(), a, b) <==> linked_upto(
                            self.node_to_elements,
                            p + 1,
                            a,
                            b,
                        ) by {
                        if linked_upto(self.node_to_elements, p + 1, a, b) && !linked_upto(self.node_to_elements, p as int, a, b) {
                            let q = choose|q: int|
                                #![trigger self.node_to_elements.list_at(q)]
                                0 <= q < p + 1 && linking_list(self.node_to_elements.list_at(q)) && self.node_to_elements.list_at(q).contains(a)
                                    && self.node_to_elements.list_at(q).contains(b);
                            assert(q == p);
                        }
                    }
                }
            }
            p += 1;
        }
        proof {
            let t = self.node_to_elements;
            t.lemma_positions();
            assert forall|a: u32, b: u32|
                #[trigger] has_edge(self.graph_view(), a, b) <==> linked(self.index_view(), a, b) by {
                if linked_upto(t, p as int, a, b) {
                    let q = choose|q: int|
                        #![trigger t.list_at(q)]
                        0 <= q < p && linking_list(t.list_at(q)) && t.list_at(q).contains(a) && t.list_at(q).contains(b);
                    let n = t.key_seq()[q];
                    assert(self.index_view()[n] == t.list_at(q));
                }
                if linked(self.index_view(), a, b) {
                    let n = choose|n: u32|
                        #![trigger self.index_view()[n]]
                        self.index_view().contains_key(n) && linking_list(self.index_view()[n])
                            && self.index_view()[n].contains(a) && self.index_view()[n].contains(b);
                    assert(t.key_seq().contains(n));
                    let q = choose|q: int| 0 <= q < t.key_seq().len() && t.key_seq()[q] == n;
                    assert(t.list_at(q) == self.index_view()[n]);
                }
            }
        }
    }

    /// Whether `x` is in the optional restriction set.
    fn allows(allowed: Option<&HashSet<u32>>, x: u32) -> (r: bool)
        ensures
            r == inside(opt_view(allowed), x),
    {
        match allowed {
            Some(s) => s.contains(&x),
            None => true,
        }
    }

    /// Breadth-first search from `seed` over the graph restricted to
    /// `allowed`, visiting only vertices not yet in `visited`.
    fn explore(&self, seed: u32, allowed: Option<&HashSet<u32>>, visited: &mut HashSet<u32>) -> (comp:
        Vec<u32>)
        requires
            self.wf(),
            symmetric(self.graph_view()),
            !old(visited)@.contains(seed),
            inside(opt_view(allowed), seed),
            closed_under(restricted(self.graph_view(), opt_view(allowed)), old(visited)@),
        ensures
            comp@.len() > 0,
            comp@[0] == seed,
            comp@.no_duplicates(),
            final(visited)@ == old(visited)@ + comp@.to_set(),
            forall|x: u32| #[trigger]
                comp@.contains(x) ==> !old(visited)@.contains(x) && inside(opt_view(allowed), x)
                    && reachable(restricted(self.graph_view(), opt_view(allowed)), seed, x),
            closed_under(restricted(self.graph_view(), opt_view(allowed)), comp@.to_set()),
            in_search_order(restricted(self.graph_view(), opt_view(allowed)), comp@),
    {
        let ghost edge = restricted(self.graph_view(), opt_view(allowed));
        let ghost v0 = visited@;
        let ghost keys = self.element_graph.key_seq();
        proof {
            self.element_graph.lemma_positions();
            lemma_reach_refl(edge, seed);
        }
        let mut comp: Vec<u32> = Vec::new();
        comp.push(seed);
        visited.insert(seed);
        proof {
            assert(comp@ =~= seq![seed]);
            assert(visited@ =~= v0 + comp@.to_set()) by {
                assert forall|x: u32| comp@.to_set().contains(x) <==> x == seed by {
                    if comp@.contains(x) {
                        let k = choose|k: int| 0 <= k < comp@.len() && comp@[k] == x;
                    }
                    if x == seed {
                        assert(comp@[0] == seed);
                    }
                }
            }
        }
        let mut head: usize = 0;
        while head < comp.len()
            invariant
                self.wf(),
                symmetric(self.graph_view()),
                edge == restricted(self.graph_view(), opt_view(allowed)),
                keys == self.element_graph.key_seq(),
                forall|k: u32| #[trigger] self.graph_view().contains_key(k) <==> keys.contains(k),
                closed_under(edge, v0),
                !v0.contains(seed),
                comp@.len() > 0,
                comp@[0] == seed,
                comp@.no_duplicates(),
                head <= comp@.len(),
                visited@ == v0 + comp@.to_set(),
                forall|x: u32| #[trigger]
                    comp@.contains(x) ==> !v0.contains(x) && inside(opt_view(allowed), x)
                        && reachable(edge, seed, x) && (keys.contains(x) || x == seed),
                forall|i: int, y: u32|
                    0 <= i < head && #[trigger] edge(comp@[i], y) ==> comp@.contains(y),
                in_search_order(edge, comp@),
            decreases keys.len() + 1 - head,
        {
            proof {
                lemma_distinct_bound(comp@, keys, seed);
            }
            let cur = comp[head];
            let ghost c0 = comp@;
            assert(comp@.contains(cur));
            match self.element_graph.get(cur) {
                Some(neighbors) => {
                    let mut k: usize = 0;
                    while k < neighbors.len()
                        invariant
                            self.wf(),
                            symmetric(self.graph_view()),
                            edge == restricted(self.graph_view(), opt_view(allowed)),
                            keys == self.element_graph.key_seq(),
                            forall|kk: u32| #[trigger] self.graph_view().contains_key(kk) <==> keys.contains(kk),
                            closed_under(edge, v0),
                            !v0.contains(seed),
                            self.graph_view().contains_key(cur),
                            neighbors@ == self.graph_view()[cur],
                            cur == c0[head as int],
                            comp@.len() >= c0.len(),
                            forall|i: int| 0 <= i < c0.len() ==> #[trigger] comp@[i] == c0[i],
                            comp@.len() > 0,
                            comp@[0] == seed,
                            comp@.no_duplicates(),
                            head < c0.len(),
                            k <= neighbors@.len(),
                            visited@ == v0 + comp@.to_set(),
                            forall|x: u32| #[trigger]
                                comp@.contains(x) ==> !v0.contains(x) && inside(opt_view(allowed), x)
                                    && reachable(edge, seed, x) && (keys.contains(x) || x == seed),
                            forall|i: int, y: u32|
                                0 <= i < head && #[trigger] edge(comp@[i], y) ==> comp@.contains(y),
                            forall|j: int|
                                0 <= j < k && #[trigger] edge(cur, neighbors@[j]) ==> comp@.contains(neighbors@[j]),
                            in_search_order(edge, comp@),
                        decreases neighbors.len() - k,
                    {
                        let nb = neighbors[k];
                        let ghost cb = comp@;
                        proof {
                            assert(cb.contains(cur)) by {
                                assert(cb[head as int] == cur);
                            }
                        }
                        if Self::allows(allowed, nb) && !visited.contains(&nb) {
                            visited.insert(nb);
                            comp.push(nb);
                            proof {
                                assert(has_edge(self.graph_view(), cur, nb));
                                assert(edge(cur, nb));
                                lemma_reach_extend(edge, seed, cur, nb);
                                assert(has_edge(self.graph_view(), nb, cur));
                                assert(!cb.contains(nb));
                                assert(comp@ == cb.push(nb));
                                assert forall|q: int| 0 < q < comp@.len() implies #[trigger] linked_to_earlier(
                                    edge,
                                    comp@,
                                    q,
                                ) by {
                                    if q < cb.len() {
                                        assert(linked_to_earlier(edge, cb, q));
                                        let j = choose|j: int| 0 <= j < q && #[trigger] edge(cb[j], cb[q]);
                                        assert(comp@[j] == cb[j] && comp@[q] == cb[q]);
                                        assert(edge(comp@[j], comp@[q]));
                                    } else {
                                        assert(comp@[head as int] == cur && comp@[q] == nb);
                                        assert(edge(comp@[head as int], comp@[q]));
                                    }
                                }
                                assert(comp@.no_duplicates()) by {
                                    assert forall|a: int, b: int| 0 <= a < b < comp@.len() implies comp@[a] != comp@[b] by {
                                        if b == cb.len() {
                                            assert(cb.contains(cb[a]));
                                        }
                                    }
                                }
                                assert forall|x: u32| comp@.to_set().contains(x) <==> cb.to_set().insert(nb).contains(x) by {
                                    if comp@.contains(x) && x != nb {
                                        let q = choose|q: int| 0 <= q < comp@.len() && comp@[q] == x;
                                        assert(cb[q] == x);
                                    }
                                    if cb.contains(x) {
                                        let q = choose|q: int| 0 <= q < cb.len() && cb[q] == x;
                                        assert(comp@[q] == x);
                                    }
                                    assert(comp@[cb.len() as int] == nb);
                                }
                                assert(visited@ =~= v0 + comp@.to_set());
                                assert forall|x: u32| #[trigger] comp@.contains(x) implies !v0.contains(x)
                                    && inside(opt_view(allowed), x) && reachable(edge, seed, x) && (keys.contains(x)
                                    || x == seed) by {
                                    if x != nb {
                                        let q = choose|q: int| 0 <= q < comp@.len() && comp@[q] == x;
                                        assert(cb[q] == x);
                                        assert(cb.contains(x));
                                    } else {
                                        if v0.contains(nb) {
                                            assert(edge(nb, cur));
                                            assert(v0.contains(cur));
                                        }
                                        assert(self.graph_view().contains_key(nb));
                                    }
                                }
                                assert forall|i: int, y: u32|
                                    0 <= i < head && #[trigger] edge(comp@[i], y) implies comp@.contains(y) by {
                                    assert(comp@[i] == cb[i]);
                                    if cb.contains(y) {
                                        let q = choose|q: int| 0 <= q < cb.len() && cb[q] == y;
                                        assert(comp@[q] == y);
                                    }
                                }
                                assert forall|j: int|
                                    0 <= j < k + 1 && #[trigger] edge(cur, neighbors@[j]) implies comp@.contains(neighbors@[j]) by {
                                    let y = neighbors@[j];
                                    if j < k {
                                        assert(cb.contains(y));
                                        let q = choose|q: int| 0 <= q < cb.len() && cb[q] == y;
                                        assert(comp@[q] == y);
                                    } else {
                                        assert(comp@[cb.len() as int] == nb);
                                    }
                                }
                            }
                        } else {
                            proof {
                                if edge(cur, nb) {
                                    assert(visited@.contains(nb));
                                    if v0.contains(nb) {
                                        assert(has_edge(self.graph_view(), nb, cur));
                                        assert(edge(nb, cur));
                                        assert(v0.contains(cur));
                                    }
                                    assert(cb.to_set().contains(nb));
                                }
                            }
                        }
                        k += 1;
                    }
                    proof {
                        assert forall|i: int, y: u32|
                            0 <= i < head + 1 && #[trigger] edge(comp@[i], y) implies comp@.contains(y) by {
                            if i == head {
                                assert(comp@[i] == cur);
                                assert(neighbors@.contains(y));
                                let j = choose|j: int| 0 <= j < neighbors@.len() && neighbors@[j] == y;
                                assert(edge(cur, neighbors@[j]));
                            }
                        }
                    }
                },
                None => {
                    proof {
                        assert forall|i: int, y: u32|
                            0 <= i < head + 1 && #[trigger] edge(comp@[i], y) implies comp@.contains(y) by {
                            if i == head {
                                assert(comp@[i] == cur);
                                assert(!has_edge(self.graph_view(), cur, y));
                            }
                        }
                    }
                },
            }
            head += 1;
        }
        proof {
            assert forall|x: u32, y: u32| comp@.to_set().contains(x) && #[trigger] edge(x, y) implies comp@.to_set().contains(y) by {
                let i = choose|i: int| 0 <= i < comp@.len() && comp@[i] == x;
                assert(edge(comp@[i], y));
            }
        }
        comp
    }

    /// Stage 3: the connected components of the graph among `elements`, by
    /// breadth-first search from each element not yet reached.
    fn find_components_bfs(&self, elements: &[LiraElement]) -> (groups: Vec<ConnectedGroup>)
        requires
            self.wf(),
            symmetric(self.graph_view()),
            forall|a: u32, b: u32| #[trigger]
                has_edge(self.graph_view(), a, b) ==> element_ids(elements@).contains(b),
        ensures
            components_hold(groups@, elements@, edge_of(self.graph_view())),
    {
        let ghost edge = edge_of(self.graph_view());
        let ghost ids = element_ids(elements@);
        let mut visited: HashSet<u32> = HashSet::new();
        let mut components: Vec<ConnectedGroup> = Vec::new();
        let mut component_id: usize = 0;
        let mut i: usize = 0;
        while i < elements.len()
            invariant
                self.wf(),
                symmetric(self.graph_view()),
                forall|a: u32, b: u32| #[trigger]
                    has_edge(self.graph_view(), a, b) ==> ids.contains(b),
                edge == edge_of(self.graph_view()),
                ids == element_ids(elements@),
                i <= elements.len(),
                component_id == components@.len(),
                component_id <= i,
                forall|c: int| 0 <= c < components@.len() ==> #[trigger] components@[c].id == c,
                forall|c: int| 0 <= c < components@.len() ==> statistics_hold(#[trigger] components@[c], elements@),
                forall|c: int| 0 <= c < components@.len() ==> #[trigger] members_of(components@)[c].len() > 0 && members_of(components@)[c].no_duplicates(),
                forall|c: int, d: int, x: u32|
                    0 <= c < components@.len() && 0 <= d < components@.len() && c != d && #[trigger] members_of(components@)[c].contains(x)
                        ==> !#[trigger] members_of(components@)[d].contains(x),
                forall|x: u32| visited@.contains(x) <==> exists|c: int| 0 <= c < components@.len() && #[trigger] members_of(components@)[c].contains(x),
                forall|c: int| 0 <= c < components@.len() ==> closed_under(edge, #[trigger] members_of(components@)[c].to_set()),
                forall|c: int, x: u32|
                    0 <= c < components@.len() && #[trigger] members_of(components@)[c].contains(x) ==> reachable(edge, members_of(components@)[c][0], x),
                forall|x: u32| visited@.contains(x) ==> ids.contains(x),
                forall|k: int| 0 <= k < i ==> visited@.contains(#[trigger] elements@[k].id),
                closed_under(edge, visited@),
                forall|c: int| 0 <= c < components@.len() ==> #[trigger] starts_at_first_unclaimed(elements@, members_of(components@), c),
                forall|c: int| 0 <= c < components@.len() ==> in_search_order(edge, #[trigger] members_of(components@)[c]),
            decreases elements.len() - i,
        {
            let element_id = elements[i].id;
            if !visited.contains(&element_id) {
                let ghost v0 = visited@;
                let ghost m0 = members_of(components@);
                let comp = self.explore(element_id, None, &mut visited);
                let ghost cs = comp@;
                let mut group = ConnectedGroup::new(component_id, comp);
                group.update_statistics(elements);
                components.push(group);
                component_id += 1;
                proof {
                    let m = members_of(components@);
                    assert(m.len() == m0.len() + 1);
                    assert forall|c: int| 0 <= c < m0.len() implies #[trigger] m[c] == m0[c] by {}
                    assert(m[m0.len() as int] == cs);
                    assert(edge == restricted(self.graph_view(), opt_view(None)));
                    assert forall|x: u32| cs.contains(x) implies ids.contains(x) by {
                        if x != element_id {
                            let p = choose|p: Seq<u32>| #[trigger] is_walk(edge, p) && p[0] == element_id && p.last() == x;
                            let j = p.len() - 2;
                            assert(p.len() >= 2);
                            assert(edge(p[j], p[j + 1]));
                            assert(has_edge(self.graph_view(), p[j], p[j + 1]));
                        } else {
                            assert(elements@[i as int].id == x);
                        }
                    }
                    assert forall|c: int, d: int, x: u32|
                        0 <= c < m.len() && 0 <= d < m.len() && c != d && #[trigger] m[c].contains(x) implies !#[trigger] m[d].contains(x) by {
                        if c == m0.len() {
                            assert(!v0.contains(x));
                            if m0[d].contains(x) {}
                        } else if d == m0.len() {
                            assert(m0[c].contains(x));
                            assert(v0.contains(x));
                        } else {
                            assert(m0[c].contains(x));
                        }
                    }
                    assert forall|x: u32| visited@.contains(x) <==> exists|c: int| 0 <= c < m.len() && #[trigger] m[c].contains(x) by {
                        if visited@.contains(x) {
                            if v0.contains(x) {
                                let c = choose|c: int| 0 <= c < m0.len() && #[trigger] m0[c].contains(x);
                                assert(m[c].contains(x));
                            } else {
                                assert(m[m0.len() as int].contains(x));
                            }
                        }
                        if exists|c: int| 0 <= c < m.len() && #[trigger] m[c].contains(x) {
                            let c = choose|c: int| 0 <= c < m.len() && #[trigger] m[c].contains(x);
                            if c < m0.len() {
                                assert(m0[c].contains(x));
                            } else {
                                assert(cs.to_set().contains(x));
                            }
                        }
                    }
                    assert forall|c: int, x: u32|
                        0 <= c < m.len() && #[trigger] m[c].contains(x) implies reachable(edge, m[c][0], x) by {
                        if c < m0.len() {
                            assert(m0[c].contains(x));
                        }
                    }
                    assert forall|c: int| 0 <= c < m.len() implies closed_under(edge, #[trigger] m[c].to_set()) by {
                        if c < m0.len() {
                            assert(closed_under(edge, m0[c].to_set()));
                        }
                    }
                    assert forall|c: int| 0 <= c < m.len() implies #[trigger] m[c].len() > 0 && m[c].no_duplicates() by {
                        if c < m0.len() {
                            assert(m0[c].len() > 0);
                        }
                    }
                    assert forall|c: int| 0 <= c < components@.len() implies statistics_hold(#[trigger] components@[c], elements@) by {
                        if c < m0.len() {
                        }
                    }
                    assert forall|x: u32, y: u32| visited@.contains(x) && #[trigger] edge(x, y) implies visited@.contains(y) by {
                        if v0.contains(x) {
                        } else {
                            assert(cs.to_set().contains(x));
                        }
                    }
                    assert forall|c: int| 0 <= c < m.len() implies in_search_order(edge, #[trigger] m[c]) by {
                        if c < m0.len() {
                            assert(m[c] == m0[c]);
                        }
                    }
                    assert forall|c: int| 0 <= c < m.len() implies #[trigger] starts_at_first_unclaimed(elements@, m, c) by {
                        if c < m0.len() {
                            assert(starts_at_first_unclaimed(elements@, m0, c));
                            let k = choose|k: int|
                                0 <= k < elements@.len() && elements@[k].id == m0[c][0] && forall|j: int|
                                    0 <= j < k ==> #[trigger] claimed_before(m0, c, elements@[j].id);
                            assert forall|j: int| 0 <= j < k implies #[trigger] claimed_before(m, c, elements@[j].id) by {
                                assert(claimed_before(m0, c, elements@[j].id));
                                let d = choose|d: int| 0 <= d < c && #[trigger] m0[d].contains(elements@[j].id);
                                assert(m[d] == m0[d]);
                            }
                        } else {
                            assert(m[c][0] == element_id);
                            assert forall|j: int| 0 <= j < i implies #[trigger] claimed_before(m, c, elements@[j].id) by {
                                assert(v0.contains(elements@[j].id));
                                let d = choose|d: int| 0 <= d < m0.len() && #[trigger] m0[d].contains(elements@[j].id);
                                assert(m[d] == m0[d]);
                            }
                            assert(elements@[i as int].id == m[c][0]);
                        }
                    }
                }
            }
            i += 1;
        }
        proof {
            let m = members_of(components@);
            assert forall|x: u32| ids.contains(x) <==> exists|c: int| 0 <= c < m.len() && #[trigger] m[c].contains(x) by {
                if ids.contains(x) {
                    let k = choose|k: int| 0 <= k < elements@.len() && #[trigger] elements@[k].id == x;
                    assert(visited@.contains(elements@[k].id));
                }
            }
        }
        components
    }

    /// Finds the groups of connected elements: builds the index and the
    /// graph, then searches components. Only the first
    /// `MAX_ELEMENTS_FOR_ANALYSIS` elements take part.
    pub fn find_connected_components(&mut self, elements: &[LiraElement]) -> (groups: Vec<
        ConnectedGroup,
    >)
        requires
            old(self).wf(),
        ensures
            final(self).wf(),
            final(self).index_view() == node_index(analysed(elements@)),
            final(self).graph_matches_index(),
            lists_nonempty(final(self).graph_view()),
            components_hold(groups@, analysed(elements@), shares_node(analysed(elements@))),
    {
        if elements.len() > MAX_ELEMENTS_FOR_ANALYSIS {
            let limited = &elements[0..MAX_ELEMENTS_FOR_ANALYSIS];
            proof {
                assert(limited@ =~= analysed(elements@));
            }
            return self.analyze_limited_elements(limited);
        }
        self.analyze_limited_elements(elements)
    }

    /// Index, graph and components for all of `elements`.
    fn analyze_limited_elements(&mut self, elements: &[LiraElement]) -> (groups: Vec<ConnectedGroup>)
        requires
            old(self).wf(),
        ensures
            final(self).wf(),
            final(self).index_view() == node_index(elements@),
            final(self).graph_matches_index(),
            lists_nonempty(final(self).graph_view()),
            components_hold(groups@, elements@, shares_node(elements@)),
    {
        self.build_node_index(elements);
        self.build_element_graph();
        proof {
            lemma_built_graph(self.graph_view(), elements@);
        }
        self.find_components_bfs(elements)
    }

    /// A graph that matches its index is symmetric.
    proof fn lemma_matching_symmetric(&self)
        requires
            self.graph_matches_index(),
        ensures
            symmetric(self.graph_view()),
    {
        let idx = self.index_view();
        assert forall|a: u32, b: u32| #[trigger] has_edge(self.graph_view(), a, b) implies has_edge(
            self.graph_view(),
            b,
            a,
        ) by {
            let n = choose|n: u32|
                #![trigger idx[n]]
                idx.contains_key(n) && linking_list(idx[n]) && idx[n].contains(a) && idx[n].contains(b);
            assert(linked(idx, b, a));
        }
    }

    /// Number of connected components of the graph restricted to the set
    /// `elements`, whose members `order` lists.
    fn count_components_in_subgraph(&self, elements: &HashSet<u32>, order: &Vec<u32>) -> (n: usize)
        requires
            self.wf(),
            symmetric(self.graph_view()),
            forall|x: u32| #[trigger] order@.contains(x) <==> elements@.contains(x),
        ensures
            exists|comps: Seq<Seq<u32>>|
                is_component_partition(restricted(self.graph_view(), Some(elements@)), elements@, comps)
                    && comps.len() == n,
    {
        let ghost edge = restricted(self.graph_view(), Some(elements@));
        let ghost mut comps: Seq<Seq<u32>> = Seq::empty();
        let mut visited: HashSet<u32> = HashSet::new();
        let mut components: usize = 0;
        let mut i: usize = 0;
        while i < order.len()
            invariant
                self.wf(),
                symmetric(self.graph_view()),
                forall|x: u32| #[trigger] order@.contains(x) <==> elements@.contains(x),
                edge == restricted(self.graph_view(), opt_view(Some(elements))),
                i <= order.len(),
                components == comps.len(),
                components <= i,
                forall|c: int| 0 <= c < comps.len() ==> #[trigger] comps[c].len() > 0 && comps[c].no_duplicates(),
                forall|c: int, d: int, x: u32|
                    0 <= c < comps.len() && 0 <= d < comps.len() && c != d && #[trigger] comps[c].contains(x)
                        ==> !#[trigger] comps[d].contains(x),
                forall|x: u32| visited@.contains(x) <==> exists|c: int| 0 <= c < comps.len() && #[trigger] comps[c].contains(x),
                forall|c: int| 0 <= c < comps.len() ==> closed_under(edge, #[trigger] comps[c].to_set()),
                forall|c: int, x: u32|
                    0 <= c < comps.len() && #[trigger] comps[c].contains(x) ==> reachable(edge, comps[c][0], x),
                forall|x: u32| visited@.contains(x) ==> elements@.contains(x),
                forall|k: int| 0 <= k < i ==> visited@.contains(#[trigger] order@[k]),
                closed_under(edge, visited@),
            decreases order.len() - i,
        {
            let element_id = order[i];
            proof {
                assert(order@.contains(element_id));
            }
            if !visited.contains(&element_id) {
                let ghost v0 = visited@;
                let ghost m0 = comps;
                let comp = self.explore(element_id, Some(elements), &mut visited);
                let ghost cs = comp@;
                proof {
                    comps = comps.push(cs);
                    let m = comps;
                    assert(m.len() == m0.len() + 1);
                    assert forall|c: int| 0 <= c < m0.len() implies #[trigger] m[c] == m0[c] by {}
                    assert(m[m0.len() as int] == cs);
                    assert forall|c: int, d: int, x: u32|
                        0 <= c < m.len() && 0 <= d < m.len() && c != d && #[trigger] m[c].contains(x) implies !#[trigger] m[d].contains(x) by {
                        if c == m0.len() {
                            assert(!v0.contains(x));
                            if m0[d].contains(x) {}
                        } else if d == m0.len() {
                            assert(m0[c].contains(x));
                            assert(v0.contains(x));
                        } else {
                            assert(m0[c].contains(x));
                        }
                    }
                    assert forall|x: u32| visited@.contains(x) <==> exists|c: int| 0 <= c < m.len() && #[trigger] m[c].contains(x) by {
                        if visited@.contains(x) {
                            if v0.contains(x) {
                                let c = choose|c: int| 0 <= c < m0.len() && #[trigger] m0[c].contains(x);
                                assert(m[c].contains(x));
                            } else {
                                assert(m[m0.len() as int].contains(x));
                            }
                        }
                        if exists|c: int| 0 <= c < m.len() && #[trigger] m[c].contains(x) {
                            let c = choose|c: int| 0 <= c < m.len() && #[trigger] m[c].contains(x);
                            if c < m0.len() {
                                assert(m0[c].contains(x));
                            } else {
                                assert(cs.to_set().contains(x));
                            }
                        }
                    }
                    assert forall|c: int, x: u32|
                        0 <= c < m.len() && #[trigger] m[c].contains(x) implies reachable(edge, m[c][0], x) by {
                        if c < m0.len() {
                            assert(m0[c].contains(x));
                        }
                    }
                    assert forall|c: int| 0 <= c < m.len() implies closed_under(edge, #[trigger] m[c].to_set()) by {
                        if c < m0.len() {
                            assert(closed_under(edge, m0[c].to_set()));
                        }
                    }
                    assert forall|c: int| 0 <= c < m.len() implies #[trigger] m[c].len() > 0 && m[c].no_duplicates() by {
                        if c < m0.len() {
                            assert(m0[c].len() > 0);
                        }
                    }
                    assert forall|x: u32, y: u32| visited@.contains(x) && #[trigger] edge(x, y) implies visited@.contains(y) by {
                        if v0.contains(x) {
                        } else {
                            assert(cs.to_set().contains(x));
                        }
                    }
                    assert forall|x: u32| visited@.contains(x) implies elements@.contains(x) by {
                        if !v0.contains(x) {
                            assert(cs.contains(x));
                        }
                    }
                }
                components += 1;
            }
            i += 1;
        }
        proof {
            assert forall|x: u32| elements@.contains(x) <==> exists|c: int| 0 <= c < comps.len() && #[trigger] comps[c].contains(x) by {
                if elements@.contains(x) {
                    assert(order@.contains(x));
                    let k = choose|k: int| 0 <= k < order@.len() && order@[k] == x;
                    assert(visited@.contains(order@[k]));
                }
            }
            assert(is_component_partition(edge, elements@, comps));
        }
        components
    }

    /// Whether removing `element_id` from `group` splits the rest of the
    /// group: the rest has at least two elements and is no longer connected.
    pub fn is_bridge_element(&self, element_id: u32, group: &ConnectedGroup) -> (r: bool)
        requires
            self.wf(),
            self.graph_matches_index(),
        ensures
            r == is_bridge(self.graph_view(), group.elements@, element_id),
    {
        proof {
            self.lemma_matching_symmetric();
        }
        let ghost rest = group.elements@.to_set().remove(element_id);
        let mut remaining: HashSet<u32> = HashSet::new();
        let mut order: Vec<u32> = Vec::new();
        let mut i: usize = 0;
        while i < group.elements.len()
            invariant
                i <= group.elements.len(),
                forall|x: u32| #[trigger] order@.contains(x) <==> remaining@.contains(x),
                remaining@ == group.elements@.take(i as int).to_set().remove(element_id),
            decreases group.elements.len() - i,
        {
            let x = group.elements[i];
            let ghost r0 = remaining@;
            let ghost o0 = order@;
            proof {
                let t = group.elements@.take(i as int);
                assert(group.elements@.take(i + 1) =~= t.push(x));
                assert forall|y: u32| t.push(x).to_set().contains(y) == t.to_set().insert(x).contains(y) by {
                    if t.push(x).contains(y) && y != x {
                        let k = choose|k: int| 0 <= k < t.push(x).len() && t.push(x)[k] == y;
                        assert(t[k] == y);
                    }
                    if t.contains(y) {
                        let k = choose|k: int| 0 <= k < t.len() && t[k] == y;
                        assert(t.push(x)[k] == y);
                    }
                    assert(t.push(x)[i as int] == x);
                }
            }
            if x != element_id && !remaining.contains(&x) {
                remaining.insert(x);
                order.push(x);
                proof {
                    assert forall|y: u32| #[trigger] order@.contains(y) <==> remaining@.contains(y) by {
                        if order@.contains(y) && y != x {
                            let k = choose|k: int| 0 <= k < order@.len() && order@[k] == y;
                            assert(o0[k] == y);
                        }
                        if o0.contains(y) {
                            let k = choose|k: int| 0 <= k < o0.len() && o0[k] == y;
                            assert(order@[k] == y);
                        }
                        assert(order@[o0.len() as int] == x);
                    }
                }
            }
            proof {
                assert(remaining@ =~= group.elements@.take(i + 1).to_set().remove(element_id));
            }
            i += 1;
        }
        proof {
            assert(group.elements@.take(i as int) =~= group.elements@);
        }
        if remaining.len() < 2 {
            return false;
        }
        let n = self.count_components_in_subgraph(&remaining, &order);
        proof {
            let edge = restricted(self.graph_view(), Some(rest));
            let comps = choose|comps: Seq<Seq<u32>>|
                is_component_partition(edge, rest, comps) && comps.len() == n;
            assert forall|x: u32, y: u32| #[trigger] edge(x, y) implies edge(y, x) by {
                assert(has_edge(self.graph_view(), x, y));
            }
            if n > 1 {
                let x = comps[0][0];
                let y = comps[1][0];
                assert(comps[0].contains(x));
                assert(comps[1].contains(y));
                if connected(edge, rest) {
                    assert(reachable(edge, x, y));
                    lemma_closed_reach(edge, comps[0].to_set(), x, y);
                    assert(comps[0].contains(y));
                }
            } else {
                assert(rest.len() >= 2);
                if n == 0 {
                    assert(rest =~= Set::<u32>::empty()) by {
                        assert forall|x: u32| !rest.contains(x) by {}
                    }
                }
                assert(n == 1);
                assert forall|x: u32, y: u32| rest.contains(x) && rest.contains(y) implies #[trigger] reachable(edge, x, y) by {
                    let c0 = comps[0][0];
                    let cx = choose|c: int| 0 <= c < comps.len() && #[trigger] comps[c].contains(x);
                    let cy = choose|c: int| 0 <= c < comps.len() && #[trigger] comps[c].contains(y);
                    assert(reachable(edge, c0, x));
                    assert(reachable(edge, c0, y));
                    lemma_reach_symm(edge, c0, x);
                    lemma_reach_trans(edge, x, c0, y);
                }
            }
        }
        n > 1
    }

    /// The members of `group`, in order, whose removal splits the group.
    pub fn find_bridge_elements(&self, group: &ConnectedGroup) -> (bridges: Vec<u32>)
        requires
            self.wf(),
            self.graph_matches_index(),
        ensures
            bridges@ == group.elements@.filter(
                |x: u32| is_bridge(self.graph_view(), group.elements@, x),
            ),
    {
        let ghost pred = |x: u32| is_bridge(self.graph_view(), group.elements@, x);
        let mut bridges: Vec<u32> = Vec::new();
        let mut i: usize = 0;
        while i < group.elements.len()
            invariant
                self.wf(),
                self.graph_matches_index(),
                i <= group.elements.len(),
                pred == (|x: u32| is_bridge(self.graph_view(), group.elements@, x)),
                bridges@ == group.elements@.take(i as int).filter(pred),
            decreases group.elements.len() - i,
        {
            let element_id = group.elements[i];
            proof {
                assert(group.elements@.take(i + 1).drop_last() =~= group.elements@.take(i as int));
            }
            let b = self.is_bridge_element(element_id, group);
            proof {
                let t1 = group.elements@.take(i + 1);
                reveal(Seq::filter);
                assert(t1.last() == element_id);
                assert(pred(element_id) == b);
                assert(t1.filter(pred) == if pred(t1.last()) {
                    t1.drop_last().filter(pred).push(t1.last())
                } else {
                    t1.drop_last().filter(pred)
                });
            }
            if b {
                bridges.push(element_id);
            }
            i += 1;
        }
        proof {
            assert(group.elements@.take(i as int) =~= group.elements@);
        }
        bridges
    }

    /// The nodes at which `element_id` meets another index entry.
    fn get_shared_nodes(&self, element_id: u32) -> (nodes: Vec<u32>)
        requires
            self.wf(),
        ensures
            nodes@.no_duplicates(),
            nodes@.to_set() == shared_node_set(self.index_view(), element_id),
    {
        let ghost t = self.node_to_elements;
        proof {
            t.lemma_positions();
        }
        let mut shared: Vec<u32> = Vec::new();
        let mut p: usize = 0;
        while p < self.node_to_elements.len()
            invariant
                t == self.node_to_elements,
                self.wf(),
                t.key_seq().no_duplicates(),
                forall|q: int|
                    #![trigger t.key_seq()[q]]
                    0 <= q < t.key_seq().len() ==> t.as_map().contains_key(t.key_seq()[q])
                        && t.as_map()[t.key_seq()[q]] == t.list_at(q),
                forall|k: u32| #[trigger] t.as_map().contains_key(k) <==> t.key_seq().contains(k),
                p <= t.key_seq().len(),
                shared@.no_duplicates(),
                forall|n: u32| #[trigger] shared@.contains(n) <==> exists|q: int|
                    0 <= q < p && #[trigger] t.key_seq()[q] == n && t.list_at(q).contains(element_id) && t.list_at(q).len() > 1,
            decreases t.key_seq().len() - p,
        {
            let node_id = self.node_to_elements.key(p);
            let l = self.node_to_elements.list(p);
            let ghost s0 = shared@;
            if contains_id(l, element_id) && l.len() > 1 {
                shared.push(node_id);
                proof {
                    assert forall|a: int, b: int| 0 <= a < b < shared@.len() implies shared@[a] != shared@[b] by {
                        if b == s0.len() {
                            if shared@[a] == node_id {
                                assert(s0.contains(node_id));
                                let q = choose|q: int|
                                    0 <= q < p && #[trigger] t.key_seq()[q] == node_id && t.list_at(q).contains(element_id) && t.list_at(q).len() > 1;
                                assert(t.key_seq()[q] == t.key_seq()[p as int]);
                            }
                        }
                    }
                }
            }
            proof {
                assert forall|n: u32| #[trigger] shared@.contains(n) <==> exists|q: int|
                    0 <= q < p + 1 && #[trigger] t.key_seq()[q] == n && t.list_at(q).contains(element_id) && t.list_at(q).len() > 1 by {
                    if shared@.contains(n) && !s0.contains(n) {
                        let k = choose|k: int| 0 <= k < shared@.len() && shared@[k] == n;
                        assert(k == s0.len());
                        assert(t.key_seq()[p as int] == n);
                    }
                    if s0.contains(n) {
                        let k = choose|k: int| 0 <= k < s0.len() && s0[k] == n;
                        assert(shared@[k] == n);
                    }
                    if exists|q: int|
                        0 <= q < p + 1 && #[trigger] t.key_seq()[q] == n && t.list_at(q).contains(element_id) && t.list_at(q).len() > 1 {
                        let q = choose|q: int|
                            0 <= q < p + 1 && #[trigger] t.key_seq()[q] == n && t.list_at(q).contains(element_id) && t.list_at(q).len() > 1;
                        if q == p {
                            if !s0.contains(n) {
                                assert(shared@[s0.len() as int] == n);
                            }
                        }
                    }
                }
            }
            p += 1;
        }
        proof {
            assert forall|n: u32| shared@.to_set().contains(n) <==> shared_node_set(self.index_view(), element_id).contains(n) by {
                if shared_node_set(self.index_view(), element_id).contains(n) {
                    assert(t.key_seq().contains(n));
                    let q = choose|q: int| 0 <= q < t.key_seq().len() && t.key_seq()[q] == n;
                    assert(t.as_map()[t.key_seq()[q]] == t.list_at(q));
                }
                if shared@.contains(n) {
                    let q = choose|q: int|
                        0 <= q < p && #[trigger] t.key_seq()[q] == n && t.list_at(q).contains(element_id) && t.list_at(q).len() > 1;
                    assert(t.as_map()[t.key_seq()[q]] == t.list_at(q));
                }
            }
            assert(shared@.to_set() =~= shared_node_set(self.index_view(), element_id));
        }
        shared
    }

    /// Counts the links and shared nodes of one element.
    pub fn analyze_element_connectivity(&self, element_id: u32) -> (c: ElementConnectivity)
        requires
            self.wf(),
        ensures
            c.element_id == element_id,
            c.direct_connections == if self.graph_view().contains_key(element_id) {
                self.graph_view()[element_id].to_set().len()
            } else {
                0
            },
            c.shared_nodes == shared_node_set(self.index_view(), element_id).len(),
    {
        let direct_connections = match self.element_graph.get(element_id) {
            Some(connections) => {
                proof {
                    connections@.unique_seq_to_set();
                }
                connections.len()
            },
            None => 0,
        };
        let shared = self.get_shared_nodes(element_id);
        proof {
            shared@.unique_seq_to_set();
        }
        ElementConnectivity { element_id, direct_connections, shared_nodes: shared.len() }
    }
}

/// Every element stored in an adjacency table has at least one neighbour.
pub open spec fn lists_nonempty(g: Map<u32, Seq<u32>>) -> bool {
    forall|a: u32| #[trigger] g.contains_key(a) ==> g[a].len() > 0
}

/// Adds the edge `a -> b` to an adjacency table unless it is there already.
fn add_edge(g: &mut IdLists, a: u32, b: u32)
    requires
        old(g).wf(),
        forall|k: u32| #[trigger] old(g).as_map().contains_key(k) ==> old(g).as_map()[k].no_duplicates(),
    ensures
        final(g).wf(),
        forall|k: u32| #[trigger] final(g).as_map().contains_key(k) ==> final(g).as_map()[k].no_duplicates(),
        forall|x: u32, y: u32|
            #[trigger] has_edge(final(g).as_map(), x, y) <==> has_edge(old(g).as_map(), x, y) || (x
                == a && y == b),
        forall|x: u32| #[trigger]
            final(g).as_map().contains_key(x) <==> old(g).as_map().contains_key(x) || x == a,
        lists_nonempty(old(g).as_map()) ==> lists_nonempty(final(g).as_map()),
{
    let present = match g.get(a) {
        Some(l) => contains_id(l, b),
        None => false,
    };
    if !present {
        let ghost m = g.as_map();
        g.append(a, b);
        proof {
            assert forall|k: u32| #[trigger] g.as_map().contains_key(k) implies g.as_map()[k].no_duplicates() by {
                if k == a {
                    let base = if m.contains_key(a) { m[a] } else { Seq::<u32>::empty() };
                    assert(g.as_map()[k] == base.push(b));
                    assert forall|i: int, j: int| 0 <= i < j < base.push(b).len() implies base.push(b)[i] != base.push(b)[j] by {
                        if j == base.len() {
                            assert(base[i] == base.push(b)[i]);
                        }
                    }
                }
            }
            assert forall|x: u32, y: u32|
                #[trigger] has_edge(g.as_map(), x, y) <==> has_edge(m, x, y) || (x == a && y == b) by {
                if x == a {
                    let base = if m.contains_key(a) { m[a] } else { Seq::<u32>::empty() };
                    assert(g.as_map()[a] == base.push(b));
                    if base.push(b).contains(y) && y != b {
                        let i = choose|i: int| 0 <= i < base.push(b).len() && base.push(b)[i] == y;
                        assert(base[i] == y);
                    }
                    if base.contains(y) {
                        let i = choose|i: int| 0 <= i < base.len() && base[i] == y;
                        assert(base.push(b)[i] == y);
                    }
                    assert(base.push(b)[base.len() as int] == b);
                }
            }
            assert forall|k: u32| lists_nonempty(m) && #[trigger] g.as_map().contains_key(k) implies g.as_map()[k].len() > 0 by {
                if k == a {
                    let base = if m.contains_key(a) { m[a] } else { Seq::<u32>::empty() };
                    assert(g.as_map()[a] == base.push(b));
                } else {
                    assert(m.contains_key(k));
                }
            }
        }
    }
}

/// Pairs of distinct elements that share one of the first `p` node lists of
/// the index.
pub open spec fn linked_upto(t: IdLists, p: int, a: u32, b: u32) -> bool {
    &&& a != b
    &&& exists|q: int|
        #![trigger t.list_at(q)]
        0 <= q < p && linking_list(t.list_at(q)) && t.list_at(q).contains(a) && t.list_at(q).contains(b)
}

/// Whether `x` lies in the optional restriction set.
pub open spec fn inside(allowed: Option<Set<u32>>, x: u32) -> bool {
    match allowed {
        Some(s) => s.contains(x),
        None => true,
    }
}

/// The edges of `g` between vertices that lie in the restriction set.
pub open spec fn restricted(g: Map<u32, Seq<u32>>, allowed: Option<Set<u32>>) -> spec_fn(
    u32,
    u32,
) -> bool {
    |a: u32, b: u32| has_edge(g, a, b) && inside(allowed, a) && inside(allowed, b)
}

/// Every edge has its reverse.
pub open spec fn symmetric(g: Map<u32, Seq<u32>>) -> bool {
    forall|a: u32, b: u32| #[trigger] has_edge(g, a, b) ==> has_edge(g, b, a)
}

/// No edge leaves `s`.
pub open spec fn closed_under(edge: spec_fn(u32, u32) -> bool, s: Set<u32>) -> bool {
    forall|x: u32, y: u32| s.contains(x) && #[trigger] edge(x, y) ==> s.contains(y)
}

/// The view of an optional set argument.
pub open spec fn opt_view(allowed: Option<&HashSet<u32>>) -> Option<Set<u32>> {
    match allowed {
        Some(s) => Some(s@),
        None => None,
    }
}

pub proof fn lemma_reach_refl(edge: spec_fn(u32, u32) -> bool, a: u32)
    ensures
        reachable(edge, a, a),
{
    let p = seq![a];
    assert(is_walk(edge, p));
}

pub proof fn lemma_reach_extend(edge: spec_fn(u32, u32) -> bool, a: u32, b: u32, c: u32)
    requires
        reachable(edge, a, b),
        edge(b, c),
    ensures
        reachable(edge, a, c),
{
    let p = choose|p: Seq<u32>| #[trigger] is_walk(edge, p) && p[0] == a && p.last() == b;
    let q = p.push(c);
    assert forall|i: int| 0 <= i < q.len() - 1 implies #[trigger] edge(q[i], q[i + 1]) by {
        if i < p.len() - 1 {
            assert(q[i] == p[i] && q[i + 1] == p[i + 1]);
            assert(edge(p[i], p[i + 1]));
        } else {
            assert(q[i] == b && q[i + 1] == c);
        }
    }
    assert(is_walk(edge, q));
}

proof fn lemma_distinct_bound(s: Seq<u32>, keys: Seq<u32>, seed: u32)
    requires
        s.no_duplicates(),
        forall|x: u32| #[trigger] s.contains(x) ==> keys.contains(x) || x == seed,
    ensures
        s.len() <= keys.len() + 1,
{
    s.unique_seq_to_set();
    keys.lemma_cardinality_of_set();
    let k = keys.to_set().insert(seed);
    assert(s.to_set().subset_of(k));
    vstd::set_lib::lemma_len_subset(s.to_set(), k);
}

/// The edges of an adjacency table.
pub open spec fn edge_of(g: Map<u32, Seq<u32>>) -> spec_fn(u32, u32) -> bool {
    restricted(g, None)
}

/// The link relation of a list of elements: two distinct elements share a
/// node.
pub open spec fn shares_node(elems: Seq<LiraElement>) -> spec_fn(u32, u32) -> bool {
    |a: u32, b: u32| linked(node_index(elems), a, b)
}

/// `comps` partitions `ids` into the connected components of `edge`: every
/// part is non-empty and free of repeats, parts are disjoint, they cover
/// exactly `ids`, no edge leaves a part, and every member of a part can be
/// reached from its first member.
pub open spec fn is_component_partition(
    edge: spec_fn(u32, u32) -> bool,
    ids: Set<u32>,
    comps: Seq<Seq<u32>>,
) -> bool {
    &&& forall|i: int| 0 <= i < comps.len() ==> #[trigger] comps[i].len() > 0 && comps[i].no_duplicates()
    &&& forall|i: int, j: int, x: u32|
        0 <= i < comps.len() && 0 <= j < comps.len() && i != j && #[trigger] comps[i].contains(x)
            ==> !#[trigger] comps[j].contains(x)
    &&& forall|x: u32| ids.contains(x) <==> exists|i: int| 0 <= i < comps.len() && #[trigger] comps[i].contains(x)
    &&& forall|i: int| 0 <= i < comps.len() ==> closed_under(edge, #[trigger] comps[i].to_set())
    &&& forall|i: int, x: u32|
        0 <= i < comps.len() && #[trigger] comps[i].contains(x) ==> reachable(edge, comps[i][0], x)
}

/// The member lists of a list of groups.
pub open spec fn members_of(groups: Seq<ConnectedGroup>) -> Seq<Seq<u32>> {
    groups.map_values(|g: ConnectedGroup| g.elements@)
}

/// The elements that the analysis looks at: the first
/// `MAX_ELEMENTS_FOR_ANALYSIS` of them.
pub open spec fn analysed(elems: Seq<LiraElement>) -> Seq<LiraElement> {
    if elems.len() > MAX_ELEMENTS_FOR_ANALYSIS {
        elems.take(MAX_ELEMENTS_FOR_ANALYSIS as int)
    } else {
        elems
    }
}

/// Group `c` of `comps` starts with the first element of `elems`, in list
/// order, that no earlier group holds.
pub open spec fn starts_at_first_unclaimed(elems: Seq<LiraElement>, comps: Seq<Seq<u32>>, c: int) -> bool {
    exists|k: int|
        0 <= k < elems.len() && elems[k].id == comps[c][0] && forall|j: int|
            0 <= j < k ==> #[trigger] claimed_before(comps, c, elems[j].id)
}

/// Some member listed before position `k` of `s` is linked to the member at
/// `k`.
pub open spec fn linked_to_earlier(edge: spec_fn(u32, u32) -> bool, s: Seq<u32>, k: int) -> bool {
    exists|j: int| 0 <= j < k && #[trigger] edge(s[j], s[k])
}

/// Every member after the first is linked to a member listed before it, as
/// in the order in which a search from the first member reaches them.
pub open spec fn in_search_order(edge: spec_fn(u32, u32) -> bool, s: Seq<u32>) -> bool {
    forall|k: int| 0 < k < s.len() ==> #[trigger] linked_to_earlier(edge, s, k)
}

/// Some group before group `c` holds `x`.
pub open spec fn claimed_before(comps: Seq<Seq<u32>>, c: int, x: u32) -> bool {
    exists|d: int| 0 <= d < c && #[trigger] comps[d].contains(x)
}

/// What a component search returns for `elems` over `edge`: groups numbered
/// from zero that partition the element numbers into connected components,
/// each with its counters, in the order of their first elements: each group
/// starts with the first element that no earlier group holds.
pub open spec fn components_hold(
    groups: Seq<ConnectedGroup>,
    elems: Seq<LiraElement>,
    edge: spec_fn(u32, u32) -> bool,
) -> bool {
    &&& forall|c: int| 0 <= c < groups.len() ==> #[trigger] groups[c].id == c
    &&& forall|c: int| 0 <= c < groups.len() ==> statistics_hold(#[trigger] groups[c], elems)
    &&& is_component_partition(edge, element_ids(elems), members_of(groups))
    &&& forall|c: int| 0 <= c < groups.len() ==> #[trigger] starts_at_first_unclaimed(elems, members_of(groups), c)
    &&& forall|c: int| 0 <= c < groups.len() ==> in_search_order(edge, #[trigger] members_of(groups)[c])
}

/// Every element number recorded in the index belongs to an element.
proof fn lemma_ids_belong(elems: Seq<LiraElement>, n: u32, x: u32)
    requires
        ids_at_node(elems, n).contains(x),
    ensures
        element_ids(elems).contains(x),
    decreases elems.len(),
{
    let d = elems.drop_last();
    let tail = Seq::new(count_of(elems.last().nodes@, n), |_i: int| elems.last().id);
    let k = choose|k: int| 0 <= k < ids_at_node(elems, n).len() && ids_at_node(elems, n)[k] == x;
    if k < ids_at_node(d, n).len() {
        assert(ids_at_node(d, n)[k] == x);
        lemma_ids_belong(d, n, x);
        let i = choose|i: int| 0 <= i < d.len() && #[trigger] d[i].id == x;
        assert(elems[i] == d[i]);
    } else {
        assert(tail[k - ids_at_node(d, n).len()] == x);
        assert(elems[elems.len() - 1].id == x);
    }
}

/// A graph built from the index of `elems` is symmetric, links only element
/// numbers of `elems`, and has exactly the link relation of `elems`.
proof fn lemma_built_graph(g: Map<u32, Seq<u32>>, elems: Seq<LiraElement>)
    requires
        forall|a: u32, b: u32| #[trigger] has_edge(g, a, b) <==> linked(node_index(elems), a, b),
    ensures
        symmetric(g),
        forall|a: u32, b: u32| #[trigger] has_edge(g, a, b) ==> element_ids(elems).contains(b),
        edge_of(g) == shares_node(elems),
{
    let idx = node_index(elems);
    assert forall|a: u32, b: u32| #[trigger] has_edge(g, a, b) implies has_edge(g, b, a) by {
        let n = choose|n: u32|
            #![trigger idx[n]]
            idx.contains_key(n) && linking_list(idx[n]) && idx[n].contains(a) && idx[n].contains(b);
        assert(linked(idx, b, a));
    }
    assert forall|a: u32, b: u32| #[trigger] has_edge(g, a, b) implies element_ids(elems).contains(b) by {
        let n = choose|n: u32|
            #![trigger idx[n]]
            idx.contains_key(n) && linking_list(idx[n]) && idx[n].contains(a) && idx[n].contains(b);
        lemma_ids_belong(elems, n, b);
    }
    assert(edge_of(g) =~= shares_node(elems));
}

/// Every two members of `s` reach each other along `edge`.
pub open spec fn connected(edge: spec_fn(u32, u32) -> bool, s: Set<u32>) -> bool {
    forall|x: u32, y: u32| s.contains(x) && s.contains(y) ==> #[trigger] reachable(edge, x, y)
}

/// Whether removing `element_id` from the group `members` leaves at least
/// two elements that are no longer all connected, within the group, along
/// the graph `g`.
pub open spec fn is_bridge(g: Map<u32, Seq<u32>>, members: Seq<u32>, element_id: u32) -> bool {
    let rest = members.to_set().remove(element_id);
    rest.len() >= 2 && !connected(restricted(g, Some(rest)), rest)
}

/// A closed set holds everything reachable from its members.
pub proof fn lemma_closed_reach(edge: spec_fn(u32, u32) -> bool, s: Set<u32>, a: u32, b: u32)
    requires
        closed_under(edge, s),
        s.contains(a),
        reachable(edge, a, b),
    ensures
        s.contains(b),
{
    let p = choose|p: Seq<u32>| #[trigger] is_walk(edge, p) && p[0] == a && p.last() == b;
    lemma_walk_stays(edge, s, p, p.len() - 1);
}

proof fn lemma_walk_stays(edge: spec_fn(u32, u32) -> bool, s: Set<u32>, p: Seq<u32>, k: int)
    requires
        closed_under(edge, s),
        is_walk(edge, p),
        s.contains(p[0]),
        0 <= k < p.len(),
    ensures
        s.contains(p[k]),
    decreases k,
{
    if k > 0 {
        lemma_walk_stays(edge, s, p, k - 1);
        assert(edge(p[k - 1], p[(k - 1) + 1]));
    }
}

/// Reachability along a symmetric relation is symmetric.
pub proof fn lemma_reach_symm(edge: spec_fn(u32, u32) -> bool, a: u32, b: u32)
    requires
        forall|x: u32, y: u32| #[trigger] edge(x, y) ==> edge(y, x),
        reachable(edge, a, b),
    ensures
        reachable(edge, b, a),
{
    let p = choose|p: Seq<u32>| #[trigger] is_walk(edge, p) && p[0] == a && p.last() == b;
    let q = p.reverse();
    assert forall|i: int| 0 <= i < q.len() - 1 implies #[trigger] edge(q[i], q[i + 1]) by {
        let j = p.len() - 2 - i;
        assert(edge(p[j], p[j + 1]));
        assert(q[i] == p[j + 1] && q[i + 1] == p[j]);
    }
    assert(is_walk(edge, q));
}

/// Reachability is transitive.
pub proof fn lemma_reach_trans(edge: spec_fn(u32, u32) -> bool, a: u32, b: u32, c: u32)
    requires
        reachable(edge, a, b),
        reachable(edge, b, c),
    ensures
        reachable(edge, a, c),
{
    let p = choose|p: Seq<u32>| #[trigger] is_walk(edge, p) && p[0] == a && p.last() == b;
    let q = choose|q: Seq<u32>| #[trigger] is_walk(edge, q) && q[0] == b && q.last() == c;
    let r = p + q.drop_first();
    assert forall|i: int| 0 <= i < r.len() - 1 implies #[trigger] edge(r[i], r[i + 1]) by {
        if i < p.len() - 1 {
            assert(edge(p[i], p[i + 1]));
        } else {
            let j = i - (p.len() - 1);
            assert(edge(q[j], q[j + 1]));
            if i == p.len() - 1 {
                assert(r[i] == b);
            }
        }
    }
    assert(is_walk(edge, r));
    if q.len() == 1 {
        assert(r.last() == p.last());
    }
}

/// A node that no element uses carries no element numbers.
pub proof fn lemma_no_ids_unused(elems: Seq<LiraElement>, n: u32)
    requires
        !node_used(elems, n),
    ensures
        ids_at_node(elems, n) == Seq::<u32>::empty(),
    decreases elems.len(),
{
    if elems.len() > 0 {
        let d = elems.drop_last();
        assert(!node_used(d, n)) by {
            if node_used(d, n) {
                let k = choose|k: int| 0 <= k < d.len() && #[trigger] d[k].nodes@.contains(n);
                assert(elems[k] == d[k]);
            }
        }
        lemma_no_ids_unused(d, n);
        assert(!elems[elems.len() - 1].nodes@.contains(n));
        lemma_count_contains(elems.last().nodes@, n);
        assert(ids_at_node(elems, n) =~= Seq::<u32>::empty());
    }
}

/// Two elements that share a node are linked both ways.
pub proof fn law_links_are_symmetric(elems: Seq<LiraElement>, a: u32, b: u32)
    ensures
        shares_node(elems)(a, b) == shares_node(elems)(b, a),
{
}

/// Two analysed elements lie in the same group exactly when a chain of
/// elements, each sharing a node with the next, leads from one to the other:
/// the groups are the connected components of the shared-node relation.
pub proof fn law_groups_are_connected_components(
    groups: Seq<ConnectedGroup>,
    elems: Seq<LiraElement>,
    c: int,
    x: u32,
    y: u32,
)
    requires
        components_hold(groups, elems, shares_node(elems)),
        0 <= c < groups.len(),
        groups[c].elements@.contains(x),
        element_ids(elems).contains(y),
    ensures
        groups[c].elements@.contains(y) <==> reachable(shares_node(elems), x, y),
{
    let edge = shares_node(elems);
    let comps = members_of(groups);
    assert(comps[c] == groups[c].elements@);
    assert forall|p: u32, q: u32| #[trigger] edge(p, q) implies edge(q, p) by {
        law_links_are_symmetric(elems, p, q);
    }
    let first = comps[c][0];
    if groups[c].elements@.contains(y) {
        assert(reachable(edge, first, x));
        assert(reachable(edge, first, y));
        lemma_reach_symm(edge, first, x);
        lemma_reach_trans(edge, x, first, y);
    }
    if reachable(edge, x, y) {
        assert(closed_under(edge, comps[c].to_set()));
        assert(comps[c].to_set().contains(x));
        lemma_closed_reach(edge, comps[c].to_set(), x, y);
    }
}

/// Every analysed element lies in exactly one group.
pub proof fn law_each_element_in_one_group(groups: Seq<ConnectedGroup>, elems: Seq<LiraElement>, x: u32)
    requires
        components_hold(groups, elems, shares_node(elems)),
        element_ids(elems).contains(x),
    ensures
        exists|c: int| 0 <= c < groups.len() && #[trigger] groups[c].elements@.contains(x),
        forall|c: int, d: int|
            0 <= c < groups.len() && 0 <= d < groups.len() && #[trigger] groups[c].elements@.contains(x)
                && #[trigger] groups[d].elements@.contains(x) ==> c == d,
{
    let comps = members_of(groups);
    let i = choose|i: int| 0 <= i < comps.len() && #[trigger] comps[i].contains(x);
    assert(groups[i].elements@ == comps[i]);
    assert forall|c: int, d: int|
        0 <= c < groups.len() && 0 <= d < groups.len() && #[trigger] groups[c].elements@.contains(x)
            && #[trigger] groups[d].elements@.contains(x) implies c == d by {
        assert(comps[c] == groups[c].elements@);
        assert(comps[d] == groups[d].elements@);
    }
}

/// Elements with different numbers never use the same node.
pub open spec fn nodes_unshared(elems: Seq<LiraElement>) -> bool {
    forall|i: int, j: int, n: u32|
        0 <= i < elems.len() && 0 <= j < elems.len() && elems[i].id != elems[j].id
            && #[trigger] elems[i].nodes@.contains(n) ==> !#[trigger] elems[j].nodes@.contains(n)
}

/// An element number recorded at node `n` belongs to an element that uses
/// `n`.
proof fn lemma_ids_at_node_source(elems: Seq<LiraElement>, n: u32, x: u32)
    requires
        ids_at_node(elems, n).contains(x),
    ensures
        exists|i: int| 0 <= i < elems.len() && elems[i].id == x && #[trigger] elems[i].nodes@.contains(n),
    decreases elems.len(),
{
    let d = elems.drop_last();
    let last = elems.last();
    let tail = Seq::new(count_of(last.nodes@, n), |_i: int| last.id);
    let k = choose|k: int| 0 <= k < ids_at_node(elems, n).len() && ids_at_node(elems, n)[k] == x;
    if k < ids_at_node(d, n).len() {
        assert(ids_at_node(d, n)[k] == x);
        lemma_ids_at_node_source(d, n, x);
        let i = choose|i: int| 0 <= i < d.len() && d[i].id == x && #[trigger] d[i].nodes@.contains(n);
        assert(elems[i] == d[i]);
    } else {
        assert(tail[k - ids_at_node(d, n).len()] == x);
        assert(count_of(last.nodes@, n) > 0);
        lemma_count_contains(last.nodes@, n);
        assert(elems[elems.len() - 1] == last);
    }
}

/// When elements with different numbers never use the same node, every
/// group holds exactly one element.
pub proof fn law_unlinked_elements_are_alone(groups: Seq<ConnectedGroup>, elems: Seq<LiraElement>, c: int)
    requires
        components_hold(groups, elems, shares_node(elems)),
        nodes_unshared(elems),
        0 <= c < groups.len(),
    ensures
        groups[c].elements@.len() == 1,
{
    let edge = shares_node(elems);
    let comps = members_of(groups);
    let part = comps[c];
    assert(part == groups[c].elements@);
    assert(part.len() > 0 && part.no_duplicates());
    assert forall|a: u32, b: u32| !(#[trigger] edge(a, b)) by {
        if edge(a, b) {
            let idx = node_index(elems);
            let n = choose|n: u32|
                #![trigger idx[n]]
                idx.contains_key(n) && linking_list(idx[n]) && idx[n].contains(a) && idx[n].contains(b);
            lemma_ids_at_node_source(elems, n, a);
            lemma_ids_at_node_source(elems, n, b);
            let i = choose|i: int| 0 <= i < elems.len() && elems[i].id == a && #[trigger] elems[i].nodes@.contains(n);
            let j = choose|j: int| 0 <= j < elems.len() && elems[j].id == b && #[trigger] elems[j].nodes@.contains(n);
            assert(elems[i].nodes@.contains(n) && elems[j].nodes@.contains(n));
        }
    }
    assert forall|t: int| 0 <= t < part.len() implies #[trigger] part[t] == part[0] by {
        assert(part.contains(part[t]));
        assert(reachable(edge, part[0], part[t]));
        let p = choose|p: Seq<u32>| #[trigger] is_walk(edge, p) && p[0] == part[0] && p.last() == part[t];
        if p.len() > 1 {
            assert(edge(p[0], p[0int + 1]));
        }
    }
    if part.len() > 1 {
        assert(part[1] == part[0]);
    }
}

} // verus!
