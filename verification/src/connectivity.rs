//! Undirected connectivity over link lists: adjacency, paths, reachability,
//! and the computation of connected components.

use vstd::prelude::*;

verus! {

/// One undirected link, stored as the pair of node ids it joins.
pub type Link = (usize, usize);

/// Two ids are adjacent when the link list records the pair, in either
/// orientation.
pub open spec fn links(es: Seq<Link>, x: usize, y: usize) -> bool {
    exists|i: int| 0 <= i < es.len() && (es[i] == (x, y) || es[i] == (y, x))
}

/// A path is a non-empty run of ids in which consecutive ids are adjacent.
pub open spec fn is_path(es: Seq<Link>, p: Seq<usize>) -> bool {
    &&& p.len() >= 1
    &&& forall|i: int| 0 <= i < p.len() - 1 ==> links(es, #[trigger] p[i], p[i + 1])
}

/// Two ids are connected when some path leads from one to the other. Every id
/// is connected to itself by the one-element path.
pub open spec fn connected(es: Seq<Link>, x: usize, y: usize) -> bool {
    exists|p: Seq<usize>| is_path(es, p) && p.first() == x && p.last() == y
}

/// The position of the link that joins `x` and `y`, meaningful when such a
/// link is recorded.
pub open spec fn link_index(es: Seq<Link>, x: usize, y: usize) -> int {
    choose|i: int| 0 <= i < es.len() && (es[i] == (x, y) || es[i] == (y, x))
}

/// The link list without the link that joins `x` and `y`.
pub open spec fn drop_link(es: Seq<Link>, x: usize, y: usize) -> Seq<Link> {
    es.remove(link_index(es, x, y))
}

/// All listed ids are mutually connected under the given links.
pub open spec fn one_component(verts: Seq<usize>, es: Seq<Link>) -> bool {
    forall|k1: int, k2: int|
        0 <= k1 < verts.len() && 0 <= k2 < verts.len() ==> connected(es, verts[k1], verts[k2])
}

/// Two directly linked ids are connected.
pub proof fn lemma_adjacent_connected(es: Seq<Link>, x: usize, y: usize)
    requires
        links(es, x, y),
    ensures
        connected(es, x, y),
{
    let p: Seq<usize> = seq![x, y];
    assert(p.len() == 2);
    assert(p.first() == x);
    assert(p.last() == y);
    assert(links(es, p[0], p[1]));
    assert(is_path(es, p));
}

/// Every element of a filtered sequence stands somewhere in the original.
pub proof fn lemma_filter_is_subset<A>(s: Seq<A>, pred: spec_fn(A) -> bool)
    ensures
        forall|i: int| 0 <= i < s.filter(pred).len() ==> s.contains(#[trigger] s.filter(pred)[i]),
    decreases s.len(),
{
    reveal(Seq::filter);
    if s.len() > 0 {
        lemma_filter_is_subset(s.drop_last(), pred);
        assert forall|i: int| 0 <= i < s.filter(pred).len() implies s.contains(
            #[trigger] s.filter(pred)[i],
        ) by {
            let fd = s.drop_last().filter(pred);
            if i < fd.len() {
                assert(s.filter(pred)[i] == fd[i]);
                assert(s.drop_last().contains(fd[i]));
                let j = choose|j: int| 0 <= j < s.drop_last().len() && s.drop_last()[j] == fd[i];
                assert(s[j] == fd[i]);
            } else {
                assert(s.filter(pred)[i] == s.last());
                assert(s[s.len() - 1] == s.last());
            }
        }
    }
}

/// Filtering one more element of a prefix extends the filtered image by the
/// element exactly when it passes the predicate.
pub proof fn lemma_filter_take_step<A>(s: Seq<A>, pred: spec_fn(A) -> bool, k: int)
    requires
        0 <= k < s.len(),
    ensures
        s.take(k + 1).filter(pred) == if pred(s[k]) {
            s.take(k).filter(pred).push(s[k])
        } else {
            s.take(k).filter(pred)
        },
{
    assert(s.take(k + 1) =~= s.take(k).push(s[k]));
    s.take(k).lemma_filter_push(s[k], pred);
}

/// Filtering a duplicate-free sequence leaves it duplicate-free.
pub proof fn lemma_filter_no_dup<A>(s: Seq<A>, pred: spec_fn(A) -> bool)
    requires
        s.no_duplicates(),
    ensures
        s.filter(pred).no_duplicates(),
    decreases s.len(),
{
    reveal(Seq::filter);
    if s.len() > 0 {
        assert(forall|i: int|
            0 <= i < s.drop_last().len() ==> #[trigger] s.drop_last()[i] == s[i]);
        assert(s.drop_last().no_duplicates());
        lemma_filter_no_dup(s.drop_last(), pred);
        lemma_filter_is_subset(s.drop_last(), pred);
        let f = s.filter(pred);
        let fd = s.drop_last().filter(pred);
        if pred(s.last()) {
            assert forall|i: int, j: int|
                0 <= i < f.len() && 0 <= j < f.len() && i != j implies f[i] != f[j] by {
                if i < fd.len() && j < fd.len() {
                    assert(f[i] == fd[i] && f[j] == fd[j]);
                } else {
                    let k = if i < fd.len() {
                        i
                    } else {
                        j
                    };
                    assert(f[k] == fd[k]);
                    if fd[k] == s.last() {
                        assert(s.drop_last().contains(fd[k]));
                        let t = choose|t: int|
                            0 <= t < s.drop_last().len() && s.drop_last()[t] == fd[k];
                        assert(s[t] == s[s.len() - 1]);
                        assert(false);
                    }
                }
            }
        }
    }
}

/// Splits a link graph into its connected components.
///
/// Relies on petgraph::algo::tarjan_scc, which returns the strongly connected
/// components of the graph it is given; on an undirected graph those are
/// exactly the connected components, each vertex standing in exactly one of
/// them. With a usize index type petgraph's vertex and edge capacity checks
/// cannot fire, and both endpoints of every link are vertices, so no call in
/// the body panics.
#[verifier::external_body]
pub fn connected_components(verts: &Vec<usize>, es: &Vec<Link>) -> (comps: Vec<Vec<usize>>)
    requires
        forall|i: int, j: int| 0 <= i < j < verts@.len() ==> verts@[i] != verts@[j],
        forall|i: int|
            0 <= i < es@.len() ==> verts@.contains(#[trigger] es@[i].0) && verts@.contains(
                es@[i].1,
            ),
    ensures
        forall|c: int, k: int|
            0 <= c < comps@.len() && 0 <= k < comps@[c]@.len() ==> verts@.contains(
                #[trigger] comps@[c]@[k],
            ),
        forall|v: usize|
            verts@.contains(v) ==> exists|c: int, k: int|
                0 <= c < comps@.len() && 0 <= k < comps@[c]@.len() && comps@[c]@[k] == v,
        forall|c1: int, k1: int, c2: int, k2: int|
            0 <= c1 < comps@.len() && 0 <= k1 < comps@[c1]@.len() && 0 <= c2 < comps@.len() && 0
                <= k2 < comps@[c2]@.len() && #[trigger] comps@[c1]@[k1] == #[trigger] comps@[c2]@[k2]
                ==> c1 == c2 && k1 == k2,
        forall|c: int, k1: int, k2: int|
            0 <= c < comps@.len() && 0 <= k1 < comps@[c]@.len() && 0 <= k2 < comps@[c]@.len()
                ==> connected(es@, #[trigger] comps@[c]@[k1], #[trigger] comps@[c]@[k2]),
        forall|c1: int, k1: int, c2: int, k2: int|
            0 <= c1 < comps@.len() && 0 <= k1 < comps@[c1]@.len() && 0 <= c2 < comps@.len() && 0
                <= k2 < comps@[c2]@.len() && c1 != c2 ==> !connected(
                es@,
                #[trigger] comps@[c1]@[k1],
                #[trigger] comps@[c2]@[k2],
            ),
        forall|c: int| 0 <= c < comps@.len() ==> #[trigger] comps@[c]@.len() >= 1,
{
    let mut g: petgraph::graph::UnGraph<usize, (), usize> = petgraph::graph::UnGraph::default();
    let mut ix: std::collections::HashMap<usize, petgraph::graph::NodeIndex<usize>> =
        std::collections::HashMap::new();
    for v in verts.iter() {
        ix.insert(*v, g.add_node(*v));
    }
    for e in es.iter() {
        g.add_edge(ix[&e.0], ix[&e.1], ());
    }
    petgraph::algo::tarjan_scc(&g).iter().map(|c| c.iter().map(|i| g[*i]).collect()).collect()
}

} // verus!
