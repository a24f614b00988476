//! Transitive-closure queries over an adjacency map: the set of everything
//! reachable from a seed identifier by following edges, the seed included.
//!
//! The traversal marks an identifier visited before expanding it, so a cycle
//! in the edge map cannot make it loop; termination rests only on the edge
//! map being finite.

use vstd::prelude::*;
use vstd::set_lib::lemma_len_subset;

use crate::store::{
    edge_in, edges_keys_unique, edges_map, edges_values_unique, set_of_strings, strings_unique,
};

verus! {

/// Every adjacent pair of the sequence is an edge of `m`.
pub open spec fn is_path(m: Map<Seq<char>, Set<Seq<char>>>, p: Seq<Seq<char>>) -> bool {
    forall|k: int| 0 <= k < p.len() - 1 ==> #[trigger] edge_in(m, p[k], p[k + 1])
}

/// `to` can be reached from `from` by following edges of `m`; every
/// identifier reaches itself.
pub open spec fn reachable(
    m: Map<Seq<char>, Set<Seq<char>>>,
    from: Seq<char>,
    to: Seq<char>,
) -> bool {
    exists|p: Seq<Seq<char>>| p.len() > 0 && p[0] == from && p.last() == to && is_path(m, p)
}

/// The closure is reflexive: every identifier reaches itself.
pub proof fn lemma_closure_reflexive(m: Map<Seq<char>, Set<Seq<char>>>, x: Seq<char>)
    ensures
        reachable(m, x, x),
{
    let p = seq![x];
    assert(p.len() > 0 && p[0] == x && p.last() == x && is_path(m, p));
}

/// One more edge extends reachability.
pub proof fn lemma_reachable_step(
    m: Map<Seq<char>, Set<Seq<char>>>,
    a: Seq<char>,
    b: Seq<char>,
    c: Seq<char>,
)
    requires
        reachable(m, a, b),
        edge_in(m, b, c),
    ensures
        reachable(m, a, c),
{
    let p = choose|p: Seq<Seq<char>>| p.len() > 0 && p[0] == a && p.last() == b && is_path(m, p);
    let q = p.push(c);
    assert(q[0] == a && q.last() == c);
    assert forall|k: int| 0 <= k < q.len() - 1 implies #[trigger] edge_in(m, q[k], q[k + 1]) by {
        if k < p.len() - 1 {
            assert(q[k] == p[k] && q[k + 1] == p[k + 1]);
        } else {
            assert(q[k] == p.last() && q[k + 1] == c);
        }
    }
    assert(q.len() > 0 && q[0] == a && q.last() == c && is_path(m, q));
}

/// The closure is transitive.
pub proof fn lemma_closure_transitive(
    m: Map<Seq<char>, Set<Seq<char>>>,
    a: Seq<char>,
    b: Seq<char>,
    c: Seq<char>,
)
    requires
        reachable(m, a, b),
        reachable(m, b, c),
    ensures
        reachable(m, a, c),
{
    let p1 = choose|p: Seq<Seq<char>>| p.len() > 0 && p[0] == a && p.last() == b && is_path(m, p);
    let p2 = choose|p: Seq<Seq<char>>| p.len() > 0 && p[0] == b && p.last() == c && is_path(m, p);
    let q = p1 + p2.subrange(1, p2.len() as int);
    assert(q[0] == a);
    assert(q.len() == p1.len() + p2.len() - 1);
    if p2.len() == 1 {
        assert(q =~= p1);
        assert(q.last() == c);
    } else {
        assert(q.last() == p2[p2.len() - 1]);
    }
    assert forall|k: int| 0 <= k < q.len() - 1 implies #[trigger] edge_in(m, q[k], q[k + 1]) by {
        if k < p1.len() - 1 {
            assert(q[k] == p1[k] && q[k + 1] == p1[k + 1]);
        } else if k == p1.len() - 1 {
            assert(q[k] == p1.last() && q[k + 1] == p2[1]);
            assert(edge_in(m, p2[0], p2[1]));
        } else {
            let k2 = k - p1.len() + 1;
            assert(q[k] == p2[k2] && q[k + 1] == p2[k2 + 1]);
            assert(edge_in(m, p2[k2], p2[k2 + 1]));
        }
    }
    assert(q.len() > 0 && q[0] == a && q.last() == c && is_path(m, q));
}

/// A set that holds the seed and is closed under the edges of `m` covers
/// everything the seed reaches: first along one path, then for every path.
proof fn lemma_path_covered(
    m: Map<Seq<char>, Set<Seq<char>>>,
    p: Seq<Seq<char>>,
    cover: Set<Seq<char>>,
)
    requires
        p.len() > 0,
        is_path(m, p),
        cover.contains(p[0]),
        forall|x: Seq<char>, y: Seq<char>|
            cover.contains(x) && #[trigger] edge_in(m, x, y) ==> cover.contains(y),
    ensures
        cover.contains(p.last()),
    decreases p.len(),
{
    if p.len() > 1 {
        let q = p.drop_last();
        assert(forall|k: int| 0 <= k < q.len() - 1 ==> #[trigger] q[k] == p[k] && q[k + 1] == p[k + 1]);
        lemma_path_covered(m, q, cover);
        let k0 = p.len() - 2;
        assert(edge_in(m, p[k0], p[k0 + 1]));
        assert(q.last() == p[k0]);
        assert(p.last() == p[k0 + 1]);
    }
}

/// A set that holds the seed and is closed under the edges of `m` covers
/// everything the seed reaches.
pub proof fn lemma_closed_set_covers(
    m: Map<Seq<char>, Set<Seq<char>>>,
    seed: Seq<char>,
    cover: Set<Seq<char>>,
    to: Seq<char>,
)
    requires
        cover.contains(seed),
        forall|x: Seq<char>, y: Seq<char>|
            cover.contains(x) && #[trigger] edge_in(m, x, y) ==> cover.contains(y),
        reachable(m, seed, to),
    ensures
        cover.contains(to),
{
    let p = choose|p: Seq<Seq<char>>| p.len() > 0 && p[0] == seed && p.last() == to && is_path(
        m,
        p,
    );
    lemma_path_covered(m, p, cover);
}

/// Every identifier string an adjacency list mentions: its keys and their
/// neighbours.
pub open spec fn edges_strings(s: Seq<(String, Vec<String>)>) -> Seq<Seq<char>>
    decreases s.len(),
{
    if s.len() == 0 {
        Seq::empty()
    } else {
        edges_strings(s.drop_last()) + seq![s.last().0@] + s.last().1@.map_values(
            |x: String| x@,
        )
    }
}

/// `edges_strings` mentions every key and every neighbour.
proof fn lemma_edges_strings(s: Seq<(String, Vec<String>)>)
    ensures
        forall|e: int| 0 <= e < s.len() ==> edges_strings(s).contains(#[trigger] s[e].0@),
        forall|e: int, k: int|
            0 <= e < s.len() && 0 <= k < s[e].1@.len() ==> edges_strings(s).contains(
                #[trigger] s[e].1@[k]@,
            ),
    decreases s.len(),
{
    if s.len() > 0 {
        let pre = edges_strings(s.drop_last());
        let whole = edges_strings(s);
        let n = s.len() as int;
        lemma_edges_strings(s.drop_last());
        assert(forall|e: int| 0 <= e < n - 1 ==> s.drop_last()[e] == s[e]);
        assert(whole[pre.len() as int] == s[n - 1].0@);
        assert forall|e: int| 0 <= e < s.len() implies whole.contains(#[trigger] s[e].0@) by {
            if e < n - 1 {
                assert(pre.contains(s[e].0@));
                let idx = choose|idx: int| 0 <= idx < pre.len() && pre[idx] == s[e].0@;
                assert(whole[idx] == s[e].0@);
            }
        }
        assert forall|e: int, k: int|
            0 <= e < s.len() && 0 <= k < s[e].1@.len() implies whole.contains(
            #[trigger] s[e].1@[k]@,
        ) by {
            if e < n - 1 {
                assert(pre.contains(s[e].1@[k]@));
                let idx = choose|idx: int| 0 <= idx < pre.len() && pre[idx] == s[e].1@[k]@;
                assert(whole[idx] == s[e].1@[k]@);
            } else {
                assert(whole[pre.len() + 1 + k] == s[n - 1].1@.map_values(|x: String| x@)[k]);
                assert(whole[pre.len() + 1 + k] == s[e].1@[k]@);
            }
        }
    }
}

/// With distinct, covered strings, a vector is no longer than the finite set
/// covering it.
proof fn lemma_unique_strings_card(v: Seq<String>, cover: Set<Seq<char>>)
    requires
        strings_unique(v),
        cover.finite(),
        forall|k: int| 0 <= k < v.len() ==> cover.contains(#[trigger] v[k]@),
    ensures
        v.len() <= cover.len(),
{
    let mapped = v.map_values(|x: String| x@);
    assert(mapped.no_duplicates()) by {
        assert forall|i: int, j: int|
            0 <= i < mapped.len() && 0 <= j < mapped.len() && i != j implies mapped[i]
            != mapped[j] by {
            if i < j {
                assert(v[i]@ != v[j]@);
            } else {
                assert(v[j]@ != v[i]@);
            }
        }
    }
    mapped.unique_seq_to_set();
    assert(mapped.to_set().subset_of(cover)) by {
        assert forall|x: Seq<char>| mapped.to_set().contains(x) implies cover.contains(x) by {
            let k = choose|k: int| 0 <= k < mapped.len() && mapped[k] == x;
            assert(v[k]@ == x);
        }
    }
    lemma_len_subset(mapped.to_set(), cover);
}

/// Everything reachable from `seed` by following the adjacency list's edges,
/// the seed included. Each identifier is marked visited before its neighbours
/// are expanded, so a cyclic edge map cannot re-enter it.
pub fn closure_from(edges: &Vec<(String, Vec<String>)>, seed: &String) -> (r: Vec<String>)
    requires
        edges_keys_unique(edges@),
        edges_values_unique(edges@),
    ensures
        strings_unique(r@),
        forall|x: Seq<char>|
            #[trigger] set_of_strings(r@).contains(x) <==> reachable(edges_map(edges@), seed@, x),
{
    let ghost m = edges_map(edges@);
    let ghost universe = edges_strings(edges@).push(seed@).to_set();
    proof {
        vstd::seq_lib::seq_to_set_is_finite(edges_strings(edges@).push(seed@));
        lemma_edges_strings(edges@);
        assert(edges_strings(edges@).push(seed@).last() == seed@);
        assert(universe.contains(seed@));
    }
    let mut visited: Vec<String> = Vec::new();
    let mut stack: Vec<String> = Vec::new();
    stack.push(seed.clone());
    proof {
        lemma_closure_reflexive(m, seed@);
        assert(set_of_strings(stack@).contains(seed@)) by {
            assert(stack@[0]@ == seed@);
        }
    }
    while stack.len() > 0
        invariant
            edges_keys_unique(edges@),
            edges_values_unique(edges@),
            m == edges_map(edges@),
            universe == edges_strings(edges@).push(seed@).to_set(),
            universe.finite(),
            strings_unique(visited@),
            forall|k: int| 0 <= k < visited@.len() ==> universe.contains(#[trigger] visited@[k]@),
            forall|k: int| 0 <= k < stack@.len() ==> universe.contains(#[trigger] stack@[k]@),
            forall|k: int|
                0 <= k < visited@.len() ==> reachable(m, seed@, #[trigger] visited@[k]@),
            forall|k: int| 0 <= k < stack@.len() ==> reachable(m, seed@, #[trigger] stack@[k]@),
            set_of_strings(visited@).contains(seed@) || set_of_strings(stack@).contains(seed@),
            forall|x: Seq<char>, y: Seq<char>|
                set_of_strings(visited@).contains(x) && #[trigger] edge_in(m, x, y)
                    ==> set_of_strings(visited@).contains(y) || set_of_strings(stack@).contains(y),
            visited@.len() <= universe.len(),
        decreases universe.len() - visited@.len(), stack@.len(),
    {
        let ghost stack0 = stack@;
        let top = match stack.pop() {
            Some(t) => t,
            None => {
                proof {
                    assert(false);
                }
                seed.clone()
            },
        };
        proof {
            assert(top@ == stack0.last()@);
            assert(forall|k: int| 0 <= k < stack@.len() ==> stack@[k] == stack0[k]);
        }
        if !vec_contains_string_local(&visited, &top) {
            let ghost visited0 = visited@;
            visited.push(top.clone());
            proof {
                crate::store::lemma_set_of_strings_push(visited0, visited@.last());
                assert(strings_unique(visited@)) by {
                    assert forall|p: int, q: int|
                        0 <= p < q < visited@.len() implies visited@[p]@ != visited@[q]@ by {
                        if q == visited@.len() - 1 {
                            assert(!set_of_strings(visited0).contains(top@));
                            assert(visited0[p]@ != top@);
                        }
                    }
                }
                assert(universe.contains(top@));
                lemma_unique_strings_card(visited@, universe);
            }
            match crate::store::edges_find(edges, &top) {
                Some(i) => {
                    proof {
                        crate::store::lemma_edges_map_entry(edges@, i as int);
                    }
                    let neighbours = &edges[i].1;
                    let mut k: usize = 0;
                    while k < neighbours.len()
                        invariant
                            0 <= i < edges@.len(),
                            neighbours@ == edges@[i as int].1@,
                            edges_keys_unique(edges@),
                            edges_values_unique(edges@),
                            m == edges_map(edges@),
                            universe == edges_strings(edges@).push(seed@).to_set(),
                            universe.finite(),
                            edges@[i as int].0@ == top@,
                            m.contains_key(top@) && m[top@] == set_of_strings(
                                edges@[i as int].1@,
                            ),
                            k <= neighbours@.len(),
                            reachable(m, seed@, top@),
                            set_of_strings(visited@).contains(top@),
                            strings_unique(visited@),
                            forall|q: int|
                                0 <= q < visited@.len() ==> universe.contains(
                                    #[trigger] visited@[q]@,
                                ),
                            forall|q: int|
                                0 <= q < stack@.len() ==> universe.contains(#[trigger] stack@[q]@),
                            forall|q: int|
                                0 <= q < visited@.len() ==> reachable(
                                    m,
                                    seed@,
                                    #[trigger] visited@[q]@,
                                ),
                            forall|q: int|
                                0 <= q < stack@.len() ==> reachable(m, seed@, #[trigger] stack@[q]@),
                            set_of_strings(visited@).contains(seed@) || set_of_strings(
                                stack@,
                            ).contains(seed@),
                            forall|x: Seq<char>, y: Seq<char>|
                                set_of_strings(visited@).contains(x) && #[trigger] edge_in(m, x, y)
                                    && x != top@ ==> set_of_strings(visited@).contains(y)
                                    || set_of_strings(stack@).contains(y),
                            forall|y: Seq<char>|
                                #[trigger] edge_in(m, top@, y) ==> set_of_strings(
                                    visited@,
                                ).contains(y) || set_of_strings(stack@).contains(y) || exists|
                                    q: int,
                                | k <= q < neighbours@.len() && neighbours@[q]@ == y,
                            visited@.len() <= universe.len(),
                        decreases neighbours@.len() - k,
                    {
                        let ghost stack1 = stack@;
                        stack.push(neighbours[k].clone());
                        proof {
                            assert(forall|q: int| 0 <= q < stack1.len() ==> stack@[q] == stack1[q]);
                            assert(stack@.last()@ == neighbours@[k as int]@);
                            assert(edge_in(m, top@, neighbours@[k as int]@)) by {
                                assert(set_of_strings(edges@[i as int].1@).contains(
                                    neighbours@[k as int]@,
                                ));
                            }
                            lemma_reachable_step(m, seed@, top@, neighbours@[k as int]@);
                            assert(universe.contains(neighbours@[k as int]@)) by {
                                lemma_edges_strings(edges@);
                                let strs = edges_strings(edges@);
                                assert(strs.contains(edges@[i as int].1@[k as int]@));
                                let idx = choose|idx: int|
                                    0 <= idx < strs.len() && strs[idx] == edges@[i as int].1@[
                                        k as int]@;
                                assert(strs.push(seed@)[idx] == edges@[i as int].1@[k as int]@);
                                assert(strs.push(seed@).contains(edges@[i as int].1@[k as int]@));
                            }
                            assert forall|y: Seq<char>|
                                #[trigger] edge_in(m, top@, y) implies set_of_strings(
                                visited@,
                            ).contains(y) || set_of_strings(stack@).contains(y) || exists|q: int|
                                k + 1 <= q < neighbours@.len() && neighbours@[q]@ == y by {
                                if !(set_of_strings(visited@).contains(y)) && !(set_of_strings(
                                    stack@,
                                ).contains(y)) {
                                    assert(!set_of_strings(stack1).contains(y)) by {
                                        if set_of_strings(stack1).contains(y) {
                                            let q = choose|q: int|
                                                0 <= q < stack1.len() && stack1[q]@ == y;
                                            assert(stack@[q]@ == y);
                                        }
                                    }
                                    let q = choose|q: int|
                                        k <= q < neighbours@.len() && neighbours@[q]@ == y;
                                    assert(q != k);
                                }
                            }
                        }
                        k = k + 1;
                    }
                    proof {
                        assert forall|x: Seq<char>, y: Seq<char>|
                            set_of_strings(visited@).contains(x) && #[trigger] edge_in(m, x, y)
                                implies set_of_strings(visited@).contains(y) || set_of_strings(
                            stack@,
                        ).contains(y) by {
                            if x == top@ {
                                assert(edge_in(m, top@, y));
                            }
                        }
                    }
                },
                None => {
                    proof {
                        assert forall|x: Seq<char>, y: Seq<char>|
                            set_of_strings(visited@).contains(x) && #[trigger] edge_in(m, x, y)
                                implies set_of_strings(visited@).contains(y) || set_of_strings(
                            stack@,
                        ).contains(y) by {
                            if x == top@ {
                                assert(!m.contains_key(top@));
                            } else {
                                assert(set_of_strings(visited0).contains(x)) by {
                                    let q = choose|q: int|
                                        0 <= q < visited@.len() && visited@[q]@ == x;
                                    assert(q < visited0.len());
                                }
                                if set_of_strings(stack0).contains(y) {
                                    let q = choose|q: int|
                                        0 <= q < stack0.len() && stack0[q]@ == y;
                                    if q < stack@.len() {
                                        assert(stack@[q]@ == y);
                                    } else {
                                        assert(stack0[q]@ == top@);
                                    }
                                }
                            }
                        }
                    }
                },
            }
            proof {
                assert(set_of_strings(visited@).contains(seed@) || set_of_strings(
                    stack@,
                ).contains(seed@)) by {
                    if set_of_strings(visited0).contains(seed@) {
                        let q = choose|q: int| 0 <= q < visited0.len() && visited0[q]@ == seed@;
                        assert(visited@[q]@ == seed@);
                    } else if seed@ == top@ {
                        assert(visited@.last()@ == seed@);
                    } else if set_of_strings(stack0).contains(seed@) {
                        let q = choose|q: int| 0 <= q < stack0.len() && stack0[q]@ == seed@;
                        assert(q < stack0.len() - 1 || stack0[q]@ == top@);
                    }
                }
            }
        } else {
            proof {
                assert forall|x: Seq<char>, y: Seq<char>|
                    set_of_strings(visited@).contains(x) && #[trigger] edge_in(m, x, y)
                        implies set_of_strings(visited@).contains(y) || set_of_strings(
                    stack@,
                ).contains(y) by {
                    if set_of_strings(stack0).contains(y) {
                        let q = choose|q: int| 0 <= q < stack0.len() && stack0[q]@ == y;
                        if q < stack@.len() {
                            assert(stack@[q]@ == y);
                        } else {
                            assert(stack0[q]@ == top@);
                            assert(set_of_strings(visited@).contains(top@));
                        }
                    }
                }
                assert(set_of_strings(visited@).contains(seed@) || set_of_strings(
                    stack@,
                ).contains(seed@)) by {
                    if !set_of_strings(visited@).contains(seed@) && set_of_strings(
                        stack0,
                    ).contains(seed@) {
                        let q = choose|q: int| 0 <= q < stack0.len() && stack0[q]@ == seed@;
                        if q < stack@.len() {
                            assert(stack@[q]@ == seed@);
                        } else {
                            assert(stack0[q]@ == top@);
                            assert(set_of_strings(visited@).contains(top@));
                        }
                    }
                }
            }
        }
    }
    proof {
        assert forall|x: Seq<char>|
            #[trigger] set_of_strings(visited@).contains(x) <==> reachable(m, seed@, x) by {
            if set_of_strings(visited@).contains(x) {
                let q = choose|q: int| 0 <= q < visited@.len() && visited@[q]@ == x;
            }
            if reachable(m, seed@, x) {
                assert(set_of_strings(visited@).contains(seed@));
                lemma_closed_set_covers(m, seed@, set_of_strings(visited@), x);
            }
        }
    }
    visited
}

/// Whether a vector holds a string with the given value.
fn vec_contains_string_local(v: &Vec<String>, x: &String) -> (r: bool)
    ensures
        r == set_of_strings(v@).contains(x@),
{
    let mut i: usize = 0;
    while i < v.len()
        invariant
            i <= v@.len(),
            forall|j: int| 0 <= j < i ==> v@[j]@ != x@,
        decreases v@.len() - i,
    {
        if v[i] == *x {
            return true;
        }
        i = i + 1;
    }
    false
}

} // verus!
