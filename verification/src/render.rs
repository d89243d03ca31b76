//! The inverse tree renderer: a cycle-safe depth-first walk of the inverse
//! adjacency list, rooted at every package node whose name matches the
//! requested target, producing indented text lines.

use vstd::prelude::*;
use vstd::string::StringExecFns;

use crate::graph::DependencyGraph;
use crate::graph::NodeId;
use crate::graph::contains_node;
use crate::graph::NodeKey;
use crate::graph::display_of;
use crate::graph::node_set;
use crate::model::str_eq;

verus! {

/// Whether a node is a registry package with the given name.
pub open spec fn is_match(n: NodeKey, target: Seq<char>) -> bool {
    match n {
        NodeKey::Package { name, version } => name == target,
        NodeKey::Importer { path } => false,
    }
}

/// The node list recorded for `n` in an adjacency list, taking the first
/// entry whose key matches; `None` when there is none.
pub open spec fn find_children(inv: Seq<(NodeId, Vec<NodeId>)>, n: NodeKey) -> Option<Seq<NodeId>>
    decreases inv.len(),
{
    if inv.len() == 0 {
        Option::None
    } else if inv[0].0@ == n {
        Option::Some(inv[0].1@)
    } else {
        find_children(inv.subrange(1, inv.len() as int), n)
    }
}

/// What [`find_children`] finds: the children of some entry carrying the
/// key, or a guarantee that no entry carries it.
pub proof fn lemma_find_children_index(inv: Seq<(NodeId, Vec<NodeId>)>, n: NodeKey)
    ensures
        (find_children(inv, n) matches Option::Some(cs) ==> exists|i: int|
            0 <= i < inv.len() && #[trigger] inv[i].0@ == n && inv[i].1@ == cs),
        (find_children(inv, n) is None ==> forall|i: int|
            0 <= i < inv.len() ==> #[trigger] inv[i].0@ != n),
    decreases inv.len(),
{
    if inv.len() > 0 && inv[0].0@ != n {
        let tail = inv.subrange(1, inv.len() as int);
        lemma_find_children_index(tail, n);
        match find_children(inv, n) {
            Option::Some(cs) => {
                let i = choose|i: int| 0 <= i < tail.len() && #[trigger] tail[i].0@ == n
                    && tail[i].1@ == cs;
                assert(inv[i + 1].0@ == n && inv[i + 1].1@ == cs);
            },
            Option::None => {
                assert forall|i: int| 0 <= i < inv.len() implies #[trigger] inv[i].0@ != n by {
                    if i > 0 {
                        assert(tail[i - 1].0@ != n);
                    }
                };
            },
        }
    }
}

/// Every node identity the adjacency list mentions, as key or as child.
pub open spec fn graph_nodes(inv: Seq<(NodeId, Vec<NodeId>)>) -> Set<NodeKey>
    decreases inv.len(),
{
    if inv.len() == 0 {
        Set::empty()
    } else {
        graph_nodes(inv.drop_last()).insert(inv.last().0@).union(node_set(inv.last().1@))
    }
}

/// A node list holds finitely many identities.
pub proof fn lemma_node_set_finite(s: Seq<NodeId>)
    ensures
        node_set(s).finite(),
    decreases s.len(),
{
    if s.len() > 0 {
        lemma_node_set_finite(s.drop_last());
    }
}

/// An adjacency list mentions finitely many identities.
pub proof fn lemma_graph_nodes_finite(inv: Seq<(NodeId, Vec<NodeId>)>)
    ensures
        graph_nodes(inv).finite(),
    decreases inv.len(),
{
    if inv.len() > 0 {
        lemma_graph_nodes_finite(inv.drop_last());
        lemma_node_set_finite(inv.last().1@);
        vstd::set_lib::lemma_set_union_finite_iff(
            graph_nodes(inv.drop_last()).insert(inv.last().0@),
            node_set(inv.last().1@),
        );
    }
}

/// Every entry's key is among the identities its adjacency list mentions.
pub proof fn lemma_graph_nodes_contains_at(inv: Seq<(NodeId, Vec<NodeId>)>, i: int)
    requires
        0 <= i < inv.len(),
    ensures
        graph_nodes(inv).contains(inv[i].0@),
    decreases inv.len(),
{
    if i < inv.len() - 1 {
        lemma_graph_nodes_contains_at(inv.drop_last(), i);
        assert(inv.drop_last()[i] == inv[i]);
    }
}

/// A key that [`find_children`] resolves is mentioned by the adjacency
/// list.
pub proof fn lemma_find_children_some_in_nodes(inv: Seq<(NodeId, Vec<NodeId>)>, n: NodeKey)
    ensures
        find_children(inv, n) is Some ==> graph_nodes(inv).contains(n),
{
    if find_children(inv, n) is Some {
        lemma_find_children_index(inv, n);
        let cs = find_children(inv, n)->Some_0;
        let i = choose|i: int| 0 <= i < inv.len() && #[trigger] inv[i].0@ == n && inv[i].1@ == cs;
        lemma_graph_nodes_contains_at(inv, i);
    }
}

/// The repetition marker appended to an already-rendered node.
pub open spec fn marker_suffix() -> Seq<char> {
    seq![' ', '(', '*', ')']
}

/// The continuation marker appended to a node whose dependents follow.
pub open spec fn colon_suffix() -> Seq<char> {
    seq![':']
}

/// One level of indentation.
pub open spec fn indent_step() -> Seq<char> {
    seq![' ', ' ']
}

/// The work items a node's children become: each child, indented one level
/// deeper than its parent.
pub open spec fn child_items(cs: Seq<NodeId>, pad: Seq<char>) -> Seq<(NodeKey, Seq<char>)> {
    cs.map_values(|c: NodeId| (c@, pad + indent_step()))
}

/// The root work items: every key of the adjacency list matching the
/// target, in list order, unindented.
pub open spec fn matching_roots(inv: Seq<(NodeId, Vec<NodeId>)>, target: Seq<char>) -> Seq<
    (NodeKey, Seq<char>),
>
    decreases inv.len(),
{
    if inv.len() == 0 {
        Seq::empty()
    } else {
        matching_roots(inv.drop_last(), target) + (if is_match(inv.last().0@, target) {
            seq![(inv.last().0@, Seq::<char>::empty())]
        } else {
            Seq::<(NodeKey, Seq<char>)>::empty()
        })
    }
}

/// There are no root work items exactly when no key matches the target.
pub proof fn lemma_matching_roots_empty(inv: Seq<(NodeId, Vec<NodeId>)>, target: Seq<char>)
    ensures
        matching_roots(inv, target).len() == 0 <==> (forall|i: int|
            0 <= i < inv.len() ==> !is_match(#[trigger] inv[i].0@, target)),
    decreases inv.len(),
{
    if inv.len() > 0 {
        lemma_matching_roots_empty(inv.drop_last(), target);
        if matching_roots(inv, target).len() == 0 {
            assert forall|i: int| 0 <= i < inv.len() implies !is_match(
                #[trigger] inv[i].0@,
                target,
            ) by {
                if i < inv.len() - 1 {
                    assert(!is_match(inv.drop_last()[i].0@, target));
                }
            };
        } else {
            if exists|i: int| 0 <= i < inv.drop_last().len() && is_match(
                #[trigger] inv.drop_last()[i].0@,
                target,
            ) {
                let i = choose|i: int|
                    0 <= i < inv.drop_last().len() && is_match(
                        #[trigger] inv.drop_last()[i].0@,
                        target,
                    );
                assert(is_match(inv[i].0@, target));
            } else {
                assert(matching_roots(inv.drop_last(), target).len() == 0);
                assert(is_match(inv.last().0@, target));
            }
        }
    }
}

/// The lines the depth-first walk emits from a work stack, given the nodes
/// already rendered.
///
/// The head item is rendered first: a node already seen prints its display
/// form with the repetition marker and is not expanded; an unseen node
/// without dependents prints as a leaf; an unseen node with dependents
/// prints with the continuation marker and its dependents are worked next,
/// one indentation level deeper. The seen set is shared across the whole
/// stack — including every root — so the walk terminates on cyclic graphs.
pub open spec fn render_stack(
    inv: Seq<(NodeId, Vec<NodeId>)>,
    seen: Set<NodeKey>,
    stack: Seq<(NodeKey, Seq<char>)>,
) -> Seq<Seq<char>>
    decreases graph_nodes(inv).difference(seen).len(), stack.len(),
{
    if stack.len() == 0 {
        Seq::empty()
    } else {
        let node = stack[0].0;
        let pad = stack[0].1;
        let rest = stack.subrange(1, stack.len() as int);
        if seen.contains(node) {
            seq![pad + display_of(node) + marker_suffix()] + render_stack(inv, seen, rest)
        } else {
            proof {
                lemma_graph_nodes_finite(inv);
                lemma_find_children_some_in_nodes(inv, node);
                if graph_nodes(inv).contains(node) {
                    graph_nodes(inv).lemma_set_insert_diff_decreases(seen, node);
                } else {
                    assert(graph_nodes(inv).difference(seen.insert(node)) =~= graph_nodes(
                        inv,
                    ).difference(seen));
                }
            }
            match find_children(inv, node) {
                Option::None => seq![pad + display_of(node)] + render_stack(
                    inv,
                    seen.insert(node),
                    rest,
                ),
                Option::Some(cs) => seq![pad + display_of(node) + colon_suffix()] + render_stack(
                    inv,
                    seen.insert(node),
                    child_items(cs, pad) + rest,
                ),
            }
        }
    }
}

/// Every line the tree command prints for a target name: the walk over all
/// matching roots, with one seen set shared across them.
pub open spec fn render_roots(inv: Seq<(NodeId, Vec<NodeId>)>, target: Seq<char>) -> Seq<
    Seq<char>,
> {
    render_stack(inv, Set::empty(), matching_roots(inv, target))
}

/// The character sequences of a list of lines.
pub open spec fn lines_view(v: Seq<String>) -> Seq<Seq<char>> {
    v.map_values(|s: String| s@)
}

/// The work items a stack of (node, indentation) pairs denotes.
pub open spec fn stack_view(s: Seq<(NodeId, String)>) -> Seq<(NodeKey, Seq<char>)> {
    s.map_values(|p: (NodeId, String)| (p.0@, p.1@))
}

/// Linear search for the first adjacency entry carrying a node's identity,
/// as [`find_children`] describes.
fn find_entry(inv: &Vec<(NodeId, Vec<NodeId>)>, node: &NodeId) -> (r: Option<usize>)
    ensures
        match r {
            Some(i) => i < inv@.len() && find_children(inv@, node@) == Some(inv@[i as int].1@),
            None => find_children(inv@, node@) is None,
        },
{
    proof {
        assert(inv@.subrange(0, inv@.len() as int) =~= inv@);
    }
    let mut i: usize = 0;
    while i < inv.len()
        invariant
            i <= inv@.len(),
            find_children(inv@.subrange(i as int, inv@.len() as int), node@) == find_children(
                inv@,
                node@,
            ),
        decreases inv@.len() - i,
    {
        let ghost tail = inv@.subrange(i as int, inv@.len() as int);
        if inv[i].0 == *node {
            proof {
                assert(tail[0] == inv@[i as int]);
                assert(find_children(tail, node@) == Some(tail[0].1@));
            }
            return Some(i);
        }
        proof {
            assert(tail[0] == inv@[i as int]);
            assert(tail.subrange(1, tail.len() as int) =~= inv@.subrange(
                i as int + 1,
                inv@.len() as int,
            ));
        }
        i = i + 1;
    }
    proof {
        assert(inv@.subrange(i as int, inv@.len() as int).len() == 0);
    }
    None
}

/// Renders the inverse dependency tree of every package node named
/// `name`: exactly the lines [`render_roots`] describes, in order, one
/// string per line.
///
/// The result is empty precisely when no node of the graph's inverse map
/// is a package with that name.
#[verifier::loop_isolation(false)]
pub fn render_tree(graph: &DependencyGraph, name: &str) -> (out: Vec<String>)
    ensures
        lines_view(out@) == render_roots(graph.inverse@, name@),
        (out@.len() == 0) <==> (forall|i: int|
            0 <= i < graph.inverse@.len() ==> !is_match(#[trigger] graph.inverse@[i].0@, name@)),
{
    let ghost inv0 = graph.inverse@;
    let ghost target = name@;

    let mut stack: Vec<(NodeId, String)> = Vec::new();
    let mut i: usize = 0;
    while i < graph.inverse.len()
        invariant
            i <= inv0.len(),
            stack_view(stack@) == matching_roots(inv0.take(i as int), target),
        decreases inv0.len() - i,
    {
        let node = &graph.inverse[i].0;
        let matched = match node {
            NodeId::Package { name: pname, .. } => str_eq(pname.as_str(), name),
            NodeId::Importer { .. } => false,
        };
        proof {
            assert(matched == is_match(inv0[i as int].0@, target));
        }
        if matched {
            stack.push((node.clone(), String::new()));
        }
        proof {
            assert(inv0.take(i as int + 1).drop_last() =~= inv0.take(i as int));
            assert(inv0.take(i as int + 1).last() == inv0[i as int]);
            assert(stack_view(stack@) =~= matching_roots(inv0.take(i as int + 1), target));
        }
        i = i + 1;
    }
    proof {
        assert(inv0.take(inv0.len() as int) =~= inv0);
    }

    let mut seen: Vec<NodeId> = Vec::new();
    let mut out: Vec<String> = Vec::new();
    let ghost total = render_roots(inv0, target);
    proof {
        assert(node_set(seen@) =~= Set::<NodeKey>::empty());
        assert(lines_view(out@) =~= Seq::<Seq<char>>::empty());
        assert(lines_view(out@) + render_stack(inv0, node_set(seen@), stack_view(stack@))
            =~= total);
    }
    while stack.len() > 0
        invariant
            lines_view(out@) + render_stack(inv0, node_set(seen@), stack_view(stack@)) == total,
        decreases graph_nodes(inv0).difference(node_set(seen@)).len(), stack@.len(),
    {
        let ghost pre_stackv = stack_view(stack@);
        let ghost pre_seen = node_set(seen@);
        let ghost pre_out = out@;
        let item = stack.remove(0);
        let node = item.0;
        let pad = item.1;
        proof {
            assert(pre_stackv[0] == (node@, pad@));
            assert(stack_view(stack@) =~= pre_stackv.subrange(1, pre_stackv.len() as int));
        }
        let ghost restv = stack_view(stack@);
        let label = node.display_string();
        let already = contains_node(&seen, &node);
        if already {
            let mut line = pad.clone();
            line.append(label.as_str());
            line.append(" (*)");
            proof {
                reveal_strlit(" (*)");
                assert(" (*)"@ =~= marker_suffix());
                assert(line@ == pad@ + display_of(node@) + marker_suffix());
            }
            out.push(line);
            proof {
                assert(render_stack(inv0, pre_seen, pre_stackv) == seq![
                    pad@ + display_of(node@) + marker_suffix(),
                ] + render_stack(inv0, pre_seen, restv));
                assert(lines_view(out@) =~= pre_out.map_values(|s: String| s@).push(line@));
                assert(lines_view(out@) + render_stack(inv0, node_set(seen@), stack_view(stack@))
                    =~= total);
            }
        } else {
            let ghost pre_seen_seq = seen@;
            seen.push(node.clone());
            proof {
                assert(seen@.drop_last() =~= pre_seen_seq);
                assert(node_set(seen@) =~= pre_seen.insert(node@));
                lemma_graph_nodes_finite(inv0);
                if graph_nodes(inv0).contains(node@) {
                    graph_nodes(inv0).lemma_set_insert_diff_decreases(pre_seen, node@);
                } else {
                    assert(graph_nodes(inv0).difference(pre_seen.insert(node@)) =~= graph_nodes(
                        inv0,
                    ).difference(pre_seen));
                }
            }
            match find_entry(&graph.inverse, &node) {
                None => {
                    let mut line = pad.clone();
                    line.append(label.as_str());
                    out.push(line);
                    proof {
                        assert(render_stack(inv0, pre_seen, pre_stackv) == seq![
                            pad@ + display_of(node@),
                        ] + render_stack(inv0, pre_seen.insert(node@), restv));
                        assert(lines_view(out@) =~= pre_out.map_values(|s: String| s@).push(
                            pad@ + display_of(node@),
                        ));
                        assert(lines_view(out@) + render_stack(
                            inv0,
                            node_set(seen@),
                            stack_view(stack@),
                        ) =~= total);
                    }
                },
                Some(ci) => {
                    let mut line = pad.clone();
                    line.append(label.as_str());
                    line.append(":");
                    proof {
                        reveal_strlit(":");
                        assert(":"@ =~= colon_suffix());
                        assert(line@ == pad@ + display_of(node@) + colon_suffix());
                    }
                    out.push(line);
                    let children = &graph.inverse[ci].1;
                    let mut cpad = pad.clone();
                    cpad.append("  ");
                    proof {
                        reveal_strlit("  ");
                        assert("  "@ =~= indent_step());
                        assert(cpad@ == pad@ + indent_step());
                        assert(child_items(children@, pad@).take(0) + restv =~= restv);
                        lemma_find_children_some_in_nodes(inv0, node@);
                    }
                    let mut t: usize = 0;
                    while t < children.len()
                        invariant
                            t <= children@.len(),
                            stack_view(stack@) == child_items(children@, pad@).take(t as int)
                                + restv,
                        decreases children@.len() - t,
                    {
                        let citem = (children[t].clone(), cpad.clone());
                        let ghost citemg = citem;
                        let ghost mid = stack@;
                        stack.insert(t, citem);
                        proof {
                            mid.insert_ensures(t as int, citemg);
                            let lhs = stack_view(stack@);
                            let rhs = child_items(children@, pad@).take(t as int + 1) + restv;
                            assert(child_items(children@, pad@)[t as int] == (
                                children@[t as int]@,
                                pad@ + indent_step(),
                            ));
                            assert forall|k: int| 0 <= k < lhs.len() implies lhs[k] == rhs[k] by {
                                if k < t {
                                    assert(stack@[k] == mid[k]);
                                    assert(lhs[k] == stack_view(mid)[k]);
                                    assert(stack_view(mid)[k] == (child_items(
                                        children@,
                                        pad@,
                                    ).take(t as int) + restv)[k]);
                                } else if k == t {
                                    assert(stack@[k] == citemg);
                                } else {
                                    assert(mid.insert(t as int, citemg)[(k - 1) + 1] == mid[k - 1]);
                                    assert(stack@[k] == mid[k - 1]);
                                    assert(lhs[k] == stack_view(mid)[k - 1]);
                                    assert(stack_view(mid)[k - 1] == (child_items(
                                        children@,
                                        pad@,
                                    ).take(t as int) + restv)[k - 1]);
                                }
                            };
                            assert(lhs =~= rhs);
                        }
                        t = t + 1;
                    }
                    proof {
                        assert(child_items(children@, pad@).take(children@.len() as int)
                            =~= child_items(children@, pad@));
                        assert(find_children(inv0, node@) == Some(children@));
                        assert(render_stack(inv0, pre_seen, pre_stackv) == seq![
                            pad@ + display_of(node@) + colon_suffix(),
                        ] + render_stack(
                            inv0,
                            pre_seen.insert(node@),
                            child_items(children@, pad@) + restv,
                        ));
                        assert(lines_view(out@) =~= pre_out.map_values(|s: String| s@).push(
                            pad@ + display_of(node@) + colon_suffix(),
                        ));
                        assert(lines_view(out@) + render_stack(
                            inv0,
                            node_set(seen@),
                            stack_view(stack@),
                        ) =~= total);
                    }
                },
            }
        }
    }
    proof {
        assert(stack_view(stack@).len() == 0);
        assert(render_stack(inv0, node_set(seen@), stack_view(stack@)) =~= Seq::<Seq<char>>::empty());
        assert(lines_view(out@) =~= total);
        lemma_matching_roots_empty(inv0, target);
        if matching_roots(inv0, target).len() == 0 {
            assert(total.len() == 0);
        } else {
            assert(total.len() >= 1);
        }
        assert(out@.len() == lines_view(out@).len());
    }
    out
}

} // verus!
