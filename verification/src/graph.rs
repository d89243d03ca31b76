//! The dependency graph: node identity, the edge set a lockfile induces,
//! and the builder that accumulates forward and inverse adjacency maps.

use vstd::prelude::*;
use vstd::string::StrSliceExecFns;

use crate::model::Dependency;
use crate::model::Error;
use crate::model::Importer;
use crate::model::Lockfile;
use crate::model::Snapshot;
use crate::model::join_path;
use crate::model::joined_path;
use crate::model::key_has_delim;
use crate::model::name_of_key;
use crate::model::split_snapshot_key;
use crate::model::version_of_key;

verus! {

/// The mathematical identity of a graph node: what a [`NodeId`] denotes.
pub enum NodeKey {
    /// A workspace package, identified by its directory path.
    Importer { path: Seq<char> },
    /// A registry package, identified by name and qualified version.
    Package { name: Seq<char>, version: Seq<char> },
}

/// A node in the dependency graph: either a workspace package (identified
/// by its directory path) or a registry package (identified by its name and
/// peer-qualified version). Identity is structural.
pub enum NodeId {
    /// A package in the workspace.
    Importer {
        /// The directory path of the package, resolved against the
        /// workspace root.
        path: String,
    },
    /// A package from the registry.
    Package {
        /// The package name.
        name: String,
        /// The peer-dependency qualified version.
        version: String,
    },
}

impl View for NodeId {
    type V = NodeKey;

    open spec fn view(&self) -> NodeKey {
        match self {
            NodeId::Importer { path } => NodeKey::Importer { path: path@ },
            NodeId::Package { name, version } => NodeKey::Package {
                name: name@,
                version: version@,
            },
        }
    }
}

impl PartialEq for NodeId {
    fn eq(&self, other: &Self) -> bool {
        match (self, other) {
            (NodeId::Importer { path: p1 }, NodeId::Importer { path: p2 }) => *p1 == *p2,
            (
                NodeId::Package { name: n1, version: v1 },
                NodeId::Package { name: n2, version: v2 },
            ) => *n1 == *n2 && *v1 == *v2,
            _ => false,
        }
    }
}

impl Eq for NodeId {

}

impl vstd::std_specs::cmp::PartialEqSpecImpl for NodeId {
    open spec fn obeys_eq_spec() -> bool {
        true
    }

    open spec fn eq_spec(&self, other: &Self) -> bool {
        self@ == other@
    }
}

impl Clone for NodeId {
    fn clone(&self) -> (r: Self)
        ensures
            r == *self,
    {
        match self {
            NodeId::Importer { path } => NodeId::Importer { path: path.clone() },
            NodeId::Package { name, version } => NodeId::Package {
                name: name.clone(),
                version: version.clone(),
            },
        }
    }
}

/// The display form of a node: an importer renders as its path, a package
/// as `name@version`.
pub open spec fn display_of(n: NodeKey) -> Seq<char> {
    match n {
        NodeKey::Importer { path } => path,
        NodeKey::Package { name, version } => name + seq!['@'] + version,
    }
}

impl NodeId {
    /// Renders the node's display form.
    pub fn display_string(&self) -> (r: String)
        ensures
            r@ == display_of(self@),
    {
        match self {
            NodeId::Importer { path } => path.clone(),
            NodeId::Package { name, version } => {
                let mut s = name.clone();
                s.append("@");
                s.append(version.as_str());
                proof {
                    reveal_strlit("@");
                    assert("@"@ =~= seq!['@']);
                    assert(s@ =~= display_of(self@));
                }
                s
            },
        }
    }
}

/// Whether a resolved version string carries the workspace-link marker
/// `link:`.
pub open spec fn is_link_version(v: Seq<char>) -> bool {
    v.len() >= 5 && v[0] == 'l' && v[1] == 'i' && v[2] == 'n' && v[3] == 'k' && v[4] == ':'
}

/// The relative path a workspace-link version points at: what follows the
/// marker.
pub open spec fn link_target_of(v: Seq<char>) -> Seq<char> {
    v.subrange(5, v.len() as int)
}

/// The node an importer's dependency entry resolves to: a link version
/// yields another importer (the link target joined onto the declaring
/// importer's path); anything else yields a registry package node.
pub open spec fn dep_target(importer_path: Seq<char>, name: Seq<char>, version: Seq<char>) -> NodeKey {
    if is_link_version(version) {
        NodeKey::Importer { path: joined_path(importer_path, link_target_of(version)) }
    } else {
        NodeKey::Package { name: name, version: version }
    }
}

/// Tests a resolved version string for the workspace-link marker.
fn is_link(version: &str) -> (r: bool)
    ensures
        r == is_link_version(version@),
{
    let len = version.unicode_len();
    len >= 5 && version.get_char(0) == 'l' && version.get_char(1) == 'i' && version.get_char(2)
        == 'n' && version.get_char(3) == 'k' && version.get_char(4) == ':'
}

/// Resolves one dependency entry of an importer to its graph node, as
/// [`dep_target`] describes.
pub fn dependency_node(importer_path: &str, name: &String, version: &String) -> (n: NodeId)
    ensures
        n@ == dep_target(importer_path@, name@, version@),
{
    let vs = version.as_str();
    if is_link(vs) {
        let len = vs.unicode_len();
        let target = vs.substring_char(5, len);
        NodeId::Importer { path: join_path(importer_path, target) }
    } else {
        NodeId::Package { name: name.clone(), version: version.clone() }
    }
}

/// The set of node identities a list of nodes holds.
pub open spec fn node_set(s: Seq<NodeId>) -> Set<NodeKey>
    decreases s.len(),
{
    if s.len() == 0 {
        Set::empty()
    } else {
        node_set(s.drop_last()).insert(s.last()@)
    }
}

/// The adjacency mapping an association list represents. A later entry for
/// the same key would win; the builder keeps keys unique.
pub open spec fn assoc_map(s: Seq<(NodeId, Vec<NodeId>)>) -> Map<NodeKey, Set<NodeKey>>
    decreases s.len(),
{
    if s.len() == 0 {
        Map::empty()
    } else {
        assoc_map(s.drop_last()).insert(s.last().0@, node_set(s.last().1@))
    }
}

/// No two entries of the association list share a key.
pub open spec fn keys_unique(s: Seq<(NodeId, Vec<NodeId>)>) -> bool {
    forall|i: int, j: int| 0 <= i < j < s.len() ==> s[i].0@ != s[j].0@
}

/// A node list holds pairwise-distinct identities.
pub open spec fn nodes_distinct(s: Seq<NodeId>) -> bool {
    forall|p: int, q: int| 0 <= p < q < s.len() ==> s[p]@ != s[q]@
}

/// Every entry's node list holds pairwise-distinct identities: adjacency
/// lists are genuinely sets, duplicate edges collapse.
pub open spec fn lists_distinct(s: Seq<(NodeId, Vec<NodeId>)>) -> bool {
    forall|i: int| 0 <= i < s.len() ==> nodes_distinct(#[trigger] s[i].1@)
}

/// The adjacency set a map holds for a key, empty when the key is absent.
pub open spec fn targets_of(m: Map<NodeKey, Set<NodeKey>>, k: NodeKey) -> Set<NodeKey> {
    if m.dom().contains(k) {
        m[k]
    } else {
        Set::empty()
    }
}

/// Membership in [`node_set`] is existence of an element with that
/// identity.
pub proof fn lemma_node_set_contains(s: Seq<NodeId>)
    ensures
        forall|x: NodeKey|
            node_set(s).contains(x) <==> (exists|i: int| 0 <= i < s.len() && s[i]@ == x),
    decreases s.len(),
{
    if s.len() > 0 {
        lemma_node_set_contains(s.drop_last());
        assert forall|x: NodeKey| node_set(s).contains(x) implies (exists|i: int|
            0 <= i < s.len() && s[i]@ == x) by {
            if node_set(s.drop_last()).contains(x) {
                let i = choose|i: int| 0 <= i < s.drop_last().len() && s.drop_last()[i]@ == x;
                assert(s[i]@ == x);
            } else {
                assert(s[s.len() - 1]@ == x);
            }
        };
        assert forall|x: NodeKey| (exists|i: int| 0 <= i < s.len() && s[i]@ == x) implies node_set(
            s,
        ).contains(x) by {
            let i = choose|i: int| 0 <= i < s.len() && s[i]@ == x;
            if i < s.len() - 1 {
                assert(s.drop_last()[i]@ == x);
                assert(node_set(s.drop_last()).contains(x));
            } else {
                assert(s.last()@ == x);
            }
        };
    }
}

/// A key is in the domain of [`assoc_map`] exactly when some entry carries
/// it.
pub proof fn lemma_assoc_map_dom(s: Seq<(NodeId, Vec<NodeId>)>)
    ensures
        forall|k: NodeKey|
            assoc_map(s).dom().contains(k) <==> (exists|i: int| 0 <= i < s.len() && s[i].0@ == k),
    decreases s.len(),
{
    if s.len() > 0 {
        lemma_assoc_map_dom(s.drop_last());
        assert forall|k: NodeKey| assoc_map(s).dom().contains(k) implies (exists|i: int|
            0 <= i < s.len() && s[i].0@ == k) by {
            if assoc_map(s.drop_last()).dom().contains(k) {
                let i = choose|i: int| 0 <= i < s.drop_last().len() && s.drop_last()[i].0@ == k;
                assert(s[i].0@ == k);
            } else {
                assert(s[s.len() - 1].0@ == k);
            }
        };
        assert forall|k: NodeKey| (exists|i: int| 0 <= i < s.len() && s[i].0@ == k) implies assoc_map(
            s,
        ).dom().contains(k) by {
            let i = choose|i: int| 0 <= i < s.len() && s[i].0@ == k;
            if i < s.len() - 1 {
                assert(s.drop_last()[i].0@ == k);
                assert(assoc_map(s.drop_last()).dom().contains(k));
            } else {
                assert(s.last().0@ == k);
            }
        };
    }
}

/// With unique keys, [`assoc_map`] maps each entry's key to that entry's
/// node set.
pub proof fn lemma_assoc_map_at(s: Seq<(NodeId, Vec<NodeId>)>, i: int)
    requires
        keys_unique(s),
        0 <= i < s.len(),
    ensures
        assoc_map(s).dom().contains(s[i].0@),
        assoc_map(s)[s[i].0@] == node_set(s[i].1@),
    decreases s.len(),
{
    if i < s.len() - 1 {
        assert(keys_unique(s.drop_last())) by {
            assert forall|a: int, b: int| 0 <= a < b < s.drop_last().len() implies s.drop_last()[a].0@
                != s.drop_last()[b].0@ by {
                assert(s[a].0@ != s[b].0@);
            };
        }
        lemma_assoc_map_at(s.drop_last(), i);
        assert(s.drop_last()[i] == s[i]);
        assert(s[i].0@ != s.last().0@);
    }
}

/// Replacing the node list of one entry updates the represented map at that
/// entry's key and leaves the rest untouched.
pub proof fn lemma_assoc_map_update(s: Seq<(NodeId, Vec<NodeId>)>, i: int, v2: Vec<NodeId>)
    requires
        keys_unique(s),
        0 <= i < s.len(),
    ensures
        keys_unique(s.update(i, (s[i].0, v2))),
        assoc_map(s.update(i, (s[i].0, v2))) == assoc_map(s).insert(s[i].0@, node_set(v2@)),
    decreases s.len(),
{
    let s2 = s.update(i, (s[i].0, v2));
    assert(keys_unique(s2)) by {
        assert forall|a: int, b: int| 0 <= a < b < s2.len() implies s2[a].0@ != s2[b].0@ by {
            assert(s2[a].0@ == s[a].0@);
            assert(s2[b].0@ == s[b].0@);
        };
    }
    if i == s.len() - 1 {
        assert(s2.drop_last() =~= s.drop_last());
        assert(s2.last() == (s[i].0, v2));
        assert(assoc_map(s).insert(s[i].0@, node_set(v2@)) =~~= assoc_map(s.drop_last()).insert(
            s[i].0@,
            node_set(v2@),
        ));
    } else {
        assert(keys_unique(s.drop_last())) by {
            assert forall|a: int, b: int| 0 <= a < b < s.drop_last().len() implies s.drop_last()[a].0@
                != s.drop_last()[b].0@ by {
                assert(s[a].0@ != s[b].0@);
            };
        }
        lemma_assoc_map_update(s.drop_last(), i, v2);
        assert(s2.drop_last() =~= s.drop_last().update(i, (s[i].0, v2)));
        assert(s2.last() == s.last());
        assert(s[i].0@ != s.last().0@);
        assert(assoc_map(s.drop_last()).insert(s[i].0@, node_set(v2@)).insert(
            s.last().0@,
            node_set(s.last().1@),
        ) =~~= assoc_map(s.drop_last()).insert(s.last().0@, node_set(s.last().1@)).insert(
            s[i].0@,
            node_set(v2@),
        ));
    }
}

/// Linear search for a node identity in a list of nodes.
pub(crate) fn contains_node(v: &Vec<NodeId>, x: &NodeId) -> (r: bool)
    ensures
        r == node_set(v@).contains(x@),
{
    proof {
        lemma_node_set_contains(v@);
    }
    let mut i: usize = 0;
    while i < v.len()
        invariant
            i <= v@.len(),
            forall|j: int| 0 <= j < i ==> v@[j]@ != x@,
            forall|y: NodeKey|
                node_set(v@).contains(y) <==> (exists|k: int| 0 <= k < v@.len() && v@[k]@ == y),
        decreases v@.len() - i,
    {
        if v[i] == *x {
            return true;
        }
        i = i + 1;
    }
    false
}

/// Records the edge `from -> to` in an adjacency map: the target joins the
/// source's adjacency set (created if absent); nothing else changes. A
/// target already present is not recorded again, so node lists stay
/// duplicate-free.
fn add_edge(map: &mut Vec<(NodeId, Vec<NodeId>)>, from: &NodeId, to: &NodeId)
    requires
        keys_unique(old(map)@),
        lists_distinct(old(map)@),
    ensures
        keys_unique(final(map)@),
        lists_distinct(final(map)@),
        assoc_map(final(map)@) == assoc_map(old(map)@).insert(
            from@,
            targets_of(assoc_map(old(map)@), from@).insert(to@),
        ),
{
    let n = map.len();
    let mut i: usize = 0;
    while i < n
        invariant
            i <= n,
            n == map@.len(),
            map@ == old(map)@,
            keys_unique(map@),
            lists_distinct(map@),
            forall|j: int| 0 <= j < i ==> map@[j].0@ != from@,
        decreases n - i,
    {
        if map[i].0 == *from {
            proof {
                lemma_assoc_map_at(map@, i as int);
            }
            let mut entry = map.remove(i);
            let ghost oldlist = entry.1@;
            proof {
                assert(oldlist == old(map)@[i as int].1@);
                assert(nodes_distinct(oldlist));
            }
            if !contains_node(&entry.1, to) {
                entry.1.push(to.clone());
                proof {
                    assert(entry.1@.drop_last() =~= oldlist);
                    lemma_node_set_contains(oldlist);
                    assert forall|j: int| 0 <= j < oldlist.len() implies oldlist[j]@ != to@ by {}
                    assert(nodes_distinct(entry.1@)) by {
                        assert forall|p: int, q: int|
                            0 <= p < q < entry.1@.len() implies entry.1@[p]@ != entry.1@[q]@ by {
                            assert(entry.1@[p] == oldlist[p]);
                            if q < oldlist.len() {
                                assert(entry.1@[q] == oldlist[q]);
                            }
                        };
                    }
                }
            } else {
                proof {
                    assert(nodes_distinct(entry.1@));
                }
            }
            proof {
                assert(node_set(entry.1@) =~= node_set(oldlist).insert(to@));
            }
            let ghost newvec = entry.1;
            map.insert(i, entry);
            proof {
                assert(map@ =~= old(map)@.update(i as int, (old(map)@[i as int].0, newvec)));
                lemma_assoc_map_update(old(map)@, i as int, newvec);
                assert(lists_distinct(map@)) by {
                    assert forall|k: int| 0 <= k < map@.len() implies nodes_distinct(
                        #[trigger] map@[k].1@,
                    ) by {
                        if k == i {
                            assert(map@[k].1 == newvec);
                        } else {
                            assert(map@[k].1@ == old(map)@[k].1@);
                            assert(nodes_distinct(old(map)@[k].1@));
                        }
                    };
                }
            }
            return ;
        }
        i = i + 1;
    }
    proof {
        lemma_assoc_map_dom(map@);
        assert(!assoc_map(map@).dom().contains(from@));
    }
    let mut list: Vec<NodeId> = Vec::new();
    list.push(to.clone());
    proof {
        reveal_with_fuel(node_set, 2);
        assert(list@.drop_last() =~= Seq::<NodeId>::empty());
        assert(node_set(list@) =~= Set::empty().insert(to@));
    }
    let ghost glist = list;
    map.push((from.clone(), list));
    proof {
        assert(map@.drop_last() =~= old(map)@);
        assert(map@.last().1 == glist);
        assert(node_set(map@.last().1@) =~= targets_of(assoc_map(old(map)@), from@).insert(to@));
        assert(keys_unique(map@)) by {
            assert forall|a: int, b: int| 0 <= a < b < map@.len() implies map@[a].0@ != map@[b].0@ by {
                if b == map@.len() - 1 {
                    assert(map@[a].0@ == old(map)@[a].0@);
                } else {
                    assert(map@[a].0@ == old(map)@[a].0@);
                    assert(map@[b].0@ == old(map)@[b].0@);
                }
            };
        }
        assert(lists_distinct(map@)) by {
            assert forall|k: int| 0 <= k < map@.len() implies nodes_distinct(
                #[trigger] map@[k].1@,
            ) by {
                if k < map@.len() - 1 {
                    assert(map@[k].1@ == old(map)@[k].1@);
                    assert(nodes_distinct(old(map)@[k].1@));
                } else {
                    assert(map@[k].1 == glist);
                    assert(glist@.len() == 1);
                }
            };
        }
    }
}

/// The edge one dependency entry of an importer contributes: from the
/// importer's node to the node the entry resolves to. `ipath` is the
/// importer's path already resolved against the workspace root.
pub open spec fn entry_edge(ipath: Seq<char>, ent: (String, Dependency)) -> (NodeKey, NodeKey) {
    (NodeKey::Importer { path: ipath }, dep_target(ipath, ent.0@, ent.1.version@))
}

/// The edges one importer contributes, one per dependency entry.
pub open spec fn entry_edges(ipath: Seq<char>, deps: Seq<(String, Dependency)>) -> Set<
    (NodeKey, NodeKey),
>
    decreases deps.len(),
{
    if deps.len() == 0 {
        Set::empty()
    } else {
        entry_edges(ipath, deps.drop_last()).insert(entry_edge(ipath, deps.last()))
    }
}

/// The edges one importer contributes: its `dependencies` and
/// `devDependencies` entries are indistinguishable sources of edges.
pub open spec fn importer_edges(ws: Seq<char>, path: Seq<char>, imp: Importer) -> Set<
    (NodeKey, NodeKey),
> {
    entry_edges(joined_path(ws, path), imp.dependencies@ + imp.dev_dependencies@)
}

/// The edges all importers contribute.
pub open spec fn importers_edges(ws: Seq<char>, imps: Seq<(String, Importer)>) -> Set<
    (NodeKey, NodeKey),
>
    decreases imps.len(),
{
    if imps.len() == 0 {
        Set::empty()
    } else {
        importers_edges(ws, imps.drop_last()).union(
            importer_edges(ws, imps.last().0@, imps.last().1),
        )
    }
}

/// The node a well-formed snapshot key denotes.
pub open spec fn snapshot_node(key: Seq<char>) -> NodeKey {
    NodeKey::Package { name: name_of_key(key), version: version_of_key(key) }
}

/// The edges one snapshot contributes: from its own node to the package
/// node of each resolved dependency.
pub open spec fn snapshot_dep_edges(node: NodeKey, deps: Seq<(String, String)>) -> Set<
    (NodeKey, NodeKey),
>
    decreases deps.len(),
{
    if deps.len() == 0 {
        Set::empty()
    } else {
        snapshot_dep_edges(node, deps.drop_last()).insert(
            (node, NodeKey::Package { name: deps.last().0@, version: deps.last().1@ }),
        )
    }
}

/// The edges all snapshots contribute.
pub open spec fn snapshots_edges(snaps: Seq<(String, Snapshot)>) -> Set<(NodeKey, NodeKey)>
    decreases snaps.len(),
{
    if snaps.len() == 0 {
        Set::empty()
    } else {
        snapshots_edges(snaps.drop_last()).union(
            snapshot_dep_edges(snapshot_node(snaps.last().0@), snaps.last().1.dependencies@),
        )
    }
}

/// Every snapshot key has a name/version delimiter.
pub open spec fn snapshots_wf(snaps: Seq<(String, Snapshot)>) -> bool {
    forall|i: int| 0 <= i < snaps.len() ==> key_has_delim(#[trigger] snaps[i].0@)
}

/// The importers of a lockfile.
pub open spec fn lockfile_importers(lf: Lockfile) -> Seq<(String, Importer)> {
    match lf {
        Lockfile::V9 { importers, snapshots } => importers@,
    }
}

/// The snapshots of a lockfile.
pub open spec fn lockfile_snapshots(lf: Lockfile) -> Seq<(String, Snapshot)> {
    match lf {
        Lockfile::V9 { importers, snapshots } => snapshots@,
    }
}

/// The full edge set a lockfile induces, given the workspace root path.
pub open spec fn lockfile_edges(lf: Lockfile, ws: Seq<char>) -> Set<(NodeKey, NodeKey)> {
    importers_edges(ws, lockfile_importers(lf)).union(snapshots_edges(lockfile_snapshots(lf)))
}

/// The forward adjacency map an edge set induces: every edge source maps to
/// the set of its targets; nodes without outgoing edges are absent.
pub open spec fn forward_of(edges: Set<(NodeKey, NodeKey)>) -> Map<NodeKey, Set<NodeKey>> {
    Map::new(
        |a: NodeKey| exists|b: NodeKey| edges.contains((a, b)),
        |a: NodeKey| Set::new(|b: NodeKey| edges.contains((a, b))),
    )
}

/// The inverse adjacency map an edge set induces: every edge target maps to
/// the set of its sources; nodes without incoming edges are absent.
pub open spec fn inverse_of(edges: Set<(NodeKey, NodeKey)>) -> Map<NodeKey, Set<NodeKey>> {
    Map::new(
        |b: NodeKey| exists|a: NodeKey| edges.contains((a, b)),
        |b: NodeKey| Set::new(|a: NodeKey| edges.contains((a, b))),
    )
}

/// Whether an adjacency map records an edge from `a` to `b`.
pub open spec fn edge_in(m: Map<NodeKey, Set<NodeKey>>, a: NodeKey, b: NodeKey) -> bool {
    m.dom().contains(a) && m[a].contains(b)
}

/// Adding one edge to an edge set updates its forward map exactly as
/// recording the edge under its source does.
pub proof fn lemma_forward_of_insert(edges: Set<(NodeKey, NodeKey)>, a: NodeKey, b: NodeKey)
    ensures
        forward_of(edges.insert((a, b))) == forward_of(edges).insert(
            a,
            targets_of(forward_of(edges), a).insert(b),
        ),
{
    let m1 = forward_of(edges.insert((a, b)));
    let m2 = forward_of(edges).insert(a, targets_of(forward_of(edges), a).insert(b));
    assert forall|x: NodeKey| m1.dom().contains(x) implies m2.dom().contains(x) by {
        if x != a {
            let y = choose|y: NodeKey| edges.insert((a, b)).contains((x, y));
            assert(edges.contains((x, y)));
        }
    };
    assert forall|x: NodeKey| m2.dom().contains(x) implies m1.dom().contains(x) by {
        if x == a {
            assert(edges.insert((a, b)).contains((a, b)));
        } else {
            let y = choose|y: NodeKey| edges.contains((x, y));
            assert(edges.insert((a, b)).contains((x, y)));
        }
    };
    assert forall|x: NodeKey| #[trigger] m1.dom().contains(x) && m2.dom().contains(x) implies m1[x]
        =~= m2[x] by {
        if x == a {
            assert forall|y: NodeKey| m1[a].contains(y) implies m2[a].contains(y) by {
                assert(edges.insert((a, b)).contains((a, y)));
                if y != b {
                    assert(edges.contains((a, y)));
                    assert(forward_of(edges).dom().contains(a));
                }
            };
            assert forall|y: NodeKey| m2[a].contains(y) implies m1[a].contains(y) by {
                if y != b {
                    assert(targets_of(forward_of(edges), a).contains(y));
                    assert(edges.contains((a, y)));
                    assert(edges.insert((a, b)).contains((a, y)));
                } else {
                    assert(edges.insert((a, b)).contains((a, b)));
                }
            };
        } else {
            assert forall|y: NodeKey| m1[x].contains(y) <==> m2[x].contains(y) by {
                assert(edges.insert((a, b)).contains((x, y)) <==> edges.contains((x, y)));
            };
        }
    };
    assert(m1 =~~= m2);
}

/// Adding one edge to an edge set updates its inverse map exactly as
/// recording the edge under its target does.
pub proof fn lemma_inverse_of_insert(edges: Set<(NodeKey, NodeKey)>, a: NodeKey, b: NodeKey)
    ensures
        inverse_of(edges.insert((a, b))) == inverse_of(edges).insert(
            b,
            targets_of(inverse_of(edges), b).insert(a),
        ),
{
    let m1 = inverse_of(edges.insert((a, b)));
    let m2 = inverse_of(edges).insert(b, targets_of(inverse_of(edges), b).insert(a));
    assert forall|x: NodeKey| m1.dom().contains(x) implies m2.dom().contains(x) by {
        if x != b {
            let y = choose|y: NodeKey| edges.insert((a, b)).contains((y, x));
            assert(edges.contains((y, x)));
        }
    };
    assert forall|x: NodeKey| m2.dom().contains(x) implies m1.dom().contains(x) by {
        if x == b {
            assert(edges.insert((a, b)).contains((a, b)));
        } else {
            let y = choose|y: NodeKey| edges.contains((y, x));
            assert(edges.insert((a, b)).contains((y, x)));
        }
    };
    assert forall|x: NodeKey| #[trigger] m1.dom().contains(x) && m2.dom().contains(x) implies m1[x]
        =~= m2[x] by {
        if x == b {
            assert forall|y: NodeKey| m1[b].contains(y) implies m2[b].contains(y) by {
                assert(edges.insert((a, b)).contains((y, b)));
                if y != a {
                    assert(edges.contains((y, b)));
                    assert(inverse_of(edges).dom().contains(b));
                }
            };
            assert forall|y: NodeKey| m2[b].contains(y) implies m1[b].contains(y) by {
                if y != a {
                    assert(targets_of(inverse_of(edges), b).contains(y));
                    assert(edges.contains((y, b)));
                    assert(edges.insert((a, b)).contains((y, b)));
                } else {
                    assert(edges.insert((a, b)).contains((a, b)));
                }
            };
        } else {
            assert forall|y: NodeKey| m1[x].contains(y) <==> m2[x].contains(y) by {
                assert(edges.insert((a, b)).contains((y, x)) <==> edges.contains((y, x)));
            };
        }
    };
    assert(m1 =~~= m2);
}

/// Link resolution: a dependency whose version carries the workspace-link
/// marker always resolves to an importer node — the declaring importer's
/// path joined with the link target — and never to a package node.
pub proof fn lemma_link_resolution(importer_path: Seq<char>, name: Seq<char>, version: Seq<char>)
    requires
        is_link_version(version),
    ensures
        dep_target(importer_path, name, version) == (NodeKey::Importer {
            path: joined_path(importer_path, link_target_of(version)),
        }),
        !(dep_target(importer_path, name, version) is Package),
{
}

/// Membership in [`entry_edges`]: exactly the edges of the individual
/// entries.
pub proof fn lemma_entry_edges_contains(ipath: Seq<char>, deps: Seq<(String, Dependency)>)
    ensures
        forall|x: (NodeKey, NodeKey)|
            entry_edges(ipath, deps).contains(x) <==> (exists|i: int|
                0 <= i < deps.len() && x == entry_edge(ipath, #[trigger] deps[i])),
    decreases deps.len(),
{
    if deps.len() > 0 {
        lemma_entry_edges_contains(ipath, deps.drop_last());
        assert forall|x: (NodeKey, NodeKey)| entry_edges(ipath, deps).contains(x) implies (exists|
            i: int,
        |
            0 <= i < deps.len() && x == entry_edge(ipath, #[trigger] deps[i])) by {
            if entry_edges(ipath, deps.drop_last()).contains(x) {
                let i = choose|i: int|
                    0 <= i < deps.drop_last().len() && x == entry_edge(
                        ipath,
                        #[trigger] deps.drop_last()[i],
                    );
                assert(x == entry_edge(ipath, deps[i]));
            } else {
                assert(x == entry_edge(ipath, deps[deps.len() - 1]));
            }
        };
        assert forall|x: (NodeKey, NodeKey)|
            (exists|i: int| 0 <= i < deps.len() && x == entry_edge(ipath, #[trigger] deps[i]))
            implies entry_edges(ipath, deps).contains(x) by {
            let i = choose|i: int|
                0 <= i < deps.len() && x == entry_edge(ipath, #[trigger] deps[i]);
            if i < deps.len() - 1 {
                assert(x == entry_edge(ipath, deps.drop_last()[i]));
                assert(entry_edges(ipath, deps.drop_last()).contains(x));
            }
        };
    }
}

/// Dev-dependency equivalence: a `dependencies` entry and a
/// `devDependencies` entry for the same package contribute indistinguishable
/// edges — an importer carrying the entry in one list induces exactly the
/// edge set of an importer carrying it in the other.
pub proof fn lemma_dev_dependency_equivalence(
    ws: Seq<char>,
    path: Seq<char>,
    a: Importer,
    b: Importer,
    deps: Seq<(String, Dependency)>,
    devs: Seq<(String, Dependency)>,
    ent: (String, Dependency),
)
    requires
        a.dependencies@ == deps.push(ent),
        a.dev_dependencies@ == devs,
        b.dependencies@ == deps,
        b.dev_dependencies@ == devs.push(ent),
    ensures
        importer_edges(ws, path, a) == importer_edges(ws, path, b),
{
    let p = joined_path(ws, path);
    let ea = deps.push(ent) + devs;
    let eb = deps + devs.push(ent);
    lemma_entry_edges_contains(p, ea);
    lemma_entry_edges_contains(p, eb);
    let nd = deps.len() as int;
    let nv = devs.len() as int;
    assert forall|x: (NodeKey, NodeKey)| entry_edges(p, ea).contains(x) implies entry_edges(
        p,
        eb,
    ).contains(x) by {
        let i = choose|i: int| 0 <= i < ea.len() && x == entry_edge(p, #[trigger] ea[i]);
        if i < nd {
            assert(eb[i] == ea[i]);
        } else if i == nd {
            assert(eb[nd + nv] == ea[i]);
        } else {
            assert(eb[i - 1] == ea[i]);
        }
    };
    assert forall|x: (NodeKey, NodeKey)| entry_edges(p, eb).contains(x) implies entry_edges(
        p,
        ea,
    ).contains(x) by {
        let i = choose|i: int| 0 <= i < eb.len() && x == entry_edge(p, #[trigger] eb[i]);
        if i < nd {
            assert(ea[i] == eb[i]);
        } else if i == nd + nv {
            assert(ea[nd] == eb[i]);
        } else {
            assert(ea[i + 1] == eb[i]);
        }
    };
    assert(entry_edges(p, ea) =~= entry_edges(p, eb));
}

/// Graph symmetry: the forward and inverse maps of one edge set record
/// exactly the same edges — `B` is among `forward[A]` precisely when `A` is
/// among `inverse[B]`.
pub proof fn lemma_graph_symmetry(edges: Set<(NodeKey, NodeKey)>)
    ensures
        forall|a: NodeKey, b: NodeKey|
            edge_in(forward_of(edges), a, b) <==> #[trigger] edges.contains((a, b)),
        forall|a: NodeKey, b: NodeKey|
            edge_in(inverse_of(edges), b, a) <==> #[trigger] edges.contains((a, b)),
        forall|a: NodeKey, b: NodeKey|
            #[trigger] edge_in(forward_of(edges), a, b) <==> #[trigger] edge_in(
                inverse_of(edges),
                b,
                a,
            ),
{
    assert forall|a: NodeKey, b: NodeKey|
        edge_in(forward_of(edges), a, b) <==> #[trigger] edges.contains((a, b)) by {
        if edges.contains((a, b)) {
            assert(forward_of(edges).dom().contains(a));
        }
    };
    assert forall|a: NodeKey, b: NodeKey|
        edge_in(inverse_of(edges), b, a) <==> #[trigger] edges.contains((a, b)) by {
        if edges.contains((a, b)) {
            assert(inverse_of(edges).dom().contains(b));
        }
    };
}

/// The bidirectional dependency graph a lockfile induces.
///
/// Both adjacency maps are association lists with unique keys; a node maps
/// to the set of nodes it depends on (`forward`), respectively the set of
/// nodes that depend on it (`inverse`).
pub struct DependencyGraph {
    /// Maps a node to the nodes it depends on.
    pub forward: Vec<(NodeId, Vec<NodeId>)>,
    /// Maps a node to the nodes that depend on it.
    pub inverse: Vec<(NodeId, Vec<NodeId>)>,
}

impl Default for DependencyGraph {
    /// The empty graph: no nodes, no edges.
    fn default() -> (r: Self)
        ensures
            r.forward@.len() == 0,
            r.inverse@.len() == 0,
            r.wf(),
    {
        DependencyGraph { forward: Vec::new(), inverse: Vec::new() }
    }
}

impl DependencyGraph {
    /// The forward adjacency mapping this graph represents.
    pub open spec fn fwd(&self) -> Map<NodeKey, Set<NodeKey>> {
        assoc_map(self.forward@)
    }

    /// The inverse adjacency mapping this graph represents.
    pub open spec fn inv(&self) -> Map<NodeKey, Set<NodeKey>> {
        assoc_map(self.inverse@)
    }

    /// Both association lists keep their keys unique, and every entry's
    /// node list is duplicate-free: each adjacency list is genuinely a set.
    pub open spec fn wf(&self) -> bool {
        &&& keys_unique(self.forward@)
        &&& keys_unique(self.inverse@)
        &&& lists_distinct(self.forward@)
        &&& lists_distinct(self.inverse@)
    }

    /// Builds the forward and inverse dependency graph of a lockfile, with
    /// importer paths resolved against `workspace_dir`.
    ///
    /// The maps represent exactly the lockfile's edge set — in particular
    /// they are symmetric: `B` is recorded among `forward[A]` precisely
    /// when `A` is recorded among `inverse[B]`. The graph is well-formed:
    /// keys are unique and every node list is duplicate-free, so a repeated
    /// dependency contributes one edge and the renderer walks each
    /// dependent of a node exactly once.
    ///
    /// Fails with [`Error::MalformedSnapshotKey`], naming the first
    /// offending key, exactly when some snapshot key has no name/version
    /// delimiter.
    #[verifier::loop_isolation(false)]
    pub fn from_lockfile(lockfile: &Lockfile, workspace_dir: &str) -> (r: Result<
        DependencyGraph,
        Error,
    >)
        ensures
            match r {
                Ok(g) => {
                    &&& snapshots_wf(lockfile_snapshots(*lockfile))
                    &&& g.wf()
                    &&& g.fwd() == forward_of(lockfile_edges(*lockfile, workspace_dir@))
                    &&& g.inv() == inverse_of(lockfile_edges(*lockfile, workspace_dir@))
                    &&& forall|a: NodeKey, b: NodeKey|
                        #[trigger] edge_in(g.fwd(), a, b) <==> #[trigger] edge_in(g.inv(), b, a)
                },
                Err(e) => {
                    &&& !snapshots_wf(lockfile_snapshots(*lockfile))
                    &&& (e matches Error::MalformedSnapshotKey { key } && (exists|i: int|
                        {
                            &&& 0 <= i < lockfile_snapshots(*lockfile).len()
                            &&& !key_has_delim(#[trigger] lockfile_snapshots(*lockfile)[i].0@)
                            &&& key@ == lockfile_snapshots(*lockfile)[i].0@
                            &&& forall|j: int|
                                0 <= j < i ==> key_has_delim(
                                    #[trigger] lockfile_snapshots(*lockfile)[j].0@,
                                )
                        }))
                },
            },
    {
        match lockfile {
            Lockfile::V9 { importers, snapshots } => {
                proof {
                    assert(lockfile_importers(*lockfile) == importers@);
                    assert(lockfile_snapshots(*lockfile) == snapshots@);
                }
                let ghost ws = workspace_dir@;
                let ghost all_i = importers@;
                let ghost all_s = snapshots@;
                let mut forward: Vec<(NodeId, Vec<NodeId>)> = Vec::new();
                let mut inverse: Vec<(NodeId, Vec<NodeId>)> = Vec::new();

                let mut k: usize = 0;
                while k < importers.len()
                    invariant
                        k <= all_i.len(),
                        keys_unique(forward@),
                        keys_unique(inverse@),
                        lists_distinct(forward@),
                        lists_distinct(inverse@),
                        assoc_map(forward@) == forward_of(importers_edges(ws, all_i.take(k as int))),
                        assoc_map(inverse@) == inverse_of(importers_edges(ws, all_i.take(k as int))),
                    decreases all_i.len() - k,
                {
                    let ipath = join_path(workspace_dir, importers[k].0.as_str());
                    let inode = NodeId::Importer { path: ipath.clone() };
                    let ghost p = ipath@;
                    let ghost es = all_i[k as int].1.dependencies@ + all_i[k as int].1.dev_dependencies@;
                    let ghost base = importers_edges(ws, all_i.take(k as int));
                    proof {
                        assert(es.take(0).len() == 0);
                        assert(base.union(entry_edges(p, es.take(0))) =~= base);
                    }

                    let deps = &importers[k].1.dependencies;
                    let mut j: usize = 0;
                    while j < deps.len()
                        invariant
                            j <= deps@.len(),
                            keys_unique(forward@),
                            keys_unique(inverse@),
                            lists_distinct(forward@),
                            lists_distinct(inverse@),
                            assoc_map(forward@) == forward_of(
                                base.union(entry_edges(p, es.take(j as int))),
                            ),
                            assoc_map(inverse@) == inverse_of(
                                base.union(entry_edges(p, es.take(j as int))),
                            ),
                        decreases deps@.len() - j,
                    {
                        let dnode = dependency_node(ipath.as_str(), &deps[j].0, &deps[j].1.version);
                        proof {
                            assert(es[j as int] == deps@[j as int]);
                        }
                        add_edge(&mut forward, &inode, &dnode);
                        add_edge(&mut inverse, &dnode, &inode);
                        proof {
                            let e = (inode@, dnode@);
                            let cur = base.union(entry_edges(p, es.take(j as int)));
                            lemma_forward_of_insert(cur, inode@, dnode@);
                            lemma_inverse_of_insert(cur, inode@, dnode@);
                            assert(es.take(j as int + 1).drop_last() =~= es.take(j as int));
                            assert(es.take(j as int + 1).last() == es[j as int]);
                            assert(entry_edges(p, es.take(j as int + 1)) == entry_edges(
                                p,
                                es.take(j as int),
                            ).insert(e));
                            assert(base.union(entry_edges(p, es.take(j as int + 1))) =~= cur.insert(
                                e,
                            ));
                        }
                        j = j + 1;
                    }

                    let devs = &importers[k].1.dev_dependencies;
                    let ghost nd = deps@.len() as int;
                    let mut j2: usize = 0;
                    while j2 < devs.len()
                        invariant
                            j2 <= devs@.len(),
                            keys_unique(forward@),
                            keys_unique(inverse@),
                            lists_distinct(forward@),
                            lists_distinct(inverse@),
                            assoc_map(forward@) == forward_of(
                                base.union(entry_edges(p, es.take(nd + j2))),
                            ),
                            assoc_map(inverse@) == inverse_of(
                                base.union(entry_edges(p, es.take(nd + j2))),
                            ),
                        decreases devs@.len() - j2,
                    {
                        let dnode = dependency_node(
                            ipath.as_str(),
                            &devs[j2].0,
                            &devs[j2].1.version,
                        );
                        proof {
                            assert(es[nd + j2] == devs@[j2 as int]);
                        }
                        add_edge(&mut forward, &inode, &dnode);
                        add_edge(&mut inverse, &dnode, &inode);
                        proof {
                            let e = (inode@, dnode@);
                            let cur = base.union(entry_edges(p, es.take(nd + j2)));
                            lemma_forward_of_insert(cur, inode@, dnode@);
                            lemma_inverse_of_insert(cur, inode@, dnode@);
                            assert(es.take(nd + j2 + 1).drop_last() =~= es.take(nd + j2));
                            assert(es.take(nd + j2 + 1).last() == es[nd + j2]);
                            assert(entry_edges(p, es.take(nd + j2 + 1)) == entry_edges(
                                p,
                                es.take(nd + j2),
                            ).insert(e));
                            assert(base.union(entry_edges(p, es.take(nd + j2 + 1)))
                                =~= cur.insert(e));
                        }
                        j2 = j2 + 1;
                    }

                    proof {
                        assert(es.take(nd + devs@.len() as int) =~= es);
                        assert(all_i.take(k as int + 1).drop_last() =~= all_i.take(k as int));
                        assert(all_i.take(k as int + 1).last() == all_i[k as int]);
                        assert(importer_edges(ws, all_i[k as int].0@, all_i[k as int].1)
                            == entry_edges(p, es));
                        assert(importers_edges(ws, all_i.take(k as int + 1)) == base.union(
                            entry_edges(p, es),
                        ));
                    }
                    k = k + 1;
                }

                let ghost ie = importers_edges(ws, all_i);
                proof {
                    assert(all_i.take(all_i.len() as int) =~= all_i);
                    assert(all_s.take(0).len() == 0);
                    assert(ie.union(snapshots_edges(all_s.take(0))) =~= ie);
                }

                let mut k2: usize = 0;
                while k2 < snapshots.len()
                    invariant
                        k2 <= all_s.len(),
                        keys_unique(forward@),
                        keys_unique(inverse@),
                        lists_distinct(forward@),
                        lists_distinct(inverse@),
                        forall|i: int| 0 <= i < k2 ==> key_has_delim(#[trigger] all_s[i].0@),
                        assoc_map(forward@) == forward_of(
                            ie.union(snapshots_edges(all_s.take(k2 as int))),
                        ),
                        assoc_map(inverse@) == inverse_of(
                            ie.union(snapshots_edges(all_s.take(k2 as int))),
                        ),
                    decreases all_s.len() - k2,
                {
                    let parts = match split_snapshot_key(snapshots[k2].0.as_str()) {
                        Ok(parts) => parts,
                        Err(e) => {
                            proof {
                                assert(!key_has_delim(all_s[k2 as int].0@));
                                assert(!snapshots_wf(all_s));
                            }
                            return Err(e);
                        },
                    };
                    let snode = NodeId::Package { name: parts.0, version: parts.1 };
                    let ghost sn = snapshot_node(all_s[k2 as int].0@);
                    proof {
                        assert(snode@ == sn);
                    }
                    let ghost sdeps = all_s[k2 as int].1.dependencies@;
                    let ghost base2 = ie.union(snapshots_edges(all_s.take(k2 as int)));
                    proof {
                        assert(sdeps.take(0).len() == 0);
                        assert(base2.union(snapshot_dep_edges(sn, sdeps.take(0))) =~= base2);
                    }
                    let sd = &snapshots[k2].1.dependencies;
                    let mut j3: usize = 0;
                    while j3 < sd.len()
                        invariant
                            j3 <= sdeps.len(),
                            keys_unique(forward@),
                            keys_unique(inverse@),
                            lists_distinct(forward@),
                            lists_distinct(inverse@),
                            assoc_map(forward@) == forward_of(
                                base2.union(snapshot_dep_edges(sn, sdeps.take(j3 as int))),
                            ),
                            assoc_map(inverse@) == inverse_of(
                                base2.union(snapshot_dep_edges(sn, sdeps.take(j3 as int))),
                            ),
                        decreases sdeps.len() - j3,
                    {
                        let dnode = NodeId::Package {
                            name: sd[j3].0.clone(),
                            version: sd[j3].1.clone(),
                        };
                        add_edge(&mut forward, &snode, &dnode);
                        add_edge(&mut inverse, &dnode, &snode);
                        proof {
                            let e = (sn, dnode@);
                            let cur = base2.union(snapshot_dep_edges(sn, sdeps.take(j3 as int)));
                            lemma_forward_of_insert(cur, snode@, dnode@);
                            lemma_inverse_of_insert(cur, snode@, dnode@);
                            assert(sdeps.take(j3 as int + 1).drop_last() =~= sdeps.take(j3 as int));
                            assert(sdeps.take(j3 as int + 1).last() == sdeps[j3 as int]);
                            assert(snapshot_dep_edges(sn, sdeps.take(j3 as int + 1))
                                == snapshot_dep_edges(sn, sdeps.take(j3 as int)).insert(e));
                            assert(base2.union(snapshot_dep_edges(sn, sdeps.take(j3 as int + 1)))
                                =~= cur.insert(e));
                        }
                        j3 = j3 + 1;
                    }
                    proof {
                        assert(sdeps.take(sdeps.len() as int) =~= sdeps);
                        assert(all_s.take(k2 as int + 1).drop_last() =~= all_s.take(k2 as int));
                        assert(all_s.take(k2 as int + 1).last() == all_s[k2 as int]);
                        assert(snapshots_edges(all_s.take(k2 as int + 1)) == snapshots_edges(
                            all_s.take(k2 as int),
                        ).union(snapshot_dep_edges(sn, sdeps)));
                        assert(ie.union(snapshots_edges(all_s.take(k2 as int + 1))) =~= base2.union(
                            snapshot_dep_edges(sn, sdeps),
                        ));
                    }
                    k2 = k2 + 1;
                }

                proof {
                    assert(all_s.take(all_s.len() as int) =~= all_s);
                    assert(lockfile_edges(*lockfile, ws) == ie.union(snapshots_edges(all_s)));
                    lemma_graph_symmetry(lockfile_edges(*lockfile, ws));
                }
                Ok(DependencyGraph { forward, inverse })
            },
        }
    }
}

} // verus!
