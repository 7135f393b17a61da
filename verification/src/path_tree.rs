//! A trie of paths, one node per distinct path prefix. Each node stores the
//! full paths that end at it, so many paths can later be matched against
//! the automaton while sharing the walk over common prefixes.

use vstd::prelude::*;

use crate::util::chars_eq;
use crate::util::chars_of;
use crate::util::clone_chars;
use crate::util::path_segments;
use crate::util::split_chars;
use crate::util::strip_segs;

verus! {

/// Index of a node in the tree's node vector. Node 0 is the root.
#[derive(Debug, Clone, Copy, PartialEq, Eq, Structural)]
pub struct NodeId(pub usize);

/// A trie node: children keyed by path segment, and the paths ending here.
pub struct Node {
    pub children: Vec<(Vec<char>, NodeId)>,
    pub paths: Vec<String>,
}

/// Model of a node.
#[verifier::ext_equal]
pub ghost struct SpecNode {
    pub children: Seq<(Seq<char>, int)>,
    pub paths: Seq<Seq<char>>,
}

pub open spec fn empty_spec_node() -> SpecNode {
    SpecNode { children: Seq::empty(), paths: Seq::empty() }
}

impl View for Node {
    type V = SpecNode;

    open spec fn view(&self) -> SpecNode {
        SpecNode {
            children: Seq::new(
                self.children@.len(),
                |i: int| (self.children@[i].0@, self.children@[i].1.0 as int),
            ),
            paths: Seq::new(self.paths@.len(), |i: int| self.paths@[i]@),
        }
    }
}

/// The tree: a vector of nodes, node 0 being the root.
pub struct PathTree {
    pub nodes: Vec<Node>,
}

impl View for PathTree {
    type V = Seq<SpecNode>;

    open spec fn view(&self) -> Seq<SpecNode> {
        Seq::new(self.nodes@.len(), |i: int| self.nodes@[i]@)
    }
}

pub open spec fn child_key_at(m: Seq<SpecNode>, n: int, seg: Seq<char>, k: int) -> bool {
    0 <= k < m[n].children.len() && m[n].children[k].0 == seg
}

pub open spec fn has_child(m: Seq<SpecNode>, n: int, seg: Seq<char>) -> bool {
    exists|k: int| child_key_at(m, n, seg, k)
}

/// The tree has a root, child links stay in range, and no node has two
/// children with the same segment key.
pub open spec fn tree_wf(m: Seq<SpecNode>) -> bool {
    &&& m.len() >= 1
    &&& forall|n: int, k: int|
        0 <= n < m.len() && 0 <= k < m[n].children.len() ==> 0 <= (#[trigger] m[n].children[k]).1
            < m.len()
    &&& forall|n: int, k1: int, k2: int|
        #![trigger m[n].children[k1], m[n].children[k2]]
        0 <= n < m.len() && 0 <= k1 < m[n].children.len() && 0 <= k2 < m[n].children.len()
            && m[n].children[k1].0 == m[n].children[k2].0 ==> k1 == k2
}

/// Mirror of walking (and extending) the trie along a segment sequence.
pub open spec fn spec_tree_walk(m: Seq<SpecNode>, segs: Seq<Seq<char>>, i: int, cur: int) -> (
    Seq<SpecNode>,
    int,
)
    decreases segs.len() - i,
{
    if i < 0 || i >= segs.len() {
        (m, cur)
    } else if has_child(m, cur, segs[i]) {
        let k = choose|k: int| child_key_at(m, cur, segs[i], k);
        spec_tree_walk(m, segs, i + 1, m[cur].children[k].1)
    } else {
        let nid = m.len() as int;
        let m1 = m.push(empty_spec_node());
        let m2 = m1.update(
            cur,
            (SpecNode { children: m1[cur].children.push((segs[i], nid)), ..m1[cur] }),
        );
        spec_tree_walk(m2, segs, i + 1, nid)
    }
}

/// Mirror of inserting one path: walk its segments, then record the path at
/// the final node.
pub open spec fn spec_insert(m: Seq<SpecNode>, path: Seq<char>) -> Seq<SpecNode> {
    let segs = path_segments(path);
    let w = spec_tree_walk(m, segs, 0, 0);
    w.0.update(w.1, (SpecNode { paths: w.0[w.1].paths.push(path), ..w.0[w.1] }))
}

/// Extending a node with a fresh child keeps the tree well formed.
proof fn lemma_new_child_wf(m: Seq<SpecNode>, cur: int, seg: Seq<char>)
    requires
        tree_wf(m),
        0 <= cur < m.len(),
        !has_child(m, cur, seg),
    ensures
        ({
            let nid = m.len() as int;
            let m1 = m.push(empty_spec_node());
            let m2 = m1.update(
                cur,
                (SpecNode { children: m1[cur].children.push((seg, nid)), ..m1[cur] }),
            );
            tree_wf(m2) && m2.len() == m.len() + 1
        }),
{
    let nid = m.len() as int;
    let m1 = m.push(empty_spec_node());
    let m2 = m1.update(
        cur,
        (SpecNode { children: m1[cur].children.push((seg, nid)), ..m1[cur] }),
    );
    assert forall|n: int, k: int|
        0 <= n < m2.len() && 0 <= k < m2[n].children.len() implies 0 <= (
    #[trigger] m2[n].children[k]).1 < m2.len() by {
        if n == cur {
            if k < m[cur].children.len() {
                assert(m2[n].children[k] == m[n].children[k]);
            }
        } else if n < m.len() {
            assert(m2[n] == m[n]);
        } else {
            assert(m2[n] == empty_spec_node());
        }
    }
    assert forall|n: int, k1: int, k2: int|
        0 <= n < m2.len() && 0 <= k1 < m2[n].children.len() && 0 <= k2 < m2[n].children.len() && (
    #[trigger] m2[n].children[k1]).0 == (#[trigger] m2[n].children[k2]).0 implies k1 == k2 by {
        if n == cur {
            let old_n = m[cur].children.len();
            if k1 < old_n && k2 < old_n {
                assert(m[n].children[k1] == m2[n].children[k1]);
                assert(m[n].children[k2] == m2[n].children[k2]);
            } else if k1 < old_n {
                assert(m2[n].children[k2].0 == seg);
                assert(child_key_at(m, cur, seg, k1));
            } else if k2 < old_n {
                assert(m2[n].children[k1].0 == seg);
                assert(child_key_at(m, cur, seg, k2));
            }
        } else if n < m.len() {
            assert(m2[n] == m[n]);
            assert(m[n].children[k1] == m2[n].children[k1]);
            assert(m[n].children[k2] == m2[n].children[k2]);
        } else {
            assert(m2[n] == empty_spec_node());
        }
    }
}

impl PathTree {
    pub open spec fn wf(&self) -> bool {
        tree_wf(self@)
    }

    /// A tree holding only an empty root.
    pub fn new() -> (r: PathTree)
        ensures
            r.wf(),
            r@ =~~= seq![empty_spec_node()],
    {
        let nodes = vec![Node { children: Vec::new(), paths: Vec::new() }];
        let r = PathTree { nodes };
        proof {
            assert(r@ =~~= seq![empty_spec_node()]);
        }
        r
    }

    /// The root node's id.
    pub fn root_id() -> (r: NodeId)
        ensures
            r.0 == 0,
    {
        NodeId(0)
    }

    /// The node with the given id.
    pub fn node(&self, id: NodeId) -> (r: &Node)
        requires
            id.0 < self@.len(),
        ensures
            r@ == self@[id.0 as int],
    {
        &self.nodes[id.0]
    }

    /// The number of nodes.
    pub fn len(&self) -> (n: usize)
        ensures
            n == self@.len(),
    {
        self.nodes.len()
    }

    /// The id of `cur`'s child along `seg`, if one exists.
    fn find_child(&self, cur: NodeId, seg: &Vec<char>) -> (r: Option<NodeId>)
        requires
            self.wf(),
            cur.0 < self@.len(),
        ensures
            (match r {
                Some(t) => exists|k: int|
                    child_key_at(self@, cur.0 as int, seg@, k)
                        && #[trigger] self@[cur.0 as int].children[k].1 == t.0 as int,
                None => !has_child(self@, cur.0 as int, seg@),
            }),
    {
        let ghost n = cur.0 as int;
        let nd = &self.nodes[cur.0];
        let cn = nd.children.len();
        proof {
            assert(self@[n].children.len() == cn);
        }
        let mut k: usize = 0;
        while k < cn
            invariant
                k <= cn,
                cur.0 < self@.len(),
                n == cur.0 as int,
                nd == self.nodes@[n],
                cn == nd.children@.len(),
                cn == self@[n].children.len(),
                forall|t: int| 0 <= t < k ==> !child_key_at(self@, n, seg@, t),
            decreases cn - k,
        {
            let pair = &nd.children[k];
            proof {
                assert(self@[n].children[k as int] == (pair.0@, pair.1.0 as int));
            }
            if chars_eq(&pair.0, seg) {
                proof {
                    assert(child_key_at(self@, n, seg@, k as int));
                    assert(self@[n].children[k as int].1 == pair.1.0 as int);
                }
                return Some(pair.1);
            }
            k = k + 1;
        }
        proof {
            assert forall|t: int| !child_key_at(self@, n, seg@, t) by {
                if 0 <= t < cn {
                    assert(!child_key_at(self@, n, seg@, t));
                }
            }
        }
        None
    }

    /// Insert a path: one node per new prefix, the full path recorded at
    /// the final node.
    pub fn insert(&mut self, path: &str)
        requires
            old(self).wf(),
        ensures
            final(self).wf(),
            final(self)@ == spec_insert(old(self)@, path@),
    {
        let ghost m0 = self@;
        let chars = chars_of(path);
        let raw = split_chars(&chars, '/');
        let segs = strip_segs(&raw);
        let ghost segsv = segs.deep_view();
        proof {
            assert(segsv == path_segments(path@));
            crate::util::lemma_deep_view_chars(&segs);
        }
        let ghost w = spec_tree_walk(m0, segsv, 0, 0);
        let mut cur = NodeId(0);
        let mut i: usize = 0;
        while i < segs.len()
            invariant
                i <= segs@.len(),
                segs.deep_view() == segsv,
                segs@.len() == segsv.len(),
                forall|t: int| 0 <= t < segs@.len() ==> #[trigger] segs.deep_view()[t] == segs@[t]@,
                self.wf(),
                cur.0 < self@.len(),
                w == spec_tree_walk(m0, segsv, 0, 0),
                w == spec_tree_walk(self@, segsv, i as int, cur.0 as int),
            decreases segs@.len() - i,
        {
            let seg = clone_chars(&segs[i]);
            proof {
                assert(seg@ == segsv[i as int]);
            }
            match self.find_child(cur, &seg) {
                Some(t) => {
                    proof {
                        let k0 = choose|k: int|
                            child_key_at(self@, cur.0 as int, seg@, k)
                                && #[trigger] self@[cur.0 as int].children[k].1 == t.0 as int;
                        let kc = choose|k: int| child_key_at(self@, cur.0 as int, seg@, k);
                        assert(child_key_at(self@, cur.0 as int, seg@, k0));
                        assert(child_key_at(self@, cur.0 as int, seg@, kc));
                        assert(k0 == kc);
                        assert(0 <= self@[cur.0 as int].children[k0].1 < self@.len());
                    }
                    cur = t;
                },
                None => {
                    let ghost mprev = self@;
                    let nid = NodeId(self.nodes.len());
                    self.nodes.push(Node { children: Vec::new(), paths: Vec::new() });
                    let nd = &mut self.nodes[cur.0];
                    nd.children.push((seg, nid));
                    proof {
                        let ghost m1 = mprev.push(empty_spec_node());
                        let ghost m2 = m1.update(
                            cur.0 as int,
                            (SpecNode {
                                children: m1[cur.0 as int].children.push(
                                    (segsv[i as int], nid.0 as int),
                                ),
                                ..m1[cur.0 as int]
                            }),
                        );
                        assert(self@ =~~= m2);
                        lemma_new_child_wf(mprev, cur.0 as int, segsv[i as int]);
                    }
                    cur = nid;
                },
            }
            i = i + 1;
        }
        proof {
            assert(self@ == w.0 && cur.0 as int == w.1);
        }
        let ghost mw = self@;
        let nd = &mut self.nodes[cur.0];
        nd.paths.push(path.to_owned());
        proof {
            assert(self@ =~~= mw.update(
                cur.0 as int,
                (SpecNode { paths: mw[cur.0 as int].paths.push(path@), ..mw[cur.0 as int] }),
            ));
            assert forall|n: int, k: int|
                0 <= n < self@.len() && 0 <= k < self@[n].children.len() implies 0 <= (
            #[trigger] self@[n].children[k]).1 < self@.len() by {
                if n != cur.0 as int {
                    assert(self@[n] == mw[n]);
                } else {
                    assert(self@[n].children == mw[n].children);
                    assert(self@[n].children[k] == mw[n].children[k]);
                }
            }
            assert forall|n: int, k1: int, k2: int|
                0 <= n < self@.len() && 0 <= k1 < self@[n].children.len() && 0 <= k2
                    < self@[n].children.len() && (#[trigger] self@[n].children[k1]).0 == (
            #[trigger] self@[n].children[k2]).0 implies k1 == k2 by {
                if n != cur.0 as int {
                    assert(self@[n] == mw[n]);
                    assert(mw[n].children[k1] == self@[n].children[k1]);
                    assert(mw[n].children[k2] == self@[n].children[k2]);
                } else {
                    assert(self@[n].children == mw[n].children);
                    assert(mw[n].children[k1] == self@[n].children[k1]);
                    assert(mw[n].children[k2] == self@[n].children[k2]);
                }
            }
        }
    }
}

} // verus!
