//! The window tree snapshot: a tree of nodes with a depth-first view.

use vstd::prelude::*;

verus! {

/// Classification of a tree node.
#[derive(Clone, Copy, Debug, PartialEq, Eq, Structural)]
pub enum NodeKind {
    Output,
    Workspace,
    Other,
}

/// One node of an immutable window tree snapshot.
#[derive(Debug)]
pub struct Node {
    /// Unique identity of the node.
    pub id: i64,
    /// Display name, when the node has one.
    pub name: Option<String>,
    /// Numeric tag reported for the node, when it has one.
    pub num: Option<i64>,
    /// True iff this exact node currently holds input focus.
    pub focused: bool,
    /// Kind classification.
    pub kind: NodeKind,
    /// Regular children, in order.
    pub nodes: Vec<Node>,
    /// Floating children, in order.
    pub floating_nodes: Vec<Node>,
}

/// The targets of a sequence of node references.
pub open spec fn deref_seq(s: Seq<&Node>) -> Seq<Node> {
    s.map_values(|n: &Node| *n)
}

impl Node {
    /// All nodes of the subtree rooted at `self`, in depth-first pre-order:
    /// the node itself, then the subtrees of the regular children in order,
    /// then the subtrees of the floating children in order.
    pub open spec fn descendants(self) -> Seq<Node>
        decreases self,
    {
        seq![self] + Node::forest_descendants(self.nodes@) + Node::forest_descendants(
            self.floating_nodes@,
        )
    }

    /// All nodes of the subtrees rooted at the nodes of `forest`, in order.
    pub open spec fn forest_descendants(forest: Seq<Node>) -> Seq<Node>
        decreases forest,
    {
        if forest.len() == 0 {
            Seq::<Node>::empty()
        } else {
            forest[0].descendants() + Node::forest_descendants(forest.drop_first())
        }
    }

    /// True iff the node is the hidden scratchpad pseudo-workspace.
    pub open spec fn spec_is_scratchpad(self) -> bool {
        match self.name {
            Some(n) => n@ == "__i3_scratch"@,
            None => false,
        }
    }
}

/// Appending one tree to a forest appends its subtree nodes to the forest's.
pub proof fn lemma_forest_descendants_push(forest: Seq<Node>, tree: Node)
    ensures
        Node::forest_descendants(forest.push(tree)) == Node::forest_descendants(forest)
            + tree.descendants(),
    decreases forest,
{
    let p = forest.push(tree);
    if forest.len() == 0 {
        assert(p[0] == tree);
        assert(p.drop_first() =~= Seq::<Node>::empty());
        assert(Node::forest_descendants(p.drop_first()) == Seq::<Node>::empty());
        assert(Node::forest_descendants(p) == p[0].descendants() + Node::forest_descendants(
            p.drop_first(),
        ));
        assert(Node::forest_descendants(p) =~= Node::forest_descendants(forest)
            + tree.descendants());
    } else {
        lemma_forest_descendants_push(forest.drop_first(), tree);
        assert(p.drop_first() =~= forest.drop_first().push(tree));
        assert(p[0] == forest[0]);
        assert(Node::forest_descendants(p) == p[0].descendants() + Node::forest_descendants(
            p.drop_first(),
        ));
        assert(Node::forest_descendants(forest) == forest[0].descendants()
            + Node::forest_descendants(forest.drop_first()));
        assert(Node::forest_descendants(p) =~= Node::forest_descendants(forest)
            + tree.descendants());
    }
}

fn all_nodes_rec<'a>(node: &'a Node, out: &mut Vec<&'a Node>)
    ensures
        deref_seq(final(out)@) == deref_seq(old(out)@) + node.descendants(),
    decreases *node,
{
    let ghost base = deref_seq(out@);
    out.push(node);
    proof {
        assert(deref_seq(out@) =~= base + seq![*node]);
    }
    let mut i: usize = 0;
    while i < node.nodes.len()
        invariant
            i <= node.nodes@.len(),
            deref_seq(out@) == base + seq![*node] + Node::forest_descendants(node.nodes@.take(
                i as int,
            )),
        decreases node.nodes@.len() - i,
    {
        proof {
            assert(decreases_to!(*node => node.nodes@[i as int]));
        }
        let ghost before = deref_seq(out@);
        all_nodes_rec(&node.nodes[i], out);
        proof {
            lemma_forest_descendants_push(node.nodes@.take(i as int), node.nodes@[i as int]);
            assert(node.nodes@.take(i as int + 1) =~= node.nodes@.take(i as int).push(
                node.nodes@[i as int],
            ));
            assert(deref_seq(out@) =~= base + seq![*node] + Node::forest_descendants(
                node.nodes@.take(i as int + 1),
            ));
        }
        i = i + 1;
    }
    proof {
        assert(node.nodes@.take(node.nodes@.len() as int) =~= node.nodes@);
    }
    let mut j: usize = 0;
    while j < node.floating_nodes.len()
        invariant
            j <= node.floating_nodes@.len(),
            deref_seq(out@) == base + seq![*node] + Node::forest_descendants(node.nodes@)
                + Node::forest_descendants(node.floating_nodes@.take(j as int)),
        decreases node.floating_nodes@.len() - j,
    {
        proof {
            assert(decreases_to!(*node => node.floating_nodes@[j as int]));
        }
        all_nodes_rec(&node.floating_nodes[j], out);
        proof {
            lemma_forest_descendants_push(
                node.floating_nodes@.take(j as int),
                node.floating_nodes@[j as int],
            );
            assert(node.floating_nodes@.take(j as int + 1) =~= node.floating_nodes@.take(
                j as int,
            ).push(node.floating_nodes@[j as int]));
            assert(deref_seq(out@) =~= base + seq![*node] + Node::forest_descendants(node.nodes@)
                + Node::forest_descendants(node.floating_nodes@.take(j as int + 1)));
        }
        j = j + 1;
    }
    proof {
        assert(node.floating_nodes@.take(node.floating_nodes@.len() as int)
            =~= node.floating_nodes@);
        assert(deref_seq(out@) =~= deref_seq(old(out)@) + node.descendants());
    }
}

impl Node {
    /// All nodes of the subtree rooted at `self`, in depth-first pre-order.
    pub fn all_nodes(&self) -> (r: Vec<&Node>)
        ensures
            deref_seq(r@) == self.descendants(),
    {
        let mut out: Vec<&Node> = Vec::new();
        proof {
            assert(deref_seq(out@) =~= Seq::<Node>::empty());
        }
        all_nodes_rec(self, &mut out);
        proof {
            assert(deref_seq(out@) =~= self.descendants());
        }
        out
    }

    /// All nodes of the subtree rooted at `self`, in depth-first pre-order,
    /// for which the predicate returns true, in that order.
    pub fn find_all_nodes_by<'a, F: Copy + Fn(&Node) -> bool>(&'a self, predicate: F) -> (r: Vec<
        &'a Node,
    >)
        requires
            forall|n: &'a Node| #[trigger] predicate.requires((n,)),
        ensures
            forall|i: int|
                0 <= i < r@.len() ==> self.descendants().contains(*#[trigger] r@[i])
                    && predicate.ensures((r@[i],), true),
            forall|i: int|
                0 <= i < self.descendants().len() ==> (exists|j: int|
                    0 <= j < r@.len() && *r@[j] == self.descendants()[i]) || predicate.ensures(
                    (&self.descendants()[i],),
                    false,
                ),
            exists|pos: Seq<int>|
                #![trigger pos.len()]
                {
                    &&& pos.len() == r@.len()
                    &&& forall|k: int|
                        0 <= k < pos.len() ==> 0 <= #[trigger] pos[k] < self.descendants().len()
                            && *r@[k] == self.descendants()[pos[k]]
                    &&& forall|k1: int, k2: int|
                        0 <= k1 < k2 < pos.len() ==> #[trigger] pos[k1] < #[trigger] pos[k2]
                },
    {
        let all = self.all_nodes();
        let mut r: Vec<&Node> = Vec::new();
        let ghost mut positions = Seq::<int>::empty();
        let mut i: usize = 0;
        while i < all.len()
            invariant
                forall|n: &'a Node| #[trigger] predicate.requires((n,)),
                i <= all@.len(),
                deref_seq(all@) == self.descendants(),
                forall|x: int|
                    0 <= x < r@.len() ==> self.descendants().contains(*#[trigger] r@[x])
                        && predicate.ensures((r@[x],), true),
                forall|x: int|
                    0 <= x < i ==> (exists|j: int|
                        0 <= j < r@.len() && *r@[j] == self.descendants()[x]) || predicate.ensures(
                        (&self.descendants()[x],),
                        false,
                    ),
                positions.len() == r@.len(),
                forall|k: int|
                    0 <= k < positions.len() ==> 0 <= #[trigger] positions[k] < i as int && *r@[k]
                        == self.descendants()[positions[k]],
                forall|k1: int, k2: int|
                    0 <= k1 < k2 < positions.len() ==> #[trigger] positions[k1]
                        < #[trigger] positions[k2],
            decreases all@.len() - i,
        {
            let x = all[i];
            proof {
                assert(*x == self.descendants()[i as int]);
                assert(self.descendants().contains(*x));
            }
            let keep = predicate(x);
            if keep {
                let ghost old_r = r@;
                r.push(x);
                proof {
                    positions = positions.push(i as int);
                    assert(forall|j: int| 0 <= j < old_r.len() ==> r@[j] == old_r[j]);
                    assert(*r@[r@.len() - 1] == self.descendants()[i as int]);
                    assert forall|x2: int| 0 <= x2 < i + 1 implies (exists|j: int|
                        0 <= j < r@.len() && *r@[j] == self.descendants()[x2]) || predicate.ensures(
                        (&self.descendants()[x2],),
                        false,
                    ) by {
                        if x2 < i {
                            if exists|j: int|
                                0 <= j < old_r.len() && *old_r[j] == self.descendants()[x2] {
                                let j = choose|j: int|
                                    0 <= j < old_r.len() && *old_r[j] == self.descendants()[x2];
                                assert(*r@[j] == self.descendants()[x2]);
                            }
                        } else {
                            assert(*r@[r@.len() - 1] == self.descendants()[x2]);
                        }
                    }
                }
            } else {
                proof {
                    assert(predicate.ensures((x,), false));
                    assert(predicate.ensures((&self.descendants()[i as int],), false));
                }
            }
            i = i + 1;
        }
        r
    }

    /// True iff some node of the subtree rooted at `self` holds input focus.
    pub fn has_focused_descendant(&self) -> (b: bool)
        ensures
            b == exists|i: int|
                0 <= i < self.descendants().len() && #[trigger] self.descendants()[i].focused,
    {
        let all = self.all_nodes();
        let mut i: usize = 0;
        while i < all.len()
            invariant
                i <= all@.len(),
                deref_seq(all@) == self.descendants(),
                forall|x: int| 0 <= x < i ==> !(#[trigger] self.descendants()[x].focused),
            decreases all@.len() - i,
        {
            if all[i].focused {
                proof {
                    assert(self.descendants()[i as int].focused);
                }
                return true;
            }
            proof {
                assert(*all@[i as int] == self.descendants()[i as int]);
            }
            i = i + 1;
        }
        false
    }

    /// The regular children, in order.
    pub fn get_nodes(&self) -> (r: &Vec<Node>)
        ensures
            *r == self.nodes,
    {
        &self.nodes
    }

    /// The floating children, in order.
    pub fn get_floating_nodes(&self) -> (r: &Vec<Node>)
        ensures
            *r == self.floating_nodes,
    {
        &self.floating_nodes
    }

    /// The display name, when the node has one.
    pub fn get_name(&self) -> (r: &Option<String>)
        ensures
            *r == self.name,
    {
        &self.name
    }

    /// The unique identity of the node.
    pub fn get_id(&self) -> (r: i64)
        ensures
            r == self.id,
    {
        self.id
    }

    /// The numeric tag reported for the node, when it has one.
    pub fn get_num(&self) -> (r: Option<i64>)
        ensures
            r == self.num,
    {
        self.num
    }

    /// True iff the node is classified as a workspace.
    pub fn is_workspace(&self) -> (r: bool)
        ensures
            r == (self.kind == NodeKind::Workspace),
    {
        self.kind == NodeKind::Workspace
    }

    /// True iff the node is classified as an output.
    pub fn is_output(&self) -> (r: bool)
        ensures
            r == (self.kind == NodeKind::Output),
    {
        self.kind == NodeKind::Output
    }

    /// True iff this exact node holds input focus.
    pub fn is_focused(&self) -> (r: bool)
        ensures
            r == self.focused,
    {
        self.focused
    }

    /// The first node of the subtree rooted at `self`, in depth-first
    /// pre-order, for which the predicate returns true: the node itself is
    /// tested before its children, regular children before floating ones,
    /// and every node before the match was tested and rejected.
    pub fn find_as_ref<'a, F: Copy + Fn(&Node) -> bool>(&'a self, predicate: F) -> (r: Option<
        &'a Node,
    >)
        requires
            forall|n: &'a Node| #[trigger] predicate.requires((n,)),
        ensures
            match r {
                Some(n) => exists|i: int|
                    {
                        &&& 0 <= i < self.descendants().len()
                        &&& *n == #[trigger] self.descendants()[i]
                        &&& predicate.ensures((n,), true)
                        &&& forall|j: int|
                            0 <= j < i ==> predicate.ensures((&self.descendants()[j],), false)
                    },
                None => forall|i: int|
                    0 <= i < self.descendants().len() ==> predicate.ensures(
                        (&self.descendants()[i],),
                        false,
                    ),
            },
    {
        let all = self.all_nodes();
        let mut i: usize = 0;
        while i < all.len()
            invariant
                forall|n: &'a Node| #[trigger] predicate.requires((n,)),
                i <= all@.len(),
                deref_seq(all@) == self.descendants(),
                forall|x: int|
                    0 <= x < i ==> predicate.ensures((&self.descendants()[x],), false),
            decreases all@.len() - i,
        {
            let x = all[i];
            proof {
                assert(*x == self.descendants()[i as int]);
            }
            if predicate(x) {
                proof {
                    assert(*x == self.descendants()[i as int] && predicate.ensures((x,), true));
                }
                return Some(x);
            }
            proof {
                assert(predicate.ensures((x,), false));
                assert(predicate.ensures((&self.descendants()[i as int],), false));
            }
            i = i + 1;
        }
        None
    }

    /// True iff the node is the hidden scratchpad pseudo-workspace, which is
    /// excluded from all navigation.
    pub fn is_scratchpad_workspace(&self) -> (b: bool)
        ensures
            b == self.spec_is_scratchpad(),
    {
        match &self.name {
            Some(n) => {
                let scratch: String = "__i3_scratch".to_owned();
                n.eq(&scratch)
            },
            None => false,
        }
    }
}

} // verus!
