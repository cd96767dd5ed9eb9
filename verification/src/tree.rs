use vstd::prelude::*;

verus! {

/// Mathematical model of a tree of named sections: a root name and an
/// ordered sequence of subtrees.
#[verifier::ext_equal]
pub struct TreeView {
    pub root: Seq<char>,
    pub children: Seq<TreeView>,
}

impl TreeView {
    /// A node with no children.
    pub open spec fn leaf(name: Seq<char>) -> TreeView {
        TreeView { root: name, children: Seq::empty() }
    }

    /// Whether some node of the tree carries this name.
    pub open spec fn contains(self, name: Seq<char>) -> bool
        decreases self,
    {
        self.root == name || exists|i: int|
            0 <= i < self.children.len() && (#[trigger] self.children[i]).contains(name)
    }

    /// The tree after inserting a new leaf under the first node (in
    /// pre-order) whose name equals `parent`; the tree itself when no node
    /// carries that name.
    pub open spec fn add(self, child: Seq<char>, parent: Seq<char>) -> TreeView
        decreases self,
    {
        if self.root == parent {
            TreeView { root: self.root, children: self.children.push(TreeView::leaf(child)) }
        } else {
            let i = first_with(self.children, parent);
            if 0 <= i < self.children.len() {
                TreeView {
                    root: self.root,
                    children: self.children.update(i, self.children[i].add(child, parent)),
                }
            } else {
                self
            }
        }
    }

    /// The children of the first node (in pre-order) carrying this name.
    pub open spec fn children_of_first(self, name: Seq<char>) -> Seq<TreeView>
        recommends
            self.contains(name),
        decreases self,
    {
        if self.root == name {
            self.children
        } else {
            let i = first_with(self.children, name);
            if 0 <= i < self.children.len() {
                self.children[i].children_of_first(name)
            } else {
                Seq::empty()
            }
        }
    }

    /// Whether the tree has a parent/child edge between nodes with these
    /// names.
    pub open spec fn has_edge(self, parent: Seq<char>, child: Seq<char>) -> bool
        decreases self,
    {
        (self.root == parent && exists|i: int|
            0 <= i < self.children.len() && (#[trigger] self.children[i]).root == child)
            || exists|i: int|
            0 <= i < self.children.len() && (#[trigger] self.children[i]).has_edge(parent, child)
    }
}

/// The index of the first subtree in the sequence that contains `name`,
/// or -1 when none does.
pub open spec fn first_with(cs: Seq<TreeView>, name: Seq<char>) -> int
    decreases cs.len(),
{
    if cs.len() == 0 {
        -1
    } else if cs[0].contains(name) {
        0
    } else {
        let rest = first_with(cs.drop_first(), name);
        if rest < 0 {
            -1
        } else {
            rest + 1
        }
    }
}

/// `first_with` finds exactly the first subtree containing the name: it is
/// negative precisely when no subtree contains the name, and otherwise
/// points at the first one that does.
pub proof fn lemma_first_with(cs: Seq<TreeView>, name: Seq<char>)
    ensures
        first_with(cs, name) < 0 <==> (forall|i: int|
            0 <= i < cs.len() ==> !(#[trigger] cs[i]).contains(name)),
        first_with(cs, name) >= 0 ==> first_with(cs, name) < cs.len() && cs[first_with(
            cs,
            name,
        )].contains(name) && (forall|j: int|
            0 <= j < first_with(cs, name) ==> !(#[trigger] cs[j]).contains(name)),
    decreases cs.len(),
{
    if cs.len() > 0 && !cs[0].contains(name) {
        let d = cs.drop_first();
        lemma_first_with(d, name);
        assert(forall|i: int| 0 <= i < d.len() ==> #[trigger] d[i] == cs[i + 1]);
        let rest = first_with(d, name);
        if rest < 0 {
            assert forall|i: int| 0 <= i < cs.len() implies !(#[trigger] cs[i]).contains(name) by {
                if i > 0 {
                    assert(cs[i] == d[i - 1]);
                    assert(!d[i - 1].contains(name));
                }
            }
        } else {
            assert(first_with(cs, name) == rest + 1);
            assert(cs[rest + 1] == d[rest]);
            assert forall|j: int| 0 <= j < rest + 1 implies !(#[trigger] cs[j]).contains(name) by {
                if j > 0 {
                    assert(cs[j] == d[j - 1]);
                    assert(!d[j - 1].contains(name));
                }
            }
        }
        if forall|i: int| 0 <= i < cs.len() ==> !(#[trigger] cs[i]).contains(name) {
            assert(forall|i: int| 0 <= i < d.len() ==> !(#[trigger] d[i]).contains(name));
            assert(rest < 0);
        }
    }
}

/// A sequence whose first subtree containing the name stands at `k` has
/// `first_with` equal to `k`.
pub proof fn lemma_first_with_is(cs: Seq<TreeView>, name: Seq<char>, k: int)
    requires
        0 <= k < cs.len(),
        cs[k].contains(name),
        forall|j: int| 0 <= j < k ==> !(#[trigger] cs[j]).contains(name),
    ensures
        first_with(cs, name) == k,
    decreases cs.len(),
{
    if k > 0 {
        lemma_first_with_is(cs.drop_first(), name, k - 1);
        assert(forall|i: int| 0 <= i < cs.drop_first().len() ==> cs.drop_first()[i] == cs[i + 1]);
    }
}

/// Inserting a child never removes a name from the tree.
pub proof fn lemma_add_preserves_contains(
    t: TreeView,
    child: Seq<char>,
    parent: Seq<char>,
    name: Seq<char>,
)
    requires
        t.contains(name),
    ensures
        t.add(child, parent).contains(name),
    decreases t,
{
    let r = t.add(child, parent);
    if t.root == parent {
        if t.root == name {
        } else {
            let i = choose|i: int|
                0 <= i < t.children.len() && (#[trigger] t.children[i]).contains(name);
            assert(r.children[i] == t.children[i]);
            assert(r.children[i].contains(name));
        }
    } else {
        let k = first_with(t.children, parent);
        if 0 <= k < t.children.len() {
            if t.root == name {
            } else {
                let i = choose|i: int|
                    0 <= i < t.children.len() && (#[trigger] t.children[i]).contains(name);
                if i == k {
                    lemma_add_preserves_contains(t.children[k], child, parent, name);
                    assert(r.children[k].contains(name));
                } else {
                    assert(r.children[i] == t.children[i]);
                    assert(r.children[i].contains(name));
                }
            }
        }
    }
}

/// Inserting a child keeps the root name.
pub proof fn lemma_add_root(t: TreeView, child: Seq<char>, parent: Seq<char>)
    ensures
        t.add(child, parent).root == t.root,
{
}

/// A child inserted under an existing parent name lands at the first node
/// (in pre-order) carrying that name, whose child count grows by exactly
/// one.
pub proof fn lemma_add_child_count(t: TreeView, child: Seq<char>, parent: Seq<char>)
    requires
        t.contains(parent),
    ensures
        t.add(child, parent).children_of_first(parent).len() == t.children_of_first(parent).len()
            + 1,
    decreases t,
{
    let r = t.add(child, parent);
    if t.root == parent {
        assert(r.children_of_first(parent) == r.children);
    } else {
        lemma_first_with(t.children, parent);
        let k = first_with(t.children, parent);
        assert(0 <= k < t.children.len());
        lemma_add_preserves_contains(t.children[k], child, parent, parent);
        assert(forall|j: int|
            0 <= j < k ==> r.children[j] == t.children[j] && !(#[trigger] r.children[j]).contains(
                parent,
            ));
        assert(r.children[k] == t.children[k].add(child, parent));
        lemma_first_with_is(r.children, parent, k);
        lemma_add_root(t.children[k], child, parent);
        assert(r.root != parent);
        assert(r.children_of_first(parent) == r.children[k].children_of_first(parent));
        lemma_add_child_count(t.children[k], child, parent);
    }
}

/// Inserting under a name that no node of the tree carries leaves the tree
/// unchanged.
pub proof fn lemma_add_unknown_parent(t: TreeView, child: Seq<char>, parent: Seq<char>)
    requires
        !t.contains(parent),
    ensures
        t.add(child, parent) == t,
{
    assert(t.root != parent);
    assert(forall|i: int| 0 <= i < t.children.len() ==> !(#[trigger] t.children[i]).contains(parent));
    lemma_first_with(t.children, parent);
}

/// Inserting a child changes the edges of the tree by exactly one edge,
/// from the parent name to the child name, and only when the parent name
/// is present.
pub proof fn lemma_add_edges(
    t: TreeView,
    child: Seq<char>,
    parent: Seq<char>,
    p: Seq<char>,
    c: Seq<char>,
)
    ensures
        t.add(child, parent).has_edge(p, c) <==> (t.has_edge(p, c) || (t.contains(parent) && p
            == parent && c == child)),
    decreases t,
{
    let r = t.add(child, parent);
    if t.root == parent {
        // All old subtrees are kept, and a leaf with no edges is appended.
        assert(TreeView::leaf(child).children.len() == 0);
        assert(!TreeView::leaf(child).has_edge(p, c));
        if t.has_edge(p, c) {
            if t.root == p && (exists|i: int|
                0 <= i < t.children.len() && (#[trigger] t.children[i]).root == c) {
                let i = choose|i: int|
                    0 <= i < t.children.len() && (#[trigger] t.children[i]).root == c;
                assert(r.children[i].root == c);
                assert(r.has_edge(p, c));
            } else {
                let i = choose|i: int|
                    0 <= i < t.children.len() && (#[trigger] t.children[i]).has_edge(p, c);
                assert(r.children[i].has_edge(p, c));
                assert(r.has_edge(p, c));
            }
        }
        if p == parent && c == child {
            assert(r.children[t.children.len() as int] == TreeView::leaf(child));
            assert(r.children[t.children.len() as int].root == c);
            assert(r.has_edge(p, c));
        }
        if r.has_edge(p, c) {
            if r.root == p && (exists|i: int|
                0 <= i < r.children.len() && (#[trigger] r.children[i]).root == c) {
                let i = choose|i: int|
                    0 <= i < r.children.len() && (#[trigger] r.children[i]).root == c;
                if i < t.children.len() {
                    assert(t.children[i].root == c);
                    assert(t.has_edge(p, c));
                } else {
                    assert(r.children[i] == TreeView::leaf(child));
                    assert(c == child && p == parent);
                }
            } else {
                let i = choose|i: int|
                    0 <= i < r.children.len() && (#[trigger] r.children[i]).has_edge(p, c);
                if i < t.children.len() {
                    assert(t.children[i].has_edge(p, c));
                    assert(t.has_edge(p, c));
                } else {
                    assert(r.children[i] == TreeView::leaf(child));
                    assert(false);
                }
            }
        }
    } else {
        let k = first_with(t.children, parent);
        lemma_first_with(t.children, parent);
        if 0 <= k < t.children.len() {
            assert(t.contains(parent));
            lemma_add_edges(t.children[k], child, parent, p, c);
            lemma_add_root(t.children[k], child, parent);
            assert(t.children[k].contains(parent));
            // Subtrees other than the one at k are unchanged.
            assert(forall|i: int|
                0 <= i < t.children.len() && i != k ==> r.children[i] == t.children[i]);
            assert(r.children[k] == t.children[k].add(child, parent));
            if t.has_edge(p, c) {
                if t.root == p && (exists|i: int|
                    0 <= i < t.children.len() && (#[trigger] t.children[i]).root == c) {
                    let i = choose|i: int|
                        0 <= i < t.children.len() && (#[trigger] t.children[i]).root == c;
                    assert(r.children[i].root == c);
                    assert(r.has_edge(p, c));
                } else {
                    let i = choose|i: int|
                        0 <= i < t.children.len() && (#[trigger] t.children[i]).has_edge(p, c);
                    if i == k {
                        assert(r.children[k].has_edge(p, c));
                    } else {
                        assert(r.children[i].has_edge(p, c));
                    }
                    assert(r.has_edge(p, c));
                }
            }
            if p == parent && c == child {
                assert(r.children[k].has_edge(p, c));
                assert(r.has_edge(p, c));
            }
            if r.has_edge(p, c) {
                if r.root == p && (exists|i: int|
                    0 <= i < r.children.len() && (#[trigger] r.children[i]).root == c) {
                    let i = choose|i: int|
                        0 <= i < r.children.len() && (#[trigger] r.children[i]).root == c;
                    assert(t.children[i].root == c) by {
                        if i == k {
                            assert(r.children[k].root == t.children[k].root);
                        }
                    }
                    assert(t.has_edge(p, c));
                } else {
                    let i = choose|i: int|
                        0 <= i < r.children.len() && (#[trigger] r.children[i]).has_edge(p, c);
                    if i == k {
                        assert(t.children[k].has_edge(p, c) || (p == parent && c == child));
                        if t.children[k].has_edge(p, c) {
                            assert(t.has_edge(p, c));
                        }
                    } else {
                        assert(t.children[i].has_edge(p, c));
                        assert(t.has_edge(p, c));
                    }
                }
            }
        } else {
            assert(r == t);
            assert(!t.contains(parent));
        }
    }
}

/// A collapsible tree widget's data: a named root, its subtrees, and the
/// name selected in it, if any.
pub struct Tree {
    pub children: Vec<Tree>,
    pub root: String,
    pub selected: Option<String>,
}

/// The model of a sequence of subtrees.
pub open spec fn nodes_model(cs: Seq<Tree>) -> Seq<TreeView>
    decreases cs,
{
    if cs.len() == 0 {
        Seq::empty()
    } else {
        seq![cs[0].model()] + nodes_model(cs.subrange(1, cs.len() as int))
    }
}

/// The model of a sequence of subtrees is the sequence of their models.
pub proof fn lemma_nodes_model(cs: Seq<Tree>)
    ensures
        nodes_model(cs).len() == cs.len(),
        forall|i: int| 0 <= i < cs.len() ==> #[trigger] nodes_model(cs)[i] == cs[i].model(),
    decreases cs,
{
    if cs.len() > 0 {
        let d = cs.subrange(1, cs.len() as int);
        lemma_nodes_model(d);
        assert(forall|i: int| 0 <= i < d.len() ==> #[trigger] d[i] == cs[i + 1]);
    }
}

/// The fixed table of contents that the widget starts from.
pub open spec fn toc_view() -> TreeView {
    TreeView {
        root: "Table of Contents"@,
        children: seq![
            TreeView { root: "Section 1"@, children: seq![TreeView::leaf("Section 1.1"@)] },
            TreeView::leaf("Section 2"@),
        ],
    }
}

impl Tree {
    /// The mathematical tree that this value stands for; the selection is
    /// carried beside it.
    pub open spec fn model(self) -> TreeView
        decreases self,
    {
        TreeView { root: self.root@, children: nodes_model(self.children@) }
    }

    /// A node with the given name, no subtrees, and nothing selected.
    pub fn new(root: &str) -> (t: Tree)
        ensures
            t@ == TreeView::leaf(root@),
            t.selected is None,
    {
        let t = Tree { children: Vec::new(), root: root.to_owned(), selected: None };
        proof {
            assert(nodes_model(t.children@) =~= Seq::<TreeView>::empty());
        }
        t
    }

    /// The demonstration table of contents: two sections, the first with
    /// one subsection.
    pub fn toc() -> (t: Tree)
        ensures
            t@ == toc_view(),
            t.selected is None,
    {
        let mut section_1 = Tree::new("Section 1");
        let section_1_1 = Tree::new("Section 1.1");
        let ghost v11 = section_1_1@;
        section_1.children = vec![section_1_1];
        proof {
            lemma_nodes_model(section_1.children@);
            assert(section_1@.children =~= seq![v11]);
        }
        let ghost v1 = section_1@;
        let section_2 = Tree::new("Section 2");
        let ghost v2 = section_2@;
        let mut tree = Tree::new("Table of Contents");
        tree.children = vec![section_1, section_2];
        proof {
            lemma_nodes_model(tree.children@);
            assert(tree@.children =~= seq![v1, v2]);
            assert(v1.children =~= seq![TreeView::leaf("Section 1.1"@)]);
            assert(v1 == TreeView {
                root: "Section 1"@,
                children: seq![TreeView::leaf("Section 1.1"@)],
            });
            assert(tree@.children =~= toc_view().children);
        }
        tree
    }
}

impl View for Tree {
    type V = TreeView;

    open spec fn view(&self) -> TreeView {
        (*self).model()
    }
}

impl Default for Tree {
    /// A bare root with the default name and nothing selected.
    fn default() -> (t: Tree)
        ensures
            t@ == TreeView::leaf("root"@),
            t.selected is None,
    {
        Tree::new("root")
    }
}

} // verus!
