use vstd::prelude::*;

use crate::text::lemma_lex_lt_irrefl;
use crate::text::lemma_lex_lt_prefix;
use crate::text::lemma_lex_lt_total;
use crate::text::lemma_lex_lt_trans;
use crate::text::lex_lt;
use crate::text::str_eq;
use crate::text::str_lt;
use crate::tree::TreeView;
use crate::tree::lemma_add_edges;
use crate::tree::lemma_first_with_is;
use crate::tree::lemma_add_unknown_parent;

verus! {

/// A table of contents: a named section with nested subsections.
pub struct Tree {
    pub root: String,
    pub children: Vec<Tree>,
}

/// The model of a sequence of subtrees.
pub open spec fn trees_model(cs: Seq<Tree>) -> Seq<TreeView>
    decreases cs,
{
    if cs.len() == 0 {
        Seq::empty()
    } else {
        seq![cs[0].model()] + trees_model(cs.subrange(1, cs.len() as int))
    }
}

/// The model of a sequence of subtrees is the sequence of their models.
pub proof fn lemma_trees_model(cs: Seq<Tree>)
    ensures
        trees_model(cs).len() == cs.len(),
        forall|i: int| 0 <= i < cs.len() ==> #[trigger] trees_model(cs)[i] == cs[i].model(),
    decreases cs,
{
    if cs.len() > 0 {
        let d = cs.subrange(1, cs.len() as int);
        lemma_trees_model(d);
        assert(forall|i: int| 0 <= i < d.len() ==> #[trigger] d[i] == cs[i + 1]);
    }
}

impl Tree {
    /// The mathematical tree that this value stands for.
    pub open spec fn model(self) -> TreeView
        decreases self,
    {
        TreeView { root: self.root@, children: trees_model(self.children@) }
    }

    /// Builds a node with the given name and one child leaf for each of
    /// the given child names.
    pub fn new(root: &str, children: Vec<&str>) -> (t: Tree)
        ensures
            t@.root == root@,
            t@.children.len() == children@.len(),
            forall|i: int|
                0 <= i < children@.len() ==> t@.children[i] == TreeView::leaf(
                    (#[trigger] children@[i])@,
                ),
    {
        let mut cs: Vec<Tree> = Vec::new();
        let n = children.len();
        let mut i: usize = 0;
        while i < n
            invariant
                n == children@.len(),
                i <= n,
                cs@.len() == i,
                forall|j: int|
                    0 <= j < i ==> (#[trigger] cs@[j]).model() == TreeView::leaf(children@[j]@),
            decreases n - i,
        {
            let leaf = Tree { root: children[i].to_owned(), children: Vec::new() };
            proof {
                assert(leaf.children@.len() == 0);
                assert(trees_model(leaf.children@) =~= Seq::<TreeView>::empty());
                assert(leaf.model() == TreeView::leaf(children@[i as int]@));
            }
            cs.push(leaf);
            i += 1;
        }
        let t = Tree { root: root.to_owned(), children: cs };
        proof {
            lemma_trees_model(t.children@);
        }
        t
    }

    /// Whether some node of the tree carries this name.
    pub fn contains_name(&self, name: &str) -> (r: bool)
        ensures
            r == self@.contains(name@),
        decreases *self,
    {
        if str_eq(self.root.as_str(), name) {
            return true;
        }
        let n = self.children.len();
        let mut i: usize = 0;
        while i < n
            invariant
                n == self.children@.len(),
                i <= n,
                self@.root != name@,
                forall|j: int|
                    0 <= j < i ==> !(#[trigger] self@.children[j]).contains(name@),
            decreases n - i,
        {
            proof {
                lemma_trees_model(self.children@);
            }
            if self.children[i].contains_name(name) {
                proof {
                    assert(self@.children[i as int].contains(name@));
                }
                return true;
            }
            i += 1;
        }
        proof {
            lemma_trees_model(self.children@);
            assert(forall|j: int|
                0 <= j < self@.children.len() ==> !(#[trigger] self@.children[j]).contains(name@));
        }
        false
    }

    /// Appends a new leaf under the first node (in pre-order) whose name
    /// equals `parent`; does nothing when no node carries that name.
    pub fn add_child(&mut self, child: &str, parent: &str)
        ensures
            final(self)@ == old(self)@.add(child@, parent@),
        decreases *old(self),
    {
        proof {
            lemma_trees_model(old(self).children@);
        }
        if str_eq(self.root.as_str(), parent) {
            let leaf = Tree { root: child.to_owned(), children: Vec::new() };
            proof {
                assert(trees_model(leaf.children@) =~= Seq::<TreeView>::empty());
                assert(leaf.model() == TreeView::leaf(child@));
            }
            self.children.push(leaf);
            proof {
                lemma_trees_model(self.children@);
                assert(self@.children =~= old(self)@.children.push(TreeView::leaf(child@)));
                assert(self@ == old(self)@.add(child@, parent@));
            }
            return;
        }
        let n = self.children.len();
        let mut i: usize = 0;
        while i < n
            invariant
                n == self.children@.len(),
                i <= n,
                *self == *old(self),
                self@.root != parent@,
                forall|j: int|
                    0 <= j < i ==> !(#[trigger] self@.children[j]).contains(parent@),
            decreases n - i,
        {
            proof {
                lemma_trees_model(self.children@);
            }
            if self.children[i].contains_name(parent) {
                proof {
                    lemma_first_with_is(old(self)@.children, parent@, i as int);
                }
                self.children[i].add_child(child, parent);
                proof {
                    lemma_trees_model(self.children@);
                    assert(self@.children =~= old(self)@.children.update(
                        i as int,
                        old(self)@.children[i as int].add(child@, parent@),
                    ));
                    assert(self@ == old(self)@.add(child@, parent@));
                }
                return;
            }
            i += 1;
        }
        proof {
            lemma_trees_model(self.children@);
            assert(forall|j: int|
                0 <= j < self@.children.len() ==> !(#[trigger] self@.children[j]).contains(
                    parent@,
                ));
            assert(!self@.contains(parent@));
            lemma_add_unknown_parent(self@, child@, parent@);
        }
    }

    /// The new "selected" name after a click on `clicked`: the clicked
    /// name when the tree carries it, the previous selection otherwise.
    pub fn select(&self, selected: &str, clicked: &str) -> (r: String)
        ensures
            r@ == if self@.contains(clicked@) {
                clicked@
            } else {
                selected@
            },
    {
        if self.contains_name(clicked) {
            clicked.to_owned()
        } else {
            selected.to_owned()
        }
    }
}

impl View for Tree {
    type V = TreeView;

    open spec fn view(&self) -> TreeView {
        (*self).model()
    }
}

impl Default for Tree {
    /// A bare root with the default name.
    fn default() -> (t: Tree)
        ensures
            t@.root == "Root"@,
            t@.children.len() == 0,
    {
        Tree::new("Root", Vec::new())
    }
}

/// The model of an article: its title and the title of the section it
/// belongs under.
pub struct ArticleView {
    pub title: Seq<char>,
    pub parent: Seq<char>,
}

/// An article of the about view. What the article renders to is owned by
/// the shell that draws it; the library keeps the title-keyed structure.
pub struct Article {
    pub title: String,
    pub parent: String,
}

impl View for Article {
    type V = ArticleView;

    open spec fn view(&self) -> ArticleView {
        ArticleView { title: self.title@, parent: self.parent@ }
    }
}

impl Default for Article {
    /// An article with empty title and parent.
    fn default() -> (a: Article)
        ensures
            a@.title.len() == 0,
            a@.parent.len() == 0,
    {
        Article { title: String::new(), parent: String::new() }
    }
}

/// Where a new entry lands in a title-sorted sequence: entries with
/// smaller titles keep their place, an entry carrying the same title is
/// replaced, and larger entries move one place up.
pub open spec fn sorted_insert(s: Seq<ArticleView>, a: ArticleView) -> Seq<ArticleView>
    decreases s.len(),
{
    if s.len() == 0 {
        seq![a]
    } else if a.title == s[0].title {
        seq![a] + s.drop_first()
    } else if lex_lt(a.title, s[0].title) {
        seq![a] + s
    } else {
        seq![s[0]] + sorted_insert(s.drop_first(), a)
    }
}

/// The first entry carrying this title, if any.
pub open spec fn find_title(s: Seq<ArticleView>, title: Seq<char>) -> Option<ArticleView>
    decreases s.len(),
{
    if s.len() == 0 {
        None
    } else if s[0].title == title {
        Some(s[0])
    } else {
        find_title(s.drop_first(), title)
    }
}

/// A sequence whose entry at `i` is the first one carrying the title is
/// found there.
proof fn lemma_find_title_at(s: Seq<ArticleView>, title: Seq<char>, i: int)
    requires
        0 <= i < s.len(),
        s[i].title == title,
        forall|j: int| 0 <= j < i ==> (#[trigger] s[j]).title != title,
    ensures
        find_title(s, title) == Some(s[i]),
    decreases s.len(),
{
    if i > 0 {
        lemma_find_title_at(s.drop_first(), title, i - 1);
        assert(forall|j: int| 0 <= j < s.drop_first().len() ==> #[trigger] s.drop_first()[j] == s[j
            + 1]);
    }
}

/// A title carried by no entry is not found.
proof fn lemma_find_title_none(s: Seq<ArticleView>, title: Seq<char>)
    requires
        forall|j: int| 0 <= j < s.len() ==> (#[trigger] s[j]).title != title,
    ensures
        find_title(s, title) is None,
    decreases s.len(),
{
    if s.len() > 0 {
        lemma_find_title_none(s.drop_first(), title);
    }
}

/// A title-keyed article mapping: its entries are kept sorted by title,
/// with no duplicate titles.
pub struct Articles {
    entries: Vec<Article>,
}

impl View for Articles {
    type V = Seq<ArticleView>;

    closed spec fn view(&self) -> Seq<ArticleView> {
        Seq::new(self.entries@.len(), |i: int| self.entries@[i]@)
    }
}

impl Articles {
    /// Titles strictly increase along the mapping: it is key-sorted and
    /// keys are unique.
    pub open spec fn wf(self) -> bool {
        forall|i: int, j: int|
            0 <= i < j < self@.len() ==> lex_lt(
                (#[trigger] self@[i]).title,
                (#[trigger] self@[j]).title,
            )
    }

    /// An empty mapping.
    pub fn new() -> (r: Articles)
        ensures
            r@ == Seq::<ArticleView>::empty(),
            r.wf(),
    {
        let r = Articles { entries: Vec::new() };
        proof {
            assert(r@ =~= Seq::<ArticleView>::empty());
        }
        r
    }

    /// How many articles the mapping holds.
    pub fn len(&self) -> (n: usize)
        ensures
            n == self@.len(),
    {
        self.entries.len()
    }

    /// The entry at a position of the key-sorted order.
    pub fn entry(&self, i: usize) -> (a: &Article)
        requires
            i < self@.len(),
        ensures
            a@ == self@[i as int],
    {
        &self.entries[i]
    }

    /// The position where a title belongs: every entry before it has a
    /// smaller title, and the entry at it (if any) does not.
    fn insert_pos(&self, title: &str) -> (i: usize)
        ensures
            i <= self@.len(),
            forall|j: int| 0 <= j < i ==> lex_lt((#[trigger] self@[j]).title, title@),
            i < self@.len() ==> !lex_lt(self@[i as int].title, title@),
    {
        let n = self.entries.len();
        let mut i: usize = 0;
        while i < n
            invariant
                n == self@.len(),
                i <= n,
                forall|j: int| 0 <= j < i ==> lex_lt((#[trigger] self@[j]).title, title@),
            decreases n - i,
        {
            if !str_lt(self.entries[i].title.as_str(), title) {
                return i;
            }
            i += 1;
        }
        i
    }

    /// Inserts an article under its title, as inserting into a key-sorted
    /// mapping does: an entry with the same title is replaced, otherwise
    /// the article takes its place in the title order.
    pub fn insert(&mut self, article: Article)
        requires
            old(self).wf(),
        ensures
            final(self)@ == sorted_insert(old(self)@, article@),
            final(self).wf(),
    {
        let i = self.insert_pos(article.title.as_str());
        let n = self.entries.len();
        proof {
            lemma_sorted_insert_at(self@, article@, i as int);
        }
        if i < n && str_eq(self.entries[i].title.as_str(), article.title.as_str()) {
            self.entries[i] = article;
            proof {
                assert(self@ =~= old(self)@.update(i as int, self@[i as int]));
                assert(self@ == sorted_insert(old(self)@, self@[i as int]));
                lemma_wf_update(old(self)@, self@[i as int], i as int);
            }
        } else {
            proof {
                if i < n && !(old(self)@[i as int].title == article@.title) {
                    if !lex_lt(article@.title, old(self)@[i as int].title) {
                        lemma_lex_lt_total(article@.title, old(self)@[i as int].title);
                        assert(false);
                    }
                }
            }
            self.entries.insert(i, article);
            proof {
                assert(self@ =~= old(self)@.insert(i as int, self@[i as int]));
                assert(self@ == sorted_insert(old(self)@, self@[i as int]));
                lemma_wf_insert(old(self)@, self@[i as int], i as int);
            }
        }
    }

    /// Looks a title up in the mapping.
    pub fn get(&self, title: &str) -> (r: Option<&Article>)
        ensures
            (match r {
                Some(a) => find_title(self@, title@) == Some(a@),
                None => find_title(self@, title@) is None,
            }),
    {
        let n = self.entries.len();
        let mut i: usize = 0;
        while i < n
            invariant
                n == self@.len(),
                i <= n,
                forall|j: int| 0 <= j < i ==> (#[trigger] self@[j]).title != title@,
            decreases n - i,
        {
            if str_eq(self.entries[i].title.as_str(), title) {
                proof {
                    lemma_find_title_at(self@, title@, i as int);
                }
                return Some(&self.entries[i]);
            }
            i += 1;
        }
        proof {
            lemma_find_title_none(self@, title@);
        }
        None
    }
}

/// `sorted_insert` on a sequence whose proper place for the new title is
/// `i` either replaces the entry there or inserts before it.
proof fn lemma_sorted_insert_at(s: Seq<ArticleView>, a: ArticleView, i: int)
    requires
        0 <= i <= s.len(),
        forall|j: int| 0 <= j < i ==> lex_lt((#[trigger] s[j]).title, a.title),
        i < s.len() ==> !lex_lt(s[i].title, a.title),
    ensures
        i < s.len() && s[i].title == a.title ==> sorted_insert(s, a) == s.update(i, a),
        !(i < s.len() && s[i].title == a.title) ==> sorted_insert(s, a) == s.insert(i, a),
    decreases s.len(),
{
    if i == 0 {
        if s.len() == 0 {
            assert(sorted_insert(s, a) =~= s.insert(0, a));
        } else if s[0].title == a.title {
            assert(seq![a] + s.drop_first() =~= s.update(0, a));
        } else {
            if !lex_lt(a.title, s[0].title) {
                lemma_lex_lt_total(a.title, s[0].title);
                assert(false);
            }
            assert(seq![a] + s =~= s.insert(0, a));
        }
    } else {
        assert(lex_lt(s[0].title, a.title));
        if a.title == s[0].title {
            lemma_lex_lt_irrefl(a.title);
            assert(false);
        }
        if lex_lt(a.title, s[0].title) {
            lemma_lex_lt_trans(s[0].title, a.title, s[0].title);
            lemma_lex_lt_irrefl(s[0].title);
            assert(false);
        }
        let d = s.drop_first();
        assert(forall|j: int| 0 <= j < d.len() ==> #[trigger] d[j] == s[j + 1]);
        lemma_sorted_insert_at(d, a, i - 1);
        if i < s.len() && s[i].title == a.title {
            assert(sorted_insert(s, a) == seq![s[0]] + d.update(i - 1, a));
            assert(seq![s[0]] + d.update(i - 1, a) =~= s.update(i, a));
        } else {
            assert(sorted_insert(s, a) == seq![s[0]] + d.insert(i - 1, a));
            d.insert_ensures(i - 1, a);
            s.insert_ensures(i, a);
            assert(seq![s[0]] + d.insert(i - 1, a) =~= s.insert(i, a));
        }
    }
}

/// Replacing the entry at `i` by one carrying the same title keeps the
/// mapping key-sorted.
proof fn lemma_wf_update(s: Seq<ArticleView>, a: ArticleView, i: int)
    requires
        0 <= i < s.len(),
        s[i].title == a.title,
        forall|x: int, y: int|
            0 <= x < y < s.len() ==> lex_lt((#[trigger] s[x]).title, (#[trigger] s[y]).title),
    ensures
        forall|x: int, y: int|
            0 <= x < y < s.len() ==> lex_lt(
                (#[trigger] s.update(i, a)[x]).title,
                (#[trigger] s.update(i, a)[y]).title,
            ),
{
}

/// Inserting at the proper place for the new title keeps the mapping
/// key-sorted.
proof fn lemma_wf_insert(s: Seq<ArticleView>, a: ArticleView, i: int)
    requires
        0 <= i <= s.len(),
        forall|j: int| 0 <= j < i ==> lex_lt((#[trigger] s[j]).title, a.title),
        i < s.len() ==> lex_lt(a.title, s[i].title),
        forall|x: int, y: int|
            0 <= x < y < s.len() ==> lex_lt((#[trigger] s[x]).title, (#[trigger] s[y]).title),
    ensures
        forall|x: int, y: int|
            0 <= x < y < s.insert(i, a).len() ==> lex_lt(
                (#[trigger] s.insert(i, a)[x]).title,
                (#[trigger] s.insert(i, a)[y]).title,
            ),
{
    s.insert_ensures(i, a);
    let r = s.insert(i, a);
    assert forall|x: int, y: int| 0 <= x < y < r.len() implies lex_lt(
        (#[trigger] r[x]).title,
        (#[trigger] r[y]).title,
    ) by {
        if x == i && y > i {
            // r[x] is a and r[y] == s[y - 1] with y - 1 >= i
            if y - 1 > i {
                lemma_lex_lt_trans(a.title, s[i].title, s[y - 1].title);
            }
        }
        // In every other case both entries come from s, or r[y] is a and
        // r[x] == s[x] with x < i; sortedness or the hypotheses close them.
    }
}

/// The tree grown from a bare root by inserting each article in turn
/// under its declared parent.
pub open spec fn toc_from(base: TreeView, arts: Seq<ArticleView>) -> TreeView
    decreases arts.len(),
{
    if arts.len() == 0 {
        base
    } else {
        toc_from(base.add(arts[0].title, arts[0].parent), arts.drop_first())
    }
}

/// Growing the tree by one more article inserts that article last.
pub proof fn lemma_toc_from_push(base: TreeView, arts: Seq<ArticleView>, a: ArticleView)
    ensures
        toc_from(base, arts.push(a)) == toc_from(base, arts).add(a.title, a.parent),
    decreases arts.len(),
{
    reveal_with_fuel(toc_from, 2);
    if arts.len() == 0 {
        assert(arts.push(a)[0] == a);
        assert(arts.push(a).drop_first() =~= Seq::<ArticleView>::empty());
    } else {
        lemma_toc_from_push(base.add(arts[0].title, arts[0].parent), arts.drop_first(), a);
        assert(arts.push(a)[0] == arts[0]);
        assert(arts.push(a).drop_first() =~= arts.drop_first().push(a));
    }
}

/// The edges of the grown tree are those of the base together with one
/// edge per article whose parent was present when it was inserted.
proof fn lemma_toc_edges_rec(base: TreeView, arts: Seq<ArticleView>)
    requires
        forall|i: int|
            0 <= i < arts.len() ==> #[trigger] toc_from(base, arts.take(i)).contains(
                arts[i].parent,
            ),
    ensures
        forall|p: Seq<char>, c: Seq<char>|
            #[trigger] toc_from(base, arts).has_edge(p, c) <==> (base.has_edge(p, c) || exists|
                i: int,
            |
                0 <= i < arts.len() && (#[trigger] arts[i]).parent == p && arts[i].title == c),
    decreases arts.len(),
{
    if arts.len() == 0 {
        assert(arts.take(0) =~= arts);
    } else {
        let front = arts.drop_last();
        let last = arts.last();
        assert forall|i: int| 0 <= i < front.len() implies #[trigger] toc_from(
            base,
            front.take(i),
        ).contains(front[i].parent) by {
            assert(front.take(i) =~= arts.take(i));
            assert(front[i] == arts[i]);
        }
        lemma_toc_edges_rec(base, front);
        let t_front = toc_from(base, front);
        assert(arts =~= front.push(last));
        lemma_toc_from_push(base, front, last);
        assert(toc_from(base, arts) == t_front.add(last.title, last.parent));
        assert(arts.take(arts.len() - 1) =~= front);
        assert(t_front.contains(last.parent));
        assert forall|p: Seq<char>, c: Seq<char>| #[trigger] toc_from(base, arts).has_edge(p, c)
            <==> (base.has_edge(p, c) || exists|i: int|
            0 <= i < arts.len() && (#[trigger] arts[i]).parent == p && arts[i].title == c) by {
            lemma_add_edges(t_front, last.title, last.parent, p, c);
            if toc_from(base, arts).has_edge(p, c) {
                if t_front.has_edge(p, c) {
                    if !base.has_edge(p, c) {
                        let i = choose|i: int|
                            0 <= i < front.len() && (#[trigger] front[i]).parent == p
                                && front[i].title == c;
                        assert(arts[i].parent == p && arts[i].title == c);
                    }
                } else {
                    assert(p == last.parent && c == last.title);
                    assert(arts[arts.len() - 1].parent == p && arts[arts.len() - 1].title == c);
                }
            }
            if base.has_edge(p, c) {
                assert(t_front.has_edge(p, c));
            }
            if exists|i: int|
                0 <= i < arts.len() && (#[trigger] arts[i]).parent == p && arts[i].title == c {
                let i = choose|i: int|
                    0 <= i < arts.len() && (#[trigger] arts[i]).parent == p && arts[i].title == c;
                if i < arts.len() - 1 {
                    assert(front[i].parent == p && front[i].title == c);
                    assert(t_front.has_edge(p, c));
                } else {
                    assert(p == last.parent && c == last.title);
                }
                assert(toc_from(base, arts).has_edge(p, c));
            }
        }
    }
}

/// Law: building a table of contents from a key-sorted article mapping
/// reproduces exactly the parent/child edges that the articles declare,
/// provided each article's parent is already in the tree when the article
/// is inserted.
pub proof fn lemma_toc_edges(base: TreeView, arts: Seq<ArticleView>)
    requires
        base.children.len() == 0,
        forall|i: int|
            0 <= i < arts.len() ==> #[trigger] toc_from(base, arts.take(i)).contains(
                arts[i].parent,
            ),
    ensures
        forall|p: Seq<char>, c: Seq<char>|
            #[trigger] toc_from(base, arts).has_edge(p, c) <==> exists|i: int|
                0 <= i < arts.len() && (#[trigger] arts[i]).parent == p && arts[i].title == c,
{
    lemma_toc_edges_rec(base, arts);
    assert(forall|p: Seq<char>, c: Seq<char>| !(#[trigger] base.has_edge(p, c)));
}

/// The model of the about view.
pub struct AboutView {
    pub table_of_contents: TreeView,
    pub selected: Seq<char>,
    pub articles: Seq<ArticleView>,
}

/// The articles the about view starts with, in title order.
pub open spec fn default_articles() -> Seq<ArticleView> {
    seq![
        ArticleView { title: "Section 1"@, parent: "Table of Contents"@ },
        ArticleView { title: "Section 1.1"@, parent: "Section 1"@ },
    ]
}

/// The model of the freshly built about view.
pub open spec fn default_about_view() -> AboutView {
    AboutView {
        table_of_contents: toc_from(TreeView::leaf("Table of Contents"@), default_articles()),
        selected: "Table of Contents"@,
        articles: default_articles(),
    }
}

/// The about view: a table of contents on the side, a selected section,
/// and the title-keyed articles shown in the content area.
pub struct About {
    pub table_of_contents: Tree,
    pub selected: String,
    pub articles: Articles,
}

impl View for About {
    type V = AboutView;

    open spec fn view(&self) -> AboutView {
        AboutView {
            table_of_contents: self.table_of_contents@,
            selected: self.selected@,
            articles: self.articles@,
        }
    }
}

impl About {
    /// The article mapping is key-sorted.
    pub open spec fn wf(self) -> bool {
        self.articles.wf()
    }

    /// An empty about view: a bare table of contents and no articles.
    fn new() -> (r: About)
        ensures
            r@.articles == Seq::<ArticleView>::empty(),
            r@.table_of_contents == TreeView::leaf("Table of Contents"@),
            r@.selected.len() == 0,
            r.wf(),
    {
        let r = About {
            articles: Articles::new(),
            table_of_contents: Tree::new("Table of Contents", Vec::new()),
            selected: String::new(),
        };
        proof {
            assert(r@.table_of_contents.children =~= Seq::<TreeView>::empty());
            assert(r@.table_of_contents == TreeView::leaf("Table of Contents"@));
        }
        r
    }

    /// The articles the view starts with.
    pub fn articles() -> (r: Articles)
        ensures
            r@ == default_articles(),
            r.wf(),
    {
        let mut articles = Articles::new();
        let a1 = Article {
            title: "Section 1".to_owned(),
            parent: "Table of Contents".to_owned(),
        };
        let a2 = Article { title: "Section 1.1".to_owned(), parent: "Section 1".to_owned() };
        proof {
            reveal_strlit("Section 1");
            reveal_strlit("Section 1.1");
            lemma_lex_lt_prefix("Section 1"@, "Section 1.1"@);
        }
        let ghost v1 = a1@;
        let ghost v2 = a2@;
        articles.insert(a1);
        proof {
            assert(articles@ =~= seq![v1]);
        }
        articles.insert(a2);
        proof {
            assert(v2.title != v1.title);
            if lex_lt(v2.title, v1.title) {
                lemma_lex_lt_trans(v1.title, v2.title, v1.title);
                lemma_lex_lt_irrefl(v1.title);
            }
            assert(seq![v1].drop_first() =~= Seq::<ArticleView>::empty());
            assert(sorted_insert(seq![v1], v2) == seq![v1] + sorted_insert(
                Seq::<ArticleView>::empty(),
                v2,
            ));
            assert(articles@ =~= default_articles());
        }
        articles
    }

    /// Replays the parent/child edges declared by the articles, in title
    /// order, into a tree rooted at "Table of Contents".
    pub fn table_of_contents(&self) -> (toc: Tree)
        ensures
            toc@ == toc_from(TreeView::leaf("Table of Contents"@), self.articles@),
    {
        let mut toc = Tree::new("Table of Contents", Vec::new());
        proof {
            assert(toc@.children =~= Seq::<TreeView>::empty());
            assert(toc@ == TreeView::leaf("Table of Contents"@));
            assert(self.articles@.take(0) =~= Seq::<ArticleView>::empty());
        }
        let n = self.articles.len();
        let mut i: usize = 0;
        while i < n
            invariant
                n == self.articles@.len(),
                i <= n,
                toc@ == toc_from(TreeView::leaf("Table of Contents"@), self.articles@.take(i as int)),
            decreases n - i,
        {
            let article = self.articles.entry(i);
            toc.add_child(article.title.as_str(), article.parent.as_str());
            proof {
                lemma_toc_from_push(
                    TreeView::leaf("Table of Contents"@),
                    self.articles@.take(i as int),
                    self.articles@[i as int],
                );
                assert(self.articles@.take(i + 1) =~= self.articles@.take(i as int).push(
                    self.articles@[i as int],
                ));
            }
            i += 1;
        }
        proof {
            assert(self.articles@.take(n as int) =~= self.articles@);
        }
        toc
    }

    /// One step of the view's update: a click on a name in the table of
    /// contents moves the selection to it when the tree carries the name,
    /// and leaves the selection alone otherwise.
    pub fn apply_selection(&mut self, clicked: &str)
        ensures
            final(self).selected@ == if old(self).table_of_contents@.contains(clicked@) {
                clicked@
            } else {
                old(self).selected@
            },
            final(self).table_of_contents == old(self).table_of_contents,
            final(self).articles == old(self).articles,
    {
        let new_selected = self.table_of_contents.select(self.selected.as_str(), clicked);
        self.selected = new_selected;
    }

    /// The article shown in the content area: the one whose title is the
    /// current selection, if the mapping holds it.
    pub fn selected_article(&self) -> (r: Option<&Article>)
        ensures
            (match r {
                Some(a) => find_title(self@.articles, self@.selected) == Some(a@),
                None => find_title(self@.articles, self@.selected) is None,
            }),
    {
        self.articles.get(self.selected.as_str())
    }
}

impl Default for About {
    /// The about view as the application starts it: the default articles,
    /// their table of contents, and "Table of Contents" selected.
    fn default() -> (r: About)
        ensures
            r@ == default_about_view(),
            r.wf(),
    {
        let mut about = About::new();
        about.articles = About::articles();
        about.table_of_contents = about.table_of_contents();
        about.selected = "Table of Contents".to_owned();
        about
    }
}

} // verus!
