use pocket::AppView;
use pocket::Command;
use pocket::Interface;
use pocket::text::str_eq;
use pocket::text::str_lt;
use pocket::view::about::About;
use pocket::view::about::Article;
use pocket::view::about::Articles;
use pocket::view::about::Tree;

#[test]
fn add_child_builds_the_example_tree() {
    let mut tree = Tree::new("Table of Contents", vec!["Section 1"]);
    tree.add_child("Section 1.1", "Section 1");
    tree.add_child("Section 2", "Table of Contents");
    assert_eq!(tree.root, "Table of Contents");
    assert_eq!(tree.children.len(), 2);
    assert_eq!(tree.children[0].root, "Section 1");
    assert_eq!(tree.children[0].children.len(), 1);
    assert_eq!(tree.children[0].children[0].root, "Section 1.1");
    assert_eq!(tree.children[1].root, "Section 2");
    assert!(tree.children[1].children.is_empty());
}

#[test]
fn add_child_grows_parent_by_one() {
    let mut tree = Tree::new("root", vec!["a", "b"]);
    assert_eq!(tree.children.len(), 2);
    tree.add_child("c", "root");
    assert_eq!(tree.children.len(), 3);
    tree.add_child("d", "a");
    assert_eq!(tree.children[0].children.len(), 1);
    tree.add_child("e", "a");
    assert_eq!(tree.children[0].children.len(), 2);
    assert_eq!(tree.children.len(), 3);
}

#[test]
fn add_child_with_unknown_parent_changes_nothing() {
    let mut tree = Tree::new("root", vec!["a", "b"]);
    tree.add_child("c", "nowhere");
    assert_eq!(tree.root, "root");
    assert_eq!(tree.children.len(), 2);
    assert_eq!(tree.children[0].root, "a");
    assert!(tree.children[0].children.is_empty());
    assert_eq!(tree.children[1].root, "b");
    assert!(tree.children[1].children.is_empty());
}

#[test]
fn add_child_prefers_first_match_in_preorder() {
    let mut tree = Tree::new("root", vec!["x", "x"]);
    tree.add_child("y", "x");
    assert_eq!(tree.children[0].children.len(), 1);
    assert_eq!(tree.children[0].children[0].root, "y");
    assert!(tree.children[1].children.is_empty());
}

#[test]
fn contains_name_finds_nested_nodes() {
    let mut tree = Tree::new("root", vec!["a"]);
    tree.add_child("b", "a");
    assert!(tree.contains_name("root"));
    assert!(tree.contains_name("a"));
    assert!(tree.contains_name("b"));
    assert!(!tree.contains_name("c"));
}

#[test]
fn select_takes_an_existing_name() {
    let tree = Tree::new("root", vec!["a"]);
    assert_eq!(tree.select("root", "a"), "a");
}

#[test]
fn select_keeps_selection_for_a_missing_name() {
    let tree = Tree::new("root", vec!["a"]);
    assert_eq!(tree.select("a", "zzz"), "a");
}

#[test]
fn articles_keep_title_order() {
    let mut articles = Articles::new();
    articles.insert(Article { title: "b".to_string(), parent: "r".to_string() });
    articles.insert(Article { title: "a".to_string(), parent: "r".to_string() });
    articles.insert(Article { title: "c".to_string(), parent: "b".to_string() });
    assert_eq!(articles.len(), 3);
    assert_eq!(articles.entry(0).title, "a");
    assert_eq!(articles.entry(1).title, "b");
    assert_eq!(articles.entry(2).title, "c");
}

#[test]
fn articles_replace_an_entry_with_the_same_title() {
    let mut articles = Articles::new();
    articles.insert(Article { title: "a".to_string(), parent: "r".to_string() });
    articles.insert(Article { title: "a".to_string(), parent: "s".to_string() });
    assert_eq!(articles.len(), 1);
    assert_eq!(articles.entry(0).parent, "s");
}

#[test]
fn articles_get_finds_by_title() {
    let mut articles = Articles::new();
    articles.insert(Article { title: "a".to_string(), parent: "r".to_string() });
    articles.insert(Article { title: "b".to_string(), parent: "a".to_string() });
    let found = articles.get("b").expect("article under title b");
    assert_eq!(found.parent, "a");
    assert!(articles.get("zzz").is_none());
}

#[test]
fn about_table_of_contents_reproduces_article_edges() {
    let about = About::default();
    assert_eq!(about.articles.len(), 2);
    assert_eq!(about.articles.entry(0).title, "Section 1");
    assert_eq!(about.articles.entry(0).parent, "Table of Contents");
    assert_eq!(about.articles.entry(1).title, "Section 1.1");
    assert_eq!(about.articles.entry(1).parent, "Section 1");
    let toc = &about.table_of_contents;
    assert_eq!(toc.root, "Table of Contents");
    assert_eq!(toc.children.len(), 1);
    assert_eq!(toc.children[0].root, "Section 1");
    assert_eq!(toc.children[0].children.len(), 1);
    assert_eq!(toc.children[0].children[0].root, "Section 1.1");
    assert_eq!(about.selected, "Table of Contents");
}

#[test]
fn about_selection_moves_only_to_present_names() {
    let mut about = About::default();
    about.apply_selection("Section 1.1");
    assert_eq!(about.selected, "Section 1.1");
    about.apply_selection("Nowhere");
    assert_eq!(about.selected, "Section 1.1");
}

#[test]
fn about_selected_article_follows_selection() {
    let mut about = About::default();
    assert!(about.selected_article().is_none());
    about.apply_selection("Section 1");
    let article = about.selected_article().expect("selected article");
    assert_eq!(article.parent, "Table of Contents");
}

#[test]
fn widget_toc_has_two_sections() {
    let tree = pocket::tree::Tree::toc();
    assert_eq!(tree.root, "Table of Contents");
    assert_eq!(tree.children.len(), 2);
    assert_eq!(tree.children[0].root, "Section 1");
    assert_eq!(tree.children[0].children.len(), 1);
    assert_eq!(tree.children[0].children[0].root, "Section 1.1");
    assert_eq!(tree.children[1].root, "Section 2");
    assert!(tree.children[1].children.is_empty());
    assert!(tree.selected.is_none());
}

#[test]
fn widget_tree_starts_as_a_leaf() {
    let tree = pocket::tree::Tree::new("root");
    assert_eq!(tree.root, "root");
    assert!(tree.children.is_empty());
    assert!(tree.selected.is_none());
}

#[test]
fn interface_starts_on_about() {
    let interface = Interface::new();
    assert_eq!(interface.state.selected_view, AppView::About);
    assert!(!interface.state.backend_panel.open);
    assert_eq!(interface.state.about.selected, "Table of Contents");
}

#[test]
fn reset_everything_restores_defaults() {
    let mut interface = Interface::new();
    interface.select_view(Some(AppView::Game));
    interface.state.backend_panel.open = true;
    interface.state.about.apply_selection("Section 1");
    interface.run_cmd(Command::ResetEverything);
    assert_eq!(interface.state.selected_view, AppView::About);
    assert!(!interface.state.backend_panel.open);
    assert_eq!(interface.state.about.selected, "Table of Contents");
}

#[test]
fn nothing_command_changes_nothing() {
    let mut interface = Interface::new();
    interface.select_view(Some(AppView::Game));
    interface.run_cmd(Command::Nothing);
    assert_eq!(interface.state.selected_view, AppView::Game);
}

#[test]
fn view_names_round_trip() {
    for view in AppView::all() {
        assert_eq!(AppView::from_name(&view.name()), Some(view));
    }
    assert_eq!(AppView::from_name("BackendPanel"), None);
    assert_eq!(AppView::from_name("zzz"), None);
}

#[test]
fn shown_views_follow_selection() {
    let mut interface = Interface::new();
    assert!(interface.view_is_shown(AppView::About, false));
    assert!(!interface.view_is_shown(AppView::Game, false));
    assert!(interface.view_is_shown(AppView::Game, true));
    interface.select_view(Some(AppView::Game));
    assert!(interface.view_is_shown(AppView::Game, false));
    assert!(!interface.view_is_shown(AppView::About, false));
}

#[test]
fn backend_panel_visibility_follows_its_flag() {
    let mut interface = Interface::new();
    assert!(!interface.backend_panel_is_open(false));
    assert!(interface.backend_panel_is_open(true));
    interface.state.backend_panel.open = true;
    assert!(interface.backend_panel_is_open(false));
}

#[test]
fn string_order_is_lexicographic() {
    assert!(str_lt("Section 1", "Section 1.1"));
    assert!(!str_lt("Section 1.1", "Section 1"));
    assert!(!str_lt("a", "a"));
    assert!(str_lt("", "a"));
    assert!(str_lt("Abc", "abc"));
    assert!(str_eq("abc", "abc"));
    assert!(!str_eq("abc", "abd"));
    assert!(!str_eq("ab", "abc"));
}
