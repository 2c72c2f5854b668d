use sauron_core::attr_diff::{diff_attributes, merge_values};
use sauron_core::builders::{attr, classes, empty_attr, inner_html};
use sauron_core::diff::{diff, diff_node, Patch};
use sauron_core::index::{assign_indices, child_indices, node_count, IndexedTree};
use sauron_core::lis::longest_increasing;
use sauron_core::node::{copy_node, Attribute, AttributeValue, Node};
use sauron_core::reconcile::match_children;

fn el(tag: &str, attrs: Vec<Attribute>, children: Vec<Node>) -> Node {
    Node::Element { tag: tag.to_string(), namespace: None, key: None, attrs, children }
}

fn keyed(tag: &str, key: &str, children: Vec<Node>) -> Node {
    Node::Element {
        tag: tag.to_string(),
        namespace: None,
        key: Some(key.to_string()),
        attrs: vec![],
        children,
    }
}

fn text(s: &str) -> Node {
    Node::Text(s.to_string())
}

fn article(k: &str, body: &str) -> Node {
    keyed("article", k, vec![text(body)])
}

fn page(items: Vec<Node>) -> Node {
    el("main", vec![classes(&["container"])], vec![el("section", vec![classes(&["todo"])], items)])
}

#[test]
fn counts_every_node() {
    let t = page(vec![article("1", "item1"), article("2", "item2")]);
    assert_eq!(node_count(&t), 6);
    assert_eq!(node_count(&text("x")), 1);
}

#[test]
fn child_indices_follow_subtrees() {
    let items = vec![article("1", "item1"), article("2", "item2"), text("end")];
    assert_eq!(child_indices(&items, 1), vec![2, 4, 6]);
    assert_eq!(child_indices(&vec![], 7), Vec::<usize>::new());
}

#[test]
fn identical_tree_gives_no_patch() {
    let t = page(vec![article("1", "item1"), article("2", "item2")]);
    let u = copy_node(&t);
    assert_eq!(diff(&t, &u), vec![]);
}

#[test]
fn remove_first_keyed_child() {
    let old = page(vec![article("1", "item1"), article("2", "item2")]);
    let new = page(vec![article("2", "item2")]);
    let patches = diff(&old, &new);
    assert_eq!(patches, vec![Patch::RemoveChildren { parent: 1, children: vec![2] }]);
}

#[test]
fn remove_key_and_change_text() {
    let old = page(vec![article("1", "item1"), article("2", "item2"), article("3", "item3")]);
    let new = page(vec![article("2", "item2"), article("3", "item3 changed")]);
    let patches = diff(&old, &new);
    assert_eq!(patches.len(), 2);
    assert!(patches.contains(&Patch::SetText { index: 7, text: "item3 changed".to_string() }));
    assert!(patches.contains(&Patch::RemoveChildren { parent: 1, children: vec![2] }));
}

#[test]
fn footer_beside_keyed_list() {
    let list = |third: &str| {
        el(
            "main",
            vec![],
            vec![
                el("section", vec![], vec![article("1", "item1"), article("2", "item2"), article("3", third)]),
                el("footer", vec![], vec![text("footer")]),
            ],
        )
    };
    let old = list("item3");
    let mut new = list("item3");
    if let Node::Element { children, .. } = &mut new {
        children[1] = el("footer", vec![], vec![text("changed footer")]);
    }
    // main 0, section 1, articles 2..7, footer 8, its text 9
    assert_eq!(diff(&old, &new), vec![Patch::SetText { index: 9, text: "changed footer".to_string() }]);
}

#[test]
fn changed_tag_is_replaced() {
    let old = el("div", vec![], vec![text("a")]);
    let new = el("span", vec![], vec![text("a")]);
    let patches = diff(&old, &new);
    assert_eq!(patches, vec![Patch::Replace { index: 0, node: copy_node(&new) }]);
}

#[test]
fn text_against_element_is_replaced() {
    let old = text("a");
    let new = el("p", vec![], vec![]);
    assert_eq!(diff(&old, &new), vec![Patch::Replace { index: 0, node: copy_node(&new) }]);
}

#[test]
fn changed_text_sets_text() {
    assert_eq!(diff(&text("a"), &text("b")), vec![Patch::SetText { index: 0, text: "b".to_string() }]);
    assert_eq!(diff(&text("a"), &text("a")), vec![]);
    assert_eq!(
        diff(&Node::Comment("a".to_string()), &Node::Comment("c".to_string())),
        vec![Patch::SetText { index: 0, text: "c".to_string() }]
    );
}

#[test]
fn sub_tree_patches_use_old_indices() {
    let old = el("ul", vec![], vec![el("li", vec![], vec![text("a")]), el("li", vec![], vec![text("b")])]);
    let new = el("ul", vec![], vec![el("li", vec![], vec![text("a")]), el("li", vec![], vec![text("c")])]);
    assert_eq!(diff_node(&old, &new, 10), vec![Patch::SetText { index: 14, text: "c".to_string() }]);
}

#[test]
fn positional_append_and_remove() {
    let old = el("ul", vec![], vec![text("a")]);
    let new = el("ul", vec![], vec![text("a"), text("b"), text("c")]);
    assert_eq!(
        diff(&old, &new),
        vec![Patch::AppendChildren { parent: 0, children: vec![text("b"), text("c")] }]
    );
    assert_eq!(diff(&new, &old), vec![Patch::RemoveChildren { parent: 0, children: vec![2, 3] }]);
}

#[test]
fn keyed_insert_goes_before_next_match() {
    let old = el("ul", vec![], vec![article("1", "a"), article("3", "c")]);
    let new = el("ul", vec![], vec![article("1", "a"), article("2", "b"), article("3", "c")]);
    assert_eq!(
        diff(&old, &new),
        vec![Patch::InsertChildrenBefore { before: 3, children: vec![article("2", "b")] }]
    );
}

#[test]
fn keyed_reorder_only_moves() {
    // old indices: ul 0, articles at 1, 3, 5, 7
    let old = el("ul", vec![], vec![article("1", "a"), article("2", "b"), article("3", "c"), article("4", "d")]);
    let new = el("ul", vec![], vec![article("4", "d"), article("1", "a"), article("2", "b"), article("3", "c")]);
    let patches = diff(&old, &new);
    assert_eq!(patches, vec![Patch::MoveChildrenBefore { parent: 0, child: 7, before: Some(1) }]);
}

#[test]
fn keyed_reverse_moves_all_but_one() {
    let old = el("ul", vec![], vec![article("1", "a"), article("2", "b"), article("3", "c")]);
    let new = el("ul", vec![], vec![article("3", "c"), article("2", "b"), article("1", "a")]);
    let patches = diff(&old, &new);
    assert_eq!(patches.len(), 2);
    for p in &patches {
        assert!(matches!(p, Patch::MoveChildrenBefore { .. }));
    }
}

#[test]
fn duplicate_keys_first_match_wins() {
    let old = vec![article("1", "a"), article("1", "b")];
    let new = vec![article("1", "a"), article("1", "b")];
    assert_eq!(match_children(&old, &new), vec![Some(0), None]);
}

#[test]
fn unkeyed_matched_by_rank_among_unkeyed() {
    let old = vec![text("x"), article("1", "a"), text("y")];
    let new = vec![article("1", "a"), text("x"), text("y"), text("z")];
    assert_eq!(match_children(&old, &new), vec![Some(1), Some(0), Some(2), None]);
}

#[test]
fn lis_finds_a_longest_run() {
    let keep = longest_increasing(&vec![3, 0, 1, 2]);
    assert_eq!(keep, vec![1, 2, 3]);
    assert_eq!(longest_increasing(&vec![]), Vec::<usize>::new());
    assert_eq!(longest_increasing(&vec![2, 1, 0]).len(), 1);
}

#[test]
fn side_effecting_attribute_reapplied() {
    let old = el("div", vec![inner_html("<b>x</b>")], vec![]);
    let new = el("div", vec![inner_html("<b>x</b>")], vec![]);
    let patches = diff(&old, &new);
    assert_eq!(patches.len(), 1);
    match &patches[0] {
        Patch::AddAttributes { index, attrs } => {
            assert_eq!(*index, 0);
            assert_eq!(attrs.len(), 1);
            assert_eq!(attrs[0].name, "inner_html");
        },
        other => panic!("unexpected patch {:?}", other),
    }
}

#[test]
fn attribute_changes_and_removals() {
    let old = vec![attr("title", "a"), attr("id", "x"), attr("lang", "en")];
    let new = vec![attr("title", "b"), attr("id", "x"), attr("alt", "pic")];
    let (add, rem) = diff_attributes(&old, &new);
    assert_eq!(add, vec![attr("title", "b"), attr("alt", "pic")]);
    assert_eq!(rem, vec!["lang".to_string()]);
}

#[test]
fn repeated_names_merge_before_compare() {
    let old = vec![classes(&["a"]), classes(&["b"])];
    let new = vec![classes(&["a", "b"]), empty_attr()];
    let merged = merge_values(&new, &"class".to_string());
    assert_eq!(merged, vec![AttributeValue::Plain("a b".to_string())]);
    let (add, rem) = diff_attributes(&old, &new);
    assert_eq!(add, vec![]);
    assert_eq!(rem, Vec::<String>::new());
}

#[test]
fn empty_marker_counts_as_absent() {
    let old = vec![attr("checked", "checked")];
    let new = vec![empty_attr()];
    let (add, rem) = diff_attributes(&old, &new);
    assert_eq!(add, vec![]);
    assert_eq!(rem, vec!["checked".to_string()]);
}

#[test]
fn assign_indices_preorder() {
    let t = page(vec![article("1", "item1"), article("2", "item2")]);
    let leaf = |i: usize| IndexedTree { index: i, children: vec![] };
    let expected = IndexedTree {
        index: 0,
        children: vec![IndexedTree {
            index: 1,
            children: vec![
                IndexedTree { index: 2, children: vec![leaf(3)] },
                IndexedTree { index: 4, children: vec![leaf(5)] },
            ],
        }],
    };
    assert_eq!(assign_indices(&t, 0), expected);
    assert_eq!(assign_indices(&text("x"), 9), leaf(9));
}

#[test]
fn removal_keeps_surviving_indices() {
    let old = el("ul", vec![], vec![article("1", "a"), article("2", "b"), article("3", "c"), article("4", "d")]);
    let new = el("ul", vec![], vec![article("2", "b"), article("4", "d")]);
    let patches = diff(&old, &new);
    assert_eq!(patches, vec![Patch::RemoveChildren { parent: 0, children: vec![1, 5] }]);
}

#[test]
fn deep_change_is_never_silent() {
    let old = el("div", vec![], vec![el("p", vec![attr("id", "a")], vec![el("b", vec![], vec![text("x")])])]);
    let new = el("div", vec![], vec![el("p", vec![attr("id", "a")], vec![el("b", vec![], vec![text("y")])])]);
    // div 0, p 1, b 2, text 3
    assert_eq!(diff(&old, &new), vec![Patch::SetText { index: 3, text: "y".to_string() }]);
}

#[test]
fn changed_key_of_unkeyed_sibling_is_noticed() {
    let old = el("ul", vec![], vec![article("1", "a")]);
    let new = el("ul", vec![], vec![article("2", "a")]);
    let patches = diff(&old, &new);
    assert_eq!(
        patches,
        vec![
            Patch::RemoveChildren { parent: 0, children: vec![1] },
            Patch::AppendChildren { parent: 0, children: vec![article("2", "a")] },
        ]
    );
}

#[test]
fn keyed_move_to_end_has_no_successor() {
    let old = el("ul", vec![], vec![article("1", "a"), article("2", "b"), article("3", "c")]);
    let new = el("ul", vec![], vec![article("2", "b"), article("3", "c"), article("1", "a")]);
    assert_eq!(diff(&old, &new), vec![Patch::MoveChildrenBefore { parent: 0, child: 1, before: None }]);
}

#[test]
fn attribute_patches_come_first() {
    let old = el("div", vec![attr("id", "a"), attr("lang", "en")], vec![text("x")]);
    let new = el("div", vec![attr("id", "b")], vec![text("y")]);
    assert_eq!(
        diff(&old, &new),
        vec![
            Patch::AddAttributes { index: 0, attrs: vec![attr("id", "b")] },
            Patch::RemoveAttributes { index: 0, names: vec!["lang".to_string()] },
            Patch::SetText { index: 1, text: "y".to_string() },
        ]
    );
}

#[test]
fn style_fragments_merge_into_one_style() {
    let split = vec![
        sauron_core::builders::style("display", "flex"),
        sauron_core::builders::style("flex-direction", "row"),
    ];
    let joined = vec![sauron_core::builders::styles(&[("display", "flex"), ("flex-direction", "row")])];
    assert_eq!(merge_values(&split, &"style".to_string()), merge_values(&joined, &"style".to_string()));
    let (add, rem) = diff_attributes(&split, &joined);
    assert_eq!(add, vec![]);
    assert_eq!(rem, Vec::<String>::new());
    let old = el("div", split, vec![]);
    let new = el("div", joined, vec![]);
    assert_eq!(diff(&old, &new), vec![]);
}

#[test]
fn changed_style_declaration_reapplies_whole_style() {
    let old = vec![sauron_core::builders::style("display", "flex")];
    let new = vec![sauron_core::builders::styles(&[("display", "block")])];
    let (add, _) = diff_attributes(&old, &new);
    assert_eq!(add, vec![sauron_core::builders::style("display", "block")]);
}

#[test]
fn checked_toggle_is_one_attribute_patch() {
    let on = el("input", vec![sauron_core::builders::checked(true)], vec![]);
    let off = el("input", vec![sauron_core::builders::checked(false)], vec![]);
    assert_eq!(diff(&on, &off), vec![Patch::RemoveAttributes { index: 0, names: vec!["checked".to_string()] }]);
    assert_eq!(
        diff(&off, &on),
        vec![Patch::AddAttributes { index: 0, attrs: vec![attr("checked", "checked")] }]
    );
}

#[test]
fn class_list_compared_space_joined() {
    let one = vec![classes(&["a b"])];
    let two = vec![classes(&["a", "b"])];
    let (add, rem) = diff_attributes(&one, &two);
    assert_eq!(add, vec![]);
    assert_eq!(rem, Vec::<String>::new());
    let (add, _) = diff_attributes(&one, &vec![classes(&["a", "c"])]);
    assert_eq!(add, vec![classes(&["a c"])]);
}
