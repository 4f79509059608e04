use inclusion_tree::directive::{DirectiveEvent, MarkerError};
use inclusion_tree::flags::{Flag, FlagSet};
use inclusion_tree::trace::build_tree;
use inclusion_tree::tree::{InclusionTree, ROOT_LABEL};
use ptree::item::StringItem;

fn strings(items: &[&str]) -> Vec<String> {
    items.iter().map(|s| s.to_string()).collect()
}

fn event(line_number: usize, path: &str, flags: &[Flag]) -> DirectiveEvent {
    let mut set = FlagSet::new();
    for flag in flags {
        set.insert(*flag);
    }
    DirectiveEvent { line_number, path: path.to_string(), flags: set }
}

/// The tree below `place` as nested text: `label(child, child, ..)`.
fn shape(tree: &InclusionTree, place: usize) -> String {
    let node = tree.node(place);
    let mut out = node.label().to_string();
    if !node.children().is_empty() {
        let inner: Vec<String> = node.children().iter().map(|c| shape(tree, *c)).collect();
        out.push('(');
        out.push_str(&inner.join(", "));
        out.push(')');
    }
    out
}

fn item_shape(item: &StringItem) -> String {
    let mut out = item.text.clone();
    if !item.children.is_empty() {
        let inner: Vec<String> = item.children.iter().map(item_shape).collect();
        out.push('(');
        out.push_str(&inner.join(", "));
        out.push(')');
    }
    out
}

#[test]
fn new_tree_is_the_open_root() {
    let tree = InclusionTree::new();
    assert_eq!(tree.len(), 1);
    assert_eq!(tree.node_count(), 0);
    assert_eq!(tree.stack_depth(), 1);
    assert_eq!(tree.active(), 0);
    assert_eq!(tree.current_line(), 0);
    assert_eq!(tree.node(0).label(), "root");
    assert_eq!(tree.node(0).label(), ROOT_LABEL);
    assert_eq!(tree.node(0).depth(), 0);
    assert_eq!(tree.node(0).parent(), 0);
    assert!(tree.node(0).children().is_empty());
}

#[test]
fn concrete_scenario() {
    let lines = strings(&["# 1 \"main.c\"", "# 1 \"a.h\" 1", "# 5 \"a.h\" 2"]);
    let tree = build_tree(&[], &lines).unwrap();
    let root = tree.node(0);
    assert_eq!(root.label(), "root");
    assert_eq!(root.children(), &vec![1]);
    let child = tree.node(1);
    assert_eq!(child.label(), "1 a.h");
    assert!(child.children().is_empty());
    assert_eq!(tree.len(), 2);
    assert_eq!(tree.current_line(), 5);
    assert_eq!(tree.stack_depth(), 1);
}

#[test]
fn concrete_scenario_as_item() {
    let lines = strings(&["# 1 \"main.c\"", "# 1 \"a.h\" 1", "# 5 \"a.h\" 2"]);
    let item = build_tree(&[], &lines).unwrap().to_item().unwrap();
    assert_eq!(item.text, "root");
    assert_eq!(item.children.len(), 1);
    assert_eq!(item.children[0].text, "1 a.h");
    assert!(item.children[0].children.is_empty());
}

#[test]
fn unbalanced_return_is_fatal() {
    let lines = strings(&["# 1 \"a.h\" 2"]);
    assert_eq!(build_tree(&[], &lines).err(), Some(MarkerError::UnbalancedReturn));
}

#[test]
fn unbalanced_return_after_a_balanced_run_is_fatal() {
    let lines = strings(&["# 1 \"a.h\" 1", "# 2 \"main.c\" 2", "# 3 \"main.c\" 2"]);
    assert_eq!(build_tree(&[], &lines).err(), Some(MarkerError::UnbalancedReturn));
}

#[test]
fn failed_transition_leaves_the_tree() {
    let mut tree = InclusionTree::new();
    tree.apply(&event(4, "main.c", &[])).unwrap();
    assert_eq!(tree.apply(&event(9, "x.h", &[Flag::ReturnToFile])), Err(MarkerError::UnbalancedReturn));
    assert_eq!(tree.len(), 1);
    assert_eq!(tree.stack_depth(), 1);
    assert_eq!(tree.current_line(), 4);
}

#[test]
fn label_is_counter_then_path() {
    let mut tree = InclusionTree::new();
    tree.apply(&event(120, "main.c", &[])).unwrap();
    tree.apply(&event(1, "dir/a b.h", &[Flag::StartNewFile])).unwrap();
    assert_eq!(tree.node(1).label(), "120 dir/a b.h");
    assert_eq!(tree.current_line(), 120);
    assert_eq!(tree.active(), 1);
    assert_eq!(tree.node(1).parent(), 0);
    assert_eq!(tree.node(1).depth(), 1);
}

#[test]
fn label_before_any_counter_is_zero() {
    let mut tree = InclusionTree::new();
    tree.apply(&event(1, "a.h", &[Flag::StartNewFile])).unwrap();
    assert_eq!(tree.node(1).label(), "0 a.h");
}

#[test]
fn label_uses_the_stripped_path() {
    let prefixes = strings(&["/usr/include/", "/opt/x"]);
    let lines = strings(&["# 7 \"main.c\"", "# 1 \"/usr/include/stdio.h\" 1 3"]);
    let tree = build_tree(&prefixes, &lines).unwrap();
    assert_eq!(tree.node(1).label(), "7 stdio.h");
}

#[test]
fn entering_keeps_the_counter_of_the_enclosing_file() {
    let mut tree = InclusionTree::new();
    tree.apply(&event(10, "main.c", &[])).unwrap();
    tree.apply(&event(1, "a.h", &[Flag::StartNewFile])).unwrap();
    tree.apply(&event(1, "b.h", &[Flag::StartNewFile])).unwrap();
    assert_eq!(shape(&tree, 0), "root(10 a.h(10 b.h))");
    tree.apply(&event(3, "b.h", &[])).unwrap();
    tree.apply(&event(1, "c.h", &[Flag::StartNewFile])).unwrap();
    assert_eq!(shape(&tree, 0), "root(10 a.h(10 b.h(3 c.h)))");
}

#[test]
fn entering_wins_over_returning() {
    let mut tree = InclusionTree::new();
    tree.apply(&event(8, "a.h", &[Flag::ReturnToFile, Flag::StartNewFile])).unwrap();
    assert_eq!(tree.stack_depth(), 2);
    assert_eq!(tree.len(), 2);
    assert_eq!(tree.current_line(), 0);
}

#[test]
fn returning_sets_the_counter() {
    let mut tree = InclusionTree::new();
    tree.apply(&event(1, "a.h", &[Flag::StartNewFile])).unwrap();
    tree.apply(&event(31, "main.c", &[Flag::ReturnToFile, Flag::SystemHeader])).unwrap();
    assert_eq!(tree.stack_depth(), 1);
    assert_eq!(tree.active(), 0);
    assert_eq!(tree.current_line(), 31);
    assert_eq!(tree.len(), 2);
}

#[test]
fn balanced_round_trip() {
    let lines = strings(&[
        "# 1 \"main.c\"",
        "# 1 \"a.h\" 1",
        "# 1 \"b.h\" 1",
        "# 4 \"a.h\" 2",
        "# 1 \"c.h\" 1",
        "# 6 \"a.h\" 2",
        "# 3 \"main.c\" 2",
        "# 1 \"d.h\" 1",
        "# 9 \"main.c\" 2",
    ]);
    let tree = build_tree(&[], &lines).unwrap();
    assert_eq!(tree.stack_depth(), 1);
    assert_eq!(tree.node_count(), 4);
    assert_eq!(shape(&tree, 0), "root(1 a.h(1 b.h, 4 c.h), 3 d.h)");
    assert_eq!(tree.current_line(), 9);
}

#[test]
fn children_keep_the_order_of_discovery() {
    let mut tree = InclusionTree::new();
    for name in ["z.h", "a.h", "m.h"] {
        tree.apply(&event(1, name, &[Flag::StartNewFile])).unwrap();
        tree.apply(&event(2, "main.c", &[Flag::ReturnToFile])).unwrap();
    }
    assert_eq!(tree.node(0).children(), &vec![1, 2, 3]);
    assert_eq!(shape(&tree, 0), "root(0 z.h, 2 a.h, 2 m.h)");
}

#[test]
fn repeated_files_are_repeated_nodes() {
    let lines = strings(&[
        "# 1 \"a.h\" 1",
        "# 2 \"main.c\" 2",
        "# 1 \"a.h\" 1",
        "# 3 \"main.c\" 2",
    ]);
    let tree = build_tree(&[], &lines).unwrap();
    assert_eq!(shape(&tree, 0), "root(0 a.h, 2 a.h)");
}

#[test]
fn kind_flags_change_nothing() {
    let bare = strings(&["# 1 \"main.c\"", "# 1 \"a.h\" 1", "# 5 \"a.h\"", "# 2 \"main.c\" 2"]);
    let decorated = strings(&[
        "# 1 \"main.c\" 3",
        "# 1 \"a.h\" 1 3 4",
        "# 5 \"a.h\" 4",
        "# 2 \"main.c\" 2 3",
    ]);
    let a = build_tree(&[], &bare).unwrap();
    let b = build_tree(&[], &decorated).unwrap();
    assert_eq!(shape(&a, 0), "root(1 a.h)");
    assert_eq!(shape(&a, 0), shape(&b, 0));
    assert_eq!(a.current_line(), b.current_line());
    assert_eq!(a.stack_depth(), b.stack_depth());
}

#[test]
fn other_lines_are_transparent() {
    let markers = strings(&["# 1 \"main.c\"", "# 1 \"a.h\" 1", "# 5 \"a.h\" 2"]);
    let mixed = strings(&[
        "int x;",
        "# 1 \"main.c\"",
        "",
        "# 1 \"a.h\" 1",
        "  # 7 \"b.h\" 1",
        "typedef int t; // # 9 \"c.h\" 2",
        "# 5 \"a.h\" 2",
        "int main(void) { return 0; }",
    ]);
    let a = build_tree(&[], &markers).unwrap();
    let b = build_tree(&[], &mixed).unwrap();
    assert_eq!(shape(&a, 0), shape(&b, 0));
    assert_eq!(a.len(), b.len());
    assert_eq!(a.current_line(), b.current_line());
    assert_eq!(a.stack_depth(), b.stack_depth());
}

#[test]
fn empty_input_is_the_root_alone() {
    let tree = build_tree(&[], &Vec::new()).unwrap();
    assert_eq!(tree.len(), 1);
    let item = tree.to_item().unwrap();
    assert_eq!(item.text, "root");
    assert!(item.children.is_empty());
}

#[test]
fn unread_marker_stops_the_run() {
    let lines = strings(&["# 1 \"a.h\" 1", "# 2 \"b.h\" 8", "# 3 \"main.c\" 2"]);
    assert_eq!(build_tree(&[], &lines).err(), Some(MarkerError::UnrecognizedFlag));
    let lines = strings(&["# 99999999999999999999999999999999999999999 \"a.h\""]);
    assert_eq!(build_tree(&[], &lines).err(), Some(MarkerError::MalformedLineNumber));
}

#[test]
fn first_error_is_reported() {
    let lines = strings(&["# 1 \"a.h\" 2", "# 2 \"b.h\" 8"]);
    assert_eq!(build_tree(&[], &lines).err(), Some(MarkerError::UnbalancedReturn));
    let lines = strings(&["# 2 \"b.h\" 8", "# 1 \"a.h\" 2"]);
    assert_eq!(build_tree(&[], &lines).err(), Some(MarkerError::UnrecognizedFlag));
}

#[test]
fn run_of_events_agrees_with_single_steps() {
    let events = vec![
        event(3, "main.c", &[]),
        event(1, "a.h", &[Flag::StartNewFile]),
        event(1, "b.h", &[Flag::StartNewFile, Flag::SystemHeader]),
        event(2, "a.h", &[Flag::ReturnToFile]),
        event(4, "main.c", &[Flag::ReturnToFile]),
    ];
    let whole = InclusionTree::new().run(&events).unwrap();
    let mut stepped = InclusionTree::new();
    for e in &events {
        stepped.apply(e).unwrap();
    }
    assert_eq!(shape(&whole, 0), "root(3 a.h(3 b.h))");
    assert_eq!(shape(&whole, 0), shape(&stepped, 0));
    assert_eq!(whole.current_line(), 4);
    assert_eq!(whole.stack_depth(), 1);
}

#[test]
fn run_of_events_stops_at_the_first_error() {
    let events = vec![event(1, "a.h", &[Flag::ReturnToFile]), event(1, "b.h", &[Flag::StartNewFile])];
    assert_eq!(InclusionTree::new().run(&events).err(), Some(MarkerError::UnbalancedReturn));
}

#[test]
fn item_has_the_shape_of_the_tree() {
    let lines = strings(&[
        "# 1 \"main.c\"",
        "# 1 \"a.h\" 1",
        "# 1 \"b.h\" 1",
        "# 1 \"c.h\" 1",
        "# 2 \"b.h\" 2",
        "# 4 \"a.h\" 2",
        "# 1 \"d.h\" 1",
        "# 6 \"a.h\" 2",
        "# 3 \"main.c\" 2",
        "# 1 \"e.h\" 1",
        "# 9 \"main.c\" 2",
    ]);
    let tree = build_tree(&[], &lines).unwrap();
    let expected = "root(1 a.h(1 b.h(1 c.h), 4 d.h), 3 e.h)";
    assert_eq!(shape(&tree, 0), expected);
    assert_eq!(item_shape(&tree.to_item().unwrap()), expected);
}

#[test]
fn files_left_open_are_part_of_the_item() {
    let lines = strings(&["# 1 \"main.c\"", "# 1 \"a.h\" 1", "# 1 \"b.h\" 1", "# 7 \"b.h\""]);
    let tree = build_tree(&[], &lines).unwrap();
    assert_eq!(tree.stack_depth(), 3);
    assert_eq!(tree.active(), 2);
    assert_eq!(tree.current_line(), 7);
    assert_eq!(item_shape(&tree.to_item().unwrap()), "root(1 a.h(1 b.h))");
}

#[test]
fn nodes_know_their_depth_and_parent() {
    let lines = strings(&[
        "# 1 \"a.h\" 1",
        "# 1 \"b.h\" 1",
        "# 2 \"a.h\" 2",
        "# 1 \"c.h\" 1",
    ]);
    let tree = build_tree(&[], &lines).unwrap();
    let depths: Vec<usize> = (0..tree.len()).map(|i| tree.node(i).depth()).collect();
    let parents: Vec<usize> = (0..tree.len()).map(|i| tree.node(i).parent()).collect();
    assert_eq!(depths, vec![0, 1, 2, 2]);
    assert_eq!(parents, vec![0, 0, 1, 1]);
    assert_eq!(tree.node(1).children(), &vec![2, 3]);
}

#[test]
fn item_prints_with_box_drawing() {
    let lines = strings(&[
        "# 1 \"main.c\"",
        "# 1 \"a.h\" 1",
        "# 1 \"b.h\" 1",
        "# 4 \"a.h\" 2",
        "# 3 \"main.c\" 2",
        "# 1 \"d.h\" 1",
        "# 9 \"main.c\" 2",
    ]);
    let item = build_tree(&[], &lines).unwrap().to_item().unwrap();
    let mut out: Vec<u8> = Vec::new();
    ptree::write_tree(&item, &mut out).unwrap();
    let printed = String::from_utf8(out).unwrap();
    assert_eq!(printed, "root\n├─ 1 a.h\n│  └─ 1 b.h\n└─ 3 d.h\n");
}
