use ruke::engine::{compose_invocation, report_streams, split_command};
use ruke::index::BinaryTree;
use ruke::recipe::Recipe;
use ruke::registry::{Rukefile, RukefileError};

fn recipe(name: &str, command: &str, arguments: Option<Vec<&str>>) -> Recipe {
    Recipe {
        name: name.to_string(),
        command: command.to_string(),
        arguments: arguments.map(|v| v.into_iter().map(|s| s.to_string()).collect()),
    }
}

#[test]
fn compose_inline_then_extra() {
    let r = recipe("t", "cmd a b", Some(vec!["c", "d"]));
    let inv = compose_invocation(&r);
    assert_eq!(inv.program, "cmd");
    assert_eq!(inv.args, vec!["a", "b", "c", "d"]);
}

#[test]
fn compose_absent_arguments() {
    let r = recipe("t", "cmd a b", None);
    let inv = compose_invocation(&r);
    assert_eq!(inv.program, "cmd");
    assert_eq!(inv.args, vec!["a", "b"]);
}

#[test]
fn compose_empty_arguments_list() {
    let r = recipe("t", "cmd a b", Some(vec![]));
    let inv = compose_invocation(&r);
    assert_eq!(inv.args, vec!["a", "b"]);
}

#[test]
fn compose_bare_executable() {
    let r = recipe("t", "ls", None);
    let inv = compose_invocation(&r);
    assert_eq!(inv.program, "ls");
    assert!(inv.args.is_empty());
}

#[test]
fn split_keeps_empty_tokens() {
    assert_eq!(split_command("a  b"), vec!["a", "", "b"]);
    assert_eq!(split_command(""), vec![""]);
    assert_eq!(split_command("one two"), vec!["one", "two"]);
}

#[test]
fn quiet_suppression() {
    let (stdout, stderr) = report_streams(true, true);
    assert!(!stdout);
    assert!(!stderr);
}

#[test]
fn reporting_policy() {
    assert_eq!(report_streams(true, false), (true, false));
    assert_eq!(report_streams(false, false), (false, true));
    assert_eq!(report_streams(false, true), (false, true));
}

#[test]
fn add_then_find() {
    let mut rf = Rukefile { tasks: Vec::new() };
    rf.add_task("x".to_string(), "echo hi".to_string());
    let found = rf.find_recipe("x".to_string()).expect("added recipe is found");
    assert_eq!(found.name, "x");
    assert_eq!(found.command, "echo hi");
    assert!(found.arguments.is_none());
}

#[test]
fn missing_lookup_returns_none() {
    let empty = Rukefile { tasks: Vec::new() };
    assert!(empty.find_recipe("nonexistent".to_string()).is_none());

    let mut rf = Rukefile { tasks: Vec::new() };
    rf.add_task("a".to_string(), "echo a".to_string());
    rf.add_task("b".to_string(), "echo b".to_string());
    assert!(rf.find_recipe("nonexistent".to_string()).is_none());
}

#[test]
fn find_returns_first_match() {
    let mut rf = Rukefile { tasks: Vec::new() };
    rf.add_task("dup".to_string(), "echo first".to_string());
    rf.add_task("dup".to_string(), "echo second".to_string());
    let found = rf.find_recipe("dup".to_string()).unwrap();
    assert_eq!(found.command, "echo first");
}

#[test]
fn task_names_in_order() {
    let mut rf = Rukefile { tasks: Vec::new() };
    rf.add_task("b".to_string(), "echo b".to_string());
    rf.add_task("a".to_string(), "echo a".to_string());
    assert_eq!(rf.task_names(), vec!["b", "a"]);
}

#[test]
fn describe_without_arguments() {
    let r = recipe("x", "echo hi", None);
    assert_eq!(r.describe(), "> x\ncommand: echo hi\narguments: not defined\n");
}

#[test]
fn describe_with_arguments() {
    let r = recipe("x", "echo", Some(vec!["a", "b"]));
    assert_eq!(r.describe(), "> x\ncommand: echo\narguments: a, b\n");
}

#[test]
fn describe_all_in_order() {
    let mut rf = Rukefile { tasks: Vec::new() };
    rf.add_task("one".to_string(), "echo 1".to_string());
    rf.add_task("two".to_string(), "echo 2".to_string());
    let all = rf.describe_all();
    assert_eq!(all.len(), 2);
    assert!(all[0].starts_with("> one\n"));
    assert!(all[1].starts_with("> two\n"));
}

#[test]
fn tree_search_present_and_absent() {
    let tasks = vec![
        recipe("mango", "echo m", None),
        recipe("apple", "echo a", None),
        recipe("zebra", "echo z", None),
    ];
    let tree = BinaryTree::new(&tasks);
    assert_eq!(tree.search(&"apple".to_string()).unwrap().command, "echo a");
    assert_eq!(tree.search(&"mango".to_string()).unwrap().command, "echo m");
    assert_eq!(tree.search(&"zebra".to_string()).unwrap().command, "echo z");
    assert!(tree.search(&"pear".to_string()).is_none());
}

#[test]
fn tree_search_sorted_input() {
    let tasks = vec![
        recipe("a", "echo 1", None),
        recipe("b", "echo 2", None),
        recipe("c", "echo 3", None),
    ];
    let tree = BinaryTree::new(&tasks);
    assert!(tree.search(&"a".to_string()).is_some());
    assert!(tree.search(&"b".to_string()).is_some());
    assert!(tree.search(&"c".to_string()).is_some());
    assert!(tree.search(&"d".to_string()).is_none());
}

#[test]
fn tree_search_duplicates_deterministic() {
    let tasks = vec![
        recipe("dup", "echo first", None),
        recipe("dup", "echo second", None),
        recipe("other", "echo o", None),
    ];
    let tree = BinaryTree::new(&tasks);
    let first = tree.search(&"dup".to_string()).unwrap();
    let second = tree.search(&"dup".to_string()).unwrap();
    assert_eq!(first.command, second.command);
    assert_eq!(first.name, "dup");
}

#[test]
fn tree_insert_then_search() {
    let empty: Vec<Recipe> = Vec::new();
    let mut tree = BinaryTree::new(&empty);
    tree.insert(recipe("late", "echo l", None));
    assert_eq!(tree.search(&"late".to_string()).unwrap().command, "echo l");
}

#[test]
fn error_variants_carry_their_kinds() {
    let io = RukefileError::IoError("no such file".to_string());
    assert!(matches!(io, RukefileError::IoError(_)));
    let rf = Rukefile { tasks: vec![recipe("q", "echo \"oops\"", None)] };
    assert!(matches!(rf.render(), Err(RukefileError::SerializeError)));
}
