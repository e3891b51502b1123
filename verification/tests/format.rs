use ruke::recipe::Recipe;
use ruke::registry::{Rukefile, RukefileError};

fn recipe(name: &str, command: &str, arguments: Option<Vec<&str>>) -> Recipe {
    Recipe {
        name: name.to_string(),
        command: command.to_string(),
        arguments: arguments.map(|v| v.into_iter().map(|s| s.to_string()).collect()),
    }
}

#[test]
fn render_one_record_exactly() {
    let rf = Rukefile { tasks: vec![recipe("build", "cargo build", None)] };
    let text = rf.render().unwrap();
    assert_eq!(text, "[[tasks]]\nname = \"build\"\ncommand = \"cargo build\"\n");
}

#[test]
fn render_arguments_line() {
    let rf = Rukefile { tasks: vec![recipe("t", "echo", Some(vec!["a", "b"]))] };
    let text = rf.render().unwrap();
    assert_eq!(text, "[[tasks]]\nname = \"t\"\ncommand = \"echo\"\narguments = [\"a\", \"b\"]\n");
}

#[test]
fn round_trip_preserves_order_and_fields() {
    let rf = Rukefile {
        tasks: vec![
            recipe("b", "echo two", Some(vec!["x", "y"])),
            recipe("a", "echo one", None),
            recipe("c", "echo three", Some(vec![])),
        ],
    };
    let text = rf.render().unwrap();
    let loaded = Rukefile::from_str(&text).unwrap();
    assert_eq!(loaded.tasks.len(), 3);
    assert_eq!(loaded.tasks[0].name, "b");
    assert_eq!(loaded.tasks[0].command, "echo two");
    assert_eq!(loaded.tasks[0].arguments, Some(vec!["x".to_string(), "y".to_string()]));
    assert_eq!(loaded.tasks[1].name, "a");
    assert_eq!(loaded.tasks[1].arguments, None);
    assert_eq!(loaded.tasks[2].name, "c");
    assert_eq!(loaded.tasks[2].arguments, Some(vec![]));
}

#[test]
fn round_trip_empty_registry() {
    let rf = Rukefile { tasks: Vec::new() };
    let text = rf.render().unwrap();
    assert_eq!(text, "");
    let loaded = Rukefile::from_str(&text).unwrap();
    assert!(loaded.tasks.is_empty());
}

#[test]
fn empty_list_and_absent_arguments_are_distinguishable() {
    let with_empty = Rukefile { tasks: vec![recipe("t", "echo", Some(vec![]))] };
    let with_none = Rukefile { tasks: vec![recipe("t", "echo", None)] };
    let text_empty = with_empty.render().unwrap();
    let text_none = with_none.render().unwrap();
    assert_ne!(text_empty, text_none);
    assert!(text_empty.contains("arguments = []"));
    assert!(!text_none.contains("arguments"));
    let back_empty = Rukefile::from_str(&text_empty).unwrap();
    let back_none = Rukefile::from_str(&text_none).unwrap();
    assert_eq!(back_empty.tasks[0].arguments, Some(vec![]));
    assert_eq!(back_none.tasks[0].arguments, None);
}

#[test]
fn malformed_text_is_a_format_error() {
    assert!(matches!(
        Rukefile::from_str("not valid ["),
        Err(RukefileError::TomlError(_))
    ));
    assert!(matches!(
        Rukefile::from_str("[[tasks]]\nname = \"x\"\n"),
        Err(RukefileError::TomlError(_))
    ));
    assert!(matches!(
        Rukefile::from_str("[[tasks]]\nname = \"x\"\ncommand = \"echo\"\ntrailing"),
        Err(RukefileError::TomlError(_))
    ));
}

#[test]
fn unterminated_string_is_a_format_error() {
    assert!(Rukefile::from_str("[[tasks]]\nname = \"x").is_err());
}

#[test]
fn unserializable_value_reports_format_error() {
    let rf = Rukefile { tasks: vec![recipe("q\"", "echo", None)] };
    assert!(matches!(rf.render(), Err(RukefileError::SerializeError)));
}

#[test]
fn rendered_text_is_valid_toml() {
    let rf = Rukefile {
        tasks: vec![
            recipe("build", "cargo build", Some(vec!["--verbose"])),
            recipe("test", "cargo test", None),
        ],
    };
    let text = rf.render().unwrap();
    let table: toml::Table = toml::from_str(&text).expect("the rendered text parses as TOML");
    let tasks = table.get("tasks").unwrap().as_array().unwrap();
    assert_eq!(tasks.len(), 2);
    let first = tasks[0].as_table().unwrap();
    assert_eq!(first.get("name").unwrap().as_str().unwrap(), "build");
    assert_eq!(first.get("command").unwrap().as_str().unwrap(), "cargo build");
    let args = first.get("arguments").unwrap().as_array().unwrap();
    assert_eq!(args[0].as_str().unwrap(), "--verbose");
    let second = tasks[1].as_table().unwrap();
    assert_eq!(second.get("name").unwrap().as_str().unwrap(), "test");
    assert!(second.get("arguments").is_none());
}
