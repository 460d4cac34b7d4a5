use todolist::store::Todolist;

#[test]
fn fresh_content_loads_empty() {
    let t = Todolist::load("").unwrap();
    assert!(t.is_empty());
    assert_eq!(t.len(), 0);
    assert_eq!(t.get("milk"), None);
}

#[test]
fn add_to_fresh_content_saves_one_line() {
    let mut t = Todolist::load("").unwrap();
    t.insert(String::from("milk"));
    assert_eq!(t.save(), "milk\ttrue\n");
}

#[test]
fn overwrite_stale_flag() {
    let mut t = Todolist::load("a\tfalse\n").unwrap();
    assert_eq!(t.get("a"), Some(false));
    let persist = t.apply_action("add", String::from("a"));
    assert!(persist);
    assert_eq!(t.len(), 1);
    assert_eq!(t.save(), "a\ttrue\n");
}

#[test]
fn insert_twice_leaves_one_entry() {
    let mut t = Todolist::empty();
    t.insert(String::from("milk"));
    t.insert(String::from("milk"));
    assert_eq!(t.len(), 1);
    assert_eq!(t.get("milk"), Some(true));
    assert_eq!(t.save(), "milk\ttrue\n");
}

#[test]
fn save_then_load_round_trip() {
    let t = Todolist::load("a\tfalse\nb\ttrue\nc d\tfalse\n").unwrap();
    let content = t.save();
    let u = Todolist::load(&content).unwrap();
    assert_eq!(u.len(), 3);
    assert_eq!(u.get("a"), Some(false));
    assert_eq!(u.get("b"), Some(true));
    assert_eq!(u.get("c d"), Some(false));
}

#[test]
fn line_without_tab_is_rejected() {
    assert!(Todolist::load("milk").is_err());
    assert!(Todolist::load("a\ttrue\nmilk\nb\ttrue\n").is_err());
}

#[test]
fn empty_line_is_rejected() {
    assert!(Todolist::load("\n").is_err());
    assert!(Todolist::load("a\ttrue\n\nb\ttrue\n").is_err());
}

#[test]
fn flag_text_is_case_sensitive() {
    assert!(Todolist::load("a\tTrue\n").is_err());
    assert!(Todolist::load("a\tyes\n").is_err());
    assert!(Todolist::load("a\ttrue \n").is_err());
    assert!(Todolist::load("a\tb\tc\n").is_err());
}

#[test]
fn unknown_action_leaves_store_untouched() {
    let mut t = Todolist::load("milk\ttrue\n").unwrap();
    let persist = t.apply_action("remove", String::from("milk"));
    assert!(!persist);
    assert_eq!(t.len(), 1);
    assert_eq!(t.get("milk"), Some(true));
    assert_eq!(t.save(), "milk\ttrue\n");
}

#[test]
fn later_line_overwrites_earlier() {
    let t = Todolist::load("a\ttrue\na\tfalse\n").unwrap();
    assert_eq!(t.len(), 1);
    assert_eq!(t.get("a"), Some(false));
}

#[test]
fn missing_trailing_newline_is_accepted() {
    let t = Todolist::load("a\ttrue").unwrap();
    assert_eq!(t.len(), 1);
    assert_eq!(t.get("a"), Some(true));
}

#[test]
fn save_keeps_insertion_order() {
    let mut t = Todolist::empty();
    t.insert(String::from("a"));
    t.insert(String::from("b"));
    t.insert(String::from("a"));
    assert_eq!(t.save(), "a\ttrue\nb\ttrue\n");
}

#[test]
fn get_missing_key() {
    let t = Todolist::load("a\ttrue\n").unwrap();
    assert_eq!(t.get("b"), None);
    assert_eq!(t.get(""), None);
}

#[test]
fn set_controls_the_flag() {
    let mut t = Todolist::empty();
    t.set(String::from("a"), false);
    assert_eq!(t.get("a"), Some(false));
    t.set(String::from("a"), true);
    assert_eq!(t.get("a"), Some(true));
    assert_eq!(t.len(), 1);
}
