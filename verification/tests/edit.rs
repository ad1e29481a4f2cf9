use config_core::edit::{
    add_tab, edit_document, plan_add_tab, EditError, GroupOutline, TabSlot, TabTarget, WindowOutline,
};
use toml_edit::DocumentMut;

#[test]
fn appends_loose_tab_to_named_window() {
    let out = add_tab(
        "[[window]]\ntitle = \"Comms\"\n",
        "Comms",
        None,
        &[("title", "Gmail".into()), ("url", "https://mail.google.com/".into())],
    )
    .unwrap();
    let cfg: DocumentMut = out.parse().unwrap();
    let tabs = cfg["window"][0]["tab"].as_array_of_tables().unwrap();
    assert_eq!(tabs.len(), 1);
    assert_eq!(tabs.get(0).unwrap()["title"].as_str(), Some("Gmail"));
    assert_eq!(tabs.get(0).unwrap()["url"].as_str(), Some("https://mail.google.com/"));
}

#[test]
fn appends_tab_into_named_group() {
    let out = add_tab(
        "[[window]]\ntitle = \"Comms\"\n[[window.group]]\nname = \"Chat\"\n[[window.group.tab]]\ntitle = \"A\"\nurl = \"https://a.test/\"\n",
        "Comms",
        Some("Chat"),
        &[("title", "B".into()), ("url", "https://b.test/".into())],
    )
    .unwrap();
    let cfg: DocumentMut = out.parse().unwrap();
    let tabs = cfg["window"][0]["group"][0]["tab"].as_array_of_tables().unwrap();
    assert_eq!(tabs.len(), 2);
    assert_eq!(tabs.get(1).unwrap()["title"].as_str(), Some("B"));
}

#[test]
fn unknown_window_errors() {
    let err = add_tab(
        "[[window]]\ntitle = \"Comms\"\n",
        "Nope",
        None,
        &[("title", "X".into()), ("url", "https://x.test/".into())],
    )
    .unwrap_err();
    assert!(matches!(err, EditError::WindowNotFound(_)));
}

#[test]
fn unknown_group_errors() {
    let err = add_tab(
        "[[window]]\ntitle = \"Comms\"\n",
        "Comms",
        Some("Ghost"),
        &[("title", "X".into()), ("url", "https://x.test/".into())],
    )
    .unwrap_err();
    assert!(matches!(err, EditError::GroupNotFound(_)));
}

#[test]
fn preserves_surrounding_comments_and_field_order() {
    let out = add_tab(
        "# top comment\n[[window]]\ntitle = \"Comms\" # inline\n[[window.tab]]\ntitle = \"Existing\"\nurl = \"https://e.test/\"\n",
        "Comms",
        None,
        &[
            ("title", "New".into()),
            ("url", "https://n.test/".into()),
            ("load_on_open", true.into()),
        ],
    )
    .unwrap();
    assert!(out.contains("# top comment"));
    assert!(out.contains("title = \"Comms\" # inline"));
    assert!(out.contains("title = \"Existing\""));
    let ti = out.find("title = \"New\"").unwrap();
    let ui = out.find("url = \"https://n.test/\"").unwrap();
    let li = out.find("load_on_open = true").unwrap();
    assert!(ti < ui && ui < li);
}

#[test]
fn non_array_tab_key_errors() {
    let err = add_tab(
        "[[window]]\ntitle = \"W\"\ntab = \"oops\"\n",
        "W",
        None,
        &[("title", "X".into()), ("url", "https://x.test/".into())],
    )
    .unwrap_err();
    assert!(matches!(err, EditError::MalformedTab));
}

#[test]
fn invalid_toml_errors() {
    let err = add_tab("[[window]\ntitle = ", "W", None, &[]).unwrap_err();
    assert!(matches!(err, EditError::Toml(_)));
}

#[test]
fn window_not_found_names_the_title_and_group_not_found_the_group() {
    match add_tab("title = 1\n", "Comms", None, &[]) {
        Err(EditError::WindowNotFound(t)) => assert_eq!(t, "Comms"),
        other => panic!("unexpected {:?}", other),
    }
    match add_tab("[[window]]\ntitle = \"Comms\"\n[[window.group]]\nname = \"A\"\n", "Comms", Some("B"), &[]) {
        Err(EditError::GroupNotFound(g)) => assert_eq!(g, "B"),
        other => panic!("unexpected {:?}", other),
    }
}

#[test]
fn first_matching_window_receives_the_tab() {
    let out = add_tab(
        "[[window]]\ntitle = \"A\"\n[[window]]\ntitle = \"B\"\n[[window]]\ntitle = \"B\"\n",
        "B",
        None,
        &[("title", "T".into())],
    )
    .unwrap();
    let cfg: DocumentMut = out.parse().unwrap();
    assert!(cfg["window"][0].get("tab").is_none());
    assert_eq!(cfg["window"][1]["tab"].as_array_of_tables().unwrap().len(), 1);
    assert!(cfg["window"][2].get("tab").is_none());
}

fn window(title: Option<&str>, tab: TabSlot, groups: Option<Vec<GroupOutline>>) -> WindowOutline {
    WindowOutline { title: title.map(|t| t.to_string()), tab, groups }
}

fn group(name: &str, tab: TabSlot) -> GroupOutline {
    GroupOutline { name: Some(name.to_string()), tab }
}

#[test]
fn plan_picks_first_window_and_group() {
    let ws = Some(vec![
        window(None, TabSlot::Missing, None),
        window(Some("W"), TabSlot::Tables, Some(vec![group("X", TabSlot::Other), group("G", TabSlot::Missing), group("G", TabSlot::Other)])),
        window(Some("W"), TabSlot::Other, None),
    ]);
    assert_eq!(plan_add_tab(&ws, "W", None).unwrap(), TabTarget { window: 1, group: None });
    assert_eq!(plan_add_tab(&ws, "W", Some("G")).unwrap(), TabTarget { window: 1, group: Some(1) });
    assert!(matches!(plan_add_tab(&ws, "W", Some("X")), Err(EditError::MalformedTab)));
    assert!(matches!(plan_add_tab(&ws, "W", Some("Y")), Err(EditError::GroupNotFound(_))));
    assert!(matches!(plan_add_tab(&ws, "V", None), Err(EditError::WindowNotFound(_))));
    assert!(matches!(plan_add_tab(&None, "W", None), Err(EditError::WindowNotFound(_))));
}

#[test]
fn edit_document_appends_one_table_and_keeps_the_rest() {
    let mut doc: DocumentMut =
        "[[window]]\ntitle = \"A\"\nkeep = 1\n[[window]]\ntitle = \"B\"\n".parse().unwrap();
    edit_document(&mut doc, "A", None, &[("title", "T".into()), ("url", "u".into())]).unwrap();
    let tabs = doc["window"][0]["tab"].as_array_of_tables().unwrap();
    assert_eq!(tabs.len(), 1);
    assert_eq!(tabs.get(0).unwrap()["title"].as_str(), Some("T"));
    assert_eq!(tabs.get(0).unwrap()["url"].as_str(), Some("u"));
    assert_eq!(doc["window"][0]["keep"].as_integer(), Some(1));
    assert!(doc["window"][1].get("tab").is_none());
    let before = doc.to_string();
    assert!(matches!(
        edit_document(&mut doc, "A", Some("G"), &[("title", "X".into())]),
        Err(EditError::GroupNotFound(_))
    ));
    assert_eq!(doc.to_string(), before);
}

#[test]
fn new_tab_keys_follow_the_field_order() {
    let mut doc: DocumentMut = "[[window]]\ntitle = \"A\"\n".parse().unwrap();
    edit_document(
        &mut doc,
        "A",
        None,
        &[("url", "u".into()), ("title", "T".into()), ("load_on_open", true.into()), ("url", "v".into())],
    )
    .unwrap();
    let tabs = doc["window"][0]["tab"].as_array_of_tables().unwrap();
    let keys: Vec<&str> = tabs.get(0).unwrap().iter().map(|(k, _)| k).collect();
    assert_eq!(keys, vec!["url", "title", "load_on_open"]);
    assert_eq!(tabs.get(0).unwrap()["url"].as_str(), Some("v"));
    let window_keys: Vec<&str> = doc["window"][0].as_table().unwrap().iter().map(|(k, _)| k).collect();
    assert_eq!(window_keys, vec!["title", "tab"]);
}

#[test]
fn a_missing_window_or_group_is_reported_and_never_created() {
    let src = "[[window]]\ntitle = \"A\"\n[[window.group]]\nname = \"G\"\n";
    assert!(matches!(
        add_tab(src, "B", None, &[("title", "T".into())]),
        Err(EditError::WindowNotFound(t)) if t == "B"
    ));
    assert!(matches!(
        add_tab(src, "A", Some("H"), &[("title", "T".into())]),
        Err(EditError::GroupNotFound(g)) if g == "H"
    ));
    assert!(add_tab(src, "A", Some("G"), &[("title", "T".into())]).is_ok());
}
