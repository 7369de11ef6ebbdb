use vivaldi_notes_parser::notes::get_field;
use vivaldi_notes_parser::notes::summary_traversal;
use vivaldi_notes_parser::notes::traverse_json;
use vivaldi_notes_parser::notes::NoteValue;

fn s(text: &str) -> NoteValue {
    NoteValue::Str(String::from(text))
}

fn obj(fields: Vec<(&str, NoteValue)>) -> NoteValue {
    NoteValue::Obj(fields.into_iter().map(|(k, v)| (String::from(k), v)).collect())
}

fn find(key: &str, val: Option<&str>, contains: Option<&str>, json: &NoteValue) -> Option<String> {
    traverse_json(
        &String::from(key),
        &val.map(String::from),
        &contains.map(String::from),
        json,
    )
}

fn field_string(n: &NoteValue, key: &str) -> Option<String> {
    match get_field(n, key) {
        Some(NoteValue::Str(text)) => Some(text.clone()),
        _ => None,
    }
}

#[test]
fn test_exact_match_on_leaf_root() {
    // {"id":"1","content":"hello world","children":[]} with -k id -v 1
    let doc = obj(vec![("id", s("1")), ("content", s("hello world")), (
        "children",
        NoteValue::Arr(vec![]),
    )]);
    assert_eq!(find("id", Some("1"), None, &doc), Some(String::from("hello world")));
    assert_eq!(find("id", Some("2"), None, &doc), None);
}

#[test]
fn test_match_in_child() {
    // {"id":"1","children":[{"id":"2","content":"found me"}]} with -k id -v 2
    let child = obj(vec![("id", s("2")), ("content", s("found me"))]);
    let doc = obj(vec![("id", s("1")), ("children", NoteValue::Arr(vec![child]))]);
    assert_eq!(find("id", Some("2"), None, &doc), Some(String::from("found me")));
}

#[test]
fn test_branch_never_matches_itself() {
    // the root's own fields satisfy the criterion, but it has children, so
    // only a descendant leaf may match
    let child = obj(vec![("id", s("2")), ("content", s("child"))]);
    let doc = obj(vec![("id", s("1")), ("content", s("root")), (
        "children",
        NoteValue::Arr(vec![child]),
    )]);
    assert_eq!(find("id", Some("1"), None, &doc), None);
}

#[test]
fn test_first_match_in_document_order() {
    let a = obj(vec![("id", s("x")), ("content", s("first"))]);
    let b = obj(vec![("id", s("x")), ("content", s("second"))]);
    let doc = obj(vec![("children", NoteValue::Arr(vec![a, b]))]);
    assert_eq!(find("id", Some("x"), None, &doc), Some(String::from("first")));

    // parent-before-children among the leaves: a deep match later in the
    // list loses to an earlier one
    let deep = obj(vec![(
        "children",
        NoteValue::Arr(vec![obj(vec![("id", s("x")), ("content", s("deep"))])]),
    )]);
    let shallow = obj(vec![("id", s("x")), ("content", s("shallow"))]);
    let doc = obj(vec![("children", NoteValue::Arr(vec![deep, shallow]))]);
    assert_eq!(find("id", Some("x"), None, &doc), Some(String::from("deep")));
}

#[test]
fn test_substring_match() {
    let doc = obj(vec![("subject", s("Todo Queue")), ("content", s("buy milk"))]);
    assert_eq!(find("subject", None, Some("do Qu"), &doc), Some(String::from("buy milk")));
    assert_eq!(find("subject", None, Some("queue"), &doc), None);
    // the empty substring is contained in any string field
    assert_eq!(find("subject", None, Some(""), &doc), Some(String::from("buy milk")));
}

#[test]
fn test_missing_or_wrong_typed_fields_never_match() {
    // key field absent
    let doc = obj(vec![("content", s("text"))]);
    assert_eq!(find("id", Some("1"), None, &doc), None);
    // key field not a string
    let doc = obj(vec![("id", NoteValue::Other), ("content", s("text"))]);
    assert_eq!(find("id", Some("1"), None, &doc), None);
    // content absent
    let doc = obj(vec![("id", s("1"))]);
    assert_eq!(find("id", Some("1"), None, &doc), None);
    // content not a string
    let doc = obj(vec![("id", s("1")), ("content", NoteValue::Null)]);
    assert_eq!(find("id", Some("1"), None, &doc), None);
    // no criterion at all never matches
    let doc = obj(vec![("id", s("1")), ("content", s("text"))]);
    assert_eq!(find("id", None, None, &doc), None);
}

#[test]
fn test_null_or_empty_children_is_leaf() {
    let doc = obj(vec![("id", s("1")), ("content", s("c")), ("children", NoteValue::Null)]);
    assert_eq!(find("id", Some("1"), None, &doc), Some(String::from("c")));
    let doc = obj(vec![("id", s("1")), ("content", s("c")), (
        "children",
        NoteValue::Arr(vec![]),
    )]);
    assert_eq!(find("id", Some("1"), None, &doc), Some(String::from("c")));
}

#[test]
fn test_summary_truncates_subject_to_thirty() {
    let long = "a very long subject exceeding thirty characters for sure";
    let doc = obj(vec![("subject", s(long)), ("children", NoteValue::Arr(vec![]))]);
    let sum = summary_traversal(&doc);
    assert_eq!(field_string(&sum, "subject"), Some(String::from(&long[..30])));
}

#[test]
fn test_summary_never_truncates_id() {
    let long_id = "an identifier well beyond thirty characters in length";
    let doc = obj(vec![("id", s(long_id)), ("content", s("short"))]);
    let sum = summary_traversal(&doc);
    assert_eq!(field_string(&sum, "id"), Some(String::from(long_id)));
    assert_eq!(field_string(&sum, "content"), Some(String::from("short")));
}

#[test]
fn test_summary_omits_absent_or_non_string_fields() {
    let doc = obj(vec![("id", NoteValue::Other), ("extra", s("dropped"))]);
    let sum = summary_traversal(&doc);
    assert!(get_field(&sum, "id").is_none());
    assert!(get_field(&sum, "subject").is_none());
    assert!(get_field(&sum, "content").is_none());
    assert!(get_field(&sum, "children").is_none());
    assert!(get_field(&sum, "extra").is_none());
}

#[test]
fn test_summary_truncates_on_character_boundary() {
    // thirty-five two-byte characters: the clip counts characters, not bytes
    let text: String = std::iter::repeat('é').take(35).collect();
    let doc = obj(vec![("content", NoteValue::Str(text.clone()))]);
    let sum = summary_traversal(&doc);
    let expected: String = std::iter::repeat('é').take(30).collect();
    assert_eq!(field_string(&sum, "content"), Some(expected));
}

#[test]
fn test_summary_preserves_depth_and_order() {
    let leaf_a = obj(vec![("id", s("a"))]);
    let leaf_b = obj(vec![("id", s("b"))]);
    let mid = obj(vec![("id", s("mid")), ("children", NoteValue::Arr(vec![leaf_a, leaf_b]))]);
    let root = obj(vec![("id", s("root")), ("children", NoteValue::Arr(vec![mid]))]);
    let sum = summary_traversal(&root);

    assert_eq!(field_string(&sum, "id"), Some(String::from("root")));
    let kids = match get_field(&sum, "children") {
        Some(NoteValue::Arr(kids)) => kids,
        _ => panic!("summary lost the children"),
    };
    assert_eq!(kids.len(), 1);
    assert_eq!(field_string(&kids[0], "id"), Some(String::from("mid")));
    let grandkids = match get_field(&kids[0], "children") {
        Some(NoteValue::Arr(kids)) => kids,
        _ => panic!("summary lost the nested children"),
    };
    assert_eq!(grandkids.len(), 2);
    assert_eq!(field_string(&grandkids[0], "id"), Some(String::from("a")));
    assert_eq!(field_string(&grandkids[1], "id"), Some(String::from("b")));
    // leaves stay leaves
    assert!(get_field(&grandkids[0], "children").is_none());
}
