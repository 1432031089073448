use jsonmodem_py::value::{
    apply_event, apply_event_to_dicts, assign_at_path, dict_assign_at_path, dict_value_at_path, PathTypeError, value_at_path, view_child, view_kind, view_len, Event, Member,
    PathItem, Value, ViewError, ViewKind,
};

fn key(text: &str) -> PathItem {
    PathItem::Key(text.as_bytes().to_vec())
}

fn render(value: &Value) -> String {
    match value {
        Value::Null => "null".to_string(),
        Value::Boolean(b) => b.to_string(),
        Value::Number(text) => String::from_utf8(text.clone()).unwrap(),
        Value::Text(text) => format!("{:?}", String::from_utf8(text.clone()).unwrap()),
        Value::Array(items) => format!("[{}]", items.iter().map(render).collect::<Vec<_>>().join(",")),
        Value::Object(members) => format!(
            "{{{}}}",
            members
                .iter()
                .map(|m: &Member| format!("{:?}:{}", String::from_utf8(m.key.clone()).unwrap(), render(&m.value)))
                .collect::<Vec<_>>()
                .join(",")
        ),
    }
}

fn root_text(root: &Option<Value>) -> String {
    root.as_ref().map(render).unwrap_or_default()
}

#[test]
fn events_build_a_document() {
    let mut root = None;
    assert!(matches!(apply_event(&mut root, Event::ObjectBegin { path: vec![] }), Some((p, false)) if p.is_empty()));
    apply_event(&mut root, Event::ArrayBegin { path: vec![key("list")] });
    apply_event(&mut root, Event::Number { path: vec![key("list"), PathItem::Index(0)], text: b"1".to_vec() });
    apply_event(&mut root, Event::Boolean { path: vec![key("list"), PathItem::Index(1)], value: true });
    assert!(apply_event(&mut root, Event::ArrayEnd { path: vec![key("list")] }).is_none());
    apply_event(
        &mut root,
        Event::Text { path: vec![key("name")], fragment: b"ab".to_vec(), is_initial: true, is_final: false },
    );
    apply_event(
        &mut root,
        Event::Text { path: vec![key("name")], fragment: b"c".to_vec(), is_initial: false, is_final: true },
    );
    apply_event(&mut root, Event::Null { path: vec![key("a")] });
    assert!(matches!(apply_event(&mut root, Event::ObjectEnd { path: vec![] }), Some((p, true)) if p.is_empty()));
    assert_eq!(root_text(&root), "{\"a\":null,\"list\":[1,true],\"name\":\"abc\"}");
}

#[test]
fn a_root_scalar_is_final() {
    let mut root = None;
    let update = apply_event(&mut root, Event::Number { path: vec![], text: b"-5".to_vec() });
    assert!(matches!(update, Some((p, true)) if p.is_empty()));
    assert_eq!(root_text(&root), "-5");
}

#[test]
fn fragments_without_a_string_start_over() {
    let mut root = None;
    apply_event(&mut root, Event::Null { path: vec![key("s")] });
    apply_event(&mut root, Event::Text { path: vec![key("s")], fragment: b"x".to_vec(), is_initial: false, is_final: true });
    assert_eq!(root_text(&root), "{\"s\":\"x\"}");
}

#[test]
fn assignment_creates_and_pads_containers() {
    let mut root = None;
    assign_at_path(&mut root, &[PathItem::Index(2), key("k")], Value::Boolean(false));
    assert_eq!(root_text(&root), "[{},{},{\"k\":false}]");
    assign_at_path(&mut root, &[PathItem::Index(0), PathItem::Index(1)], Value::Null);
    assert_eq!(root_text(&root), "[[null,null],{},{\"k\":false}]");
    assign_at_path(&mut root, &[key("x")], Value::Null);
    assert_eq!(root_text(&root), "{\"x\":null}");
}

#[test]
fn keys_stay_in_byte_order() {
    let mut root = None;
    for name in ["m", "b", "z", "a", "b"] {
        assign_at_path(&mut root, &[key(name)], Value::Text(name.as_bytes().to_vec()));
    }
    assert_eq!(root_text(&root), "{\"a\":\"a\",\"b\":\"b\",\"m\":\"m\",\"z\":\"z\"}");
}

#[test]
fn reads_find_what_was_written() {
    let mut root = None;
    let path = [key("a"), PathItem::Index(1), key("b")];
    assign_at_path(&mut root, &path, Value::Number(b"3".to_vec()));
    assert_eq!(value_at_path(&root, &path).map(render), Some("3".to_string()));
    assert!(value_at_path(&root, &[key("a"), PathItem::Index(5)]).is_none());
    assert!(value_at_path(&root, &[key("missing")]).is_none());
    assert!(value_at_path(&None, &[]).is_none());
}

#[test]
fn setting_a_key_keeps_the_others() {
    let mut root = None;
    assign_at_path(&mut root, &[key("a")], Value::Boolean(true));
    assign_at_path(&mut root, &[key("b")], Value::Null);
    assign_at_path(&mut root, &[key("a")], Value::Boolean(false));
    assert_eq!(value_at_path(&root, &[key("b")]).map(render), Some("null".to_string()));
    assert_eq!(root_text(&root), "{\"a\":false,\"b\":null}");
}

#[test]
fn views_report_kind_length_and_steps() {
    let mut root = None;
    assign_at_path(&mut root, &[key("s")], Value::Text("héllo".as_bytes().to_vec()));
    assign_at_path(&mut root, &[key("a"), PathItem::Index(1)], Value::Number(b"2".to_vec()));
    let whole = value_at_path(&root, &[]);
    assert_eq!(view_kind(whole), ViewKind::Object);
    assert_eq!(view_kind(whole).name(), "object");
    assert_eq!(view_len(whole), Ok(2));
    assert_eq!(view_len(value_at_path(&root, &[key("s")])), Ok(5));
    assert_eq!(view_len(value_at_path(&root, &[key("a")])), Ok(2));
    assert_eq!(view_len(value_at_path(&root, &[key("a"), PathItem::Index(1)])), Err(ViewError::NoLength));
    assert_eq!(view_len(None), Ok(0));
    assert_eq!(view_kind(None), ViewKind::Empty);
    assert_eq!(view_child(whole, &key("s")), Ok(()));
    assert_eq!(view_child(whole, &key("zz")), Err(ViewError::MissingKey));
    let array = value_at_path(&root, &[key("a")]);
    assert_eq!(view_child(array, &PathItem::Index(1)), Ok(()));
    assert_eq!(view_child(array, &PathItem::Index(2)), Err(ViewError::IndexOutOfRange));
    assert_eq!(view_child(value_at_path(&root, &[key("s")]), &PathItem::Index(0)), Err(ViewError::NotIndexable));
    assert_eq!(view_child(None, &PathItem::Index(0)), Err(ViewError::Empty));
}

#[test]
fn dict_writes_keep_insertion_order() {
    let mut root = None;
    for name in ["m", "b", "z", "a", "b"] {
        dict_assign_at_path(&mut root, &[key(name)], Value::Text(name.as_bytes().to_vec())).unwrap();
    }
    assert_eq!(root_text(&root), "{\"m\":\"m\",\"b\":\"b\",\"z\":\"z\",\"a\":\"a\"}");
}

#[test]
fn dict_writes_pad_lists_with_nulls_and_fill_them() {
    let mut root = None;
    dict_assign_at_path(&mut root, &[PathItem::Index(2), key("k")], Value::Boolean(false)).unwrap();
    assert_eq!(root_text(&root), "[null,null,{\"k\":false}]");
    dict_assign_at_path(&mut root, &[PathItem::Index(0), PathItem::Index(1)], Value::Null).unwrap();
    assert_eq!(root_text(&root), "[[null,null],null,{\"k\":false}]");
    dict_assign_at_path(&mut root, &[PathItem::Index(4)], Value::Null).unwrap();
    assert_eq!(root_text(&root), "[[null,null],null,{\"k\":false},null,null]");
}

#[test]
fn dict_writes_refuse_the_wrong_container() {
    let mut root = None;
    dict_assign_at_path(&mut root, &[key("a")], Value::Number(b"5".to_vec())).unwrap();
    assert_eq!(dict_assign_at_path(&mut root, &[PathItem::Index(0)], Value::Null), Err(PathTypeError));
    assert_eq!(dict_assign_at_path(&mut root, &[key("a"), key("b")], Value::Null), Err(PathTypeError));
    assert_eq!(dict_assign_at_path(&mut root, &[key("a"), PathItem::Index(0)], Value::Null), Err(PathTypeError));
    assert_eq!(root_text(&root), "{\"a\":5}");
    assert_eq!(dict_value_at_path(&root, &[key("a"), key("b")]).err(), Some(PathTypeError));
    assert!(matches!(dict_value_at_path(&root, &[key("zz")]), Ok(None)));
    dict_assign_at_path(&mut root, &[key("n")], Value::Null).unwrap();
    assert_eq!(dict_assign_at_path(&mut root, &[key("n"), key("x")], Value::Null), Err(PathTypeError));
}

#[test]
fn dict_events_keep_first_appearance() {
    let mut root = None;
    apply_event_to_dicts(&mut root, Event::ObjectBegin { path: vec![] }).unwrap();
    apply_event_to_dicts(&mut root, Event::Null { path: vec![key("z")] }).unwrap();
    apply_event_to_dicts(&mut root, Event::ArrayBegin { path: vec![key("list")] }).unwrap();
    apply_event_to_dicts(&mut root, Event::Number { path: vec![key("list"), PathItem::Index(0)], text: b"1".to_vec() }).unwrap();
    apply_event_to_dicts(&mut root, Event::Text { path: vec![key("a")], fragment: b"x".to_vec(), is_initial: true, is_final: false }).unwrap();
    apply_event_to_dicts(&mut root, Event::Text { path: vec![key("a")], fragment: b"y".to_vec(), is_initial: false, is_final: true }).unwrap();
    apply_event_to_dicts(&mut root, Event::Boolean { path: vec![key("z")], value: false }).unwrap();
    let end = apply_event_to_dicts(&mut root, Event::ObjectEnd { path: vec![] }).unwrap();
    assert!(matches!(end, Some((p, true)) if p.is_empty()));
    assert_eq!(root_text(&root), "{\"z\":false,\"list\":[1],\"a\":\"xy\"}");
    let refused = apply_event_to_dicts(&mut root, Event::Null { path: vec![key("z"), key("q")] });
    assert_eq!(refused.err(), Some(PathTypeError));
    assert_eq!(root_text(&root), "{\"z\":false,\"list\":[1],\"a\":\"xy\"}");
}
