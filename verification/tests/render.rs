use sonnet::{indent, key_precedes, HasSonnet, Jsonnet, JsonnetTypes, ObjectMap};

fn text(s: &str) -> Jsonnet {
    Jsonnet::String(s.to_string())
}

fn number(v: f64) -> Jsonnet {
    Jsonnet::Number(format!("{}", v))
}

/// The depth of open brackets behind `s`, or `None` where a closing bracket
/// does not meet its partner.
fn open_brackets(s: &str) -> Option<Vec<char>> {
    let mut open = Vec::new();
    for c in s.chars() {
        match c {
            '[' | '{' => open.push(c),
            ']' => {
                if open.pop() != Some('[') {
                    return None;
                }
            }
            '}' => {
                if open.pop() != Some('{') {
                    return None;
                }
            }
            _ => {}
        }
    }
    Some(open)
}

#[test]
fn renders_null() {
    assert_eq!("null", Jsonnet::Null.render())
}

#[test]
fn renders_bool() {
    assert_eq!("true", Jsonnet::Bool(true).render())
}

#[test]
fn renders_false() {
    assert_eq!("false", Jsonnet::Bool(false).render())
}

#[test]
fn renders_string() {
    assert_eq!("'foo'", Jsonnet::String("foo".to_string()).render())
}

#[test]
fn renders_number() {
    assert_eq!("12.5", number(12.5).render())
}

#[test]
fn renders_array() {
    assert_eq!(
        "[
  null,
  false,
  'foo',
  12.5,
]",
        Jsonnet::Array(vec![
            Jsonnet::Null,
            Jsonnet::Bool(false),
            Jsonnet::String("foo".to_string()),
            number(12.5),
        ])
        .render()
    )
}

#[test]
fn renders_object() {
    let mut m = ObjectMap::new();
    m.insert("foo".to_string(), Jsonnet::String("bar".to_string()));
    m.insert("bazz".to_string(), Jsonnet::Null);

    assert_eq!(
        "{
  'bazz': null,
  'foo': 'bar',
}",
        Jsonnet::Object(m).render()
    )
}

#[test]
fn test_indent() {
    let input = "line one
line two

line four";
    assert_eq!(
        "    line one
    line two
    
    line four",
        indent(input.to_string(), 2)
    )
}

#[test]
fn renders_object_filled_in_the_other_order() {
    let mut m = ObjectMap::new();
    m.insert("bazz".to_string(), Jsonnet::Null);
    m.insert("foo".to_string(), text("bar"));
    assert_eq!("{\n  'bazz': null,\n  'foo': 'bar',\n}", Jsonnet::Object(m).render());
}

#[test]
fn renders_empty_array() {
    assert_eq!("[\n\n]", Jsonnet::Array(vec![]).render());
}

#[test]
fn renders_empty_object() {
    assert_eq!("{\n\n}", Jsonnet::Object(ObjectMap::new()).render());
}

#[test]
fn renders_string_without_escaping() {
    assert_eq!("'it's'", text("it's").render());
    assert_eq!("'a\\b'", text("a\\b").render());
    assert_eq!("''", text("").render());
}

#[test]
fn renders_whole_number_without_point() {
    assert_eq!("3", number(3.0).render());
    assert_eq!("-0.25", number(-0.25).render());
}

#[test]
fn renders_number_text_as_it_stands() {
    assert_eq!("1e3", Jsonnet::Number("1e3".to_string()).render());
}

#[test]
fn renders_array_in_array_with_four_spaces() {
    let v = Jsonnet::Array(vec![Jsonnet::Array(vec![text("x"), Jsonnet::Null])]);
    assert_eq!("[\n  [\n    'x',\n    null,\n  ],\n]", v.render());
}

#[test]
fn nesting_twice_adds_four_spaces_to_every_line() {
    let mut m = ObjectMap::new();
    m.insert("k".to_string(), Jsonnet::Array(vec![number(1.0)]));
    let own = format!("{},", Jsonnet::Object(m).render());
    let mut m = ObjectMap::new();
    m.insert("k".to_string(), Jsonnet::Array(vec![number(1.0)]));
    let nested = Jsonnet::Array(vec![Jsonnet::Array(vec![Jsonnet::Object(m)])]).render();
    let mut expected = vec!["[".to_string(), "  [".to_string()];
    for line in own.split('\n') {
        expected.push(format!("    {}", line));
    }
    expected.push("  ],".to_string());
    expected.push("]".to_string());
    assert_eq!(expected.join("\n"), nested);
    assert_eq!(
        "[\n  [\n    {\n      'k': [\n        1,\n      ],\n    },\n  ],\n]",
        nested
    );
}

#[test]
fn renders_object_in_array_and_array_in_object() {
    let mut inner = ObjectMap::new();
    inner.insert("b".to_string(), Jsonnet::Array(vec![]));
    inner.insert("a".to_string(), Jsonnet::Object(ObjectMap::new()));
    let v = Jsonnet::Array(vec![Jsonnet::Object(inner), Jsonnet::Bool(true)]);
    assert_eq!(
        "[\n  {\n    'a': {\n    \n    },\n    'b': [\n    \n    ],\n  },\n  true,\n]",
        v.render()
    );
}

#[test]
fn renders_multi_line_string_with_indented_lines() {
    let v = Jsonnet::Array(vec![text("a\n\nb")]);
    assert_eq!("[\n  'a\n  \n  b',\n]", v.render());
}

#[test]
fn rendered_text_is_balanced() {
    let mut m = ObjectMap::new();
    m.insert("list".to_string(), Jsonnet::Array(vec![Jsonnet::Null, Jsonnet::Array(vec![])]));
    m.insert("[]".to_string(), text("{x}"));
    m.insert("n".to_string(), number(12.5));
    let v = Jsonnet::Array(vec![Jsonnet::Object(m), Jsonnet::Bool(true)]);
    assert_eq!(Some(vec![]), open_brackets(&v.render()));
}

#[test]
fn unbalanced_string_gives_unbalanced_text() {
    assert_eq!(Some(vec!['[']), open_brackets(&text("[").render()));
}

#[test]
fn insert_hands_back_the_earlier_value() {
    let mut m = ObjectMap::new();
    assert!(m.insert("k".to_string(), Jsonnet::Null).is_none());
    let earlier = m.insert("k".to_string(), Jsonnet::Bool(true));
    assert_eq!(Some("null".to_string()), earlier.map(|v| v.render()));
    assert_eq!(1, m.len());
    assert_eq!("{\n  'k': true,\n}", Jsonnet::Object(m).render());
}

#[test]
fn insert_keeps_keys_ascending() {
    let mut m = ObjectMap::new();
    for k in ["b", "", "ab", "a", "B", "é", "z", "aa"] {
        m.insert(k.to_string(), Jsonnet::Null);
    }
    let mut keys = Vec::new();
    let mut i = 0;
    while let Some((k, _)) = m.entry(i) {
        keys.push(k.clone());
        i += 1;
    }
    assert_eq!(vec!["", "B", "a", "aa", "ab", "b", "z", "é"], keys);
    assert_eq!(8, m.len());
    assert!(m.entry(8).is_none());
}

#[test]
fn entry_gives_key_and_value() {
    let mut m = ObjectMap::new();
    m.insert("y".to_string(), Jsonnet::Bool(false));
    m.insert("x".to_string(), text("v"));
    let (k, v) = m.entry(0).unwrap();
    assert_eq!("x", k);
    assert_eq!("'v'", v.render());
    let (k, v) = m.entry(1).unwrap();
    assert_eq!("y", k);
    assert_eq!("false", v.render());
}

#[test]
fn key_order_is_by_characters() {
    assert!(key_precedes("", "a"));
    assert!(!key_precedes("a", ""));
    assert!(!key_precedes("", ""));
    assert!(key_precedes("bazz", "foo"));
    assert!(!key_precedes("foo", "bazz"));
    assert!(key_precedes("ab", "abc"));
    assert!(!key_precedes("abc", "ab"));
    assert!(!key_precedes("abc", "abc"));
    assert!(key_precedes("Z", "a"));
    assert!(key_precedes("z", "é"));
    assert!(key_precedes("\u{ffff}", "\u{10000}"));
    assert_eq!("ab" < "abc", key_precedes("ab", "abc"));
    assert_eq!("\u{ffff}" < "\u{10000}", key_precedes("\u{ffff}", "\u{10000}"));
}

#[test]
fn indent_of_one_line() {
    assert_eq!("  x", indent("x".to_string(), 1));
    assert_eq!("x", indent("x".to_string(), 0));
    assert_eq!("      x", indent("x".to_string(), 3));
}

#[test]
fn indent_of_empty_text_is_the_indentation() {
    assert_eq!("    ", indent(String::new(), 2));
    assert_eq!("", indent(String::new(), 0));
}

#[test]
fn indent_keeps_a_last_empty_line() {
    assert_eq!("  a\n  ", indent("a\n".to_string(), 1));
    assert_eq!("  \n  \n  ", indent("\n\n".to_string(), 1));
}

#[test]
fn indent_fills_blank_lines_with_spaces() {
    let out = indent("a\n\n\nb".to_string(), 3);
    let lines: Vec<&str> = out.split('\n').collect();
    assert_eq!(vec!["      a", "      ", "      ", "      b"], lines);
}

#[test]
fn indent_breaks_lines_at_line_feeds_only() {
    assert_eq!("  a\r\n  b\rc", indent("a\r\nb\rc".to_string(), 1));
}

#[test]
fn indent_twice_adds_up() {
    let s = "one\n\ntwo\n".to_string();
    assert_eq!(indent(s.clone(), 5), indent(indent(s, 2), 3));
}

struct Point {
    x: i32,
    y: i32,
}

impl HasSonnet for Point {
    fn jsonnet(&self) -> Jsonnet {
        let mut m = ObjectMap::new();
        m.insert("y".to_string(), Jsonnet::Number(self.y.to_string()));
        m.insert("x".to_string(), Jsonnet::Number(self.x.to_string()));
        Jsonnet::Object(m)
    }
}

#[test]
fn renders_what_presents_itself_as_a_value() {
    let p = Point { x: 3, y: -4 };
    assert_eq!("{\n  'x': 3,\n  'y': -4,\n}", p.jsonnet().render());
}

fn kind(v: &Jsonnet) -> JsonnetTypes {
    match v {
        Jsonnet::Null => JsonnetTypes::Null,
        Jsonnet::Bool(_) => JsonnetTypes::Bool,
        Jsonnet::String(_) => JsonnetTypes::String,
        Jsonnet::Number(_) => JsonnetTypes::Number,
        Jsonnet::Array(_) => JsonnetTypes::Array,
        Jsonnet::Object(_) => JsonnetTypes::Object,
    }
}

#[test]
fn every_value_has_a_kind() {
    assert!(matches!(kind(&Jsonnet::Null), JsonnetTypes::Null));
    assert!(matches!(kind(&Jsonnet::Array(vec![])), JsonnetTypes::Array));
    assert!(matches!(kind(&Jsonnet::Object(ObjectMap::new())), JsonnetTypes::Object));
    assert!(!matches!(kind(&Jsonnet::Bool(true)), JsonnetTypes::Fn));
}
