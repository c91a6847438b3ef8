use light_magic::doc::Doc;
use light_magic::json::{parse_json, print_json};
use light_magic::key::TableKey;
use light_magic::table::{PrimaryKey, Table};

#[derive(Default, Debug, Clone, PartialEq, Eq)]
struct User {
    id: usize,
    name: String,
    age: usize,
}

impl PrimaryKey for User {
    type PrimaryKeyType = usize;

    fn primary_key(&self) -> &Self::PrimaryKeyType {
        &self.id
    }
}

fn encode_user(u: &User) -> Doc {
    Doc::Object(vec![
        (String::from("id"), Doc::UInt(u.id as u64)),
        (String::from("name"), Doc::Text(u.name.clone())),
        (String::from("age"), Doc::UInt(u.age as u64)),
    ])
}

fn decode_user(d: &Doc) -> Option<User> {
    let entries = match d {
        Doc::Object(entries) => entries,
        _ => return None,
    };
    let mut id: Option<usize> = None;
    let mut name: Option<String> = None;
    let mut age: Option<usize> = None;
    for (k, v) in entries {
        match (k.as_str(), v) {
            ("id", Doc::UInt(n)) => id = Some(*n as usize),
            ("name", Doc::Text(s)) => name = Some(s.clone()),
            ("age", Doc::UInt(n)) => age = Some(*n as usize),
            _ => return None,
        }
    }
    Some(User { id: id?, name: name?, age: age? })
}

fn to_text(d: &Doc) -> String {
    print_json(d).into_iter().collect()
}

fn from_text(s: &str) -> Option<Doc> {
    let cs: Vec<char> = s.chars().collect();
    parse_json(&cs)
}

#[test]
fn json_roundtrip_as_map() {
    let mut table = Table::default();
    table.add(User { id: 0, name: "".into(), age: 0 });
    let d = table.serialize(true, encode_user);
    let s = to_text(&d);
    assert_eq!(s, r#"{"0":{"id":0,"name":"","age":0}}"#);
    let d2 = from_text(&s).unwrap();
    let back: Table<User> = Table::deserialize(&d2, true, decode_user).unwrap();
    assert!(back.get(&0).is_some());
}

#[test]
fn bincode_roundtrip_as_seq() {
    let mut table = Table::default();
    for i in 0..3 {
        table.add(User { id: i, name: format!("u{i}"), age: i });
    }
    let d = table.serialize(false, encode_user);
    let s = to_text(&d);
    let d2 = from_text(&s).unwrap();
    let back: Table<User> = Table::deserialize(&d2, false, decode_user).unwrap();
    assert_eq!(table.values().len(), back.values().len());
    for i in 0..3 {
        assert_eq!(table.get(&i).unwrap().name, back.get(&i).unwrap().name);
    }
}

#[test]
fn json_escapes_round_trip() {
    let tricky = String::from("a \"quoted\" \\ backslash\nnewline\ttab");
    let d = Doc::Object(vec![(String::from("text"), Doc::Text(tricky.clone()))]);
    let s = to_text(&d);
    let d2 = from_text(&s).unwrap();
    match d2 {
        Doc::Object(entries) => {
            assert_eq!(entries.len(), 1);
            assert_eq!(entries[0].0, "text");
            match &entries[0].1 {
                Doc::Text(t) => assert_eq!(*t, tricky),
                _ => panic!("expected text"),
            }
        }
        _ => panic!("expected object"),
    }
}

#[test]
fn json_numbers_round_trip() {
    let d = Doc::List(vec![Doc::UInt(0), Doc::UInt(7), Doc::UInt(u64::MAX)]);
    let s = to_text(&d);
    assert_eq!(s, format!("[0,7,{}]", u64::MAX));
    let d2 = from_text(&s).unwrap();
    match d2 {
        Doc::List(items) => {
            assert_eq!(items.len(), 3);
            assert!(matches!(items[2], Doc::UInt(u64::MAX)));
        }
        _ => panic!("expected list"),
    }
}

#[test]
fn json_rejects_malformed() {
    assert!(from_text("").is_none());
    assert!(from_text("{").is_none());
    assert!(from_text("[1,]").is_none());
    assert!(from_text("\"open").is_none());
    assert!(from_text("tail\"junk").is_none());
    assert!(from_text("18446744073709551616").is_none());
    // only canonical decimals are numbers
    assert!(from_text("012").is_none());
    assert!(from_text("[01]").is_none());
    assert!(from_text("0").is_some());
}

#[test]
fn key_text_round_trip() {
    let k: u64 = 12345;
    assert_eq!(k.key_to_text(), "12345");
    assert_eq!(<u64 as TableKey>::key_from_text("12345"), Some(12345));
    assert_eq!(<u64 as TableKey>::key_from_text("012"), None);
    assert_eq!(<u64 as TableKey>::key_from_text("x"), None);
    assert_eq!(<usize as TableKey>::key_from_text("7"), Some(7usize));
    assert_eq!(
        <String as TableKey>::key_from_text("Nils"),
        Some(String::from("Nils"))
    );
    let s = String::from("Nils");
    assert_eq!(s.key_to_text(), "Nils");
}
