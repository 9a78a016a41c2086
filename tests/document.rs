use toml_edit::document::{Document, ImDocument};
use toml_edit::item::{Item, Key, Table};
use toml_edit::parser::ErrorKind;
use toml_edit::raw_string::RawString;

fn names(entries: &[toml_edit::item::TableEntry]) -> Vec<String> {
    entries.iter().map(|e| e.key.get().to_string()).collect()
}

#[test]
fn default_roundtrip() {
    Document::default().to_string().parse::<Document>().unwrap();
}

#[test]
fn default_documents_are_empty() {
    let im = ImDocument::default();
    assert!(im.as_table().is_empty());
    assert!(matches!(im.trailing(), RawString::Empty));
    assert_eq!(im.raw(), "");
    let doc = Document::default();
    assert!(doc.as_table().is_empty());
    assert!(matches!(doc.trailing(), RawString::Empty));
    assert_eq!(doc.to_string(), "");
    let again: Document = doc.to_string().parse().unwrap();
    assert!(again.as_table().is_empty());
    assert_eq!(again.to_string(), "");
    assert_eq!(ImDocument::new().to_string(), "");
}

#[test]
fn scenario_trailing_comment() {
    let src = "a = 1\n# trailing comment\n";
    let im = ImDocument::parse(src.to_string()).unwrap();
    assert_eq!(im.raw(), src);
    assert_eq!(im.as_table().len(), 1);
    let a = im.as_table().get("a").unwrap().as_value().unwrap();
    assert_eq!(a.as_integer(), Some(1));
    assert_eq!(im.trailing().to_str(im.raw()), "# trailing comment\n");
    assert_eq!(im.trailing().as_str(), None);
    let doc = im.into_mut();
    assert_eq!(doc.as_table().len(), 1);
    let a = doc.as_table().get("a").unwrap().as_value().unwrap();
    assert_eq!(a.as_integer(), Some(1));
    assert_eq!(doc.trailing().as_str(), Some("# trailing comment\n"));
}

#[test]
fn raw_is_the_source() {
    for src in ["", "\n", "x = true\n", "# c\n[t]\nk = 'v' # note\n", "a=1"] {
        let im = ImDocument::parse(src.to_string()).unwrap();
        assert_eq!(im.raw(), src);
        let im2: ImDocument = src.parse().unwrap();
        assert_eq!(im2.raw(), src);
    }
}

#[test]
fn order_is_kept_by_into_mut() {
    let src = "b = 1\nc = 2\na = 3\n[z]\nx = 1\n[y]\nw = \"s\"\n";
    let im = ImDocument::parse(src.to_string()).unwrap();
    let before = names(im.iter());
    assert_eq!(before, vec!["b", "c", "a", "z", "y"]);
    let doc = im.into_mut();
    assert_eq!(names(doc.iter()), before);
    let z = doc.as_table().get("z").unwrap().as_table().unwrap();
    assert_eq!(names(z.iter()), vec!["x"]);
}

#[test]
fn detached_texts_are_owned() {
    let src = "# head\nkey = \"value\"  # after\n\n[t]\nn = -5\n";
    let doc: Document = src.parse().unwrap();
    let e = &doc.iter()[0];
    assert_eq!(e.key.decor.prefix.as_str(), Some("# head\n"));
    assert_eq!(e.key.repr.as_str(), Some("key"));
    assert_eq!(e.key.decor.suffix.as_str(), Some(" "));
    let v = e.value.as_value().unwrap();
    assert_eq!(v.as_str(), Some("value"));
    assert_eq!(v.repr.as_str(), Some("\"value\""));
    assert_eq!(v.decor.prefix.as_str(), Some(" "));
    assert_eq!(v.decor.suffix.as_str(), Some("  # after"));
    let t = doc.as_table().get("t").unwrap().as_table().unwrap();
    assert_eq!(t.decor.prefix.as_str(), Some("\n"));
    assert_eq!(t.get("n").unwrap().as_value().unwrap().as_integer(), Some(-5));
    assert_eq!(doc.trailing().as_str(), Some(""));
}

#[test]
fn rendering_reproduces_the_source() {
    let src = "# head\nkey = \"value\"  # after\nflag=false\n\n[t]  # tbl\nn = -5\nm = +7\n# end\n";
    let im = ImDocument::parse(src.to_string()).unwrap();
    assert_eq!(im.to_string(), src);
    let doc = im.into_mut();
    assert_eq!(doc.to_string(), src);
}

#[test]
fn scalars() {
    let src = "a = true\nb = false\nc = 'lit\"eral'\nd = \"\"\ne = -9223372036854775808\nf = 9223372036854775807\ng = 007\n";
    let doc: Document = src.parse().unwrap();
    let t = doc.as_table();
    assert_eq!(t.get("a").unwrap().as_value().unwrap().as_bool(), Some(true));
    assert_eq!(t.get("b").unwrap().as_value().unwrap().as_bool(), Some(false));
    assert_eq!(t.get("c").unwrap().as_value().unwrap().as_str(), Some("lit\"eral"));
    assert_eq!(t.get("d").unwrap().as_value().unwrap().as_str(), Some(""));
    assert_eq!(t.get("e").unwrap().as_value().unwrap().as_integer(), Some(i64::MIN));
    assert_eq!(t.get("f").unwrap().as_value().unwrap().as_integer(), Some(i64::MAX));
    assert_eq!(t.get("g").unwrap().as_value().unwrap().as_integer(), Some(7));
    assert!(t.get("h").is_none());
    assert!(t.contains_key("g"));
    assert!(!t.contains_key("h"));
}

#[test]
fn errors() {
    let cases = [
        ("= 1\n", ErrorKind::InvalidKey, 0),
        ("a 1\n", ErrorKind::UnexpectedChar, 2),
        ("a = \n", ErrorKind::InvalidValue, 4),
        ("a = \"open\n", ErrorKind::UnterminatedString, 4),
        ("a = \"x\\y\"\n", ErrorKind::InvalidValue, 6),
        ("a = 9223372036854775808\n", ErrorKind::IntegerOverflow, 4),
        ("a = -9223372036854775809\n", ErrorKind::IntegerOverflow, 4),
        ("a = 1\na = 2\n", ErrorKind::DuplicateKey, 6),
        ("[t]\n[t]\n", ErrorKind::DuplicateKey, 5),
        ("a = 1\n[a]\n", ErrorKind::DuplicateKey, 7),
        ("[t]\nx = 1\nx = 2\n", ErrorKind::DuplicateKey, 10),
        ("[ ]\n", ErrorKind::InvalidKey, 2),
        ("[t\n", ErrorKind::UnexpectedChar, 2),
        ("a = 1 2\n", ErrorKind::UnexpectedChar, 6),
        ("a = yes\n", ErrorKind::InvalidValue, 4),
        ("a = -\n", ErrorKind::InvalidValue, 5),
    ];
    for (src, kind, offset) in cases {
        let e = ImDocument::parse(src.to_string()).err().unwrap();
        assert_eq!(e.kind(), kind, "{src:?}");
        assert_eq!(e.offset(), offset, "{src:?}");
        assert!(src.parse::<Document>().is_err());
    }
}

#[test]
fn from_table_and_edit() {
    let mut table = Table::new();
    assert!(table.is_empty());
    let mut doc = Document::from_table(table);
    assert!(doc.as_table().is_empty());
    assert!(matches!(doc.trailing(), RawString::Empty));
    doc.set_trailing(RawString::from_string("# end\n".to_string()));
    assert_eq!(doc.trailing().as_str(), Some("# end\n"));
    table = Table::new();
    let key = Key::new("k".to_string());
    assert_eq!(key.get(), "k");
    doc.as_table_mut().entries.push(toml_edit::item::TableEntry { key, value: Item::Table(table) });
    assert_eq!(doc.as_table().len(), 1);
    assert!(doc.as_item().is_table());
    *doc.as_item_mut() = Item::Table(Table::with_pos(Some(3)));
    assert!(doc.as_table().is_empty());
    assert_eq!(doc.as_table().position, Some(3));
}

#[test]
fn integers_render_in_decimal() {
    let mut out = String::new();
    toml_edit::encode::push_integer(&mut out, -120);
    assert_eq!(out, "-120");
    let mut out = String::new();
    toml_edit::encode::push_integer(&mut out, i64::MIN);
    assert_eq!(out, "-9223372036854775808");
    let mut out = String::new();
    toml_edit::encode::push_integer(&mut out, 0);
    assert_eq!(out, "0");
}

#[test]
fn forwarding_to_the_root_table() {
    let im = ImDocument::parse("x = 1\ny = 'two'\n".to_string()).unwrap();
    assert_eq!(im.len(), 2);
    assert!(!im.is_empty());
    assert!(im.contains_key("y"));
    assert!(!im.contains_key("z"));
    assert_eq!(im.get("y").unwrap().as_value().unwrap().as_str(), Some("two"));
    let doc = im.into_mut();
    assert_eq!(doc.len(), 2);
    assert!(doc.contains_key("x"));
    assert_eq!(doc.get("x").unwrap().as_value().unwrap().as_integer(), Some(1));
    assert!(doc.get("z").is_none());
    let empty = Document::from(Table::new());
    assert!(empty.is_empty());
    assert!(matches!(empty.trailing(), RawString::Empty));
}

#[test]
fn iteration_follows_the_source_for_both_forms() {
    let src = "[beta]\nq = 1\nzeta = 2\n\n[alpha]\n";
    let src = format!("m = 0\nk = 1\n{src}");
    let im = ImDocument::parse(src.clone()).unwrap();
    let first = names(im.iter());
    let second = names(im.iter());
    assert_eq!(first, vec!["m", "k", "beta", "alpha"]);
    assert_eq!(first, second);
    let doc = im.into_mut();
    assert_eq!(names(doc.iter()), first);
    assert_eq!(doc.to_string(), src);
}

#[test]
fn raw_string_accessors() {
    let span = RawString::Spanned { start: 2, end: 5 };
    assert_eq!(span.as_str(), None);
    assert_eq!(span.to_str("abcdefg"), "cde");
    let owned = span.despan("abcdefg");
    assert_eq!(owned.as_str(), Some("cde"));
    assert_eq!(RawString::new().as_str(), Some(""));
    assert_eq!(RawString::Spanned { start: 1, end: 3 }.to_str("\u{e9}\u{e8}\u{ea}x"), "\u{e8}\u{ea}");
}

#[test]
fn same_key_in_different_tables() {
    let doc: Document = "x = 1\n[a]\nx = 2\n[b]\nx = 3\na2 = 4\n".parse().unwrap();
    assert_eq!(names(doc.iter()), vec!["x", "a", "b"]);
    let b = doc.get("b").unwrap().as_table().unwrap();
    assert_eq!(names(b.iter()), vec!["x", "a2"]);
    assert_eq!(b.get("x").unwrap().as_value().unwrap().as_integer(), Some(3));
    let e = ImDocument::parse("[a]\nx = 1\n[b]\ny = 1\n[a]\n".to_string()).err().unwrap();
    assert_eq!(e.kind(), ErrorKind::DuplicateKey);
    assert_eq!(e.offset(), 21);
}
