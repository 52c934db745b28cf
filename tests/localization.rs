use std::collections::HashMap;

use conmx::{conv_cat, conv_cats, locale_from_file, localized, ConmxErr, Localization, StringVal};

fn from_json(v: &serde_json::Value) -> StringVal {
    match v {
        serde_json::Value::String(s) => StringVal::Str(s.clone()),
        serde_json::Value::Bool(b) => StringVal::Str(format!("{}", b)),
        serde_json::Value::Number(n) => StringVal::Str(format!("{}", n)),
        serde_json::Value::Null => StringVal::Str(String::from("null")),
        serde_json::Value::Array(a) => StringVal::Array(a.iter().map(|x| Box::new(from_json(x))).collect()),
        serde_json::Value::Object(o) => {
            StringVal::Table(o.iter().map(|(k, x)| (k.clone(), Box::new(from_json(x)))).collect())
        }
    }
}

#[test]
fn test_stringval() {
    let json: serde_json::Value = serde_json::from_str(
        r#"
        {
            "name": "John Doe",
            "age": 43,
            "creative": {
                "this-test": "Wow, this is a test!",
                "test2": "And another test!"
            },
            "phones": [
                "+44 1234567",
                "+44 2345678"
            ],
            "booltest": true
        }
        "#,
    )
    .unwrap();

    let mut inner: HashMap<String, String> = HashMap::new();
    inner.insert(String::from("this-test"), String::from("Wow, this is a test!"));
    inner.insert(String::from("test2"), String::from("And another test!"));
    let mut comp: HashMap<String, HashMap<String, String>> = HashMap::new();
    comp.insert(String::from("creative"), inner);

    let entries: Vec<(String, StringVal)> =
        json.as_object().unwrap().iter().map(|(k, v)| (k.clone(), from_json(v))).collect();
    let cats: HashMap<String, HashMap<String, String>> = conv_cats(&entries)
        .unwrap()
        .into_iter()
        .map(|(k, t)| (k, t.into_iter().collect()))
        .collect();

    assert_eq!(cats, comp);

    let s = from_json(&json);
    println!("{}", StringVal::format_rec(0, &s));
}

#[test]
fn format_rec_indents_nested_values() {
    let v = StringVal::Table(vec![
        (String::from("a"), Box::new(StringVal::Str(String::from("x")))),
        (
            String::from("b"),
            Box::new(StringVal::Array(vec![Box::new(StringVal::Str(String::from("y")))])),
        ),
    ]);
    assert_eq!(StringVal::format_rec(0, &v), "{\n\ta: x,\n\tb: [\n\t\ty,\n\t],\n,\n},\n");
    assert_eq!(StringVal::format_rec(0, &StringVal::Str(String::from("plain"))), "plain");
}

#[test]
fn conv_cat_rejects_strings_and_arrays() {
    match conv_cat(&StringVal::Str(String::from("v"))) {
        Err(ConmxErr::Locale(m)) => assert_eq!(m, "Category formatting is not correct (value \"v\")"),
        other => panic!("unexpected {:?}", other),
    }
    match conv_cat(&StringVal::Array(vec![])) {
        Err(ConmxErr::Locale(m)) => assert_eq!(m, "Category formatting is not correct ([\n],\n)"),
        other => panic!("unexpected {:?}", other),
    }
    let table = StringVal::Table(vec![
        (String::from("k"), Box::new(StringVal::Str(String::from("text")))),
        (String::from("deep"), Box::new(StringVal::Array(vec![]))),
    ]);
    assert_eq!(conv_cat(&table).unwrap(), vec![(String::from("k"), String::from("text"))]);
}

fn sample() -> Localization {
    let en = vec![(String::from("main"), vec![(String::from("hello"), String::from("Hello"))])];
    let de = vec![(String::from("main"), vec![(String::from("hello"), String::from("Hallo"))])];
    Localization {
        locales: vec![(String::from("en_US"), en), (String::from("de_DE"), de)],
        locale: String::from("de_DE"),
        default: String::from("en_US"),
    }
}

#[test]
fn localized_finds_active_locale() {
    let loc = sample();
    assert_eq!(localized(&loc, "main:hello"), "Hallo");
    assert_eq!(localized(&loc, "main:missing"), "main:missing");
    assert_eq!(localized(&loc, "other:hello"), "other:hello");
}

#[test]
fn localized_falls_back_to_default_locale() {
    let mut loc = sample();
    loc.locale = String::from("fr_FR");
    assert_eq!(localized(&loc, "main:hello"), "Hello");
    loc.default = String::from("xx");
    assert_eq!(localized(&loc, "main:hello"), "main:hello");
}

#[test]
fn localized_needs_exactly_one_colon() {
    let loc = sample();
    assert_eq!(localized(&loc, "This is a test!"), "This is a test!");
    assert_eq!(localized(&loc, "main:hello:x"), "main:hello:x");
}

#[test]
fn locale_name_comes_from_file_name() {
    let entries = vec![(
        String::from("main"),
        StringVal::Table(vec![(String::from("k"), Box::new(StringVal::Str(String::from("v"))))]),
    )];
    let (name, cats) = locale_from_file("de_DE.json", &entries).unwrap();
    assert_eq!(name, "de_DE");
    assert_eq!(cats, vec![(String::from("main"), vec![(String::from("k"), String::from("v"))])]);
    assert_eq!(locale_from_file("a.json.json", &entries).unwrap().0, "a.json");
    assert_eq!(locale_from_file("x.jsonx", &entries).unwrap().0, "x");
    assert!(locale_from_file("readme.txt", &entries).is_none());
    assert!(locale_from_file(".json", &entries).is_none());
}
