// Small language-behaviour tests carried alongside the library's own.

struct Foo {
    bar: i32,
}

fn push(foo: &mut Foo, item: i32) {
    foo.bar = item;
}

// This says that any reference to Bar cannot outlive the reference an i32 it contains.
struct Bar<'a> {
    x: &'a i32,
}

#[test]
fn grok_grok_pattern_matching() {
    match 4 {
        1..=5 => assert_eq!(1, 1),
        _ => assert_eq!(1, 1),
    }

    let content = "[]";

    match &content[..] {
        "[]" => {
            assert_eq!(true, true);
        }
        _ => {
            assert_eq!(true, false);
        }
    }

    assert_eq!(
        match true {
            true => true,
            _ => false,
        },
        true
    );
}

#[test]
fn grok_borrowing() {
    let f = Foo { bar: 10 };
    {
        let mut foo = Foo { bar: 3 };
        assert_eq!(foo.bar, 3);
        push(&mut foo, 4);
    }
    assert_eq!(f.bar, 10);
}

#[test]
fn grok_lifetimes() {
    let x;
    let f;

    {
        let y = &5;
        f = Bar { x: y };
        x = f.x;
    }

    assert_eq!(*x, 5);
}

#[test]
fn grok_pointers() {
    let x = 5;
    let y = &x; // `y` is a reference to `x`
    assert_eq!(*y, 5);
}

#[test]
fn lib_grok_pattern_matching() {
    match 5 {
        1..=5 => assert_eq!(1, 1),
        _ => assert_eq!(1, 0),
    }
}

#[test]
fn json_grok_serde_json() {
    let mut expected: serde_json::Value = serde_json::from_str("1").unwrap();
    assert_eq!(expected, 1);

    expected = serde_json::from_str("2").unwrap();
    assert_eq!(expected, 2);

    expected = serde_json::from_str("false").unwrap();
    assert_eq!(expected, false);

    expected = serde_json::from_str("[]").unwrap();
    let actual = serde_json::Value::Array(vec![]);
    assert_eq!(expected, actual);
}

#[test]
fn lib_grok_serde_json() {
    let mut expected: serde_json::Value = serde_json::from_str("1").unwrap();
    assert_eq!(expected, 1);

    expected = serde_json::from_str("2").unwrap();
    assert_eq!(expected, 2);

    expected = serde_json::from_str("false").unwrap();
    assert_eq!(expected, false);

    expected = serde_json::from_str("[]").unwrap();
    let actual = serde_json::Value::Array(vec![]);
    assert_eq!(expected, actual);
}

#[test]
fn grok_minijson_parse() {
    let v = minijson::parser::parse("[]").unwrap();
    assert_eq!(v, minijson::Value::Array(vec![]));
}
