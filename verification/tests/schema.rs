use tack::schema::schema_methods;

#[test]
fn method_names_are_distinct() {
    let mut names: Vec<String> = schema_methods().into_iter().map(|info| info.method).collect();
    assert_eq!(names.len(), 21);
    names.sort();
    names.dedup();
    assert_eq!(names.len(), 21);
}

#[test]
fn names_are_in_snake_case() {
    let is_plain = |name: &str| {
        !name.is_empty() && name.bytes().all(|b| b.is_ascii_lowercase() || b.is_ascii_digit() || b == b'_')
    };
    for info in schema_methods() {
        assert!(is_plain(&info.method), "{}", info.method);
        for param in &info.params {
            assert!(is_plain(&param.name), "{} {}", info.method, param.name);
        }
    }
}

#[test]
fn the_description_holds_no_at_sign() {
    for info in schema_methods() {
        let mut texts = vec![info.method, info.summary, info.returns];
        for param in info.params {
            texts.extend([param.name, param.ty, param.description]);
        }
        assert!(texts.iter().all(|text| !text.contains('@')), "{texts:?}");
    }
}
