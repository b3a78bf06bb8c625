use pddb_client::path::{get_path, split_basis_and_dict};

fn default_path<'a>() -> Option<&'a str> {
    Some("{DEFAULT}")
}

#[test]
fn test_split_vectors() {
    let vectors = [
        "",
        "one",
        "one:two",
        "two",
        "two:three",
        "two:one",
        "one:four",
        "one:🥸",
        "one:🥸:⛪",
        "one:four:five",
        "one:four:two",
        "one:four:three",
        "onery",
        "oneful",
    ];
    let key = "one:four";
    for v in vectors.iter().filter(|x| get_path(x, key).is_some()) {
        if let Some((_root, end)) = v.rsplit_once(':') {
            println!(">>> {} <<<", end);
        }
    }
}

#[test]
fn empty_string() {
    assert_eq!(
        split_basis_and_dict("", default_path()).unwrap(),
        (None, Some(""))
    );
}

#[test]
fn bare_dict() {
    assert_eq!(
        split_basis_and_dict("one", default_path()).unwrap(),
        (None, Some("one"))
    );
}

#[test]
fn dict_with_colon() {
    assert_eq!(
        split_basis_and_dict("one:two", default_path()).unwrap(),
        (None, Some("one:two"))
    );
}

#[test]
fn dict_with_two_colons() {
    assert_eq!(
        split_basis_and_dict("one:two:three", default_path()).unwrap(),
        (None, Some("one:two:three"))
    );
}

#[test]
#[should_panic]
fn dict_with_trailing_colon() {
    split_basis_and_dict("one:", default_path()).unwrap();
}

#[test]
#[should_panic]
fn two_dicts_with_trailing_colon() {
    split_basis_and_dict("one:two:", default_path()).unwrap();
}

#[test]
#[should_panic]
fn basis_with_dict_with_trailing_colon() {
    split_basis_and_dict(":one:two:", default_path()).unwrap();
}

#[test]
#[should_panic]
fn basis_with_two_dicts_with_trailing_colon() {
    split_basis_and_dict(":one:two:three:", default_path()).unwrap();
}

#[test]
fn basis_missing_colon() {
    assert_eq!(
        split_basis_and_dict(":one", default_path()).unwrap(),
        (Some("one"), None)
    );
}

#[test]
fn basis_with_one_dict() {
    assert_eq!(
        split_basis_and_dict(":one:two", default_path()).unwrap(),
        (Some("one"), Some("two"))
    );
}

#[test]
fn basis_with_two_dicts() {
    assert_eq!(
        split_basis_and_dict(":one:two:three", default_path()).unwrap(),
        (Some("one"), Some("two:three"))
    );
}

#[test]
fn double_colon() {
    let default = default_path();
    assert_eq!(
        split_basis_and_dict("::", default_path()).unwrap(),
        (default, None)
    );
}

#[test]
fn single_colon() {
    assert_eq!(
        split_basis_and_dict(":", default_path()).unwrap(),
        (None, None)
    );
}

#[test]
fn double_colon_one_key() {
    let default = default_path();
    assert_eq!(
        split_basis_and_dict("::foo", default_path()).unwrap(),
        (default, Some("foo"))
    );
}

#[test]
fn double_colon_one_key_no_default() {
    let default_path = None;
    assert_eq!(
        split_basis_and_dict("::foo", default_path).unwrap(),
        (None, Some("foo"))
    );
}

#[test]
fn double_colon_two_keys() {
    let default = default_path();
    assert_eq!(
        split_basis_and_dict("::foo:bar", default_path()).unwrap(),
        (default, Some("foo:bar"))
    );
}

#[test]
fn double_colon_three_keys() {
    let default = default_path();
    assert_eq!(
        split_basis_and_dict("::foo:bar:baz", default_path()).unwrap(),
        (default, Some("foo:bar:baz"))
    );
}

#[test]
#[should_panic]
fn double_colon_three_keys_trailing_colon() {
    split_basis_and_dict("::foo:bar:baz:", default_path()).unwrap();
}

#[test]
#[should_panic]
fn dict_with_two_keys_two_trailing_colons() {
    split_basis_and_dict("foo:bar::", default_path()).unwrap();
}

#[test]
#[should_panic]
fn dict_with_two_keys_three_trailing_colons() {
    split_basis_and_dict("foo:bar:::", default_path()).unwrap();
}

#[test]
fn default_basis_with_trailing_separator_is_rejected() {
    // the default is substituted first and then validated like any
    // other resolved basis token
    assert!(split_basis_and_dict("::", Some("D:")).is_err());
    assert_eq!(
        split_basis_and_dict("::", Some("D")).unwrap(),
        (Some("D"), None)
    );
}

#[test]
fn get_path_vectors() {
    assert_eq!(get_path("", "one"), None);
    assert_eq!(get_path("one", ""), Some("one"));
    assert_eq!(get_path("one:two", ""), None);
    assert_eq!(get_path("one:four:five", "one:four"), Some("five"));
    assert_eq!(get_path("one:four", "one:four"), None);
    assert_eq!(get_path("one:four:five:six", "one:four"), None);
    assert_eq!(get_path("onery", "one"), None);
}

#[test]
fn separator_bytes() {
    assert!(pddb_client::path::is_sep_byte(b':'));
    assert!(!pddb_client::path::is_sep_byte(b'/'));
    assert!(pddb_client::path::is_verbatim_sep(b':'));
    assert!(!pddb_client::path::is_verbatim_sep(b'a'));
}
