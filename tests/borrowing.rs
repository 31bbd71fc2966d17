use lifetimes::{identity, only_if_greater, only_if_greater_hard, split, vector_set};

#[test]
fn test_only_if_greater() {
    let num = 4;
    {
        let greater_than = 7;
        assert_eq!(None, only_if_greater(&num, &greater_than));
    }
    let num = 10;
    let answer = {
        let greater_than = 7;
        only_if_greater(&num, &greater_than)
    };
    assert_eq!(Some(&num), answer);
    assert_eq!(None, only_if_greater(&7, &7));
}

#[test]
fn identity_returns_its_argument() {
    let x = 3;
    assert!(std::ptr::eq(identity(&x), &x));
}

#[test]
fn only_if_greater_hard_picks() {
    let num = 4;
    let otherwise = -1;
    assert_eq!(&4, only_if_greater_hard(&num, &1, &otherwise));
    assert_eq!(&-1, only_if_greater_hard(&num, &5, &otherwise));
    assert_eq!(&-1, only_if_greater_hard(&num, &4, &otherwise));
}

#[test]
fn split_on_spaces() {
    let text = String::from("this is a test");
    let splitted = {
        let delimiter = String::from(" ");
        split(&text, &delimiter)
    };
    assert_eq!(splitted, vec!["this", "is", "a", "test"]);
}

#[test]
fn split_edges() {
    assert_eq!(split("a, b, ", ", "), vec!["a", "b"]);
    assert_eq!(split(" a", " "), vec!["", "a"]);
    assert_eq!(split("", " "), Vec::<&str>::new());
    assert_eq!(split("aaa", "aa"), vec!["", "a"]);
    assert_eq!(split("é-ü-ß", "-"), vec!["é", "ü", "ß"]);
}

#[test]
fn vector_set_replaces_in_range_only() {
    let strings = vec![
        "Hello".to_string(),
        "My".to_string(),
        "Name".to_string(),
        "Is".to_string(),
        "Tom".to_string(),
    ];
    let your = "Your".to_string();
    let unknown = "Unknown".to_string();
    let mut message: Vec<&str> = strings.iter().map(|s| s.as_str()).collect();
    vector_set(&mut message, 1, &your);
    vector_set(&mut message, 4, &unknown);
    vector_set(&mut message, 10, &unknown);
    assert_eq!(message, vec!["Hello", "Your", "Name", "Is", "Unknown"]);
}
