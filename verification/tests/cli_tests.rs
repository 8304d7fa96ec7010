use file_rat::cli::{
    interpret_compression_choice, interpret_default_choice, interpret_yes_no, next_arg,
    parse_add_args, parse_command, parse_meta_assignment, resolve_item_id, CliErrorKind, Command,
    DefaultChoice,
};
use file_rat::compression::CompressionType;
use file_rat::item::FileItem;

fn strings(v: &[&str]) -> Vec<String> {
    v.iter().map(|s| s.to_string()).collect()
}

#[test]
fn meta_assignment_splits_at_first_equals() {
    assert_eq!(
        parse_meta_assignment("owner=alice").unwrap(),
        ("owner".to_string(), "alice".to_string())
    );
    assert_eq!(
        parse_meta_assignment("  key\t=v=w ").unwrap(),
        ("key".to_string(), "v=w ".to_string())
    );
    assert_eq!(
        parse_meta_assignment("\u{3000}k\u{a0}=1").unwrap(),
        ("k".to_string(), "1".to_string())
    );
    for bad in ["=x", "k=", "noequals", "   =v", ""] {
        let e = parse_meta_assignment(bad).unwrap_err();
        assert_eq!(e.kind, CliErrorKind::InvalidMeta);
        assert_eq!(e.subject, bad);
    }
}

#[test]
fn next_arg_takes_the_following_argument() {
    let args = strings(&["a", "--compression", "fast"]);
    let mut i = 1usize;
    assert_eq!(next_arg(&args, &mut i, "--compression").unwrap(), "fast");
    assert_eq!(i, 2);
    let e = next_arg(&args, &mut i, "--compression").unwrap_err();
    assert_eq!(e.kind, CliErrorKind::MissingValue);
    assert_eq!(e.subject, "--compression");
    assert_eq!(i, 2);
}

#[test]
fn add_arguments_of_the_readme_example() {
    let args = strings(&[
        "./test.rat", "./1.txt", "--compression", "best", "--meta", "owner=alice", "--meta",
        "category=invoice", "--meta", "priority=1", "--stfu",
    ]);
    let a = parse_add_args(&args).unwrap();
    assert_eq!(a.archive_path, "./test.rat");
    assert_eq!(a.file_path, "./1.txt");
    assert_eq!(a.compression, Some(CompressionType::Best));
    assert_eq!(
        a.meta,
        vec![
            ("owner".to_string(), "alice".to_string()),
            ("category".to_string(), "invoice".to_string()),
            ("priority".to_string(), "1".to_string()),
        ]
    );
    assert!(a.stfu);
    assert_eq!(a.compression_or(CompressionType::Fast), CompressionType::Best);
}

#[test]
fn add_arguments_defaults_and_meta_equals_form() {
    let a = parse_add_args(&strings(&["a.rat", "f", "--meta=k=v", "--compression", "FAST", "--compression", "Default"]))
        .unwrap();
    assert_eq!(a.meta, vec![("k".to_string(), "v".to_string())]);
    assert_eq!(a.compression, Some(CompressionType::Default));
    assert!(!a.stfu);
    let b = parse_add_args(&strings(&["a.rat", "f"])).unwrap();
    assert_eq!(b.compression, None);
    assert!(b.meta.is_empty());
    assert_eq!(b.compression_or(CompressionType::Fast), CompressionType::Fast);
}

#[test]
fn creating_an_archive() {
    let quiet = parse_add_args(&strings(&["./test.rat", "./1.txt", "--stfu"])).unwrap();
    assert!(quiet.may_create(false));
    assert_eq!(quiet.creation_compression(CompressionType::Best), CompressionType::Fast);
    assert_eq!(
        file_rat::format::initial_content(quiet.creation_compression(CompressionType::Best)),
        b"|1;1;0/".to_vec()
    );
    let asked = parse_add_args(&strings(&["./test.rat", "./1.txt"])).unwrap();
    assert!(!asked.may_create(false));
    assert!(asked.may_create(true));
    assert_eq!(asked.creation_compression(CompressionType::Best), CompressionType::Best);
    let forced = parse_add_args(&strings(&["a", "f", "--stfu", "--compression", "default"])).unwrap();
    assert_eq!(forced.creation_compression(CompressionType::Best), CompressionType::Default);
}

#[test]
fn add_argument_errors() {
    let e = parse_add_args(&strings(&["a.rat"])).unwrap_err();
    assert_eq!(e.kind, CliErrorKind::AddUsage);
    let e = parse_add_args(&strings(&["a.rat", "f", "--compression", "zip"])).unwrap_err();
    assert_eq!((e.kind, e.subject.as_str()), (CliErrorKind::InvalidCompression, "zip"));
    let e = parse_add_args(&strings(&["a.rat", "f", "--meta"])).unwrap_err();
    assert_eq!((e.kind, e.subject.as_str()), (CliErrorKind::MissingValue, "--meta"));
    let e = parse_add_args(&strings(&["a.rat", "f", "--compression"])).unwrap_err();
    assert_eq!((e.kind, e.subject.as_str()), (CliErrorKind::MissingValue, "--compression"));
    let e = parse_add_args(&strings(&["a.rat", "f", "--meta", "novalue="])).unwrap_err();
    assert_eq!((e.kind, e.subject.as_str()), (CliErrorKind::InvalidMeta, "novalue="));
    let e = parse_add_args(&strings(&["a.rat", "f", "--meta=x"])).unwrap_err();
    assert_eq!((e.kind, e.subject.as_str()), (CliErrorKind::InvalidMeta, "x"));
    let e = parse_add_args(&strings(&["a.rat", "f", "--verbose"])).unwrap_err();
    assert_eq!((e.kind, e.subject.as_str()), (CliErrorKind::UnknownFlag, "--verbose"));
    // the first error wins
    let e = parse_add_args(&strings(&["a.rat", "f", "--bad", "--compression", "zip"])).unwrap_err();
    assert_eq!(e.kind, CliErrorKind::UnknownFlag);
}

#[test]
fn commands() {
    assert!(matches!(parse_command(&[]), Ok(Command::Help)));
    for h in ["help", "--help", "-help", "-h"] {
        assert!(matches!(parse_command(&strings(&[h, "x"])), Ok(Command::Help)));
    }
    match parse_command(&strings(&["list", "a.rat"])) {
        Ok(Command::List { archive_path }) => assert_eq!(archive_path, "a.rat"),
        _ => panic!("expected list"),
    }
    match parse_command(&strings(&["extract", "a.rat", "1.txt", "out", "x", "--remove"])) {
        Ok(Command::Extract { archive_path, selector, destination, remove }) => {
            assert_eq!((archive_path.as_str(), selector.as_str(), destination.as_str()), ("a.rat", "1.txt", "out"));
            assert!(remove);
        },
        _ => panic!("expected extract"),
    }
    match parse_command(&strings(&["extract", "a.rat", "1.txt", "out"])) {
        Ok(Command::Extract { remove, .. }) => assert!(!remove),
        _ => panic!("expected extract"),
    }
    match parse_command(&strings(&["remove", "a.rat", "1.txt"])) {
        Ok(Command::Remove { archive_path, selector }) => {
            assert_eq!((archive_path.as_str(), selector.as_str()), ("a.rat", "1.txt"))
        },
        _ => panic!("expected remove"),
    }
    match parse_command(&strings(&["add", "a.rat", "f", "--stfu"])) {
        Ok(Command::Add(a)) => assert!(a.stfu),
        _ => panic!("expected add"),
    }
    let kind = |v: &[&str]| parse_command(&strings(v)).err().map(|e| e.kind);
    assert_eq!(kind(&["add", "a.rat"]), Some(CliErrorKind::AddUsage));
    assert_eq!(kind(&["list"]), Some(CliErrorKind::ListUsage));
    assert_eq!(kind(&["list", "a", "b"]), Some(CliErrorKind::ListUsage));
    assert_eq!(kind(&["extract", "a", "b"]), Some(CliErrorKind::ExtractUsage));
    assert_eq!(kind(&["remove", "a"]), Some(CliErrorKind::RemoveUsage));
    assert_eq!(kind(&["add", "a", "f", "--x"]), Some(CliErrorKind::UnknownFlag));
    let e = parse_command(&strings(&["zip", "a"])).unwrap_err();
    assert_eq!((e.kind, e.subject.as_str()), (CliErrorKind::UnknownCommand, "zip"));
}

#[test]
fn answers() {
    assert_eq!(interpret_yes_no(" YES\n"), Some(true));
    assert_eq!(interpret_yes_no("y"), Some(true));
    assert_eq!(interpret_yes_no("No"), Some(false));
    assert_eq!(interpret_yes_no("n\r\n"), Some(false));
    assert_eq!(interpret_yes_no("maybe"), None);
    assert_eq!(interpret_yes_no(""), None);
    assert_eq!(interpret_default_choice("\n"), DefaultChoice::UseDefault);
    assert_eq!(interpret_default_choice("Yes"), DefaultChoice::UseDefault);
    assert_eq!(interpret_default_choice(" n "), DefaultChoice::Choose);
    assert_eq!(interpret_default_choice("what"), DefaultChoice::Retry);
    assert_eq!(interpret_compression_choice(" Best\n"), Some(CompressionType::Best));
    assert_eq!(interpret_compression_choice("fastest"), None);
}

fn item(id: u128, name: &str) -> FileItem<()> {
    FileItem { id, name: name.to_string(), metadata: (), start: 0, end: 0, size: 0 }
}

#[test]
fn resolving_an_item() {
    let id_a: u128 = 0x550e8400_e29b_41d4_a716_446655440000;
    let items = vec![item(id_a, "a.txt"), item(7, "b.txt"), item(8, "b.txt")];
    assert_eq!(resolve_item_id(&items, "550e8400-e29b-41d4-a716-446655440000").unwrap(), id_a);
    assert_eq!(resolve_item_id(&items, "550E8400E29B41D4A716446655440000").unwrap(), id_a);
    assert_eq!(resolve_item_id(&items, "b.txt").unwrap(), 7);
    let e = resolve_item_id(&items, "c.txt").unwrap_err();
    assert_eq!((e.kind, e.subject.as_str()), (CliErrorKind::ItemNotFound, "c.txt"));
    // a UUID that no item has falls back to names
    let named = vec![item(1, "00000000-0000-0000-0000-000000000009")];
    assert_eq!(resolve_item_id(&named, "00000000-0000-0000-0000-000000000009").unwrap(), 1);
}

#[test]
fn metadata_of_meta_assignments() {
    let a = parse_add_args(&strings(&[
        "a.rat", "f", "--meta", " owner =alice", "--meta=tag=x", "--meta", "owner=bob",
    ]))
    .unwrap();
    let m = a.metadata();
    assert_eq!(m.custom.len(), 2);
    assert_eq!(m.custom.get("owner"), Some(&serde_json::Value::String("bob".to_string())));
    assert_eq!(m.custom.get("tag"), Some(&serde_json::Value::String("x".to_string())));
    assert!(m.base.created_at > 1_600_000_000);
    let none = parse_add_args(&strings(&["a.rat", "f"])).unwrap().metadata();
    assert!(none.custom.is_empty());
}

#[test]
fn names_of_added_items() {
    assert_eq!(file_rat::cli::item_name(Some("1.txt")), "1.txt");
    assert_eq!(file_rat::cli::item_name(None), "untilted");
}
