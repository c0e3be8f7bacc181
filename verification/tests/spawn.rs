use cuicui_chirp::grammar::Error;
use cuicui_chirp::spawn::{
    check_method_name, error_span, method_error_span, name_verdict, DslFailure, InterpError,
    Parents, SpawnAt,
};

#[test]
fn parent_chain() {
    let mut parents = Parents::new(1);
    assert_eq!(parents.spawn_at(), SpawnAt::Root(1));
    parents.start_children(Some(1));
    assert_eq!(parents.spawn_at(), SpawnAt::ChildOf(1));
    parents.start_children(Some(2));
    assert_eq!(parents.spawn_at(), SpawnAt::ChildOf(2));
    parents.complete_children();
    assert_eq!(parents.spawn_at(), SpawnAt::ChildOf(1));
    parents.complete_children();
    assert_eq!(parents.spawn_at(), SpawnAt::ChildOf(1));
    assert_eq!(parents.root_entity, 1);
}

#[test]
fn failed_spawn_keeps_parent() {
    let mut parents = Parents::new(5);
    parents.start_children(None);
    assert_eq!(parents.spawn_at(), SpawnAt::ChildOf(5));
    parents.start_children(Some(6));
    parents.start_children(Some(7));
    assert_eq!(parents.spawn_at(), SpawnAt::ChildOf(7));
    parents.complete_children();
    assert_eq!(parents.spawn_at(), SpawnAt::ChildOf(6));
}

#[test]
fn method_names() {
    assert!(check_method_name(b"width").is_ok());
    assert!(matches!(check_method_name(b"Width"), Err(InterpError::UppercaseMethod(n)) if n == "Width"));
    assert!(matches!(check_method_name("Élan".as_bytes()), Err(InterpError::UppercaseMethod(_))));
    assert!(check_method_name("élan".as_bytes()).is_ok());
    assert!(matches!(check_method_name(b"\xff"), Err(InterpError::BadUtf8MethodName)));
    assert!(check_method_name(b"").is_ok());
}

#[test]
fn help_messages() {
    let missing = InterpError::DslError(DslFailure { missing_method: true, offset: None });
    assert_eq!(
        missing.help_message("MyDsl").as_deref(),
        Some("MyDsl doesn't contain a method with this name.")
    );
    let other = InterpError::DslError(DslFailure { missing_method: false, offset: Some(3) });
    assert_eq!(
        other.help_message("MyDsl").as_deref(),
        Some("The error comes from the ParseDsl implementation.")
    );
    assert_eq!(InterpError::Import.help_message("D"), None);
    assert_eq!(InterpError::CodeNotPresent("x".to_string()).help_message("D"), None);
    assert_eq!(InterpError::TemplateNotFound(b"t".to_vec()).help_message("D"), None);
    assert_eq!(
        InterpError::ParseError(Error::TrailingText).help_message("D").as_deref(),
        Some(Error::TrailingText.help())
    );
    assert!(InterpError::BadUtf8Argument.help_message("D").unwrap().starts_with("Chirp requires UTF8"));
    assert!(InterpError::BadUtf8MethodName.help_message("D").unwrap().starts_with("Chirp requires UTF8"));
    assert!(InterpError::UppercaseMethod("A".to_string())
        .help_message("D")
        .unwrap()
        .starts_with("You probably forgot"));
    assert_eq!(other.dsl_offset(), Some(3));
    assert_eq!(missing.dsl_offset(), None);
}

#[test]
fn error_spans() {
    let with_offset = InterpError::DslError(DslFailure { missing_method: false, offset: Some(3) });
    assert_eq!(error_span(&with_offset, (10, 20)), (13, 13));
    assert_eq!(error_span(&InterpError::Import, (10, 20)), (10, 20));
}

#[test]
fn method_error_spans() {
    assert_eq!(method_error_span((3, 8), Some((9, 15)), true), (3, 8));
    assert_eq!(method_error_span((3, 8), Some((9, 15)), false), (9, 15));
    assert_eq!(method_error_span((3, 8), None, false), (3, 8));
}

#[test]
fn name_verdicts() {
    assert!(matches!(name_verdict("width", false), Ok("width")));
    assert!(matches!(name_verdict("Width", true), Err(InterpError::UppercaseMethod(n)) if n == "Width"));
}

#[test]
fn parent_depth() {
    let mut parents = Parents::new(1);
    assert_eq!(parents.depth(), 0);
    parents.start_children(Some(2));
    assert_eq!(parents.depth(), 1);
    parents.start_children(Some(3));
    assert_eq!(parents.depth(), 1);
    parents.start_children(Some(4));
    assert_eq!(parents.depth(), 2);
    parents.complete_children();
    assert_eq!(parents.depth(), 1);
}
