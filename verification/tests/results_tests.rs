use spread_server::results::{
    optional_to_string, optional_to_vector, string_to_optional, vector_to_optional, Argument,
    Response,
};
use spread_server::users::User;

#[test]
fn string_to_optional_drops_empty() {
    assert_eq!(string_to_optional("".to_string()), None);
    assert_eq!(string_to_optional("x".to_string()), Some("x".to_string()));
}

#[test]
fn optional_to_string_restores_empty() {
    assert_eq!(optional_to_string(None), "");
    assert_eq!(optional_to_string(Some("x".to_string())), "x");
}

#[test]
fn vector_to_optional_drops_empty() {
    let empty: Vec<u32> = vec![];
    assert_eq!(vector_to_optional(empty), None);
    assert_eq!(vector_to_optional(vec![1u32, 2]), Some(vec![1u32, 2]));
}

#[test]
fn optional_to_vector_restores_empty() {
    let none: Option<Vec<u32>> = None;
    assert_eq!(optional_to_vector(none), Vec::<u32>::new());
    assert_eq!(optional_to_vector(Some(vec![3u32])), vec![3u32]);
}

#[test]
fn response_new_collapses_empties() {
    let r = Response::new(true, "".to_string(), vec![]);
    assert!(r.success);
    assert!(r.message.is_none());
    assert!(r.value.is_none());
    let r = Response::new(true, "done".to_string(), vec![]);
    assert_eq!(r.message.as_deref(), Some("done"));
}

#[test]
fn response_error_clears_success() {
    let r = Response::error("oops".to_string(), vec![]);
    assert!(!r.success);
    assert_eq!(r.message.as_deref(), Some("oops"));
}

#[test]
fn response_default_is_blank_failure() {
    let r = Response::default();
    assert!(!r.success && r.message.is_none() && r.value.is_none());
}

#[test]
fn argument_new_collapses_empties() {
    let a = Argument::new(
        "alice".to_string(),
        "sheet".to_string(),
        "".to_string(),
        "".to_string(),
    );
    assert_eq!(a.publisher, "alice");
    assert_eq!(a.sheet.as_deref(), Some("sheet"));
    assert!(a.id.is_none());
    assert!(a.payload.is_none());
}

#[test]
fn builtin_names_are_authorized() {
    assert!(User::new("Brooklyn".to_string(), "p".to_string()).is_authorized);
    assert!(User::new("Daniel".to_string(), "p".to_string()).is_authorized);
    assert!(User::new("Leo".to_string(), "p".to_string()).is_authorized);
    assert!(!User::new("mallory".to_string(), "p".to_string()).is_authorized);
}

#[test]
fn default_user_is_blank() {
    let u = User::default();
    assert_eq!(u.username, "");
    assert_eq!(u.password, "");
    assert!(!u.is_authorized);
}
