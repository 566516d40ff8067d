use dome::cli::{create_password, get_confirmation, read_answer, PASSWORDS_DIFFER};

#[test]
fn a_password_entered_twice_is_accepted() {
    assert_eq!(create_password("secret".to_string(), "secret".to_string()), Ok("secret".to_string()));
    assert_eq!(create_password(String::new(), String::new()), Ok(String::new()));
}

#[test]
fn two_different_entries_are_refused() {
    assert_eq!(
        create_password("secret".to_string(), "Secret".to_string()),
        Err("Passwords don't match!".to_string())
    );
    assert_eq!(
        create_password("secret".to_string(), String::new()),
        Err(PASSWORDS_DIFFER.to_string())
    );
}

#[test]
fn plain_answers_are_read() {
    assert_eq!(read_answer("y"), Some(true));
    assert_eq!(read_answer("yes"), Some(true));
    assert_eq!(read_answer("n"), Some(false));
    assert_eq!(read_answer("no"), Some(false));
    assert_eq!(read_answer(""), None);
    assert_eq!(read_answer("Y"), None);
    assert_eq!(read_answer(" y"), None);
    assert_eq!(read_answer("yess"), None);
    assert_eq!(read_answer("nope"), None);
}

#[test]
fn typed_lines_are_trimmed_and_lowered() {
    assert_eq!(get_confirmation("y\n"), Some(true));
    assert_eq!(get_confirmation("  YES \r\n"), Some(true));
    assert_eq!(get_confirmation("Yes"), Some(true));
    assert_eq!(get_confirmation("N"), Some(false));
    assert_eq!(get_confirmation("\tnO\n"), Some(false));
    assert_eq!(get_confirmation("\n"), None);
    assert_eq!(get_confirmation("maybe\n"), None);
    assert_eq!(get_confirmation("y e s"), None);
}
