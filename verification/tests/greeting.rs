use graph_search::hello::{greet, greeting, only_alphabetic, HelloError};

#[test]
fn test_greet() {
    assert_eq!(greet("Alice").unwrap(), "Hello, Alice!".to_string());

    assert!(matches!(greet("Alice1"), Err(HelloError::ParseError(_))));
}

#[test]
fn greet_says_why_a_name_is_refused() {
    assert_eq!(
        greet("R2D2"),
        Err(HelloError::ParseError(
            "Name should only contain alphabetic characters".to_string()
        ))
    );
    assert_eq!(
        greet("Mary Ann"),
        Err(HelloError::ParseError(
            "Name should only contain alphabetic characters".to_string()
        ))
    );
}

#[test]
fn greet_accepts_the_empty_name() {
    assert_eq!(greet(""), Ok("Hello, !".to_string()));
}

#[test]
fn greet_accepts_letters_of_any_script() {
    assert_eq!(greet("Zoë"), Ok("Hello, Zoë!".to_string()));
    assert_eq!(greet("京"), Ok("Hello, 京!".to_string()));
}

#[test]
fn only_alphabetic_reads_every_character() {
    assert!(only_alphabetic("World"));
    assert!(only_alphabetic(""));
    assert!(!only_alphabetic("World!"));
    assert!(!only_alphabetic("1World"));
    assert!(!only_alphabetic("Wor ld"));
    assert!(!only_alphabetic("💝"));
}

#[test]
fn greeting_follows_the_flag() {
    assert_eq!(greeting("Bob", true), Ok("Hello, Bob!".to_string()));
    assert_eq!(greeting("B0b", true), Ok("Hello, B0b!".to_string()));
    assert_eq!(
        greeting("Bob", false),
        Err(HelloError::ParseError(
            "Name should only contain alphabetic characters".to_string()
        ))
    );
}
