use tack::author::{author_email_from_env, author_name_from_env, Author, AuthorEnv};

fn env() -> AuthorEnv {
    AuthorEnv {
        author_name: None,
        author_email: None,
        username: None,
        user: None,
        computer_name: None,
        hostname: None,
    }
}

#[test]
fn without_an_environment_there_are_defaults() {
    let author = Author::from_env(&env());
    assert_eq!(author.name, "tack");
    assert_eq!(author.email, "tack@localhost");
}

#[test]
fn the_first_value_that_says_something_wins() {
    let env = AuthorEnv {
        author_name: Some("   ".to_owned()),
        username: Some("win".to_owned()),
        user: Some("unix".to_owned()),
        computer_name: Some(String::new()),
        hostname: Some("box".to_owned()),
        ..env()
    };
    assert_eq!(author_name_from_env(&env), "win");
    assert_eq!(author_email_from_env(&env, "Bob"), "Bob@box");
}

#[test]
fn explicit_values_come_first() {
    let env = AuthorEnv {
        author_name: Some(" Alice ".to_owned()),
        author_email: Some("a@b".to_owned()),
        username: Some("win".to_owned()),
        ..env()
    };
    let author = Author::from_env(&env);
    // A value is taken as it is, white space and all.
    assert_eq!(author.name, " Alice ");
    assert_eq!(author.email, "a@b");
}
