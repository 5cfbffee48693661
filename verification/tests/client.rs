use async_chat::FromClient;
use async_chat::client::get_next_token;
use async_chat::client::parse_command;

#[test]
fn parse_join_command() {
    assert_eq!(
        parse_command("join Dogs"),
        Some(FromClient::Join { group_name: "Dogs".to_string() })
    );
    assert_eq!(
        parse_command("  join   Dogs   "),
        Some(FromClient::Join { group_name: "Dogs".to_string() })
    );
    // anything after the group name makes the join invalid
    assert_eq!(parse_command("join Dogs extra"), None);
}

#[test]
fn parse_post_command() {
    assert_eq!(
        parse_command("post Dogs Samoyeds rock!"),
        Some(FromClient::Post {
            group_name: "Dogs".to_string(),
            message: "Samoyeds rock!".to_string(),
        })
    );
    // only leading whitespace of the message is trimmed
    assert_eq!(
        parse_command("post Dogs   spaced out  "),
        Some(FromClient::Post {
            group_name: "Dogs".to_string(),
            message: "spaced out  ".to_string(),
        })
    );
    // a post with no message text posts the empty message
    assert_eq!(
        parse_command("post Dogs"),
        Some(FromClient::Post { group_name: "Dogs".to_string(), message: "".to_string() })
    );
}

#[test]
fn parse_rejects_other_lines() {
    assert_eq!(parse_command(""), None);
    assert_eq!(parse_command("   "), None);
    assert_eq!(parse_command("shout Dogs hello"), None);
    assert_eq!(parse_command("join"), None);
    assert_eq!(parse_command("post"), None);
}

#[test]
fn next_token_splits_on_whitespace() {
    assert_eq!(get_next_token("  one two "), Some(("one", " two ")));
    assert_eq!(get_next_token("one"), Some(("one", "")));
    assert_eq!(get_next_token("   "), None);
    assert_eq!(get_next_token(""), None);
}
