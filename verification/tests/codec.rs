use async_chat::FromClient;
use async_chat::FromServer;
use async_chat::codec::decode_from_client;
use async_chat::codec::decode_from_server;
use async_chat::codec::encode_from_client;
use async_chat::codec::encode_from_server;

#[test]
fn test_fromclient_json() {
    let from_client = FromClient::Post {
        group_name: "Dogs".to_string(),
        message: "Samoyeds rock!".to_string(),
    };

    let json = encode_from_client(&from_client);
    assert_eq!(json, r#"{"Post":{"group_name":"Dogs","message":"Samoyeds rock!"}}"#);

    assert_eq!(decode_from_client(&json).unwrap(), from_client);
}

#[test]
fn join_line_round_trip() {
    let join = FromClient::Join { group_name: "Dogs".to_string() };
    let json = encode_from_client(&join);
    assert_eq!(json, r#"{"Join":{"group_name":"Dogs"}}"#);
    assert_eq!(decode_from_client(&json).unwrap(), join);
}

#[test]
fn server_lines_round_trip() {
    let msg = FromServer::Message {
        group_name: "Dogs".to_string(),
        message: "woof".to_string(),
    };
    let json = encode_from_server(&msg);
    assert_eq!(json, r#"{"Message":{"group_name":"Dogs","message":"woof"}}"#);
    assert_eq!(decode_from_server(&json).unwrap(), msg);

    let err = FromServer::Error("Group 'Cats' does not exist".to_string());
    let json = encode_from_server(&err);
    assert_eq!(json, r#"{"Error":"Group 'Cats' does not exist"}"#);
    assert_eq!(decode_from_server(&json).unwrap(), err);
}

#[test]
fn escapes_round_trip() {
    let tricky = "a \"quote\", a \\backslash\\, a\nnewline, a\ttab, and a \u{1} control byte";
    let post = FromClient::Post {
        group_name: "Dogs".to_string(),
        message: tricky.to_string(),
    };
    let json = encode_from_client(&post);
    assert_eq!(
        json,
        "{\"Post\":{\"group_name\":\"Dogs\",\"message\":\"a \\\"quote\\\", a \\\\backslash\\\\, a\\nnewline, a\\ttab, and a \\u0001 control byte\"}}"
    );
    assert!(!json.contains('\n'));
    assert_eq!(decode_from_client(&json).unwrap(), post);
}

#[test]
fn all_control_characters_round_trip() {
    let mut text = String::new();
    for b in 0u8..0x20u8 {
        text.push(b as char);
    }
    let err = FromServer::Error(text);
    let json = encode_from_server(&err);
    assert!(!json.contains('\n'));
    assert_eq!(decode_from_server(&json).unwrap(), err);
}

#[test]
fn unicode_message_round_trip() {
    let post = FromClient::Post {
        group_name: "Hunde".to_string(),
        message: "wau wau \u{1f436} \u{3053}\u{3093}".to_string(),
    };
    let json = encode_from_client(&post);
    assert_eq!(decode_from_client(&json).unwrap(), post);
}

#[test]
fn decode_rejects_other_lines() {
    assert_eq!(decode_from_client("nonsense"), None);
    assert_eq!(decode_from_client(""), None);
    assert_eq!(decode_from_client(r#"{"Join":{"group_name":"Dogs"}"#), None);
    assert_eq!(decode_from_client(r#"{"Join":{"group_name":"Dogs"}}extra"#), None);
    assert_eq!(decode_from_client(r#"{"Message":{"group_name":"Dogs","message":"woof"}}"#), None);
    assert_eq!(decode_from_server(r#"{"Post":{"group_name":"Dogs","message":"woof"}}"#), None);
    // a raw control character may not stand unescaped inside a field
    assert_eq!(decode_from_client("{\"Join\":{\"group_name\":\"a\nb\"}}"), None);
}
