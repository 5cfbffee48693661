use async_chat::FromClient;
use async_chat::FromServer;
use async_chat::codec::encode_from_server;
use async_chat::connection::Action;
use async_chat::connection::Delivery;
use async_chat::connection::handle_request;
use async_chat::connection::next_packet;
use async_chat::group::Group;
use async_chat::group::Recv;
use async_chat::registry::GroupTable;

fn join(table: &mut GroupTable, group: &str) -> (usize, async_chat::group::Subscription) {
    match handle_request(table, FromClient::Join { group_name: group.to_string() }) {
        Action::Subscribed(i, sub) => (i, sub),
        _ => panic!("join must subscribe"),
    }
}

fn post(table: &mut GroupTable, group: &str, message: &str) -> Action {
    handle_request(
        table,
        FromClient::Post { group_name: group.to_string(), message: message.to_string() },
    )
}

#[test]
fn fanout_delivers_in_order_to_all_subscribers() {
    let mut table = GroupTable::new();
    let (ga, mut sub_a) = join(&mut table, "Dogs");
    let (gb, mut sub_b) = join(&mut table, "Dogs");
    assert_eq!(ga, gb);
    assert!(matches!(post(&mut table, "Dogs", "one"), Action::Posted(_)));
    assert!(matches!(post(&mut table, "Dogs", "two"), Action::Posted(_)));

    for sub in [&mut sub_a, &mut sub_b] {
        match next_packet(&table.groups[ga], sub) {
            Delivery::Packet(FromServer::Message { group_name, message }) => {
                assert_eq!(group_name, "Dogs");
                assert_eq!(message, "one");
            },
            _ => panic!("expected the first message"),
        }
        match next_packet(&table.groups[ga], sub) {
            Delivery::Packet(FromServer::Message { message, .. }) => {
                assert_eq!(message, "two");
            },
            _ => panic!("expected the second message"),
        }
        assert!(matches!(next_packet(&table.groups[ga], sub), Delivery::Wait));
    }
}

#[test]
fn post_to_empty_group_succeeds_and_has_no_effect() {
    let mut table = GroupTable::new();
    let (i, _forgotten) = join(&mut table, "Dogs");
    // nobody is listening: the post still succeeds and reports no error
    assert!(matches!(post(&mut table, "Dogs", "lost"), Action::Posted(_)));
    // a subscription made afterwards never sees the message
    let mut sub = table.groups[i].join();
    assert!(matches!(next_packet(&table.groups[i], &mut sub), Delivery::Wait));
}

#[test]
fn post_to_unknown_group_replies_one_error_and_changes_nothing() {
    let mut table = GroupTable::new();
    let (_, _sub) = join(&mut table, "Dogs");
    let before = table.groups.len();
    let total_before = table.groups[0].total;
    match post(&mut table, "Cats", "meow") {
        Action::Reply(FromServer::Error(text)) => {
            assert_eq!(text, "Group 'Cats' does not exist");
        },
        _ => panic!("expected exactly one error reply"),
    }
    assert_eq!(table.groups.len(), before);
    assert_eq!(table.groups[0].total, total_before);
}

#[test]
fn lagging_subscriber_gets_one_report_then_resumes_in_order() {
    let mut group = Group::new("Dogs".to_string());
    let mut sub = group.join();
    for k in 0..1002u32 {
        group.post(format!("m{}", k));
    }
    // 1002 posted, 1000 retained: the two oldest are gone
    match sub.recv(&group) {
        Recv::Lagged(n) => assert_eq!(n, 2),
        _ => panic!("expected a lag report"),
    }
    for k in 2..1002u32 {
        match sub.recv(&group) {
            Recv::Message(m) => assert_eq!(m, format!("m{}", k)),
            _ => panic!("expected every retained message, in order"),
        }
    }
    assert!(matches!(sub.recv(&group), Recv::Empty));
}

#[test]
fn lag_error_text_reports_the_count() {
    let mut group = Group::new("Dogs".to_string());
    let mut sub = group.join();
    for k in 0..1012u32 {
        group.post(format!("m{}", k));
    }
    match next_packet(&group, &mut sub) {
        Delivery::Packet(FromServer::Error(text)) => {
            assert_eq!(text, "Dropped 12 messages from Dogs.");
        },
        _ => panic!("expected the lag error record"),
    }
    match next_packet(&group, &mut sub) {
        Delivery::Packet(FromServer::Message { message, .. }) => assert_eq!(message, "m12"),
        _ => panic!("expected delivery to resume"),
    }
}

#[test]
fn get_or_create_registers_each_name_once() {
    let mut table = GroupTable::new();
    let a = table.get_or_create("Dogs".to_string());
    let b = table.get_or_create("Dogs".to_string());
    let c = table.get_or_create("Cats".to_string());
    assert_eq!(a, b);
    assert_ne!(a, c);
    assert_eq!(table.groups.len(), 2);
    assert_eq!(table.get(&"Dogs".to_string()), Some(a));
    assert_eq!(table.get(&"Birds".to_string()), None);
}

#[test]
fn closed_group_ends_the_delivery_loop_after_draining() {
    let mut group = Group::new("Dogs".to_string());
    let mut sub = group.join();
    group.post("last".to_string());
    group.close();
    match next_packet(&group, &mut sub) {
        Delivery::Packet(FromServer::Message { message, .. }) => assert_eq!(message, "last"),
        _ => panic!("pending messages drain before the end of the stream"),
    }
    assert!(matches!(next_packet(&group, &mut sub), Delivery::Stop));
}

#[test]
fn scenario_join_post_deliver() {
    // client A joins "Dogs"; client B joins "Dogs"; client B posts "woof"
    let mut table = GroupTable::new();
    let (ga, mut sub_a) = join(&mut table, "Dogs");
    let (_, mut sub_b) = join(&mut table, "Dogs");
    let action = post(&mut table, "Dogs", "woof");
    // the poster's request loop gets no echo back: the post is accepted
    // silently, and records reach clients only through subscriptions
    assert!(matches!(action, Action::Posted(_)));
    match next_packet(&table.groups[ga], &mut sub_a) {
        Delivery::Packet(packet) => {
            assert_eq!(
                encode_from_server(&packet),
                r#"{"Message":{"group_name":"Dogs","message":"woof"}}"#
            );
        },
        _ => panic!("client A receives the post"),
    }
    // B subscribed too, so B's own subscription also yields the message
    assert!(matches!(
        next_packet(&table.groups[ga], &mut sub_b),
        Delivery::Packet(FromServer::Message { .. })
    ));
}

#[test]
fn scenario_post_without_joining() {
    // client C posts to "Cats" without ever joining
    let mut table = GroupTable::new();
    let action = post(&mut table, "Cats", "meow");
    match action {
        Action::Reply(packet) => {
            assert_eq!(encode_from_server(&packet), r#"{"Error":"Group 'Cats' does not exist"}"#);
        },
        _ => panic!("client C receives the unknown-group error"),
    }
    // the connection stays usable: a later join and post work as usual
    let (i, mut sub) = join(&mut table, "Cats");
    assert!(matches!(post(&mut table, "Cats", "meow"), Action::Posted(_)));
    match next_packet(&table.groups[i], &mut sub) {
        Delivery::Packet(FromServer::Message { message, .. }) => assert_eq!(message, "meow"),
        _ => panic!("the later post is delivered"),
    }
}
