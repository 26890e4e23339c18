use communication::broker::{start_notice, Broker, CatalogReply, Request, SubscriberMessage};
use communication::table::{Delivery, OutputKey, SubscriptionId};

type TestBroker = Broker<u32, u8, String>;

fn key(cycler: &str, output: &str) -> OutputKey {
    OutputKey::new(cycler.to_string(), output.to_string())
}

fn id(value: u128) -> SubscriptionId {
    SubscriptionId { value }
}

fn names(outputs: &[&str]) -> Vec<String> {
    outputs.iter().map(|o| o.to_string()).collect()
}

#[test]
fn new_broker_is_empty_and_disconnected() {
    let broker = TestBroker::new();
    assert!(!broker.is_connected());
    assert_eq!(broker.connection(), &None);
    assert_eq!(broker.catalog(), &None);
    assert_eq!(broker.table().len(), 0);
}

#[test]
fn many_subscribers_while_connected_start_once() {
    let mut broker = TestBroker::new();
    assert_eq!(broker.connect(7), vec![Request::QueryCatalog]);
    let output = key("Control", "main_outputs.ball_position");
    let mut sent = Vec::new();
    for n in 1..=5u32 {
        sent.extend(broker.subscribe_with_id(output.clone(), id(n as u128), n));
    }
    assert_eq!(
        sent,
        vec![Request::StartSubscription { output: output.clone(), notify: vec![id(1)] }]
    );
    let index = broker.table().find(&output).unwrap();
    assert_eq!(broker.table().ids_at(index), vec![id(1), id(2), id(3), id(4), id(5)]);
}

#[test]
fn reconnect_replays_every_tracked_output() {
    let mut broker = TestBroker::new();
    let a = key("Control", "a");
    let b = key("Vision", "b");
    assert!(broker.subscribe_with_id(a.clone(), id(1), 10).is_empty());
    assert!(broker.subscribe_with_id(b.clone(), id(2), 20).is_empty());
    assert!(broker.subscribe_with_id(a.clone(), id(3), 30).is_empty());
    let sent = broker.connect(1);
    assert_eq!(
        sent,
        vec![
            Request::StartSubscription { output: a.clone(), notify: vec![id(1), id(3)] },
            Request::StartSubscription { output: b.clone(), notify: vec![id(2)] },
            Request::QueryCatalog,
        ]
    );
    assert_eq!(broker.connection(), &Some(1));
    broker.disconnect();
    let again = broker.connect(2);
    assert_eq!(again, sent);
    assert_eq!(broker.connection(), &Some(2));
}

#[test]
fn disconnected_broker_sends_nothing_and_resubscribes_later() {
    let mut broker = TestBroker::new();
    broker.connect(1);
    broker.disconnect();
    let o = key("Control", "o");
    let p = key("Control", "p");
    assert!(broker.subscribe_with_id(o.clone(), id(1), 1).is_empty());
    assert!(broker.subscribe_with_id(p.clone(), id(2), 2).is_empty());
    assert!(broker.unsubscribe(&p, id(2)).is_empty());
    assert_eq!(broker.table().find(&p), None);
    let sent = broker.connect(3);
    assert_eq!(
        sent,
        vec![
            Request::StartSubscription { output: o.clone(), notify: vec![id(1)] },
            Request::QueryCatalog,
        ]
    );
}

#[test]
fn last_unsubscribe_prunes_the_output() {
    let mut broker = TestBroker::new();
    broker.connect(1);
    let o = key("Control", "o");
    let other = key("Control", "other");
    broker.subscribe_with_id(o.clone(), id(1), 1);
    broker.subscribe_with_id(o.clone(), id(2), 2);
    broker.subscribe_with_id(other.clone(), id(3), 3);

    assert!(broker.unsubscribe(&o, id(1)).is_empty());
    let index = broker.table().find(&o).unwrap();
    assert_eq!(broker.table().ids_at(index), vec![id(2)]);
    assert_eq!(broker.table().channel(&o, id(2)), Some(&2));
    assert_eq!(broker.table().channel(&o, id(1)), None);

    assert_eq!(broker.unsubscribe(&o, id(2)), vec![Request::StopSubscription { output: o.clone() }]);
    assert_eq!(broker.table().find(&o), None);
    assert_eq!(broker.table().len(), 1);
    assert_eq!(broker.table().channel(&other, id(3)), Some(&3));
}

#[test]
fn unsubscribe_of_unknown_output_or_id_is_ignored() {
    let mut broker = TestBroker::new();
    broker.connect(1);
    let o = key("Control", "o");
    broker.subscribe_with_id(o.clone(), id(1), 1);
    assert!(broker.unsubscribe(&key("Control", "missing"), id(1)).is_empty());
    assert!(broker.unsubscribe(&o, id(99)).is_empty());
    assert_eq!(broker.table().len(), 1);
    assert_eq!(broker.table().channel(&o, id(1)), Some(&1));
}

#[test]
fn resubscribing_an_id_replaces_its_channel() {
    let mut broker = TestBroker::new();
    let o = key("Control", "o");
    broker.subscribe_with_id(o.clone(), id(1), 1);
    broker.subscribe_with_id(o.clone(), id(1), 5);
    let index = broker.table().find(&o).unwrap();
    assert_eq!(broker.table().ids_at(index), vec![id(1)]);
    assert_eq!(broker.table().channel(&o, id(1)), Some(&5));
}

#[test]
fn update_fans_out_to_the_subscribers_of_each_output() {
    let mut broker = TestBroker::new();
    broker.connect(1);
    broker.subscribe_with_id(key("Control", "k"), id(1), 1);
    broker.subscribe_with_id(key("Control", "k"), id(2), 2);
    broker.subscribe_with_id(key("Control", "j"), id(3), 3);
    broker.subscribe_with_id(key("Vision", "k"), id(4), 4);

    let deliveries = broker.update(&"Control".to_string(), &names(&["k"]));
    assert_eq!(
        deliveries,
        vec![
            Delivery { index: 0, subscriber: id(1) },
            Delivery { index: 0, subscriber: id(2) },
        ]
    );

    let deliveries = broker.update(&"Control".to_string(), &names(&["unknown", "j", "k"]));
    assert_eq!(
        deliveries,
        vec![
            Delivery { index: 1, subscriber: id(3) },
            Delivery { index: 2, subscriber: id(1) },
            Delivery { index: 2, subscriber: id(2) },
        ]
    );

    assert!(broker.update(&"Audio".to_string(), &names(&["k"])).is_empty());
    assert!(broker.update(&"Control".to_string(), &Vec::new()).is_empty());
}

#[test]
fn late_joiner_gets_no_start_notice() {
    let mut broker = TestBroker::new();
    broker.connect(1);
    let o = key("Control", "o");
    let first = broker.subscribe_with_id(o.clone(), id(1), 1);
    assert_eq!(first, vec![Request::StartSubscription { output: o.clone(), notify: vec![id(1)] }]);
    let reply: Result<(), String> = Ok(());
    let notice: SubscriberMessage<u32> = start_notice(&reply);
    assert_eq!(notice, SubscriberMessage::SubscriptionSuccess);

    let late = broker.subscribe_with_id(o.clone(), id(2), 2);
    assert!(late.is_empty());
    let deliveries = broker.update(&"Control".to_string(), &names(&["o"]));
    assert_eq!(
        deliveries,
        vec![
            Delivery { index: 0, subscriber: id(1) },
            Delivery { index: 0, subscriber: id(2) },
        ]
    );
}

#[test]
fn failed_start_becomes_a_failure_notice() {
    let reply: Result<u8, String> = Err("no such output".to_string());
    let notice: SubscriberMessage<u32> = start_notice(&reply);
    assert_eq!(
        notice,
        SubscriberMessage::SubscriptionFailure { info: "no such output".to_string() }
    );
}

#[test]
fn catalog_is_kept_across_failed_queries() {
    let mut broker = TestBroker::new();
    broker.finish_catalog_query(CatalogReply::Failed("timeout".to_string()));
    assert_eq!(broker.catalog(), &None);
    broker.connect(1);
    broker.finish_catalog_query(CatalogReply::Parsed("first".to_string()));
    assert_eq!(broker.catalog(), &Some("first".to_string()));
    broker.finish_catalog_query(CatalogReply::Failed("gone".to_string()));
    assert_eq!(broker.catalog(), &Some("first".to_string()));
    broker.finish_catalog_query(CatalogReply::Malformed("not a catalog".to_string()));
    assert_eq!(broker.catalog(), &Some("first".to_string()));
    broker.disconnect();
    assert_eq!(broker.catalog(), &Some("first".to_string()));
    broker.finish_catalog_query(CatalogReply::Parsed("second".to_string()));
    assert_eq!(broker.catalog(), &Some("second".to_string()));
    broker.update_catalog("third".to_string());
    assert_eq!(broker.catalog(), &Some("third".to_string()));
}

#[test]
fn subscribe_draws_distinct_random_ids() {
    let mut broker = TestBroker::new();
    broker.connect(1);
    let o = key("Control", "o");
    let (first, sent) = broker.subscribe(o.clone(), 1);
    assert_eq!(sent, vec![Request::StartSubscription { output: o.clone(), notify: vec![first] }]);
    let (second, sent) = broker.subscribe(o.clone(), 2);
    assert!(sent.is_empty());
    assert_ne!(first, second);
    assert_ne!(first.value, 0);
    assert_eq!(broker.table().channel(&o, first), Some(&1));
    assert_eq!(broker.table().channel(&o, second), Some(&2));
}

#[test]
fn output_keys_compare_by_cycler_and_path() {
    let a = key("Control", "x");
    assert!(a.same_as(&key("Control", "x")));
    assert!(!a.same_as(&key("Vision", "x")));
    assert!(!a.same_as(&key("Control", "y")));
    assert!(a.duplicate().same_as(&a));
}
