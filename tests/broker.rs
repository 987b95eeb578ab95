use sseplex::broker::{
    BrokerMessage, Connect, Delivery, Disconnect, EventSource, PostMessage, Publish, SendOutcome, SendReport,
    StartDummySender,
};

fn connect(es: &mut EventSource, topic: &str, h: u64) {
    es.connect(Connect { topic: topic.to_string(), addr: h });
}

fn publish(es: &EventSource, topic: &str, text: &str) -> Vec<Delivery> {
    es.publish(Publish { topic: topic.to_string(), text: text.to_string() })
}

fn sorted_targets(ds: &[Delivery]) -> Vec<u64> {
    let mut v: Vec<u64> = ds.iter().map(|d| d.to).collect();
    v.sort();
    v
}

#[test]
fn end_to_end_news_and_sports() {
    let mut es = EventSource::default();
    connect(&mut es, "news", 1);
    let ds = publish(&es, "news", "hello");
    assert_eq!(ds.len(), 1);
    assert_eq!(ds[0].to, 1);
    assert_eq!(ds[0].event.topic, "news");
    assert_eq!(ds[0].event.text, "hello");

    connect(&mut es, "sports", 2);
    let ds = publish(&es, "news", "world");
    assert_eq!(sorted_targets(&ds), vec![1]);
    assert_eq!(ds[0].event.text, "world");

    es.disconnect(Disconnect { addr: 1 });
    let ds = publish(&es, "news", "x");
    assert!(ds.is_empty());
    assert!(!es.has_topic(&"news".to_string()));
    assert!(es.has_topic(&"sports".to_string()));
}

#[test]
fn publish_reaches_exactly_the_topic_subscribers() {
    let mut es = EventSource::default();
    connect(&mut es, "t", 10);
    connect(&mut es, "t", 11);
    connect(&mut es, "t", 12);
    connect(&mut es, "other", 13);
    let ds = publish(&es, "t", "m");
    assert_eq!(sorted_targets(&ds), vec![10, 11, 12]);
    for d in &ds {
        assert_eq!(d.event.topic, "t");
        assert_eq!(d.event.text, "m");
    }
}

#[test]
fn connect_then_disconnect_restores_registry() {
    let mut es = EventSource::default();
    connect(&mut es, "a", 1);
    connect(&mut es, "b", 2);
    connect(&mut es, "a", 3);
    es.disconnect(Disconnect { addr: 3 });
    assert_eq!(sorted_targets(&publish(&es, "a", "x")), vec![1]);
    assert_eq!(sorted_targets(&publish(&es, "b", "x")), vec![2]);
    assert_eq!(es.topic_count(), 2);

    connect(&mut es, "c", 4);
    es.disconnect(Disconnect { addr: 4 });
    assert!(!es.has_topic(&"c".to_string()));
    assert_eq!(es.topic_count(), 2);
}

#[test]
fn disconnect_of_unknown_handle_is_noop() {
    let mut es = EventSource::default();
    es.disconnect(Disconnect { addr: 99 });
    assert_eq!(es.topic_count(), 0);
    connect(&mut es, "a", 1);
    es.disconnect(Disconnect { addr: 99 });
    assert_eq!(es.topic_count(), 1);
    assert_eq!(sorted_targets(&publish(&es, "a", "x")), vec![1]);
}

#[test]
fn publish_to_topic_without_subscribers_is_noop() {
    let mut es = EventSource::default();
    assert!(publish(&es, "nobody", "x").is_empty());
    connect(&mut es, "a", 1);
    assert!(publish(&es, "nobody", "x").is_empty());
    assert_eq!(es.topic_count(), 1);
}

#[test]
fn many_connects_then_first_disconnects() {
    let mut es = EventSource::default();
    for h in 1..=5u64 {
        connect(&mut es, "t", h);
    }
    es.disconnect(Disconnect { addr: 1 });
    assert_eq!(sorted_targets(&publish(&es, "t", "m")), vec![2, 3, 4, 5]);
}

#[test]
fn emptied_topic_disappears() {
    let mut es = EventSource::default();
    connect(&mut es, "t", 1);
    connect(&mut es, "t", 2);
    es.disconnect(Disconnect { addr: 1 });
    assert!(es.has_topic(&"t".to_string()));
    es.disconnect(Disconnect { addr: 2 });
    assert!(!es.has_topic(&"t".to_string()));
    assert_eq!(es.topic_count(), 0);
}

#[test]
fn duplicate_connect_delivers_once() {
    let mut es = EventSource::default();
    connect(&mut es, "t", 7);
    connect(&mut es, "t", 7);
    assert_eq!(sorted_targets(&publish(&es, "t", "m")), vec![7]);
    es.disconnect(Disconnect { addr: 7 });
    assert!(!es.has_topic(&"t".to_string()));
}

#[test]
fn handle_on_two_topics_leaves_both() {
    let mut es = EventSource::default();
    connect(&mut es, "a", 1);
    connect(&mut es, "b", 1);
    connect(&mut es, "b", 2);
    es.disconnect(Disconnect { addr: 1 });
    assert!(!es.has_topic(&"a".to_string()));
    assert_eq!(sorted_targets(&publish(&es, "b", "m")), vec![2]);
}

#[test]
fn closed_inboxes_are_evicted_full_ones_stay() {
    let mut es = EventSource::default();
    connect(&mut es, "t", 1);
    connect(&mut es, "t", 2);
    connect(&mut es, "t", 3);
    connect(&mut es, "u", 3);
    let reports = vec![
        SendReport { to: 1, outcome: SendOutcome::Delivered },
        SendReport { to: 2, outcome: SendOutcome::Full },
        SendReport { to: 3, outcome: SendOutcome::Closed },
    ];
    es.record_send_results(&reports);
    assert_eq!(sorted_targets(&publish(&es, "t", "m")), vec![1, 2]);
    assert!(!es.has_topic(&"u".to_string()));
}

#[test]
fn heartbeat_is_off_by_default() {
    let mut es = EventSource::default();
    connect(&mut es, "t", 1);
    assert!(es.generate_data().is_empty());
    assert!(es.generate_data().is_empty());
}

#[test]
fn heartbeat_numbers_each_topic() {
    let mut es = EventSource::default();
    connect(&mut es, "a", 1);
    connect(&mut es, "b", 2);
    connect(&mut es, "b", 3);
    es.start_dummy_sender(StartDummySender);
    let ds = es.generate_data();
    assert_eq!(ds.len(), 3);
    let a: Vec<&Delivery> = ds.iter().filter(|d| d.event.topic == "a").collect();
    assert_eq!(a.len(), 1);
    assert_eq!(a[0].to, 1);
    assert_eq!(a[0].event.text, "event 1");
    let b: Vec<&Delivery> = ds.iter().filter(|d| d.event.topic == "b").collect();
    assert_eq!(b.len(), 2);
    assert!(b.iter().all(|d| d.event.text == "event 2"));

    let ds = es.generate_data();
    let texts: Vec<String> = ds.iter().map(|d| d.event.text.clone()).collect();
    assert!(texts.contains(&"event 3".to_string()));
    assert!(texts.contains(&"event 4".to_string()));
}

#[test]
fn heartbeat_without_topics_sends_nothing() {
    let mut es = EventSource::default();
    es.start_dummy_sender(StartDummySender);
    assert!(es.generate_data().is_empty());
}

#[test]
fn post_form_becomes_publish() {
    let p = PostMessage { text: "hi".to_string() }.into_publish("t".to_string());
    assert_eq!(p.topic, "t");
    assert_eq!(p.text, "hi");
}

#[test]
fn many_connects_in_any_order_then_one_disconnects() {
    let mut es = EventSource::default();
    for h in [4u64, 2, 5, 1, 3] {
        connect(&mut es, "t", h);
    }
    es.disconnect(Disconnect { addr: 1 });
    assert_eq!(sorted_targets(&publish(&es, "t", "m")), vec![2, 3, 4, 5]);
}

#[test]
fn handle_serves_each_request() {
    let mut es = EventSource::default();
    let r = es.handle(BrokerMessage::Connect(Connect { topic: "news".to_string(), addr: 1 }));
    assert!(r.is_empty());
    es.handle(BrokerMessage::Connect(Connect { topic: "sports".to_string(), addr: 2 }));
    let r = es.handle(BrokerMessage::Publish(Publish {
        topic: "news".to_string(),
        text: "hello".to_string(),
    }));
    assert_eq!(sorted_targets(&r), vec![1]);
    assert_eq!(r[0].event.text, "hello");
    let r = es.handle(BrokerMessage::Publish(Publish {
        topic: "weather".to_string(),
        text: "rain".to_string(),
    }));
    assert!(r.is_empty());
    es.handle(BrokerMessage::Disconnect(Disconnect { addr: 1 }));
    assert!(!es.has_topic(&"news".to_string()));
    es.handle(BrokerMessage::Disconnect(Disconnect { addr: 42 }));
    assert_eq!(es.topic_count(), 1);
    assert!(es.handle(BrokerMessage::StartDummySender(StartDummySender)).is_empty());
    let ds = es.generate_data();
    assert_eq!(ds.len(), 1);
    assert_eq!(ds[0].to, 2);
    assert_eq!(ds[0].event.text, "event 1");
}
