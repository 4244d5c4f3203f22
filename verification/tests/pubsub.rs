use kv_core::pubsub::{ChannelPattern, PubSubManager, pattern_equals};
use kv_core::types::Value;

fn create_test_manager() -> PubSubManager {
    PubSubManager::new(std::time::Duration::from_millis(100), std::time::Duration::from_secs(1))
}

#[test]
fn test_exact_channel_subscription() {
    let mut manager = create_test_manager();

    let pattern = ChannelPattern::exact("test:channel".to_string());
    let mut receiver = manager.subscribe(pattern).unwrap();

    let message = Value::String("Hello, World!".to_string());
    let delivered = manager.publish("test:channel", message.clone()).unwrap();
    assert_eq!(delivered, 1);

    let received = receiver.try_recv().unwrap();
    assert_eq!(received.channel, "test:channel");
    assert_eq!(received.message, message);
}

#[test]
fn test_wildcard_channel_subscription() {
    let mut manager = create_test_manager();

    let pattern = ChannelPattern::wildcard("cache:*".to_string());
    let mut receiver = manager.subscribe(pattern).unwrap();

    let message = Value::String("Invalidate user123".to_string());
    let delivered = manager.publish("cache:invalidate:user123", message.clone()).unwrap();
    assert_eq!(delivered, 1);

    let received = receiver.try_recv().unwrap();
    assert_eq!(received.channel, "cache:invalidate:user123");
    assert_eq!(received.message, message);

    let delivered = manager.publish("other:channel", Value::String("test".to_string())).unwrap();
    assert_eq!(delivered, 0);
}

#[test]
fn test_multiple_subscribers() {
    let mut manager = create_test_manager();

    let pattern = ChannelPattern::exact("broadcast".to_string());
    let mut receiver1 = manager.subscribe(pattern.clone()).unwrap();
    let mut receiver2 = manager.subscribe(pattern).unwrap();

    let message = Value::String("Broadcast message".to_string());
    let delivered = manager.publish("broadcast", message.clone()).unwrap();
    assert_eq!(delivered, 2);

    let received1 = receiver1.try_recv().unwrap();
    let received2 = receiver2.try_recv().unwrap();

    assert_eq!(received1.message, message);
    assert_eq!(received2.message, message);
}

#[test]
fn test_unsubscribe() {
    let mut manager = create_test_manager();

    let pattern = ChannelPattern::exact("test:unsub".to_string());
    let _receiver = manager.subscribe(pattern.clone()).unwrap();

    let delivered = manager.publish("test:unsub", Value::String("test".to_string())).unwrap();
    assert_eq!(delivered, 1);

    let unsub_count = manager.unsubscribe(&pattern).unwrap();
    assert_eq!(unsub_count, 1);

    let delivered = manager.publish("test:unsub", Value::String("test2".to_string())).unwrap();
    assert_eq!(delivered, 0);
}

#[test]
fn pubsub_test_stats() {
    let mut manager = create_test_manager();

    let stats = manager.get_stats().unwrap();
    assert_eq!(stats.total_subscriptions, 0);
    assert_eq!(stats.pattern_count, 0);

    let _receiver1 = manager.subscribe(ChannelPattern::exact("exact1".to_string())).unwrap();
    let _receiver2 = manager.subscribe(ChannelPattern::exact("exact2".to_string())).unwrap();
    let _receiver3 = manager.subscribe(ChannelPattern::wildcard("wild:*".to_string())).unwrap();

    let stats = manager.get_stats().unwrap();
    assert_eq!(stats.total_subscriptions, 3);
    assert_eq!(stats.pattern_count, 3);
    assert_eq!(stats.exact_patterns, 2);
    assert_eq!(stats.wildcard_patterns, 1);
}

#[test]
fn test_pattern_matching() {
    let exact = ChannelPattern::exact("test:channel".to_string());
    assert!(exact.matches("test:channel"));
    assert!(!exact.matches("test:other"));

    let wildcard = ChannelPattern::wildcard("cache:*".to_string());
    assert!(wildcard.matches("cache:invalidate"));
    assert!(wildcard.matches("cache:invalidate:user123"));
    assert!(!wildcard.matches("other:invalidate"));

    let prefix = ChannelPattern::wildcard("auth:*".to_string());
    assert!(prefix.matches("auth:login"));
    assert!(prefix.matches("auth:logout"));
    assert!(!prefix.matches("cache:login"));
}

#[test]
fn pubsub_wildcard_forms() {
    // a wildcard without a star matches its text exactly
    assert!(ChannelPattern::wildcard("plain".to_string()).matches("plain"));
    assert!(!ChannelPattern::wildcard("plain".to_string()).matches("plainer"));
    // a leading star matches by suffix, a middle star by prefix and suffix
    assert!(ChannelPattern::wildcard("*:login".to_string()).matches("auth:login"));
    assert!(!ChannelPattern::wildcard("*:login".to_string()).matches("auth:logout"));
    assert!(ChannelPattern::wildcard("a*z".to_string()).matches("abcz"));
    assert!(!ChannelPattern::wildcard("a*z".to_string()).matches("abc"));
}

#[test]
fn pubsub_wildcards_are_globs() {
    assert!(!ChannelPattern::wildcard("ab*b".to_string()).matches("ab"));
    assert!(ChannelPattern::wildcard("ab*b".to_string()).matches("abxb"));
    assert!(ChannelPattern::wildcard("a*b*c".to_string()).matches("axbyc"));
    assert!(!ChannelPattern::wildcard("a*b*c".to_string()).matches("axx"));
    assert!(ChannelPattern::wildcard("cache:*".to_string()).matches("cache:invalidate:user123"));
}

#[test]
fn pubsub_dead_subscriptions_dropped_live_kept() {
    let mut manager = create_test_manager();
    let pattern = ChannelPattern::exact("c".to_string());
    let dead1 = manager.subscribe(pattern.clone()).unwrap();
    let dead2 = manager.subscribe(pattern.clone()).unwrap();
    let mut live = manager.subscribe(pattern.clone()).unwrap();
    drop(dead1);
    drop(dead2);
    assert_eq!(manager.publish("c", Value::String("m".to_string())).unwrap(), 1);
    assert_eq!(live.try_recv().unwrap().message, Value::String("m".to_string()));
    assert_eq!(manager.get_stats().unwrap().total_subscriptions, 1);
    // the live one still receives
    assert_eq!(manager.publish("c", Value::String("n".to_string())).unwrap(), 1);
    assert_eq!(live.try_recv().unwrap().message, Value::String("n".to_string()));
}

#[test]
fn pubsub_publish_at_stamps_message_and_keeps_subscription_active() {
    let mut manager = PubSubManager::new(std::time::Duration::from_secs(1), std::time::Duration::from_secs(1));
    let mut rx = manager.subscribe(ChannelPattern::wildcard("t:*".to_string())).unwrap();
    let later: i64 = 4_000_000_000_000;
    assert_eq!(manager.publish_at("t:1", Value::String("v".to_string()), later).unwrap(), 1);
    let msg = rx.try_recv().unwrap();
    assert_eq!(msg.channel, "t:1");
    assert_eq!(msg.timestamp, later);
    // reached at `later`, so still active half a second after it
    manager.cleanup_inactive_at(later + 500);
    assert_eq!(manager.get_stats().unwrap().total_subscriptions, 1);
    // and gone once the timeout has passed since
    manager.cleanup_inactive_at(later + 1_000);
    assert_eq!(manager.get_stats().unwrap().total_subscriptions, 0);
}

#[test]
fn pubsub_dropped_receivers_are_removed_on_publish() {
    let mut manager = create_test_manager();
    let pattern = ChannelPattern::exact("c".to_string());
    let receiver = manager.subscribe(pattern.clone()).unwrap();
    let mut kept = manager.subscribe(pattern.clone()).unwrap();
    drop(receiver);
    assert_eq!(manager.publish("c", Value::String("m".to_string())).unwrap(), 1);
    assert_eq!(kept.try_recv().unwrap().message, Value::String("m".to_string()));
    assert_eq!(manager.get_stats().unwrap().total_subscriptions, 1);
}

#[test]
fn pubsub_unsubscribe_unknown_pattern() {
    let mut manager = create_test_manager();
    assert_eq!(manager.unsubscribe(&ChannelPattern::exact("none".to_string())).unwrap(), 0);
}

#[test]
fn pubsub_active_patterns_in_subscription_order() {
    let mut manager = create_test_manager();
    let _a = manager.subscribe(ChannelPattern::wildcard("b:*".to_string())).unwrap();
    let _b = manager.subscribe(ChannelPattern::exact("a".to_string())).unwrap();
    let _c = manager.subscribe(ChannelPattern::wildcard("b:*".to_string())).unwrap();
    let ps = manager.get_active_patterns().unwrap();
    assert_eq!(ps.len(), 2);
    assert!(pattern_equals(&ps[0], &ChannelPattern::wildcard("b:*".to_string())));
    assert!(pattern_equals(&ps[1], &ChannelPattern::exact("a".to_string())));
}

#[test]
fn pubsub_cleanup_drops_inactive_subscriptions() {
    let mut manager = PubSubManager::new(std::time::Duration::from_secs(1), std::time::Duration::from_secs(1));
    let _r = manager.subscribe(ChannelPattern::exact("x".to_string())).unwrap();
    // far in the future every subscription is inactive
    manager.cleanup_inactive_at(i64::MAX / 4);
    assert_eq!(manager.get_stats().unwrap().total_subscriptions, 0);
    assert_eq!(manager.get_stats().unwrap().pattern_count, 0);
}

#[test]
fn pubsub_default_intervals() {
    let manager = PubSubManager::default();
    assert_eq!(manager.cleanup_interval(), std::time::Duration::from_secs(300));
}

#[test]
fn pubsub_publish_without_match_changes_nothing() {
    let mut manager = create_test_manager();
    let _r = manager.subscribe(ChannelPattern::wildcard("a:*".to_string())).unwrap();
    assert_eq!(manager.publish("b:1", Value::String("x".to_string())).unwrap(), 0);
    let st = manager.get_stats().unwrap();
    assert_eq!(st.total_subscriptions, 1);
    assert_eq!(st.pattern_count, 1);
}
