use exchange::subscription_manager::SubscriptionManager;

fn names(v: &[String]) -> Vec<&str> {
    v.iter().map(|s| s.as_str()).collect()
}

#[test]
fn first_subscriber_opens_the_channel() {
    let mut m = SubscriptionManager::new();
    assert_eq!(m.subscribe("u1", "trade@SOL_USDC".to_string()), Some("trade@SOL_USDC".to_string()));
    assert_eq!(m.subscribe("u2", "trade@SOL_USDC".to_string()), None);
    assert_eq!(names(&m.get_subscriptions("u1")), vec!["trade@SOL_USDC"]);
    assert_eq!(names(&m.get_subscriptions("u2")), vec!["trade@SOL_USDC"]);
}

#[test]
fn repeated_subscription_changes_nothing() {
    let mut m = SubscriptionManager::new();
    assert!(m.subscribe("u1", "depth@A".to_string()).is_some());
    assert_eq!(m.subscribe("u1", "depth@A".to_string()), None);
    assert_eq!(names(&m.get_subscriptions("u1")), vec!["depth@A"]);
    assert_eq!(names(&m.handle_redis_message("depth@A", "{}")), vec!["u1"]);
}

#[test]
fn last_subscriber_closes_the_channel() {
    let mut m = SubscriptionManager::new();
    m.subscribe("u1", "depth@A".to_string());
    m.subscribe("u2", "depth@A".to_string());
    assert_eq!(m.unsubscribe("u1", "depth@A"), None);
    assert_eq!(m.unsubscribe("u2", "depth@A"), Some("depth@A".to_string()));
    assert!(m.get_subscriptions("u1").is_empty());
    assert!(m.handle_redis_message("depth@A", "{}").is_empty());
}

#[test]
fn unsubscribing_an_unknown_user_changes_nothing() {
    let mut m = SubscriptionManager::new();
    m.subscribe("u1", "depth@A".to_string());
    assert_eq!(m.unsubscribe("nobody", "depth@A"), None);
    assert_eq!(m.unsubscribe("u1", "trade@A"), None);
    assert_eq!(names(&m.handle_redis_message("depth@A", "[1]")), vec!["u1"]);
}

#[test]
fn subscribe_then_unsubscribe_restores_the_registry() {
    let mut m = SubscriptionManager::new();
    m.subscribe("u1", "ticker@A".to_string());
    let opened = m.subscribe("u2", "depth@A".to_string());
    let closed = m.unsubscribe("u2", "depth@A");
    assert_eq!(opened, closed);
    assert!(m.get_subscriptions("u2").is_empty());
    assert!(m.handle_redis_message("depth@A", "{}").is_empty());
    assert_eq!(names(&m.get_subscriptions("u1")), vec!["ticker@A"]);
}

#[test]
fn leaving_user_closes_only_its_last_channels() {
    let mut m = SubscriptionManager::new();
    m.subscribe("u1", "a".to_string());
    m.subscribe("u1", "b".to_string());
    m.subscribe("u2", "b".to_string());
    assert_eq!(names(&m.user_left("u1")), vec!["a"]);
    assert!(m.get_subscriptions("u1").is_empty());
    assert_eq!(names(&m.handle_redis_message("b", "{\"e\":1}")), vec!["u2"]);
    assert!(m.handle_redis_message("a", "{\"e\":1}").is_empty());
}

#[test]
fn messages_reach_subscribers_in_order_only_when_json() {
    let mut m = SubscriptionManager::new();
    m.subscribe("u2", "trade@A".to_string());
    m.subscribe("u1", "trade@A".to_string());
    assert_eq!(names(&m.handle_redis_message("trade@A", "{\"price\":\"10\"}")), vec!["u2", "u1"]);
    assert!(m.handle_redis_message("trade@A", "not json").is_empty());
    assert!(m.handle_redis_message("depth@A", "{}").is_empty());
}
