use exchange::subscription_manager::SubscriptionManager;
use exchange::user::{BusAction, ClientRequest, User, UserManager};

fn request(method: &str, params: &[Option<&str>]) -> ClientRequest {
    ClientRequest {
        method: Some(method.to_string()),
        params: Some(params.iter().map(|p| p.map(|s| s.to_string())).collect()),
    }
}

fn shown(actions: &[BusAction]) -> Vec<(bool, String)> {
    actions
        .iter()
        .map(|a| match a {
            BusAction::Subscribe(c) => (true, c.clone()),
            BusAction::Unsubscribe(c) => (false, c.clone()),
        })
        .collect()
}

#[test]
fn user_records_and_forgets_channels() {
    let mut u = User::new("u1".to_string());
    u.subscribe("a".to_string());
    u.subscribe("b".to_string());
    u.unsubscribe("a");
    assert_eq!(u.get_subscriptions(), vec!["b".to_string()]);
    assert_eq!(u.id, "u1");
}

#[test]
fn subscribe_request_opens_new_channels_and_skips_non_strings() {
    let mut m = SubscriptionManager::new();
    let u1 = User::new("u1".to_string());
    let u2 = User::new("u2".to_string());
    let req = request("SUBSCRIBE", &[Some("depth@A"), None, Some("trade@A")]);
    let a1 = u1.handle_message(&mut m, &req).unwrap();
    assert_eq!(shown(&a1), vec![(true, "depth@A".to_string()), (true, "trade@A".to_string())]);
    let a2 = u2.handle_message(&mut m, &req).unwrap();
    assert!(a2.is_empty());
    assert_eq!(m.get_subscriptions("u2"), vec!["depth@A".to_string(), "trade@A".to_string()]);
}

#[test]
fn unsubscribe_request_closes_channels_of_their_last_user() {
    let mut m = SubscriptionManager::new();
    let u1 = User::new("u1".to_string());
    u1.handle_message(&mut m, &request("SUBSCRIBE", &[Some("depth@A")])).unwrap();
    let a = u1.handle_message(&mut m, &request("UNSUBSCRIBE", &[Some("depth@A"), Some("x")])).unwrap();
    assert_eq!(shown(&a), vec![(false, "depth@A".to_string())]);
    assert!(m.get_subscriptions("u1").is_empty());
}

#[test]
fn other_methods_change_nothing() {
    let mut m = SubscriptionManager::new();
    let u1 = User::new("u1".to_string());
    assert!(u1.handle_message(&mut m, &request("PING", &[Some("depth@A")])).is_none());
    let no_method = ClientRequest { method: None, params: None };
    assert!(u1.handle_message(&mut m, &no_method).is_none());
    assert!(m.get_subscriptions("u1").is_empty());
    let no_params = ClientRequest { method: Some("SUBSCRIBE".to_string()), params: None };
    assert!(u1.handle_message(&mut m, &no_params).unwrap().is_empty());
}

#[test]
fn added_user_has_a_fresh_alphanumeric_id() {
    let mut um = UserManager::new();
    let id = um.add_user();
    assert_eq!(id.chars().count(), 30);
    assert!(id.chars().all(|c| c.is_ascii_alphanumeric()));
    let u = um.get_user(&id).unwrap();
    assert_eq!(u.id, id);
    assert!(u.get_subscriptions().is_empty());
    let other = um.add_user();
    assert_ne!(id, other);
    assert!(um.get_user("missing").is_none());
}

#[test]
fn removed_user_leaves_its_channels() {
    let mut um = UserManager::new();
    let mut m = SubscriptionManager::new();
    let id = um.add_user();
    let req = request("SUBSCRIBE", &[Some("depth@A"), Some("trade@A")]);
    um.get_user(&id).unwrap().handle_message(&mut m, &req).unwrap();
    m.subscribe("other", "trade@A".to_string());
    let closed = um.remove_user(&id, &mut m);
    assert_eq!(closed, vec!["depth@A".to_string()]);
    assert!(um.get_user(&id).is_none());
    assert!(m.get_subscriptions(&id).is_empty());
    assert_eq!(m.handle_redis_message("trade@A", "{}"), vec!["other".to_string()]);
    assert!(um.remove_user(&id, &mut m).is_empty());
}
