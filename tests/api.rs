use hue_flow_core::api::{
    entertainment_group, first_bridge, stream_toggle_result, HueClient, HueError, RegisterItem,
};
use hue_flow_core::models::LightNode;

#[test]
fn registration_success_builds_config() {
    let items = vec![RegisterItem::Success {
        username: "myuser".to_string(),
        clientkey: "mykey".to_string(),
    }];
    let cfg = HueClient::registration_result("10.0.0.3", &items).unwrap();
    assert_eq!(cfg.ip, "10.0.0.3");
    assert_eq!(cfg.username, "myuser");
    assert_eq!(cfg.client_key, "mykey");
}

#[test]
fn registration_link_button_error() {
    let items = vec![RegisterItem::Error {
        error_type: 101,
        description: "link button not pressed".to_string(),
    }];
    assert_eq!(
        HueClient::registration_result("10.0.0.3", &items).err(),
        Some(HueError::LinkButtonNotPressed)
    );
}

#[test]
fn registration_other_error() {
    let items = vec![RegisterItem::Error {
        error_type: 7,
        description: "invalid value, , for parameter, username".to_string(),
    }];
    assert_eq!(
        HueClient::registration_result("10.0.0.3", &items).err(),
        Some(HueError::ApiError("invalid value, , for parameter, username".to_string()))
    );
}

#[test]
fn registration_empty_response() {
    assert!(matches!(
        HueClient::registration_result("10.0.0.3", &[]),
        Err(HueError::ApiError(_))
    ));
}

#[test]
fn register_url_adds_scheme_when_missing() {
    assert_eq!(HueClient::register_url("10.0.0.3"), "http://10.0.0.3/api");
    assert_eq!(HueClient::register_url("http://127.0.0.1:9000"), "http://127.0.0.1:9000/api");
}

#[test]
fn discovery_picks_first_bridge() {
    let found = vec!["192.168.2.23".to_string(), "192.168.2.24".to_string()];
    assert_eq!(first_bridge(&found), Ok("192.168.2.23".to_string()));
    assert_eq!(first_bridge(&[]), Err(HueError::DiscoveryFailed));
}

#[test]
fn stream_toggle_detects_error_key() {
    assert!(stream_toggle_result(r#"[{"success":{"/groups/1/stream/active":true}}]"#).is_ok());
    match stream_toggle_result(r#"[{"error":{"type":7}}]"#) {
        Err(HueError::ApiError(m)) => assert!(m.starts_with("Failed to activate stream: ")),
        other => panic!("unexpected {:?}", other),
    }
    assert!(stream_toggle_result("").is_ok());
    assert!(stream_toggle_result("error").is_ok());
}

#[test]
fn entertainment_group_takes_uuid_by_name() {
    let lights = vec![LightNode { id: "1".to_string(), x: 0, y: 0, z: 0 }];
    let configs = vec![
        ("Entertainment Area 1".to_string(), "uuid-a".to_string()),
        ("Other".to_string(), "uuid-b".to_string()),
        ("Entertainment Area 1".to_string(), "uuid-c".to_string()),
    ];
    let g = entertainment_group(
        "3".to_string(),
        "Entertainment Area 1".to_string(),
        "Entertainment",
        lights.clone(),
        &configs,
    )
    .unwrap();
    assert_eq!(g.stream_id, "uuid-c");
    assert_eq!(g.id, "3");
    assert_eq!(g.lights.len(), 1);
    let fallback =
        entertainment_group("4".to_string(), "Nameless".to_string(), "Entertainment", vec![], &configs)
            .unwrap();
    assert_eq!(fallback.stream_id, "4");
    assert!(entertainment_group("5".to_string(), "Room".to_string(), "Room", lights, &configs).is_none());
}
