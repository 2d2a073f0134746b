use rustatsd::endpoint::{connection_string, upgrade_str_option, DEFAULT_HOST, DEFAULT_PORT};

#[test]
fn address_text() {
    assert_eq!(connection_string(DEFAULT_HOST, DEFAULT_PORT), "127.0.0.1:13265");
    assert_eq!(connection_string("", ""), ":");
}

#[test]
fn owned_option() {
    assert_eq!(upgrade_str_option(Some("repo")), Some("repo".to_string()));
    assert_eq!(upgrade_str_option(None), None);
}
