use rustatsd::sync_token::TokenSource;

#[test]
fn test_sync_token() {
    let ts = TokenSource::new();
    let mut holders = Vec::new();
    for _ in 0..10 {
        holders.push(ts.get_token());
    }
    for t in &holders {
        assert!(!t.is_triggered());
    }
    ts.trigger();
    for t in &holders {
        assert!(t.is_triggered());
    }
    let late = ts.get_token();
    assert!(late.is_triggered());
}

#[test]
fn trigger_is_idempotent() {
    let ts = TokenSource::new();
    let t = ts.get_token();
    let copy = t.clone();
    assert!(!copy.is_triggered());
    ts.trigger();
    ts.trigger();
    assert!(t.is_triggered());
    assert!(copy.is_triggered());
}

#[test]
fn sources_are_independent() {
    let a = TokenSource::new();
    let b = TokenSource::new();
    a.trigger();
    assert!(a.get_token().is_triggered());
    assert!(!b.get_token().is_triggered());
}
