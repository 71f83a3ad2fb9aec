use autohost::control::{Action, Autohost, AutohostConfig, CanonicalIdentity, Event, LoopState};

#[test]
fn default_config_is_enabled_on_etc_hosts() {
    let c = AutohostConfig::default();
    assert!(c.enable);
    assert_eq!(c.etc_hosts, "/etc/hosts".to_string());
}

#[test]
fn enabled_applet_starts_idle() {
    let a = Autohost::new(AutohostConfig { enable: true, etc_hosts: "/tmp/hosts".to_string() });
    assert_eq!(a.start_state(), LoopState::Idle);
}

#[test]
fn disabled_applet_starts_terminated() {
    let a = Autohost::new(AutohostConfig { enable: false, etc_hosts: "/tmp/hosts".to_string() });
    assert_eq!(a.start_state(), LoopState::Terminated);
}

#[test]
fn disabled_applet_never_acts() {
    let a = Autohost::new(AutohostConfig { enable: false, etc_hosts: "/tmp/hosts".to_string() });
    let mut state = a.start_state();
    let id = CanonicalIdentity { fqdn: b"n.example".to_vec(), ipv4: b"10.0.0.1".to_vec() };
    let (next, action) = a.on_event(state, Event::UpdateCanonical(id));
    state = next;
    assert_eq!(state, LoopState::Terminated);
    assert!(matches!(action, Action::Nothing));
}

#[test]
fn update_event_yields_apply_action() {
    let a = Autohost::new(AutohostConfig::default());
    let id = CanonicalIdentity { fqdn: b"node1.local".to_vec(), ipv4: b"10.0.0.5".to_vec() };
    let (next, action) = a.on_event(LoopState::Idle, Event::UpdateCanonical(id));
    assert_eq!(next, LoopState::Idle);
    match action {
        Action::ApplyIdentity(id) => {
            assert_eq!(id.fqdn, b"node1.local".to_vec());
            assert_eq!(id.ipv4, b"10.0.0.5".to_vec());
        }
        Action::Nothing => panic!("an update while idle must be applied"),
    }
}

#[test]
fn other_events_are_ignored() {
    let a = Autohost::new(AutohostConfig::default());
    let (next, action) = a.on_event(LoopState::Idle, Event::Other);
    assert_eq!(next, LoopState::Idle);
    assert!(matches!(action, Action::Nothing));
}

#[test]
fn shutdown_terminates_the_loop() {
    let a = Autohost::new(AutohostConfig::default());
    let (next, action) = a.on_event(LoopState::Idle, Event::Shutdown);
    assert_eq!(next, LoopState::Terminated);
    assert!(matches!(action, Action::Nothing));
}

#[test]
fn events_after_shutdown_are_not_acted_on() {
    let a = Autohost::new(AutohostConfig::default());
    let events = vec![
        Event::UpdateCanonical(CanonicalIdentity {
            fqdn: b"first.example".to_vec(),
            ipv4: b"10.0.0.1".to_vec(),
        }),
        Event::Shutdown,
        Event::UpdateCanonical(CanonicalIdentity {
            fqdn: b"late.example".to_vec(),
            ipv4: b"10.0.0.2".to_vec(),
        }),
        Event::Other,
    ];
    let mut state = a.start_state();
    let mut applied: Vec<Vec<u8>> = Vec::new();
    for event in events {
        let (next, action) = a.on_event(state, event);
        state = next;
        if let Action::ApplyIdentity(id) = action {
            applied.push(id.fqdn);
        }
    }
    assert_eq!(state, LoopState::Terminated);
    assert_eq!(applied, vec![b"first.example".to_vec()]);
}
