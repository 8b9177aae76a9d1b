use rugus::auth::{AuthAction, AuthState, AutoAuth, LineStep};

fn psk() -> Vec<u8> {
    vec![
        0x00, 0x11, 0x22, 0x33, 0x44, 0x55, 0x66, 0x77, 0x88, 0x99, 0xaa, 0xbb, 0xcc, 0xdd, 0xee,
        0xff,
    ]
}

#[test]
fn passive_without_psk() {
    let mut a = AutoAuth::new(None);
    assert_eq!(a.psk(), None);
    assert_eq!(a.state(), AuthState::Disabled);
    assert!(!a.is_active());
    assert_eq!(a.start(), AuthAction::NoOp);
    assert_eq!(a.on_line("challenge abcd"), LineStep::Act(AuthAction::NoOp));
}

#[test]
fn full_handshake() {
    let mut a = AutoAuth::new(Some(psk()));
    assert!(a.is_active());
    assert_eq!(a.psk(), Some(&psk()[..]));
    assert_eq!(a.start(), AuthAction::Send("knock".into()));
    let nonce = "0b366bed78458bd3f2dcbfe822855057";
    let step = a.on_line(&format!("knockchallenge {nonce}"));
    assert_eq!(step, LineStep::Challenge(nonce.as_bytes().to_vec()));
    let proof = "00aa11bb22cc33dd44ee55ff66007711".to_string();
    assert_eq!(
        a.on_proof(Some(proof.clone())),
        AuthAction::Send(format!("prove {proof}"))
    );
    assert_eq!(a.state(), AuthState::Proving);
    match a.on_line("prove ...auth: ok — sesión abierta") {
        LineStep::Act(AuthAction::Note(_)) => {}
        other => panic!("esperaba Note, fue {other:?}"),
    }
    assert_eq!(a.state(), AuthState::Authenticated);
}

#[test]
fn rejected_proof() {
    let mut a = AutoAuth::new(Some(psk()));
    a.start();
    let step = a.on_line("challenge 0b366bed78458bd3f2dcbfe822855057");
    assert!(matches!(step, LineStep::Challenge(_)));
    a.on_proof(Some("ff".to_string()));
    a.on_line("auth: fail — prueba inválida");
    assert_eq!(a.state(), AuthState::Failed);
}

#[test]
fn device_without_psk() {
    let mut a = AutoAuth::new(Some(psk()));
    a.start();
    let act = a.on_line("auth: sin PSK — usa enroll <psk-hex> (una vez)");
    assert!(matches!(act, LineStep::Act(AuthAction::Note(_))));
    assert_eq!(a.state(), AuthState::Failed);
}

#[test]
fn knock_only_once() {
    let mut a = AutoAuth::new(Some(psk()));
    assert_eq!(a.start(), AuthAction::Send("knock".into()));
    assert_eq!(a.start(), AuthAction::NoOp);
}

#[test]
fn missing_proof_fails_the_handshake() {
    let mut a = AutoAuth::new(Some(psk()));
    a.start();
    let step = a.on_line("challenge zz");
    assert_eq!(step, LineStep::Challenge(Vec::new()));
    assert!(matches!(a.on_proof(None), AuthAction::Note(_)));
    assert_eq!(a.state(), AuthState::Failed);
}

#[test]
fn nonce_stops_at_first_non_hex() {
    let mut a = AutoAuth::new(Some(psk()));
    a.start();
    let step = a.on_line("challenge 12ab\r\n");
    assert_eq!(step, LineStep::Challenge(b"12ab".to_vec()));
    assert_eq!(a.state(), AuthState::Knocked);
}

#[test]
fn unrelated_lines_are_ignored() {
    let mut a = AutoAuth::new(Some(psk()));
    a.start();
    assert_eq!(a.on_line("rush> help"), LineStep::Act(AuthAction::NoOp));
    assert_eq!(a.state(), AuthState::Knocked);
    assert_eq!(a.label(), "auth: knock");
}
