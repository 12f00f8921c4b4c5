use parcad::relay::{after_first, after_session_retry, after_take_over_retry, unanswered, Attempt, Next};

fn replied(code: u16, text: &str) -> Attempt {
    Attempt::Replied { code, text: text.to_string() }
}

#[test]
fn a_forgotten_session_is_handed_the_handshake_again() {
    assert_eq!(after_first(&replied(404, "Session not found: abc"), true, false), Next::Reinitialize);
    // Not when the relay never had a session, nor for the handshake itself.
    assert_eq!(after_first(&replied(404, "Session not found"), false, false), Next::Deliver);
    assert_eq!(after_first(&replied(404, "Session not found"), true, true), Next::Deliver);
    assert_eq!(after_first(&replied(404, "no such page"), true, false), Next::Deliver);
    assert_eq!(after_first(&replied(200, "{}"), true, false), Next::Deliver);
}

#[test]
fn a_host_that_went_away_is_replaced() {
    let gone = Attempt::Unreachable("127.0.0.1:7777".to_string());
    assert_eq!(after_first(&gone, true, false), Next::TakeOver { reinitialize: true });
    assert_eq!(after_first(&gone, false, true), Next::TakeOver { reinitialize: false });
    assert_eq!(after_first(&Attempt::Failed("bad header".to_string()), true, false), Next::Fail("bad header".to_string()));
    assert_eq!(
        after_take_over_retry(&gone),
        Err("no parcad answers on 127.0.0.1:7777, even after starting one".to_string())
    );
    assert_eq!(after_session_retry(&gone), Err("no parcad answers on 127.0.0.1:7777".to_string()));
    assert_eq!(after_session_retry(&replied(404, "Session not found")), Ok(()));
}

#[test]
fn an_unanswered_request_is_told_what_the_host_said() {
    assert_eq!(unanswered(202, ""), "the host sent no reply");
    assert_eq!(unanswered(500, "  boom \n"), "the host answered 500: boom");
}
