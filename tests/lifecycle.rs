use rtmpproxy::session::{next_step, Action, Event, Phase, HANDSHAKE_FIRST_LEN, HANDSHAKE_SECOND_LEN};

#[test]
fn handshake_round_sizes() {
    assert_eq!(HANDSHAKE_FIRST_LEN, 1537);
    assert_eq!(HANDSHAKE_SECOND_LEN, 1536);
}

#[test]
fn happy_path() {
    assert_eq!(next_step(Phase::Resolving, Event::Succeeded), (Phase::Handshaking, Action::Handshake));
    assert_eq!(next_step(Phase::Handshaking, Event::Succeeded), (Phase::Intercepting, Action::ReadMessage));
    assert_eq!(
        next_step(Phase::Intercepting, Event::Forwarded { complete: false }),
        (Phase::Intercepting, Action::ReadMessage)
    );
    assert_eq!(next_step(Phase::Intercepting, Event::Forwarded { complete: true }), (Phase::Relaying, Action::Relay));
    assert_eq!(next_step(Phase::Relaying, Event::Succeeded), (Phase::Closed, Action::Close));
}

#[test]
fn failures_are_terminal() {
    for phase in [Phase::Resolving, Phase::Handshaking, Phase::Intercepting, Phase::Relaying] {
        assert_eq!(next_step(phase, Event::Failed), (Phase::Failed, Action::Close));
    }
    assert_eq!(next_step(Phase::Failed, Event::Succeeded), (Phase::Failed, Action::Idle));
    assert_eq!(next_step(Phase::Closed, Event::Failed), (Phase::Closed, Action::Idle));
}
