use match_engine::state::State;

#[test]
fn test_state() {
    let mut state: State = Default::default();
    assert!(state == State::StateIdle);
    assert!(state.review(&State::StateStart));
    state = State::StateStart;
    assert!(!state.is_tc());
    assert!(!state.can_book());
    assert!(state.review(&State::StatePreAuction));
    assert!(!state.review(&State::StateCallAuction));
    // trading opens only out of the call auction, a pause or a break
    assert!(!state.review(&State::StateTrading));
    state = State::StatePreAuction;
    assert!(!state.is_tc());
    assert!(state.can_book());
    assert!(state.review(&State::StateCallAuction));
    assert!(!state.review(&State::StateTrading));
    state = State::StateCallAuction;
    assert!(!state.is_tc());
    assert!(!state.can_book());
    assert!(state.review(&State::StateTrading));
    state = State::StateTrading;
    assert!(state.review(&State::StatePause));
    assert!(state.review(&State::StateBreak));
    assert!(state.review(&State::StateStop));
    assert!(!state.review(&State::StateEnd));
    assert!(!state.review(&State::StatePreAuction));
    assert!(state.is_tc());
    assert!(state.can_book());
}

#[test]
fn state_round_trip() {
    // a full session: idle, open, book, uncross, trade, stop, idle again
    let mut state = State::StateIdle;
    for next in [
        State::StateStart,
        State::StatePreAuction,
        State::StateCallAuction,
        State::StateTrading,
        State::StatePause,
        State::StateTrading,
        State::StateBreak,
        State::StateTrading,
        State::StateStop,
        State::StateIdle,
    ] {
        assert!(state.review(&next));
        state = next;
    }
    assert!(state == State::StateIdle);
}
