use vstd::prelude::*;

verus! {

/// Session state of the matching engine. Operations are gated on the
/// current state: orders may rest only while booking is open, and the
/// continuous-match path runs only while trading.
#[derive(PartialEq, Eq, Structural, Clone, Copy, Debug)]
pub enum State {
    StateIdle,
    StateStart,
    StatePreAuction,
    StateCallAuction,
    StateTrading,
    StatePause,
    StateBreak,
    StateStop,
    StateEnd,
}

impl Default for State {
    fn default() -> (r: Self)
        ensures
            r == State::StateIdle,
    {
        State::StateIdle
    }
}

impl State {
    /// The legal transitions of the session, as a directed relation:
    /// `spec_review(from, to)` holds exactly when the session may move
    /// from `from` to `to`.
    pub open spec fn spec_review(self, new_state: Self) -> bool {
        match new_state {
            State::StateIdle => self == State::StateStop || self == State::StateEnd,
            State::StateStart => self == State::StateIdle || self == State::StateStop,
            State::StatePreAuction => self == State::StateStart,
            State::StateCallAuction => self == State::StatePreAuction,
            State::StateTrading => self == State::StateCallAuction || self == State::StatePause
                || self == State::StateBreak,
            State::StatePause => self == State::StateTrading,
            State::StateBreak => self == State::StateTrading,
            State::StateStop => self == State::StateStart || self == State::StatePreAuction
                || self == State::StateTrading || self == State::StatePause
                || self == State::StateBreak,
            State::StateEnd => self == State::StateStop,
        }
    }

    /// Is the transition from the current state to `new_state` legal?
    pub fn review(&self, new_state: &Self) -> (r: bool)
        ensures
            r == self.spec_review(*new_state),
    {
        match new_state {
            State::StateIdle => matches!(*self, State::StateStop | State::StateEnd),
            State::StateStart => matches!(*self, State::StateIdle | State::StateStop),
            State::StatePreAuction => matches!(*self, State::StateStart),
            State::StateCallAuction => matches!(*self, State::StatePreAuction),
            State::StateTrading => matches!(
                *self,
                State::StateCallAuction | State::StatePause | State::StateBreak
            ),
            State::StatePause => matches!(*self, State::StateTrading),
            State::StateBreak => matches!(*self, State::StateTrading),
            State::StateStop => matches!(
                *self,
                State::StateStart | State::StatePreAuction | State::StateTrading
                    | State::StatePause | State::StateBreak
            ),
            State::StateEnd => matches!(*self, State::StateStop),
        }
    }

    pub open spec fn spec_is_tc(self) -> bool {
        self == State::StateTrading
    }

    /// The continuous-trading predicate: the state is Trading.
    pub fn is_tc(&self) -> (r: bool)
        ensures
            r == self.spec_is_tc(),
    {
        matches!(*self, State::StateTrading)
    }

    pub open spec fn spec_can_book(self) -> bool {
        self == State::StatePreAuction || self == State::StateTrading
    }

    /// May an order be placed in an order book in the current state?
    pub fn can_book(&self) -> (r: bool)
        ensures
            r == self.spec_can_book(),
    {
        matches!(*self, State::StatePreAuction | State::StateTrading)
    }
}

} // verus!
