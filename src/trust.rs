//! An iterated prisoner's dilemma between two agents.
use vstd::prelude::*;

verus! {

#[derive(Clone, Copy, Debug, PartialEq, Eq, Structural)]
pub enum RoundOutcome {
    BothCooperated,
    LeftCheated,
    RightCheated,
    BothCheated,
}

#[derive(Clone, Copy, Debug, PartialEq, Eq, Structural)]
pub enum Action {
    Cheat,
    Cooperate,
}

/// A player: chooses an action each round and then sees what the opponent did.
pub trait GameActor {
    fn act(&mut self) -> Action;

    fn react(&mut self, other_action: Action);
}

/// The outcome of a round in which the left player chose `l` and the right player `r`.
pub open spec fn outcome_of(l: Action, r: Action) -> RoundOutcome {
    match (l, r) {
        (Action::Cooperate, Action::Cooperate) => RoundOutcome::BothCooperated,
        (Action::Cheat, Action::Cooperate) => RoundOutcome::LeftCheated,
        (Action::Cooperate, Action::Cheat) => RoundOutcome::RightCheated,
        (Action::Cheat, Action::Cheat) => RoundOutcome::BothCheated,
    }
}

/// Points won by the left player in a round with outcome `o`.
pub open spec fn left_gain(o: RoundOutcome) -> int {
    match o {
        RoundOutcome::BothCooperated => 2,
        RoundOutcome::LeftCheated => 3,
        RoundOutcome::RightCheated => -1,
        RoundOutcome::BothCheated => 0,
    }
}

/// Points won by the right player in a round with outcome `o`.
pub open spec fn right_gain(o: RoundOutcome) -> int {
    match o {
        RoundOutcome::BothCooperated => 2,
        RoundOutcome::LeftCheated => -1,
        RoundOutcome::RightCheated => 3,
        RoundOutcome::BothCheated => 0,
    }
}

/// Judges one round from the two actions.
pub fn judge(left: Action, right: Action) -> (r: RoundOutcome)
    ensures
        r == outcome_of(left, right),
{
    match (left, right) {
        (Action::Cheat, Action::Cheat) => RoundOutcome::BothCheated,
        (Action::Cooperate, Action::Cooperate) => RoundOutcome::BothCooperated,
        (Action::Cooperate, Action::Cheat) => RoundOutcome::RightCheated,
        (Action::Cheat, Action::Cooperate) => RoundOutcome::LeftCheated,
    }
}

pub struct Game<L, R> {
    left: L,
    right: R,
    left_score: i32,
    right_score: i32,
}

impl<L: GameActor, R: GameActor> Game<L, R> {
    pub closed spec fn left_total(&self) -> int {
        self.left_score as int
    }

    pub closed spec fn right_total(&self) -> int {
        self.right_score as int
    }

    pub fn new(left: L, right: R) -> (r: Self)
        ensures
            r.left_total() == 0,
            r.right_total() == 0,
    {
        Game { left, right, left_score: 0, right_score: 0 }
    }

    pub fn left_score(&self) -> (r: i32)
        ensures
            r == self.left_total(),
    {
        self.left_score
    }

    pub fn right_score(&self) -> (r: i32)
        ensures
            r == self.right_total(),
    {
        self.right_score
    }

    /// Both players act, the round is judged and scored, and each player sees the
    /// other's action.
    pub fn play_round(&mut self) -> (r: RoundOutcome)
        requires
            i32::MIN + 1 <= old(self).left_total() <= i32::MAX - 3,
            i32::MIN + 1 <= old(self).right_total() <= i32::MAX - 3,
        ensures
            final(self).left_total() == old(self).left_total() + left_gain(r),
            final(self).right_total() == old(self).right_total() + right_gain(r),
    {
        let left_action = self.left.act();
        let right_action = self.right.act();
        let res = judge(left_action, right_action);
        match res {
            RoundOutcome::BothCheated => {},
            RoundOutcome::BothCooperated => {
                self.left_score = self.left_score + 2;
                self.right_score = self.right_score + 2;
            },
            RoundOutcome::RightCheated => {
                self.left_score = self.left_score - 1;
                self.right_score = self.right_score + 3;
            },
            RoundOutcome::LeftCheated => {
                self.left_score = self.left_score + 3;
                self.right_score = self.right_score - 1;
            },
        }
        self.left.react(right_action);
        self.right.react(left_action);
        res
    }
}

/// Always cheats.
#[derive(Default)]
pub struct CheatingAgent {}

impl GameActor for CheatingAgent {
    fn act(&mut self) -> Action {
        Action::Cheat
    }

    fn react(&mut self, other_action: Action) {
    }
}

/// Always cooperates.
#[derive(Default)]
pub struct CooperatingAgent {}

impl GameActor for CooperatingAgent {
    fn act(&mut self) -> Action {
        Action::Cooperate
    }

    fn react(&mut self, other_action: Action) {
    }
}

/// Cooperates until the opponent cheats once, then cheats for ever.
pub struct GrudgerAgent {
    pub was_betrayed: bool,
}

impl GameActor for GrudgerAgent {
    fn act(&mut self) -> Action {
        if self.was_betrayed {
            Action::Cheat
        } else {
            Action::Cooperate
        }
    }

    fn react(&mut self, other_action: Action) {
        if other_action == Action::Cheat {
            self.was_betrayed = true;
        }
    }
}

impl Default for GrudgerAgent {
    fn default() -> (r: Self)
        ensures
            !r.was_betrayed,
    {
        GrudgerAgent { was_betrayed: false }
    }
}

/// Repeats the opponent's previous action, cooperating first.
pub struct CopycatAgent {
    pub op_last_turn: Option<Action>,
}

impl Default for CopycatAgent {
    fn default() -> (r: Self)
        ensures
            r.op_last_turn is None,
    {
        CopycatAgent { op_last_turn: None }
    }
}

impl GameActor for CopycatAgent {
    fn act(&mut self) -> Action {
        match self.op_last_turn {
            Some(a) => a,
            None => Action::Cooperate,
        }
    }

    fn react(&mut self, other_action: Action) {
        self.op_last_turn = Some(other_action);
    }
}

/// Opens with cooperate, cheat, cooperate, cooperate; afterwards it copies the opponent
/// if the opponent ever cheated, and cheats otherwise.
pub struct DetectiveAgent {
    step: u64,
    op_cheated: bool,
    op_last_turn: Option<Action>,
}

impl DetectiveAgent {
    /// No round has been played yet.
    pub closed spec fn is_fresh(&self) -> bool {
        self.step == 0 && !self.op_cheated && self.op_last_turn is None
    }
}

impl GameActor for DetectiveAgent {
    fn act(&mut self) -> Action {
        if self.step == 0 || self.step == 2 || self.step == 3 {
            Action::Cooperate
        } else if self.step == 1 || !self.op_cheated {
            Action::Cheat
        } else {
            match self.op_last_turn {
                Some(a) => a,
                None => Action::Cooperate,
            }
        }
    }

    fn react(&mut self, other_action: Action) {
        if self.step < u64::MAX {
            self.step = self.step + 1;
        }
        if other_action == Action::Cheat {
            self.op_cheated = true;
        }
        self.op_last_turn = Some(other_action);
    }
}

impl Default for DetectiveAgent {
    fn default() -> (r: Self)
        ensures
            r.is_fresh(),
    {
        DetectiveAgent { step: 0, op_cheated: false, op_last_turn: None }
    }
}

} // verus!
