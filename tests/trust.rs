use babencoin::trust::{
    judge, Action, CheatingAgent, CooperatingAgent, CopycatAgent, DetectiveAgent, Game, GrudgerAgent,
    RoundOutcome,
};

#[test]
fn cheater_against_cooperator() {
    let mut game = Game::new(CheatingAgent::default(), CooperatingAgent::default());
    assert_eq!(game.play_round(), RoundOutcome::LeftCheated);
    assert_eq!(game.left_score(), 3);
    assert_eq!(game.right_score(), -1);
}

#[test]
fn grudger_against_copycat() {
    let mut game = Game::new(GrudgerAgent::default(), CopycatAgent::default());
    for _ in 0..5 {
        assert_eq!(game.play_round(), RoundOutcome::BothCooperated);
    }
    assert_eq!(game.left_score(), 10);
    assert_eq!(game.right_score(), 10);
}

#[test]
fn detective_against_cooperator() {
    let mut game = Game::new(DetectiveAgent::default(), CooperatingAgent::default());
    assert_eq!(game.play_round(), RoundOutcome::BothCooperated);
    assert_eq!(game.play_round(), RoundOutcome::LeftCheated);
    assert_eq!(game.play_round(), RoundOutcome::BothCooperated);
    assert_eq!(game.play_round(), RoundOutcome::BothCooperated);
    assert_eq!(game.play_round(), RoundOutcome::LeftCheated);
    assert_eq!(game.left_score(), 2 + 3 + 2 + 2 + 3);
    assert_eq!(game.right_score(), 2 - 1 + 2 + 2 - 1);
}

#[test]
fn detective_against_copycat() {
    let mut game = Game::new(DetectiveAgent::default(), CopycatAgent::default());
    // C/C, Ch/C, C/Ch, C/C, then the detective copies
    assert_eq!(game.play_round(), RoundOutcome::BothCooperated);
    assert_eq!(game.play_round(), RoundOutcome::LeftCheated);
    assert_eq!(game.play_round(), RoundOutcome::RightCheated);
    assert_eq!(game.play_round(), RoundOutcome::BothCooperated);
    assert_eq!(game.play_round(), RoundOutcome::BothCooperated);
}

#[test]
fn judge_all_outcomes() {
    assert_eq!(judge(Action::Cheat, Action::Cheat), RoundOutcome::BothCheated);
    assert_eq!(judge(Action::Cooperate, Action::Cheat), RoundOutcome::RightCheated);
    assert_eq!(judge(Action::Cheat, Action::Cooperate), RoundOutcome::LeftCheated);
    assert_eq!(judge(Action::Cooperate, Action::Cooperate), RoundOutcome::BothCooperated);
}
