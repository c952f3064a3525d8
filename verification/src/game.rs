use vstd::prelude::*;

verus! {

use crate::scoring::{
    Code, CodePeg, Score, ScorePeg, Scorer, SIZE, score_seq, lemma_code_len, lemma_self_score,
    lemma_winning_score,
};

/// The code-generation collaborator: asked once per game for the secret.
///
/// `chosen_code` is the ghost model of the maker: the code it hands out in
/// its current state. Implementations written for verified callers override
/// it; unverified implementations can leave it at its default.
pub trait CodeMaker {
    /// The code this maker hands out in its current state.
    open spec fn chosen_code(&self) -> Seq<CodePeg> {
        Seq::empty()
    }

    fn make_code(&self) -> (code: Code)
        ensures
            code@ == self.chosen_code(),
    ;
}

/// The guess-and-feedback collaborator: asked for one guess per round, then
/// given the round's score, and told once of a loss when the budget runs out.
/// The three spec functions are the ghost model of the breaker: its current
/// guess, the scores it has received, and the loss notifications it has
/// received. Implementations written for verified callers override them;
/// unverified implementations can leave them at their defaults.
pub trait CodeBreaker: Sized {
    /// The guess this breaker would hand out in its current state.
    open spec fn next_guess(&self) -> Seq<CodePeg> {
        Seq::empty()
    }

    /// The scores this breaker has received so far, oldest first.
    open spec fn feedback(&self) -> Seq<Seq<Option<ScorePeg>>> {
        Seq::empty()
    }

    /// How many loss notifications this breaker has received.
    open spec fn losses(&self) -> nat {
        0
    }

    fn guess_code(&self) -> (code: Code)
        ensures
            code@ == self.next_guess(),
    ;

    fn set_score(&mut self, score: Score)
        ensures
            final(self).feedback() == old(self).feedback().push(score@),
            final(self).losses() == old(self).losses(),
    ;

    fn loses(&mut self)
        ensures
            final(self).feedback() == old(self).feedback(),
            final(self).losses() == old(self).losses() + 1,
    ;
}

/// One round: the breaker in state `pre` is scored on its current guess
/// against `secret` and receives that score, ending in state `post`.
pub open spec fn round_step<U: CodeBreaker>(secret: Seq<CodePeg>, pre: U, post: U) -> bool {
    &&& post.feedback() == pre.feedback().push(score_seq(secret, pre.next_guess()))
    &&& post.losses() == pre.losses()
}

/// Consecutive states of a play are joined by rounds.
pub open spec fn rounds_linked<U: CodeBreaker>(secret: Seq<CodePeg>, states: Seq<U>) -> bool {
    forall|i: int|
        0 <= i < states.len() - 1 ==> #[trigger] round_step(secret, states[i], states[i + 1])
}

/// Every round but the last was played on a guess that missed the secret:
/// the game stops as soon as a guess hits.
pub open spec fn no_early_win<U: CodeBreaker>(secret: Seq<CodePeg>, states: Seq<U>) -> bool {
    forall|i: int| 0 <= i < states.len() - 2 ==> (#[trigger] states[i].next_guess()) != secret
}

/// The play's last round was won: its guess equals the secret.
pub open spec fn trace_won<U: CodeBreaker>(secret: Seq<CodePeg>, states: Seq<U>) -> bool {
    states.len() >= 2 && states[states.len() - 2].next_guess() == secret
}

/// What one call of `play` does to the breaker: `states` records the
/// breaker's state before each round and after the last one. A won play
/// stops at the winning round with no loss notification; any other play
/// runs the full budget and ends in exactly one loss notification.
pub open spec fn play_outcome<U: CodeBreaker>(
    secret: Seq<CodePeg>,
    states: Seq<U>,
    max_round: nat,
    pre: U,
    post: U,
) -> bool {
    &&& states.len() >= 1
    &&& states.len() <= max_round + 1
    &&& states[0] == pre
    &&& rounds_linked(secret, states)
    &&& no_early_win(secret, states)
    &&& if trace_won(secret, states) {
        post == states.last()
    } else {
        &&& states.len() == max_round + 1
        &&& post.feedback() == states.last().feedback()
        &&& post.losses() == states.last().losses() + 1
    }
}

/// Orchestrates one game: asks the maker for a secret, then plays rounds
/// against the breaker until a win or until the round budget is spent.
pub struct Game<'a, T: CodeMaker, U: CodeBreaker> {
    pub max_round: usize,
    pub code_maker: &'a T,
    pub code_breaker: &'a mut U,
}

impl<'a, T: CodeMaker, U: CodeBreaker> Game<'a, T, U> {
    pub fn new(max_round: usize, code_maker: &'a T, code_breaker: &'a mut U) -> (game: Self)
        ensures
            game.max_round == max_round,
            game.code_maker == code_maker,
            *game.code_breaker == *old(code_breaker),
            *final(code_breaker) == *final(game.code_breaker),
    {
        Game { max_round, code_maker, code_breaker }
    }

    /// Play one game to its end. Some valid trace of rounds explains the
    /// breaker's state afterwards: each round delivered the score of the
    /// breaker's own guess against the maker's code, a winning guess ended
    /// the game at once, and only a full budget of missed guesses brought
    /// the one loss notification. The breaker never receives more scores
    /// than the round budget, nor more than one loss notification.
    pub fn play(self)
        ensures
            exists|states: Seq<U>|
                #[trigger] play_outcome(
                    self.code_maker.chosen_code(),
                    states,
                    self.max_round as nat,
                    *old(self.code_breaker),
                    *final(self.code_breaker),
                ),
            final(self.code_breaker).feedback().len() <= old(self.code_breaker).feedback().len()
                + self.max_round,
            old(self.code_breaker).losses() <= final(self.code_breaker).losses() <= old(
                self.code_breaker,
            ).losses() + 1,
    {
        let Game { max_round, code_maker, code_breaker } = self;
        let secret_code = code_maker.make_code();
        let scorer = Scorer::new(secret_code);
        let ghost secret: Seq<CodePeg> = secret_code@;
        let winning = Score::new([Some(ScorePeg::Match); SIZE]);
        proof {
            lemma_code_len(secret_code);
            assert(winning@ =~= Seq::new(secret.len(), |i: int| Some(ScorePeg::Match)));
        }

        let ghost initial: U = *code_breaker;
        let ghost mut states: Seq<U> = seq![initial];
        let mut round: usize = 0;
        let mut won: bool = false;
        while round < max_round && !won
            invariant
                round <= max_round,
                states.len() == round + 1,
                states[0] == initial,
                *code_breaker == states.last(),
                won ==> round >= 1,
                secret.len() == SIZE,
                secret == code_maker.chosen_code(),
                scorer.secret() == secret,
                winning@ =~= Seq::new(secret.len(), |i: int| Some(ScorePeg::Match)),
                forall|i: int|
                    0 <= i < round ==> #[trigger] round_step(secret, states[i], states[i + 1]),
                forall|i: int|
                    0 <= i < round ==> ((#[trigger] states[i].next_guess()) == secret <==> (won
                        && i == round - 1)),
            decreases max_round - round,
        {
            let guess = code_breaker.guess_code();
            let score = scorer.score(guess);
            let ghost pre: U = *code_breaker;
            code_breaker.set_score(score);
            proof {
                lemma_code_len(guess);
                states = states.push(*code_breaker);
                assert(states.last() == *code_breaker);
                assert(round_step(secret, pre, states.last()));
                lemma_winning_score(secret, guess@);
            }
            if score == winning {
                won = true;
                proof {
                    assert(score_seq(secret, guess@) =~= winning@);
                    assert(guess@ =~= secret);
                    assert(pre.next_guess() == secret);
                }
            } else {
                proof {
                    assert(score@ != winning@);
                    assert(!(score_seq(secret, guess@) =~= winning@));
                    assert(pre.next_guess() != secret);
                }
            }
            round = round + 1;
        }
        if !won {
            code_breaker.loses();
        }
        proof {
            assert(rounds_linked(secret, states));
            assert(no_early_win(secret, states));
            if won {
                assert(states[states.len() - 2].next_guess() == secret);
            } else {
                assert(!trace_won(secret, states));
            }
            assert(play_outcome(
                code_maker.chosen_code(),
                states,
                max_round as nat,
                initial,
                *code_breaker,
            ));
            lemma_trace_progress(secret, states, states.len() - 1);
        }
    }
}

proof fn lemma_trace_progress<U: CodeBreaker>(secret: Seq<CodePeg>, states: Seq<U>, i: int)
    requires
        rounds_linked(secret, states),
        0 <= i < states.len(),
    ensures
        states[i].feedback().len() == states[0].feedback().len() + i,
        states[i].losses() == states[0].losses(),
    decreases i,
{
    if i > 0 {
        lemma_trace_progress(secret, states, i - 1);
        assert(round_step(secret, states[i - 1], states[i - 1 + 1]));
    }
}

/// Game termination law: in a play whose breaker misses the secret on its
/// first `r - 1` guesses and hits it on the `r`-th, the breaker wins: it
/// receives exactly `r` scores, the last of them the all-exact-match score,
/// and no loss notification.
pub proof fn lemma_game_won<U: CodeBreaker>(
    secret: Seq<CodePeg>,
    states: Seq<U>,
    max_round: nat,
    pre: U,
    post: U,
    r: nat,
)
    requires
        play_outcome(secret, states, max_round, pre, post),
        1 <= r <= max_round,
        forall|i: int|
            0 <= i < states.len() - 1 ==> ((#[trigger] states[i].next_guess()) == secret <==> i
                == r - 1),
    ensures
        states.len() == r + 1,
        post.feedback().len() == pre.feedback().len() + r,
        post.feedback().last() == score_seq(secret, secret),
        post.feedback().last() == Seq::new(secret.len(), |i: int| Some(ScorePeg::Match)),
        post.losses() == pre.losses(),
{
    let n = states.len() - 1;
    if n < r {
        assert(!trace_won(secret, states));
        assert(n == max_round);
    }
    if n > r {
        assert(states[r - 1].next_guess() != secret);
    }
    assert(n == r);
    assert(trace_won(secret, states));
    lemma_trace_progress(secret, states, n);
    assert(round_step(secret, states[n - 1], states[n - 1 + 1]));
    lemma_self_score(secret);
    assert(score_seq(secret, secret) =~= Seq::new(secret.len(), |i: int| Some(ScorePeg::Match)));
}

/// Game loss law: in a play whose breaker never guesses the secret, the
/// breaker receives exactly `max_round` scores and then exactly one loss
/// notification.
pub proof fn lemma_game_lost<U: CodeBreaker>(
    secret: Seq<CodePeg>,
    states: Seq<U>,
    max_round: nat,
    pre: U,
    post: U,
)
    requires
        play_outcome(secret, states, max_round, pre, post),
        forall|i: int| 0 <= i < states.len() - 1 ==> (#[trigger] states[i].next_guess()) != secret,
    ensures
        states.len() == max_round + 1,
        post.feedback().len() == pre.feedback().len() + max_round,
        post.losses() == pre.losses() + 1,
{
    assert(!trace_won(secret, states));
    lemma_trace_progress(secret, states, states.len() - 1);
}

} // verus!
