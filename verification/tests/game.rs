use mastermind::{Code, CodeBreaker, CodeMaker, CodePeg, Game, Score, ScorePeg, SIZE};

struct DeterministicCodeMaker {
    code: Code,
}

impl DeterministicCodeMaker {
    fn new(code: Code) -> Self {
        DeterministicCodeMaker { code }
    }
}

impl CodeMaker for DeterministicCodeMaker {
    fn make_code(&self) -> Code {
        self.code
    }
}

struct DummyCodeBreaker {
    code: Code,
    has_won: bool,
    has_lost: bool,
    num_rounds: usize,
}

impl DummyCodeBreaker {
    fn new(code: Code) -> Self {
        DummyCodeBreaker { code, has_won: false, has_lost: false, num_rounds: 0 }
    }
}

impl CodeBreaker for DummyCodeBreaker {
    fn guess_code(&self) -> Code {
        self.code
    }

    fn set_score(&mut self, score: Score) {
        self.num_rounds += 1;
        if score != Score::new([Some(ScorePeg::Match); SIZE]) {
            return;
        }
        self.has_won = true;
    }

    fn loses(&mut self) {
        self.has_lost = true;
    }
}

#[test]
fn wins_at_first_guess() {
    let code = Code::new([CodePeg::B, CodePeg::B, CodePeg::A, CodePeg::E]);
    let code_maker = DeterministicCodeMaker::new(code);
    let mut code_breaker = DummyCodeBreaker::new(code);
    let game = Game::new(3, &code_maker, &mut code_breaker);
    game.play();
    assert!(code_breaker.has_won);
    assert!(!code_breaker.has_lost);
    assert_eq!(code_breaker.num_rounds, 1);
}

#[test]
fn loses() {
    let num_round = 8;
    let code_maker = DeterministicCodeMaker::new(Code::new([
        CodePeg::A,
        CodePeg::E,
        CodePeg::F,
        CodePeg::C,
    ]));
    let mut code_breaker =
        DummyCodeBreaker::new(Code::new([CodePeg::B, CodePeg::B, CodePeg::F, CodePeg::D]));
    let game = Game::new(num_round, &code_maker, &mut code_breaker);
    game.play();
    assert!(code_breaker.has_lost);
    assert!(!code_breaker.has_won);
    assert_eq!(code_breaker.num_rounds, num_round);
}

struct ListCodeBreaker {
    guesses: Vec<Code>,
    next: usize,
    has_won: bool,
    has_lost: bool,
    num_scores: usize,
}

impl ListCodeBreaker {
    fn new(guesses: Vec<Code>) -> Self {
        ListCodeBreaker { guesses, next: 0, has_won: false, has_lost: false, num_scores: 0 }
    }
}

impl CodeBreaker for ListCodeBreaker {
    fn guess_code(&self) -> Code {
        self.guesses[self.next]
    }

    fn set_score(&mut self, score: Score) {
        self.num_scores += 1;
        if self.next + 1 < self.guesses.len() {
            self.next += 1;
        }
        if score == Score::new([Some(ScorePeg::Match); SIZE]) {
            self.has_won = true;
        }
    }

    fn loses(&mut self) {
        self.has_lost = true;
    }
}

#[test]
fn wins_on_the_last_budgeted_round() {
    let secret = Code::new([CodePeg::C, CodePeg::A, CodePeg::F, CodePeg::E]);
    let code_maker = DeterministicCodeMaker::new(secret);
    let mut code_breaker = ListCodeBreaker::new(vec![
        Code::new([CodePeg::A, CodePeg::A, CodePeg::A, CodePeg::A]),
        Code::new([CodePeg::C, CodePeg::A, CodePeg::F, CodePeg::F]),
        secret,
    ]);
    let game = Game::new(3, &code_maker, &mut code_breaker);
    game.play();
    assert!(code_breaker.has_won);
    assert!(!code_breaker.has_lost);
    assert_eq!(code_breaker.num_scores, 3);
}

#[test]
fn stops_immediately_after_a_win() {
    let secret = Code::new([CodePeg::D, CodePeg::D, CodePeg::B, CodePeg::A]);
    let code_maker = DeterministicCodeMaker::new(secret);
    let mut code_breaker = ListCodeBreaker::new(vec![
        Code::new([CodePeg::E, CodePeg::E, CodePeg::E, CodePeg::E]),
        secret,
        Code::new([CodePeg::F, CodePeg::F, CodePeg::F, CodePeg::F]),
    ]);
    let game = Game::new(9, &code_maker, &mut code_breaker);
    game.play();
    assert!(code_breaker.has_won);
    assert!(!code_breaker.has_lost);
    assert_eq!(code_breaker.num_scores, 2);
}
