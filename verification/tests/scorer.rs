use mastermind::{Code, CodePeg, Score, ScorePeg, Scorer, SIZE};

struct TestCase<'a> {
    name: &'a str,
    code: Code,
    guess: Code,
    score: Score,
}

#[test]
fn score() {
    let test_cases = vec![
        TestCase {
            name: "fully_wrong",
            code: Code::new([CodePeg::A, CodePeg::B, CodePeg::C, CodePeg::D]),
            guess: Code::new([CodePeg::E, CodePeg::E, CodePeg::F, CodePeg::F]),
            score: Score::new([None, None, None, None]),
        },
        TestCase {
            name: "success",
            code: Code::new([CodePeg::A, CodePeg::B, CodePeg::C, CodePeg::D]),
            guess: Code::new([CodePeg::A, CodePeg::B, CodePeg::C, CodePeg::D]),
            score: Score::new([
                Some(ScorePeg::Match),
                Some(ScorePeg::Match),
                Some(ScorePeg::Match),
                Some(ScorePeg::Match),
            ]),
        },
        TestCase {
            name: "all_present_with_wrong_positions",
            code: Code::new([CodePeg::A, CodePeg::B, CodePeg::C, CodePeg::D]),
            guess: Code::new([CodePeg::D, CodePeg::C, CodePeg::B, CodePeg::A]),
            score: Score::new([
                Some(ScorePeg::Present),
                Some(ScorePeg::Present),
                Some(ScorePeg::Present),
                Some(ScorePeg::Present),
            ]),
        },
        TestCase {
            name: "two_matches",
            code: Code::new([CodePeg::C, CodePeg::C, CodePeg::A, CodePeg::F]),
            guess: Code::new([CodePeg::C, CodePeg::D, CodePeg::D, CodePeg::F]),
            score: Score::new([Some(ScorePeg::Match), Some(ScorePeg::Match), None, None]),
        },
        TestCase {
            name: "match_and_present",
            code: Code::new([CodePeg::A, CodePeg::C, CodePeg::E, CodePeg::F]),
            guess: Code::new([CodePeg::C, CodePeg::D, CodePeg::D, CodePeg::F]),
            score: Score::new([Some(ScorePeg::Match), Some(ScorePeg::Present), None, None]),
        },
        TestCase {
            name: "count_match_only_once",
            code: Code::new([CodePeg::A, CodePeg::B, CodePeg::E, CodePeg::F]),
            guess: Code::new([CodePeg::A, CodePeg::A, CodePeg::D, CodePeg::D]),
            score: Score::new([Some(ScorePeg::Match), None, None, None]),
        },
    ];

    for test_case in test_cases {
        let scorer = Scorer::new(test_case.code);
        let score = scorer.score(test_case.guess);
        assert_eq!(score, test_case.score, "test case{}", test_case.name,);
    }
}

#[test]
fn exact_matches_counted_per_position() {
    let secret = Code::new([CodePeg::A, CodePeg::B, CodePeg::C, CodePeg::D]);
    let guess = Code::new([CodePeg::A, CodePeg::B, CodePeg::D, CodePeg::C]);
    let score = Scorer::new(secret).score(guess);
    assert_eq!(
        score,
        Score::new([
            Some(ScorePeg::Match),
            Some(ScorePeg::Match),
            Some(ScorePeg::Present),
            Some(ScorePeg::Present),
        ])
    );
}

#[test]
fn counts_symmetric_under_swap() {
    let one = Code::new([CodePeg::A, CodePeg::B, CodePeg::C, CodePeg::A]);
    let two = Code::new([CodePeg::B, CodePeg::A, CodePeg::B, CodePeg::B]);
    let forward = Scorer::new(one).score(two);
    let backward = Scorer::new(two).score(one);
    // Two presents each way; with packing canonical, the scores are equal.
    let expected = Score::new([Some(ScorePeg::Present), Some(ScorePeg::Present), None, None]);
    assert_eq!(forward, expected);
    assert_eq!(backward, expected);
}

#[test]
fn self_score_is_all_match() {
    let code = Code::new([CodePeg::F, CodePeg::F, CodePeg::A, CodePeg::B]);
    let score = Scorer::new(code).score(code);
    assert_eq!(score, Score::new([Some(ScorePeg::Match); SIZE]));
}

#[test]
fn disjoint_colors_give_no_feedback() {
    let secret = Code::new([CodePeg::A, CodePeg::C, CodePeg::E, CodePeg::A]);
    let guess = Code::new([CodePeg::B, CodePeg::D, CodePeg::F, CodePeg::B]);
    let score = Scorer::new(secret).score(guess);
    assert_eq!(score, Score::new([None; SIZE]));
}

#[test]
fn repeated_colors_capped_by_secret_multiplicity() {
    let secret = Code::new([CodePeg::C, CodePeg::A, CodePeg::C, CodePeg::E]);
    let guess = Code::new([CodePeg::C, CodePeg::C, CodePeg::C, CodePeg::C]);
    // Two exact matches use up both secret C pegs; the remaining guess C
    // pegs find nothing left and earn no present.
    let score = Scorer::new(secret).score(guess);
    assert_eq!(score, Score::new([Some(ScorePeg::Match), Some(ScorePeg::Match), None, None]));
}

#[test]
fn swapped_pairs_all_present() {
    let secret = Code::new([CodePeg::A, CodePeg::A, CodePeg::B, CodePeg::B]);
    let guess = Code::new([CodePeg::B, CodePeg::B, CodePeg::A, CodePeg::A]);
    let score = Scorer::new(secret).score(guess);
    assert_eq!(score, Score::new([Some(ScorePeg::Present); SIZE]));
}
