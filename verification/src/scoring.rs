use vstd::prelude::*;

verus! {

/// Number of pegs in a code, and number of feedback slots in a score.
pub const SIZE: usize = 4;

/// One peg color out of the fixed six-color alphabet.
#[derive(Clone, Copy, PartialEq, Eq, Structural)]
pub enum CodePeg {
    A,
    B,
    C,
    D,
    E,
    F,
}

/// An ordered, fixed-length sequence of peg colors: a secret or a guess.
#[derive(Clone, Copy)]
pub struct Code {
    pegs: [CodePeg; SIZE],
}

impl View for Code {
    type V = Seq<CodePeg>;

    closed spec fn view(&self) -> Seq<CodePeg> {
        self.pegs@
    }
}

impl Code {
    pub fn new(pegs: [CodePeg; SIZE]) -> (code: Self)
        ensures
            code@ == pegs@,
    {
        Code { pegs }
    }
}

/// Every code holds exactly `SIZE` pegs.
pub proof fn lemma_code_len(code: Code)
    ensures
        code@.len() == SIZE,
{
}

/// One feedback peg: right color in the right place, or right color elsewhere.
#[derive(Clone, Copy, Debug, PartialEq, Eq, Structural)]
pub enum ScorePeg {
    Match,
    Present,
}

/// The feedback for one guess: feedback pegs packed into the leading slots
/// (all exact matches first, then all presents), trailing slots empty.
#[derive(Clone, Copy, Debug)]
pub struct Score {
    pegs: [Option<ScorePeg>; SIZE],
}

impl View for Score {
    type V = Seq<Option<ScorePeg>>;

    closed spec fn view(&self) -> Seq<Option<ScorePeg>> {
        self.pegs@
    }
}

impl Score {
    pub fn new(pegs: [Option<ScorePeg>; SIZE]) -> (score: Self)
        ensures
            score@ == pegs@,
    {
        Score { pegs }
    }
}

impl PartialEq for Score {
    fn eq(&self, other: &Score) -> (same: bool) {
        let mut i: usize = 0;
        let mut same: bool = true;
        while i < SIZE
            invariant
                i <= SIZE,
                self@.len() == SIZE,
                other@.len() == SIZE,
                same <==> (forall|j: int| 0 <= j < i ==> self@[j] == other@[j]),
            decreases SIZE - i,
        {
            let slot_same = match (self.pegs[i], other.pegs[i]) {
                (None, None) => true,
                (Some(a), Some(b)) => a == b,
                _ => false,
            };
            same = same && slot_same;
            i = i + 1;
        }
        proof {
            if same {
                assert(self@ =~= other@);
            }
        }
        same
    }
}

impl vstd::std_specs::cmp::PartialEqSpecImpl for Score {
    open spec fn obeys_eq_spec() -> bool {
        true
    }

    open spec fn eq_spec(&self, other: &Score) -> bool {
        self@ == other@
    }
}

/// How many positions hold the same color in both codes.
pub open spec fn exact_count(s: Seq<CodePeg>, g: Seq<CodePeg>) -> nat
    decreases s.len(),
{
    if s.len() == 0 || g.len() == 0 {
        0
    } else {
        exact_count(s.drop_last(), g.drop_last()) + if s.last() == g.last() {
            1nat
        } else {
            0nat
        }
    }
}

/// The secret pegs left over after the exact-match pass, in order.
pub open spec fn secret_residual(s: Seq<CodePeg>, g: Seq<CodePeg>) -> Seq<CodePeg>
    decreases s.len(),
{
    if s.len() == 0 || g.len() == 0 {
        Seq::empty()
    } else if s.last() == g.last() {
        secret_residual(s.drop_last(), g.drop_last())
    } else {
        secret_residual(s.drop_last(), g.drop_last()).push(s.last())
    }
}

/// The guess pegs left over after the exact-match pass, in order.
pub open spec fn guess_residual(s: Seq<CodePeg>, g: Seq<CodePeg>) -> Seq<CodePeg>
    decreases s.len(),
{
    if s.len() == 0 || g.len() == 0 {
        Seq::empty()
    } else if s.last() == g.last() {
        guess_residual(s.drop_last(), g.drop_last())
    } else {
        guess_residual(s.drop_last(), g.drop_last()).push(g.last())
    }
}

/// The sequence with the first occurrence of color `c` taken out.
pub open spec fn remove_first(s: Seq<CodePeg>, c: CodePeg) -> Seq<CodePeg>
    decreases s.len(),
{
    if s.len() == 0 {
        s
    } else if s.first() == c {
        s.drop_first()
    } else {
        seq![s.first()] + remove_first(s.drop_first(), c)
    }
}

/// How many present pegs the present pass awards: walk the leftover guess
/// pegs in order, and spend the first leftover secret peg of the same color,
/// if one is still there.
pub open spec fn present_count(sr: Seq<CodePeg>, gr: Seq<CodePeg>) -> nat
    decreases gr.len(),
{
    if gr.len() == 0 {
        0
    } else if sr.contains(gr.first()) {
        1 + present_count(remove_first(sr, gr.first()), gr.drop_first())
    } else {
        present_count(sr, gr.drop_first())
    }
}

/// The number of present pegs in the score of `g` against `s`.
pub open spec fn score_present(s: Seq<CodePeg>, g: Seq<CodePeg>) -> nat {
    present_count(secret_residual(s, g), guess_residual(s, g))
}

/// The feedback peg packed into slot `i` when there are `e` exact matches
/// and `p` presents: matches first, presents next, the rest empty.
pub open spec fn feedback_slot(e: int, p: int, i: int) -> Option<ScorePeg> {
    if i < e {
        Some(ScorePeg::Match)
    } else if i < e + p {
        Some(ScorePeg::Present)
    } else {
        None
    }
}

/// The full feedback for guess `g` against secret `s`, as a packed slot sequence.
pub open spec fn score_seq(s: Seq<CodePeg>, g: Seq<CodePeg>) -> Seq<Option<ScorePeg>> {
    Seq::new(
        s.len(),
        |i: int| feedback_slot(exact_count(s, g) as int, score_present(s, g) as int, i),
    )
}

/// How many pegs of color `c` a code holds.
pub open spec fn color_count(s: Seq<CodePeg>, c: CodePeg) -> nat
    decreases s.len(),
{
    if s.len() == 0 {
        0
    } else {
        (if s.first() == c {
            1nat
        } else {
            0nat
        }) + color_count(s.drop_first(), c)
    }
}

pub open spec fn min_nat(a: nat, b: nat) -> nat {
    if a <= b {
        a
    } else {
        b
    }
}

/// The total color overlap of two codes: per color, the smaller of the two
/// multiplicities, summed over the whole alphabet.
pub open spec fn shared_color_count(s: Seq<CodePeg>, g: Seq<CodePeg>) -> nat {
    min_nat(color_count(s, CodePeg::A), color_count(g, CodePeg::A)) + min_nat(
        color_count(s, CodePeg::B),
        color_count(g, CodePeg::B),
    ) + min_nat(color_count(s, CodePeg::C), color_count(g, CodePeg::C)) + min_nat(
        color_count(s, CodePeg::D),
        color_count(g, CodePeg::D),
    ) + min_nat(color_count(s, CodePeg::E), color_count(g, CodePeg::E)) + min_nat(
        color_count(s, CodePeg::F),
        color_count(g, CodePeg::F),
    )
}

/// How many positions hold color `c` in both codes at once.
pub open spec fn exact_color(s: Seq<CodePeg>, g: Seq<CodePeg>, c: CodePeg) -> nat
    decreases s.len(),
{
    if s.len() == 0 || g.len() == 0 {
        0
    } else {
        exact_color(s.drop_last(), g.drop_last(), c) + if s.last() == g.last() && s.last() == c {
            1nat
        } else {
            0nat
        }
    }
}

/// The set of positions where the two codes agree.
pub open spec fn matching_positions(s: Seq<CodePeg>, g: Seq<CodePeg>) -> Set<int> {
    Set::new(|i: int| 0 <= i < s.len() && i < g.len() && s[i] == g[i])
}

/// How many slots of a score hold feedback peg `k`.
pub open spec fn peg_count(sc: Seq<Option<ScorePeg>>, k: ScorePeg) -> nat
    decreases sc.len(),
{
    if sc.len() == 0 {
        0
    } else {
        peg_count(sc.drop_last(), k) + if sc.last() == Some(k) {
            1nat
        } else {
            0nat
        }
    }
}

/// Holds the fixed secret for one game and scores guesses against it.
pub struct Scorer {
    code: Code,
}

impl Scorer {
    /// The secret this scorer was built from.
    pub closed spec fn secret(&self) -> Seq<CodePeg> {
        self.code@
    }

    pub fn new(code: Code) -> (scorer: Self)
        ensures
            scorer.secret() == code@,
    {
        Scorer { code }
    }

    /// Score a guess: the result is the packed feedback sequence whose exact
    /// and present counts are those of the two-pass scoring algorithm.
    pub fn score(&self, guess: Code) -> (score: Score)
        ensures
            score@ == score_seq(self.secret(), guess@),
    {
        let ghost s: Seq<CodePeg> = self.secret();
        let ghost g: Seq<CodePeg> = guess@;

        let mut exact: usize = 0;
        let mut secret_rem: Vec<CodePeg> = Vec::new();
        let mut guess_rem: Vec<CodePeg> = Vec::new();
        let mut i: usize = 0;
        while i < SIZE
            invariant
                i <= SIZE,
                s.len() == SIZE,
                g.len() == SIZE,
                s == self.secret(),
                g == guess@,
                exact <= i,
                secret_rem@.len() <= i,
                guess_rem@.len() <= i,
                exact == exact_count(s.take(i as int), g.take(i as int)),
                secret_rem@ == secret_residual(s.take(i as int), g.take(i as int)),
                guess_rem@ == guess_residual(s.take(i as int), g.take(i as int)),
            decreases SIZE - i,
        {
            proof {
                assert(s.take(i + 1).drop_last() =~= s.take(i as int));
                assert(g.take(i + 1).drop_last() =~= g.take(i as int));
                assert(s.take(i + 1).last() == s[i as int]);
                assert(g.take(i + 1).last() == g[i as int]);
            }
            if self.code.pegs[i] == guess.pegs[i] {
                exact = exact + 1;
            } else {
                secret_rem.push(self.code.pegs[i]);
                guess_rem.push(guess.pegs[i]);
            }
            i = i + 1;
        }
        proof {
            assert(s.take(SIZE as int) =~= s);
            assert(g.take(SIZE as int) =~= g);
        }

        let ghost sr0: Seq<CodePeg> = secret_rem@;
        let ghost gr0: Seq<CodePeg> = guess_rem@;
        proof {
            assert(gr0.skip(0) =~= gr0);
        }
        let mut present: usize = 0;
        let mut k: usize = 0;
        while k < guess_rem.len()
            invariant
                k <= gr0.len(),
                present <= k,
                guess_rem@ == gr0,
                gr0.len() <= SIZE,
                present + present_count(secret_rem@, gr0.skip(k as int)) == present_count(
                    sr0,
                    gr0,
                ),
            decreases gr0.len() - k,
        {
            let c = guess_rem[k];
            proof {
                assert(gr0.skip(k as int).first() == gr0[k as int]);
                assert(gr0.skip(k as int).drop_first() =~= gr0.skip(k + 1));
            }

            let mut j: usize = 0;
            let mut found: bool = false;
            while j < secret_rem.len() && !found
                invariant
                    j <= secret_rem@.len(),
                    forall|t: int| 0 <= t < j ==> secret_rem@[t] != c,
                    found ==> j < secret_rem@.len() && secret_rem@[j as int] == c,
                decreases secret_rem@.len() - j + (if found {
                    0int
                } else {
                    1int
                }),
            {
                if secret_rem[j] == c {
                    found = true;
                } else {
                    j = j + 1;
                }
            }

            if found {
                proof {
                    assert(secret_rem@.contains(c));
                    lemma_remove_first_at(secret_rem@, c, j as int);
                }
                present = present + 1;
                secret_rem.remove(j);
            } else {
                proof {
                    assert(!secret_rem@.contains(c)) by {
                        if secret_rem@.contains(c) {
                            let t = choose|t: int|
                                0 <= t < secret_rem@.len() && secret_rem@[t] == c;
                            assert(secret_rem@[t] != c);
                        }
                    }
                }
            }
            k = k + 1;
        }
        proof {
            assert(gr0.skip(gr0.len() as int) =~= Seq::<CodePeg>::empty());
        }

        let slots: [Option<ScorePeg>; SIZE] = [
            feedback_slot_at(exact, present, 0),
            feedback_slot_at(exact, present, 1),
            feedback_slot_at(exact, present, 2),
            feedback_slot_at(exact, present, 3),
        ];
        proof {
            assert(slots@ =~= score_seq(s, g));
        }
        Score::new(slots)
    }
}

/// Pack the feedback peg for slot `i` out of `e` exact matches and `p` presents.
fn feedback_slot_at(e: usize, p: usize, i: usize) -> (slot: Option<ScorePeg>)
    requires
        e <= SIZE,
        p <= SIZE,
    ensures
        slot == feedback_slot(e as int, p as int, i as int),
{
    if i < e {
        Some(ScorePeg::Match)
    } else if i < e + p {
        Some(ScorePeg::Present)
    } else {
        None
    }
}

proof fn lemma_color_count_push(s: Seq<CodePeg>, x: CodePeg, c: CodePeg)
    ensures
        color_count(s.push(x), c) == color_count(s, c) + if x == c {
            1nat
        } else {
            0nat
        },
    decreases s.len(),
{
    if s.len() == 0 {
        assert(s.push(x).first() == x);
        assert(s.push(x).drop_first() =~= Seq::<CodePeg>::empty());
    } else {
        assert(s.push(x).first() == s.first());
        assert(s.push(x).drop_first() =~= s.drop_first().push(x));
        lemma_color_count_push(s.drop_first(), x, c);
        assert(color_count(s.push(x), c) == (if s.push(x).first() == c {
            1nat
        } else {
            0nat
        }) + color_count(s.push(x).drop_first(), c));
    }
}

proof fn lemma_color_count_contains(s: Seq<CodePeg>, c: CodePeg)
    ensures
        s.contains(c) <==> color_count(s, c) >= 1,
    decreases s.len(),
{
    if s.len() == 0 {
    } else {
        lemma_color_count_contains(s.drop_first(), c);
        if s.first() == c {
            assert(s.contains(c));
        } else {
            if s.drop_first().contains(c) {
                let t = choose|t: int|
                    0 <= t < s.drop_first().len() && s.drop_first()[t] == c;
                assert(s[t + 1] == c);
                assert(s.contains(c));
            }
            if s.contains(c) {
                let t = choose|t: int| 0 <= t < s.len() && s[t] == c;
                assert(s.drop_first()[t - 1] == c);
                assert(s.drop_first().contains(c));
            }
        }
    }
}

proof fn lemma_remove_first_color_count(s: Seq<CodePeg>, c0: CodePeg, c: CodePeg)
    requires
        s.contains(c0),
    ensures
        color_count(remove_first(s, c0), c) + (if c == c0 {
            1nat
        } else {
            0nat
        }) == color_count(s, c),
    decreases s.len(),
{
    if s.first() == c0 {
    } else {
        let t = choose|t: int| 0 <= t < s.len() && s[t] == c0;
        assert(s.drop_first()[t - 1] == c0);
        assert(s.drop_first().contains(c0));
        lemma_remove_first_color_count(s.drop_first(), c0, c);
        let rest = remove_first(s.drop_first(), c0);
        assert((seq![s.first()] + rest).first() == s.first());
        assert((seq![s.first()] + rest).drop_first() =~= rest);
    }
}

proof fn lemma_min_nat_shift(m: nat, n: nat)
    requires
        m >= 1,
        n >= 1,
    ensures
        min_nat(m, n) == 1 + min_nat((m - 1) as nat, (n - 1) as nat),
{
}

proof fn lemma_overlap_step(sr: Seq<CodePeg>, gr: Seq<CodePeg>, c0: CodePeg, c: CodePeg)
    requires
        gr.len() >= 1,
        gr.first() == c0,
        sr.contains(c0),
    ensures
        c == c0 ==> min_nat(color_count(sr, c), color_count(gr, c)) == 1 + min_nat(
            color_count(remove_first(sr, c0), c),
            color_count(gr.drop_first(), c),
        ),
        c != c0 ==> min_nat(color_count(sr, c), color_count(gr, c)) == min_nat(
            color_count(remove_first(sr, c0), c),
            color_count(gr.drop_first(), c),
        ),
{
    lemma_remove_first_color_count(sr, c0, c);
    lemma_color_count_contains(sr, c0);
    if c == c0 {
        lemma_min_nat_shift(color_count(sr, c), color_count(gr, c));
    }
}

/// The present pass awards, for each color, the smaller of the two leftover
/// multiplicities: the greedy first-occurrence walk meets the multiset cap.
pub proof fn lemma_present_count_is_overlap(sr: Seq<CodePeg>, gr: Seq<CodePeg>)
    ensures
        present_count(sr, gr) == shared_color_count(sr, gr),
    decreases gr.len(),
{
    if gr.len() == 0 {
    } else {
        let c0 = gr.first();
        let grt = gr.drop_first();
        lemma_color_count_contains(sr, c0);
        if sr.contains(c0) {
            let srt = remove_first(sr, c0);
            lemma_overlap_step(sr, gr, c0, CodePeg::A);
            lemma_overlap_step(sr, gr, c0, CodePeg::B);
            lemma_overlap_step(sr, gr, c0, CodePeg::C);
            lemma_overlap_step(sr, gr, c0, CodePeg::D);
            lemma_overlap_step(sr, gr, c0, CodePeg::E);
            lemma_overlap_step(sr, gr, c0, CodePeg::F);
            lemma_present_count_is_overlap(srt, grt);
        } else {
            assert(color_count(sr, c0) == 0);
            lemma_present_count_is_overlap(sr, grt);
        }
    }
}

/// Per color, the residual of a code holds its full multiplicity minus the
/// exact matches already consumed for that color.
pub proof fn lemma_residual_color_count(s: Seq<CodePeg>, g: Seq<CodePeg>, c: CodePeg)
    requires
        s.len() == g.len(),
    ensures
        color_count(secret_residual(s, g), c) + exact_color(s, g, c) == color_count(s, c),
        color_count(guess_residual(s, g), c) + exact_color(s, g, c) == color_count(g, c),
    decreases s.len(),
{
    if s.len() == 0 {
    } else {
        let sp = s.drop_last();
        let gp = g.drop_last();
        lemma_residual_color_count(sp, gp, c);
        assert(s =~= sp.push(s.last()));
        assert(g =~= gp.push(g.last()));
        lemma_color_count_push(sp, s.last(), c);
        lemma_color_count_push(gp, g.last(), c);
        if s.last() == g.last() {
        } else {
            lemma_color_count_push(secret_residual(sp, gp), s.last(), c);
            lemma_color_count_push(guess_residual(sp, gp), g.last(), c);
        }
    }
}

proof fn lemma_exact_color_total(s: Seq<CodePeg>, g: Seq<CodePeg>)
    requires
        s.len() == g.len(),
    ensures
        exact_color(s, g, CodePeg::A) + exact_color(s, g, CodePeg::B) + exact_color(
            s,
            g,
            CodePeg::C,
        ) + exact_color(s, g, CodePeg::D) + exact_color(s, g, CodePeg::E) + exact_color(
            s,
            g,
            CodePeg::F,
        ) == exact_count(s, g),
    decreases s.len(),
{
    if s.len() == 0 {
    } else {
        lemma_exact_color_total(s.drop_last(), g.drop_last());
    }
}

proof fn lemma_color_count_total(s: Seq<CodePeg>)
    ensures
        color_count(s, CodePeg::A) + color_count(s, CodePeg::B) + color_count(s, CodePeg::C)
            + color_count(s, CodePeg::D) + color_count(s, CodePeg::E) + color_count(
            s,
            CodePeg::F,
        ) == s.len(),
    decreases s.len(),
{
    if s.len() == 0 {
    } else {
        lemma_color_count_total(s.drop_first());
    }
}

/// The exact-match count never exceeds the code length.
pub proof fn lemma_exact_count_bound(s: Seq<CodePeg>, g: Seq<CodePeg>)
    ensures
        exact_count(s, g) <= s.len(),
    decreases s.len(),
{
    if s.len() == 0 || g.len() == 0 {
    } else {
        lemma_exact_count_bound(s.drop_last(), g.drop_last());
    }
}

/// The exact and present counts together account for the whole color
/// overlap of the two codes: exact matches plus presents equal, per color,
/// the smaller multiplicity, summed over the alphabet.
pub proof fn lemma_feedback_is_overlap(s: Seq<CodePeg>, g: Seq<CodePeg>)
    requires
        s.len() == g.len(),
    ensures
        exact_count(s, g) + score_present(s, g) == shared_color_count(s, g),
{
    let sr = secret_residual(s, g);
    let gr = guess_residual(s, g);
    lemma_present_count_is_overlap(sr, gr);
    lemma_residual_color_count(s, g, CodePeg::A);
    lemma_residual_color_count(s, g, CodePeg::B);
    lemma_residual_color_count(s, g, CodePeg::C);
    lemma_residual_color_count(s, g, CodePeg::D);
    lemma_residual_color_count(s, g, CodePeg::E);
    lemma_residual_color_count(s, g, CodePeg::F);
    lemma_exact_color_total(s, g);
}

/// Total feedback never exceeds the code length.
pub proof fn lemma_feedback_bound(s: Seq<CodePeg>, g: Seq<CodePeg>)
    requires
        s.len() == g.len(),
    ensures
        exact_count(s, g) + score_present(s, g) <= s.len(),
{
    lemma_feedback_is_overlap(s, g);
    lemma_color_count_total(g);
}

proof fn lemma_exact_count_symmetric(s: Seq<CodePeg>, g: Seq<CodePeg>)
    ensures
        exact_count(s, g) == exact_count(g, s),
    decreases s.len(),
{
    if s.len() == 0 || g.len() == 0 {
    } else {
        lemma_exact_count_symmetric(s.drop_last(), g.drop_last());
    }
}

/// Swapping secret and guess leaves both feedback counts unchanged: only the
/// counts by kind are symmetric, nothing is said of slot order.
pub proof fn lemma_score_symmetric(s: Seq<CodePeg>, g: Seq<CodePeg>)
    requires
        s.len() == g.len(),
    ensures
        exact_count(s, g) == exact_count(g, s),
        score_present(s, g) == score_present(g, s),
{
    lemma_exact_count_symmetric(s, g);
    lemma_feedback_is_overlap(s, g);
    lemma_feedback_is_overlap(g, s);
}

/// Scoring a code against itself yields only exact matches and no presents.
pub proof fn lemma_self_score(s: Seq<CodePeg>)
    ensures
        exact_count(s, s) == s.len(),
        score_present(s, s) == 0,
{
    lemma_exact_count_self(s);
    lemma_residual_self(s);
}

proof fn lemma_exact_count_self(s: Seq<CodePeg>)
    ensures
        exact_count(s, s) == s.len(),
    decreases s.len(),
{
    if s.len() == 0 {
    } else {
        lemma_exact_count_self(s.drop_last());
    }
}

proof fn lemma_residual_self(s: Seq<CodePeg>)
    ensures
        guess_residual(s, s) == Seq::<CodePeg>::empty(),
    decreases s.len(),
{
    if s.len() == 0 {
        assert(guess_residual(s, s) =~= Seq::<CodePeg>::empty());
    } else {
        lemma_residual_self(s.drop_last());
    }
}

/// Codes with no color in common receive no feedback pegs at all.
pub proof fn lemma_disjoint_no_feedback(s: Seq<CodePeg>, g: Seq<CodePeg>)
    requires
        s.len() == g.len(),
        forall|c: CodePeg| !(s.contains(c) && g.contains(c)),
    ensures
        exact_count(s, g) == 0,
        score_present(s, g) == 0,
{
    lemma_feedback_is_overlap(s, g);
    assert forall|c: CodePeg| min_nat(color_count(s, c), color_count(g, c)) == 0 by {
        lemma_color_count_contains(s, c);
        lemma_color_count_contains(g, c);
        assert(!(s.contains(c) && g.contains(c)));
    }
    assert(min_nat(color_count(s, CodePeg::A), color_count(g, CodePeg::A)) == 0);
    assert(min_nat(color_count(s, CodePeg::B), color_count(g, CodePeg::B)) == 0);
    assert(min_nat(color_count(s, CodePeg::C), color_count(g, CodePeg::C)) == 0);
    assert(min_nat(color_count(s, CodePeg::D), color_count(g, CodePeg::D)) == 0);
    assert(min_nat(color_count(s, CodePeg::E), color_count(g, CodePeg::E)) == 0);
    assert(min_nat(color_count(s, CodePeg::F), color_count(g, CodePeg::F)) == 0);
}

/// The exact-match count is the number of positions where the codes agree.
pub proof fn lemma_exact_count_is_matching_positions(s: Seq<CodePeg>, g: Seq<CodePeg>)
    requires
        s.len() == g.len(),
    ensures
        matching_positions(s, g).finite(),
        matching_positions(s, g).len() == exact_count(s, g),
    decreases s.len(),
{
    if s.len() == 0 {
        assert(matching_positions(s, g) =~= Set::<int>::empty());
    } else {
        let sp = s.drop_last();
        let gp = g.drop_last();
        lemma_exact_count_is_matching_positions(sp, gp);
        let m = matching_positions(sp, gp);
        if s.last() == g.last() {
            assert(matching_positions(s, g) =~= m.insert(s.len() - 1));
            assert(!m.contains(s.len() - 1));
            vstd::set::axiom_set_insert_len(m, s.len() - 1);
        } else {
            assert(matching_positions(s, g) =~= m);
        }
    }
}

proof fn lemma_packed_counts(e: nat, p: nat, n: nat)
    ensures
        peg_count(Seq::new(n, |i: int| feedback_slot(e as int, p as int, i)), ScorePeg::Match)
            == min_nat(e, n),
        peg_count(Seq::new(n, |i: int| feedback_slot(e as int, p as int, i)), ScorePeg::Present)
            == min_nat(e + p, n) - min_nat(e, n),
    decreases n,
{
    if n == 0 {
    } else {
        let cur = Seq::new(n, |i: int| feedback_slot(e as int, p as int, i));
        let prev = Seq::new((n - 1) as nat, |i: int| feedback_slot(e as int, p as int, i));
        assert(cur.drop_last() =~= prev);
        assert(cur.last() == feedback_slot(e as int, p as int, n - 1));
        lemma_packed_counts(e, p, (n - 1) as nat);
    }
}

/// The packed score of `g` against `s` holds exactly `exact_count` match
/// pegs and `score_present` present pegs.
pub proof fn lemma_score_seq_counts(s: Seq<CodePeg>, g: Seq<CodePeg>)
    requires
        s.len() == g.len(),
    ensures
        peg_count(score_seq(s, g), ScorePeg::Match) == exact_count(s, g),
        peg_count(score_seq(s, g), ScorePeg::Present) == score_present(s, g),
{
    lemma_feedback_bound(s, g);
    lemma_packed_counts(exact_count(s, g), score_present(s, g), s.len());
}

proof fn lemma_all_exact_iff_equal(s: Seq<CodePeg>, g: Seq<CodePeg>)
    requires
        s.len() == g.len(),
    ensures
        exact_count(s, g) == s.len() <==> s =~= g,
    decreases s.len(),
{
    if s.len() == 0 {
    } else {
        lemma_all_exact_iff_equal(s.drop_last(), g.drop_last());
        lemma_exact_count_bound(s.drop_last(), g.drop_last());
        if exact_count(s, g) == s.len() {
            assert(s =~= g) by {
                assert(s.drop_last() =~= g.drop_last());
                assert forall|i: int| 0 <= i < s.len() implies s[i] == g[i] by {
                    if i < s.len() - 1 {
                        assert(s.drop_last()[i] == g.drop_last()[i]);
                    }
                }
            }
        }
        if s =~= g {
            assert(s.drop_last() =~= g.drop_last());
        }
    }
}

/// A score is the all-exact-match score exactly when the guess equals the
/// secret.
pub proof fn lemma_winning_score(s: Seq<CodePeg>, g: Seq<CodePeg>)
    requires
        s.len() == g.len(),
    ensures
        (score_seq(s, g) =~= Seq::new(s.len(), |i: int| Some(ScorePeg::Match))) <==> g =~= s,
{
    lemma_exact_count_bound(s, g);
    lemma_all_exact_iff_equal(s, g);
    let all = Seq::new(s.len(), |i: int| Some(ScorePeg::Match));
    if score_seq(s, g) =~= all {
        if s.len() > 0 {
            assert(score_seq(s, g)[s.len() - 1] == all[s.len() - 1]);
            assert(exact_count(s, g) == s.len());
        }
    }
    if g =~= s {
        assert(g == s);
        lemma_self_score(s);
        assert(score_seq(s, g) =~= all);
    }
}

/// Taking out the first occurrence of `c`, found at index `j`, is the same
/// as removing index `j`.
proof fn lemma_remove_first_at(s: Seq<CodePeg>, c: CodePeg, j: int)
    requires
        0 <= j < s.len(),
        s[j] == c,
        forall|t: int| 0 <= t < j ==> s[t] != c,
    ensures
        remove_first(s, c) == s.remove(j),
    decreases j,
{
    if j == 0 {
        assert(s.drop_first() =~= s.remove(0));
    } else {
        lemma_remove_first_at(s.drop_first(), c, j - 1);
        assert(seq![s.first()] + s.drop_first().remove(j - 1) =~= s.remove(j));
    }
}

} // verus!
