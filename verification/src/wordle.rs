//! Word-guessing feedback: given a five-letter guess and a five-letter
//! secret, each guess position is marked correct, misplaced or incorrect.
//! A first pass marks exact matches and uses up those secret letters; a
//! second pass, left to right, marks a position misplaced when the guessed
//! letter still occurs among the unused secret letters, using up the first
//! such occurrence.

use vstd::prelude::*;
use vstd::string::StringSliceAdditionalSpecFns;

verus! {

/// The placeholder a used-up secret letter is overwritten with.
pub const USED_MARK: u8 = 95;

/// The verdict for one guess position.
#[derive(Debug, Clone, Copy, PartialEq, Eq, Structural)]
pub enum Clue {
    Correct,
    Incorrect,
    Misplaced,
}

/// A five-letter word, held as its bytes.
#[derive(Debug)]
pub struct Word {
    letters: Vec<u8>,
}

impl View for Word {
    type V = Seq<u8>;

    closed spec fn view(&self) -> Seq<u8> {
        self.letters@
    }
}

impl Word {
    /// A well-formed word has exactly five letters.
    pub open spec fn wf(&self) -> bool {
        self@.len() == 5
    }

    /// The word behind a string slice; absent unless the slice is exactly
    /// five bytes long.
    pub fn new(s: &str) -> (r: Option<Word>)
        ensures
            r is Some <==> s.spec_bytes().len() == 5,
            r matches Some(w) ==> w.wf() && w@ == s.spec_bytes(),
    {
        let b = s.as_bytes();
        if b.len() != 5 {
            return None;
        }
        let mut letters: Vec<u8> = Vec::new();
        let mut i: usize = 0;
        while i < 5
            invariant
                b@.len() == 5,
                b@ == s.spec_bytes(),
                0 <= i <= 5,
                letters@.len() == i,
                forall|k: int| 0 <= k < i ==> (#[trigger] letters@[k]) == b@[k],
            decreases 5 - i,
        {
            letters.push(b[i]);
            i += 1;
        }
        let w = Word { letters };
        proof {
            assert(w@ =~= s.spec_bytes());
        }
        Some(w)
    }

    /// The word's bytes.
    pub fn letters(&self) -> (r: &Vec<u8>)
        ensures
            r@ == self@,
    {
        &self.letters
    }

    /// An equal copy of the word.
    pub fn duplicate(&self) -> (r: Word)
        ensures
            r@ == self@,
    {
        let mut letters: Vec<u8> = Vec::new();
        let mut i: usize = 0;
        while i < self.letters.len()
            invariant
                0 <= i <= self@.len(),
                letters@.len() == i,
                forall|k: int| 0 <= k < i ==> (#[trigger] letters@[k]) == self@[k],
            decreases self@.len() - i,
        {
            letters.push(self.letters[i]);
            i += 1;
        }
        let w = Word { letters };
        proof {
            assert(w@ =~= self@);
        }
        w
    }
}

/// The verdicts for the five positions of one guess.
#[derive(Debug)]
pub struct Response {
    clues: Vec<Clue>,
}

impl View for Response {
    type V = Seq<Clue>;

    closed spec fn view(&self) -> Seq<Clue> {
        self.clues@
    }
}

impl Response {
    /// A well-formed response has exactly five verdicts.
    pub open spec fn wf(&self) -> bool {
        self@.len() == 5
    }

    /// The verdicts, one per guess position.
    pub fn clues(&self) -> (r: &Vec<Clue>)
        ensures
            r@ == self@,
    {
        &self.clues
    }
}

/// The verdicts after the first pass: correct exactly where guess and
/// secret agree.
pub open spec fn pass1_clues(g: Seq<u8>, s: Seq<u8>) -> Seq<Clue> {
    Seq::new(
        5,
        |i: int|
            if g[i] == s[i] {
                Clue::Correct
            } else {
                Clue::Incorrect
            },
    )
}

/// The secret after the first pass: exactly matched letters are used up.
pub open spec fn pass1_secret(g: Seq<u8>, s: Seq<u8>) -> Seq<u8> {
    Seq::new(
        5,
        |i: int|
            if g[i] == s[i] {
                USED_MARK
            } else {
                s[i]
            },
    )
}

/// The first position at or after `j` where `s` holds `ch`.
pub open spec fn find_from(s: Seq<u8>, ch: u8, j: int) -> Option<int>
    decreases s.len() - j,
{
    if !(0 <= j < s.len()) {
        None
    } else if s[j] == ch {
        Some(j)
    } else {
        find_from(s, ch, j + 1)
    }
}

/// The second pass from position `i` on: an incorrect position whose
/// letter still occurs among the unused secret letters becomes misplaced
/// and uses up that occurrence.
pub open spec fn pass2(g: Seq<u8>, resp: Seq<Clue>, sec: Seq<u8>, i: int) -> (Seq<Clue>, Seq<u8>)
    decreases 5 - i,
{
    if !(0 <= i < 5) {
        (resp, sec)
    } else if resp[i] == Clue::Incorrect {
        match find_from(sec, g[i], 0) {
            Some(j) => pass2(g, resp.update(i, Clue::Misplaced), sec.update(j, USED_MARK), i + 1),
            None => pass2(g, resp, sec, i + 1),
        }
    } else {
        pass2(g, resp, sec, i + 1)
    }
}

/// The verdicts for guessing `g` against secret `s`.
pub open spec fn spec_evaluate(g: Seq<u8>, s: Seq<u8>) -> Seq<Clue> {
    pass2(g, pass1_clues(g, s), pass1_secret(g, s), 0).0
}

/// The verdicts for one guess against one secret.
pub fn evaluate_guess(guess: &Word, secret: &Word) -> (r: Response)
    requires
        guess.wf(),
        secret.wf(),
    ensures
        r.wf(),
        r@ == spec_evaluate(guess@, secret@),
{
    let g = guess.letters();
    let mut sec: Vec<u8> = secret.duplicate().letters;
    let mut resp: Vec<Clue> = Vec::new();
    let mut i: usize = 0;
    while i < 5
        invariant
            g@ == guess@,
            guess@.len() == 5,
            secret@.len() == 5,
            0 <= i <= 5,
            resp@.len() == i,
            sec@.len() == 5,
            forall|k: int| 0 <= k < i ==> (#[trigger] resp@[k]) == pass1_clues(guess@, secret@)[k],
            forall|k: int|
                0 <= k < 5 ==> (#[trigger] sec@[k]) == (if k < i {
                    pass1_secret(guess@, secret@)[k]
                } else {
                    secret@[k]
                }),
        decreases 5 - i,
    {
        if g[i] == sec[i] {
            sec.set(i, USED_MARK);
            resp.push(Clue::Correct);
        } else {
            resp.push(Clue::Incorrect);
        }
        i += 1;
    }
    proof {
        assert(resp@ =~= pass1_clues(guess@, secret@));
        assert(sec@ =~= pass1_secret(guess@, secret@));
    }
    let ghost resp0 = resp@;
    let ghost sec0 = sec@;
    let mut i: usize = 0;
    while i < 5
        invariant
            g@ == guess@,
            guess@.len() == 5,
            0 <= i <= 5,
            resp@.len() == 5,
            sec@.len() == 5,
            pass2(guess@, resp0, sec0, 0) == pass2(guess@, resp@, sec@, i as int),
        decreases 5 - i,
    {
        let mut is_incorrect: bool = false;
        match resp[i] {
            Clue::Incorrect => {
                is_incorrect = true;
            },
            _ => {},
        }
        if is_incorrect {
            let target = g[i];
            let mut found: Option<usize> = None;
            let mut j: usize = 0;
            while j < 5 && found.is_none()
                invariant
                    sec@.len() == 5,
                    0 <= j <= 5,
                    match found {
                        Some(f) => f < 5 && find_from(sec@, target, 0) == Some(f as int),
                        None => find_from(sec@, target, 0) == find_from(sec@, target, j as int),
                    },
                decreases (if found is None {
                    1int
                } else {
                    0int
                }), 5 - j,
            {
                if sec[j] == target {
                    found = Some(j);
                    proof {
                        assert(find_from(sec@, target, j as int) == Some(j as int));
                    }
                } else {
                    j += 1;
                }
            }
            proof {
                if found is None {
                    assert(find_from(sec@, target, 5) is None);
                }
            }
            match found {
                Some(j2) => {
                    proof {
                        assert(find_from(sec@, target, 0) == Some(j2 as int));
                    }
                    sec.set(j2, USED_MARK);
                    resp.set(i, Clue::Misplaced);
                },
                None => {},
            }
        }
        i += 1;
    }
    let r = Response { clues: resp };
    r
}

/// Every guess paired with every secret and the verdicts between them, in
/// guess-major order.
pub fn calculate_word_pairs(guesses: &Vec<Word>, solutions: &Vec<Word>) -> (r: Vec<
    (Word, Word, Response),
>)
    requires
        forall|k: int| 0 <= k < guesses@.len() ==> (#[trigger] guesses@[k]).wf(),
        forall|k: int| 0 <= k < solutions@.len() ==> (#[trigger] solutions@[k]).wf(),
        guesses@.len() * solutions@.len() <= usize::MAX,
    ensures
        r@.len() == guesses@.len() * solutions@.len(),
        forall|k: int|
            0 <= k < r@.len() ==> {
                let a = k / (solutions@.len() as int);
                let b = k % (solutions@.len() as int);
                &&& (#[trigger] r@[k]).0@ == guesses@[a]@
                &&& r@[k].1@ == solutions@[b]@
                &&& r@[k].2@ == spec_evaluate(guesses@[a]@, solutions@[b]@)
            },
{
    let mut out: Vec<(Word, Word, Response)> = Vec::new();
    let n = solutions.len();
    let mut a: usize = 0;
    while a < guesses.len()
        invariant
            forall|k: int| 0 <= k < guesses@.len() ==> (#[trigger] guesses@[k]).wf(),
            forall|k: int| 0 <= k < solutions@.len() ==> (#[trigger] solutions@[k]).wf(),
            guesses@.len() * solutions@.len() <= usize::MAX,
            n == solutions@.len(),
            0 <= a <= guesses@.len(),
            out@.len() == a * n,
            forall|k: int|
                0 <= k < out@.len() ==> {
                    let a2 = k / (n as int);
                    let b2 = k % (n as int);
                    &&& (#[trigger] out@[k]).0@ == guesses@[a2]@
                    &&& out@[k].1@ == solutions@[b2]@
                    &&& out@[k].2@ == spec_evaluate(guesses@[a2]@, solutions@[b2]@)
                },
        decreases guesses@.len() - a,
    {
        let mut b: usize = 0;
        proof {
            assert((a as int) * (n as int) + n <= guesses@.len() * (n as int))
                by (nonlinear_arith)
                requires
                    0 <= (a as int) < guesses@.len(),
                    n >= 0,
            {
            }
        }
        while b < n
            invariant
                forall|k: int| 0 <= k < guesses@.len() ==> (#[trigger] guesses@[k]).wf(),
                forall|k: int| 0 <= k < solutions@.len() ==> (#[trigger] solutions@[k]).wf(),
                guesses@.len() * solutions@.len() <= usize::MAX,
                (a as int) * (n as int) + n <= guesses@.len() * (n as int),
                n == solutions@.len(),
                0 <= a < guesses@.len(),
                0 <= b <= n,
                out@.len() == a * n + b,
                forall|k: int|
                    0 <= k < out@.len() ==> {
                        let a2 = k / (n as int);
                        let b2 = k % (n as int);
                        &&& (#[trigger] out@[k]).0@ == guesses@[a2]@
                        &&& out@[k].1@ == solutions@[b2]@
                        &&& out@[k].2@ == spec_evaluate(guesses@[a2]@, solutions@[b2]@)
                    },
            decreases n - b,
        {
            let resp = evaluate_guess(&guesses[a], &solutions[b]);
            out.push((guesses[a].duplicate(), solutions[b].duplicate(), resp));
            proof {
                let k = out@.len() - 1;
                vstd::arithmetic::div_mod::lemma_fundamental_div_mod_converse(
                    k,
                    n as int,
                    a as int,
                    b as int,
                );
            }
            b += 1;
        }
        proof {
            assert(((a as int) + 1) * (n as int) == (a as int) * (n as int) + (n as int))
                by (nonlinear_arith);
        }
        a += 1;
    }
    proof {
        assert(out@.len() == guesses@.len() * solutions@.len());
    }
    out
}

} // verus!
