pub use guesser::{Guess, GuessResult, Guessable};
use error::WordleError;
use std::marker::PhantomData;
use vstd::prelude::*;

pub mod error;
pub mod guesser;

verus! {

/// A scored row as the model sees it: the guessed word and its results.
pub type Row<T, G> = (G, Seq<GuessResult<T>>);

/// The abstract state of a game.
pub struct GameModel<T, G> {
    pub max_tries: nat,
    pub target: G,
    pub candidates: Seq<G>,
    /// The accepted guesses in order, each with its score against the target.
    pub history: Seq<Row<T, G>>,
}

/// `cells` right-padded with empty cells up to length `n`.
pub open spec fn padded<T>(cells: Seq<GuessResult<T>>, n: nat) -> Seq<GuessResult<T>> {
    if cells.len() < n {
        cells + Seq::new((n - cells.len()) as nat, |i: int| GuessResult::Empty)
    } else {
        cells
    }
}

/// The model of a scored guess.
pub open spec fn row_of<T, G>(g: Guess<G, T>) -> Row<T, G> {
    (g.word, g.guess@)
}

/// The model of what a submission returned.
pub open spec fn outcome<T, G>(r: Result<Guess<G, T>, WordleError<G>>) -> Result<
    Row<T, G>,
    WordleError<G>,
> {
    match r {
        Ok(g) => Ok(row_of(g)),
        Err(e) => Err(e),
    }
}

impl<T: PartialEq + Clone, G: Guessable<T>> GameModel<T, G> {
    /// A game that has not been played yet.
    pub open spec fn fresh(max_tries: nat, target: G, candidates: Seq<G>) -> Self {
        GameModel { max_tries, target, candidates, history: Seq::empty() }
    }

    /// Whether some candidate is the same word as `w`.
    pub open spec fn is_candidate(self, w: G) -> bool {
        exists|i: int| 0 <= i < self.candidates.len() && (#[trigger] self.candidates[i]).same_as(&w)
    }

    /// Whether some row of the history holds the same word as `w`.
    pub open spec fn is_guessed(self, w: G) -> bool {
        exists|i: int| 0 <= i < self.history.len() && (#[trigger] self.history[i]).0.same_as(&w)
    }

    pub open spec fn is_won(self) -> bool {
        self.is_guessed(self.target)
    }

    pub open spec fn is_lost(self) -> bool {
        self.history.len() == self.max_tries && !self.is_won()
    }

    pub open spec fn is_over(self) -> bool {
        self.is_won() || self.is_lost()
    }

    /// What submitting `w` returns: the first failing check wins.
    pub open spec fn submit_result(self, w: G) -> Result<Row<T, G>, WordleError<G>> {
        if self.max_tries == 0 {
            Err(WordleError::MaxTriesExceeded)
        } else if !self.is_candidate(w) {
            Err(WordleError::InvalidWord(w))
        } else if self.is_guessed(w) {
            Err(WordleError::WordAlreadyGuessed(w))
        } else {
            Ok((w, w.score_of(&self.target)))
        }
    }

    /// The state after submitting `w`: an accepted row is appended, a
    /// rejection changes nothing.
    pub open spec fn after_submit(self, w: G) -> Self {
        match self.submit_result(w) {
            Ok(row) => GameModel { history: self.history.push(row), ..self },
            Err(_) => self,
        }
    }

    /// The state after the game is ended: no history and no tries.
    pub open spec fn ended(self) -> Self {
        GameModel { max_tries: 0, history: Seq::empty(), ..self }
    }

    /// Every row holds a candidate that no earlier row holds, scored against
    /// the target.
    pub open spec fn wf(self) -> bool {
        &&& forall|i: int, j: int|
            0 <= i < j < self.history.len() ==> !(#[trigger] self.history[i]).0.same_as(
                &(#[trigger] self.history[j]).0,
            )
        &&& forall|i: int|
            0 <= i < self.history.len() ==> self.is_candidate((#[trigger] self.history[i]).0)
        &&& forall|i: int|
            0 <= i < self.history.len() ==> (#[trigger] self.history[i]).1
                == self.history[i].0.score_of(&self.target)
    }

    /// The number of atoms of the target, as scoring it against itself gives.
    pub open spec fn target_len(self) -> nat {
        self.target.score_of(&self.target).len()
    }

    /// The scored rows of a board: the history, then the buffer row padded
    /// with empty cells to the target's length.
    pub open spec fn board_top(self, buffer: Option<Row<T, G>>) -> Seq<Row<T, G>> {
        match buffer {
            Some(b) => self.history.push((b.0, padded(b.1, self.target_len()))),
            None => self.history,
        }
    }

    /// How many empty rows follow `rows` scored rows on a board: up to `pad`,
    /// while fewer than `max_tries` rows stand.
    pub open spec fn board_padding(self, pad: Option<u32>, rows: nat) -> nat {
        match pad {
            Some(p) => {
                let room: nat = if rows < self.max_tries {
                    (self.max_tries - rows) as nat
                } else {
                    0
                };
                if (p as nat) < room {
                    p as nat
                } else {
                    room
                }
            },
            None => 0,
        }
    }
}

/// A game of Wordle: a word to guess, the words that may be guessed, and the
/// guesses made so far.
pub struct Game<T: PartialEq + Clone, G: Guessable<T> + Default> {
    max_tries: u8,
    correct_word: G,
    word_list: Vec<G>,
    guesses: Vec<G>,
    atoms: PhantomData<T>,
}

impl<T: PartialEq + Clone, G: Guessable<T> + Default> View for Game<T, G> {
    type V = GameModel<T, G>;

    closed spec fn view(&self) -> GameModel<T, G> {
        GameModel {
            max_tries: self.max_tries as nat,
            target: self.correct_word,
            candidates: self.word_list@,
            history: self.guesses@.map_values(|w: G| (w, w.score_of(&self.correct_word))),
        }
    }
}

impl<T: PartialEq + Clone, G: Guessable<T> + Default> Game<T, G> {
    /// Creates a game with `max_tries` tries, the word to guess and the
    /// words that may be guessed.
    pub fn new(max_tries: u8, correct_word: G, word_list: Vec<G>) -> (r: Self)
        ensures
            r@ == GameModel::<T, G>::fresh(max_tries as nat, correct_word, word_list@),
            r@.wf(),
    {
        let r = Game { max_tries, correct_word, word_list, guesses: Vec::new(), atoms: PhantomData };
        assert(r@.history =~= Seq::empty());
        r
    }

    fn is_candidate(&self, word: &G) -> (r: bool)
        ensures
            r == self@.is_candidate(*word),
    {
        let mut i: usize = 0;
        while i < self.word_list.len()
            invariant
                i <= self.word_list@.len(),
                forall|k: int| 0 <= k < i ==> !self.word_list@[k].same_as(word),
            decreases self.word_list@.len() - i,
        {
            if self.word_list[i].is_same(word) {
                assert(self@.candidates[i as int].same_as(word));
                return true;
            }
            i += 1;
        }
        false
    }

    /// Submits a guess: rejected when no tries are left, when the word is not
    /// in the word list, or when it was guessed before; otherwise it is
    /// scored against the word to guess, recorded and returned.
    pub fn guess(&mut self, word: G) -> (r: Result<Guess<G, T>, WordleError<G>>)
        ensures
            outcome(r) == old(self)@.submit_result(word),
            final(self)@ == old(self)@.after_submit(word),
            old(self)@.wf() ==> final(self)@.wf(),
    {
        proof {
            if self@.wf() {
                lemma_submit_preserves_wf(self@, word);
            }
        }
        if self.max_tries == 0 {
            return Err(WordleError::MaxTriesExceeded);
        }
        if !self.is_candidate(&word) {
            return Err(WordleError::InvalidWord(word));
        }
        if self.is_word_guessed(&word) {
            return Err(WordleError::WordAlreadyGuessed(word));
        }
        let res = word.guess(&self.correct_word);
        let ghost before = self@;
        self.guesses.push(word);
        assert(self@.history =~= before.history.push(row_of(res)));
        Ok(res)
    }

    /// Whether `word` has been guessed in this game.
    pub fn is_word_guessed(&self, word: &G) -> (r: bool)
        ensures
            r == self@.is_guessed(*word),
    {
        let ghost rows = self@.history;
        let mut i: usize = 0;
        while i < self.guesses.len()
            invariant
                i <= self.guesses@.len(),
                rows == self@.history,
                rows.len() == self.guesses@.len(),
                forall|k: int| 0 <= k < i ==> !rows[k].0.same_as(word),
            decreases self.guesses@.len() - i,
        {
            if self.guesses[i].is_same(word) {
                assert(rows[i as int].0.same_as(word));
                return true;
            }
            i += 1;
            assert(rows[i - 1].0 == self.guesses@[i - 1]);
        }
        false
    }

    /// Whether the word to guess has been guessed.
    pub fn won(&self) -> (r: bool)
        ensures
            r == self@.is_won(),
    {
        self.is_word_guessed(&self.correct_word)
    }

    /// Whether every try was spent without the word to guess being guessed.
    pub fn lost(&self) -> (r: bool)
        ensures
            r == self@.is_lost(),
    {
        self.guesses.len() == self.max_tries as usize && !self.won()
    }

    /// Whether the game is won or lost.
    pub fn game_over(&self) -> (r: bool)
        ensures
            r == self@.is_over(),
    {
        self.won() || self.lost()
    }

    /// The word to guess.
    pub fn correct_word(&self) -> (r: &G)
        ensures
            *r == self@.target,
    {
        &self.correct_word
    }

    /// The rows to show: the history, then `buffer` padded with empty cells to
    /// the length of the word to guess, then up to `pad` empty rows with the
    /// default word, never more than `max_tries` rows in all.
    pub fn board(&self, pad: Option<u32>, buffer: Option<Guess<G, T>>) -> (r: Vec<Guess<G, T>>)
        ensures
            ({
                let top = self@.board_top(
                    match buffer {
                        Some(b) => Some(row_of(b)),
                        None => None,
                    },
                );
                &&& r@.len() == top.len() + self@.board_padding(pad, top.len())
                &&& forall|k: int| 0 <= k < top.len() ==> row_of(#[trigger] r@[k]) == top[k]
                &&& forall|k: int|
                    top.len() <= k < r@.len() ==> (#[trigger] r@[k]).guess@ == Seq::new(
                        self@.target_len(),
                        |i: int| GuessResult::<T>::Empty,
                    ) && call_ensures(G::default, (), r@[k].word)
            }),
    {
        let ghost model = self@;
        let ghost top = model.board_top(
            match buffer {
                Some(ref b) => Some(row_of(*b)),
                None => None,
            },
        );
        let n = self.correct_word.guess(&self.correct_word).guess.len();
        let mut rows: Vec<Guess<G, T>> = Vec::new();
        let mut i: usize = 0;
        while i < self.guesses.len()
            invariant
                model == self@,
                i <= self.guesses@.len(),
                model.history.len() == self.guesses@.len(),
                rows@.len() == i,
                forall|k: int| 0 <= k < i ==> row_of(#[trigger] rows@[k]) == model.history[k],
            decreases self.guesses@.len() - i,
        {
            let row = self.guesses[i].guess(&self.correct_word);
            rows.push(row);
            i += 1;
        }

        if let Some(buffer) = buffer {
            let mut row = buffer;
            let ghost cells = row.guess@;
            let ghost word = row.word;
            while row.guess.len() < n
                invariant
                    row.word == word,
                    cells.len() <= row.guess@.len(),
                    row.guess@.len() <= n || row.guess@.len() == cells.len(),
                    row.guess@ == cells + Seq::new(
                        (row.guess@.len() - cells.len()) as nat,
                        |k: int| GuessResult::Empty,
                    ),
                decreases n - row.guess@.len(),
            {
                row.guess.push(GuessResult::Empty);
                assert(row.guess@ =~= cells + Seq::new(
                    (row.guess@.len() - cells.len()) as nat,
                    |k: int| GuessResult::Empty,
                ));
            }
            assert(row.guess@ =~= padded(cells, n as nat));
            rows.push(row);
        }
        assert(rows@.len() == top.len());
        assert(forall|k: int| 0 <= k < top.len() ==> row_of(#[trigger] rows@[k]) == top[k]);

        if let Some(pad) = pad {
            let tries = self.max_tries as usize;
            let room: usize = if rows.len() < tries {
                tries - rows.len()
            } else {
                0
            };
            let k: usize = if (pad as usize) < room {
                pad as usize
            } else {
                room
            };
            let mut j: usize = 0;
            while j < k
                invariant
                    j <= k,
                    rows@.len() == top.len() + j,
                    forall|x: int| 0 <= x < top.len() ==> row_of(#[trigger] rows@[x]) == top[x],
                    forall|x: int|
                        top.len() <= x < rows@.len() ==> (#[trigger] rows@[x]).guess@ == Seq::new(
                            n as nat,
                            |i: int| GuessResult::<T>::Empty,
                        ) && call_ensures(G::default, (), rows@[x].word),
                decreases k - j,
            {
                let mut cells: Vec<GuessResult<T>> = Vec::new();
                let mut c: usize = 0;
                while c < n
                    invariant
                        c <= n,
                        cells@ == Seq::new(c as nat, |x: int| GuessResult::<T>::Empty),
                    decreases n - c,
                {
                    cells.push(GuessResult::Empty);
                    c += 1;
                    assert(cells@ =~= Seq::new(c as nat, |x: int| GuessResult::<T>::Empty));
                }
                rows.push(Guess { word: G::default(), guess: cells });
                j += 1;
            }
        }
        rows
    }

    /// Ends the game: clears the history and leaves no tries.
    pub fn end_game(&mut self)
        ensures
            final(self)@ == old(self)@.ended(),
            final(self)@.wf(),
    {
        self.guesses.clear();
        self.max_tries = 0;
        assert(self@.history =~= Seq::empty());
    }
}

/// Submitting a word keeps the history's rows distinct candidates, each
/// scored against the target.
pub proof fn lemma_submit_preserves_wf<T: PartialEq + Clone, G: Guessable<T>>(
    s: GameModel<T, G>,
    w: G,
)
    requires
        s.wf(),
    ensures
        s.after_submit(w).wf(),
{
    let t = s.after_submit(w);
    if s.submit_result(w) is Ok {
        assert(s.is_candidate(w));
        assert(t.candidates == s.candidates);
        assert forall|i: int, j: int| 0 <= i < j < t.history.len() implies !(
        #[trigger] t.history[i]).0.same_as(&(#[trigger] t.history[j]).0) by {
            assert(s.history[i] == t.history[i]);
            if j < s.history.len() {
                assert(s.history[j] == t.history[j]);
            }
        }
        assert forall|i: int| 0 <= i < t.history.len() implies t.is_candidate(
            (#[trigger] t.history[i]).0,
        ) by {
            if i < s.history.len() {
                assert(s.history[i] == t.history[i]);
                assert(s.is_candidate(s.history[i].0));
            }
        }
        assert forall|i: int| 0 <= i < t.history.len() implies (#[trigger] t.history[i]).1
            == t.history[i].0.score_of(&t.target) by {
            if i < s.history.len() {
                assert(s.history[i] == t.history[i]);
            }
        }
    }
}

/// A fresh game with no tries rejects every word with `MaxTriesExceeded`,
/// whether or not the word is a candidate, and stays as it was.
pub proof fn lemma_zero_budget_rejects<T: PartialEq + Clone, G: Guessable<T>>(
    target: G,
    candidates: Seq<G>,
    w: G,
)
    ensures
        GameModel::<T, G>::fresh(0, target, candidates).submit_result(w) == Err::<
            Row<T, G>,
            WordleError<G>,
        >(WordleError::MaxTriesExceeded),
        GameModel::<T, G>::fresh(0, target, candidates).after_submit(w) == GameModel::<
            T,
            G,
        >::fresh(0, target, candidates),
{
}

/// Once a word is accepted, submitting it again is rejected with
/// `WordAlreadyGuessed` and leaves the history as it is.
pub proof fn lemma_repeat_rejected<T: PartialEq + Clone, G: Guessable<T>>(
    s: GameModel<T, G>,
    w: G,
)
    requires
        s.submit_result(w) is Ok,
        w.same_as(&w),
    ensures
        s.after_submit(w).submit_result(w) == Err::<Row<T, G>, WordleError<G>>(
            WordleError::WordAlreadyGuessed(w),
        ),
        s.after_submit(w).after_submit(w) == s.after_submit(w),
{
    let t = s.after_submit(w);
    assert(s.is_candidate(w));
    assert(t.candidates == s.candidates);
    assert(t.history[s.history.len() as int].0 == w);
    assert(t.is_candidate(w));
    assert(t.is_guessed(w));
}

/// A word that is no candidate is rejected with `InvalidWord` in a game with
/// tries left, and the game stays as it was.
pub proof fn lemma_unknown_word_rejected<T: PartialEq + Clone, G: Guessable<T>>(
    s: GameModel<T, G>,
    w: G,
)
    requires
        s.max_tries != 0,
        !s.is_candidate(w),
    ensures
        s.submit_result(w) == Err::<Row<T, G>, WordleError<G>>(WordleError::InvalidWord(w)),
        s.after_submit(w) == s,
{
}

} // verus!
