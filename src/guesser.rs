use vstd::multiset::Multiset;
use vstd::prelude::*;
use vstd::string::StrSliceExecFns;

verus! {

/// The outcome of one element (an atom) of a guess.
#[derive(Debug, Clone, PartialEq)]
pub enum GuessResult<T> {
    /// The element is in the target at this very position.
    Correct(T),
    /// The element is not in the target, once exact matches and earlier
    /// misplaced elements have claimed their share.
    Incorrect(T),
    /// The element is in the target, at another position.
    Misplaced(T),
    /// A placeholder cell for rendering; scoring never produces it.
    Empty,
    /// Reserved for caller-defined comparisons.
    Custom(T),
}

/// A scored guess: the guessed word and one result per atom of it.
#[derive(Debug, Clone, PartialEq, Default)]
pub struct Guess<T, G> {
    pub word: T,
    pub guess: Vec<GuessResult<G>>,
}

/// A value that can be scored against another value of its type.
///
/// Implementations state how their values compare and score in the spec
/// functions below; the exec methods must agree with them.
pub trait Guessable<T: PartialEq + Clone>: PartialEq + Clone {
    /// Whether `self` and `other` count as the same word.
    spec fn same_as(&self, other: &Self) -> bool;

    /// The results of scoring `self` as a guess against `target`, one per atom.
    spec fn score_of(&self, target: &Self) -> Seq<GuessResult<T>>;

    /// Scores `self` as a guess against `other`.
    fn guess(&self, other: &Self) -> (r: Guess<Self, T>)
        ensures
            r.word == *self,
            r.guess@ == self.score_of(other),
    ;

    /// Whether `self` and `other` are the same word.
    fn is_same(&self, other: &Self) -> (r: bool)
        ensures
            r == self.same_as(other),
    ;
}

/// Whether position `i` of the guess holds the target's atom at that position.
pub open spec fn exact_at<A>(g: Seq<A>, t: Seq<A>, i: int) -> bool {
    0 <= i < t.len() && g[i] == t[i]
}

/// The target atoms at the first `n` positions of the guess that no exact
/// match claimed.
pub open spec fn leftover_upto<A>(g: Seq<A>, t: Seq<A>, n: int) -> Multiset<A>
    decreases n,
{
    if n <= 0 {
        Multiset::empty()
    } else if n - 1 < t.len() && !exact_at(g, t, n - 1) {
        leftover_upto(g, t, n - 1).insert(t[n - 1])
    } else {
        leftover_upto(g, t, n - 1)
    }
}

/// The guess atoms at the first `n` positions that are not exact matches.
pub open spec fn unmatched_upto<A>(g: Seq<A>, t: Seq<A>, n: int) -> Multiset<A>
    decreases n,
{
    if n <= 0 {
        Multiset::empty()
    } else if !exact_at(g, t, n - 1) {
        unmatched_upto(g, t, n - 1).insert(g[n - 1])
    } else {
        unmatched_upto(g, t, n - 1)
    }
}

/// The result at position `i`: exact matches are correct; any other atom is
/// misplaced while the unclaimed target atoms of its value outnumber the
/// unmatched guess atoms of that value to its left.
pub open spec fn cell_at<A>(g: Seq<A>, t: Seq<A>, i: int) -> GuessResult<A> {
    if exact_at(g, t, i) {
        GuessResult::Correct(g[i])
    } else if unmatched_upto(g, t, i).count(g[i]) < leftover_upto(g, t, g.len() as int).count(
        g[i],
    ) {
        GuessResult::Misplaced(g[i])
    } else {
        GuessResult::Incorrect(g[i])
    }
}

/// The results of the first `n` positions of guess `g` against target `t`.
pub open spec fn score_upto<A>(g: Seq<A>, t: Seq<A>, n: int) -> Seq<GuessResult<A>> {
    Seq::new(n as nat, |i: int| cell_at(g, t, i))
}

/// The results of guess `g` against target `t`, one per atom of `g`.
pub open spec fn score<A>(g: Seq<A>, t: Seq<A>) -> Seq<GuessResult<A>> {
    score_upto(g, t, g.len() as int)
}

/// The result of the first pass at position `i`, before misplaced atoms are found.
pub open spec fn first_pass_at<A>(g: Seq<A>, t: Seq<A>, i: int) -> GuessResult<A> {
    if exact_at(g, t, i) {
        GuessResult::Correct(g[i])
    } else {
        GuessResult::Incorrect(g[i])
    }
}

/// How many target atoms of one value are still unclaimed once `e` unmatched
/// guess atoms of that value have tried to claim one of `l`.
pub open spec fn unclaimed(e: nat, l: nat) -> nat {
    if e < l {
        (l - e) as nat
    } else {
        0
    }
}

/// A word scored against itself is correct at every position.
pub proof fn lemma_score_of_target<A>(t: Seq<A>)
    ensures
        score(t, t) == Seq::new(t.len(), |i: int| GuessResult::Correct(t[i])),
{
    assert(score(t, t) =~= Seq::new(t.len(), |i: int| GuessResult::Correct(t[i])));
}

proof fn lemma_prefix_counts<A>(g: Seq<A>, t: Seq<A>, c: A, n: int)
    requires
        g.len() == t.len(),
        0 <= n <= g.len(),
    ensures
        score_upto(g, t, n).to_multiset().count(GuessResult::Misplaced(c)) == {
            let e = unmatched_upto(g, t, n).count(c);
            let l = leftover_upto(g, t, g.len() as int).count(c);
            if e < l { e } else { l }
        },
        t.subrange(0, n).to_multiset().count(c) == score_upto(g, t, n).to_multiset().count(
            GuessResult::Correct(c),
        ) + leftover_upto(g, t, n).count(c),
    decreases n,
{
    broadcast use vstd::seq_lib::group_to_multiset_ensures;

    if n == 0 {
        assert(score_upto(g, t, 0) =~= Seq::empty());
        assert(t.subrange(0, 0) =~= Seq::empty());
        assert(score_upto(g, t, 0).to_multiset() =~= Multiset::empty());
        assert(t.subrange(0, 0).to_multiset() =~= Multiset::empty());
    } else {
        lemma_prefix_counts(g, t, c, n - 1);
        assert(score_upto(g, t, n) =~= score_upto(g, t, n - 1).push(cell_at(g, t, n - 1)));
        assert(t.subrange(0, n) =~= t.subrange(0, n - 1).push(t[n - 1]));
    }
}

/// Misplaced marks of a value never outnumber the atoms of that value in the
/// target that no correct mark has claimed.
pub proof fn lemma_misplaced_bounded<A>(g: Seq<A>, t: Seq<A>, c: A)
    requires
        g.len() == t.len(),
    ensures
        score(g, t).to_multiset().count(GuessResult::Misplaced(c)) <= t.to_multiset().count(c)
            - score(g, t).to_multiset().count(GuessResult::Correct(c)),
{
    lemma_prefix_counts(g, t, c, g.len() as int);
    assert(t.subrange(0, g.len() as int) =~= t);
}

fn chars_of(s: &String) -> (r: Vec<char>)
    ensures
        r@ == s@,
{
    let n = s.as_str().unicode_len();
    let mut r: Vec<char> = Vec::new();
    let mut i: usize = 0;
    while i < n
        invariant
            n == s@.len(),
            i <= n,
            r@ == s@.subrange(0, i as int),
        decreases n - i,
    {
        r.push(s.as_str().get_char(i));
        i += 1;
    }
    assert(r@ =~= s@);
    r
}

fn position_of(v: &Vec<char>, c: char) -> (r: Option<usize>)
    ensures
        r matches Some(j) ==> j < v@.len() && v@[j as int] == c,
        r is None ==> !v@.contains(c),
{
    let mut j: usize = 0;
    while j < v.len()
        invariant
            j <= v@.len(),
            forall|k: int| 0 <= k < j ==> v@[k] != c,
        decreases v@.len() - j,
    {
        if v[j] == c {
            return Some(j);
        }
        j += 1;
    }
    None
}

impl Guessable<char> for String {
    open spec fn same_as(&self, other: &Self) -> bool {
        self@ == other@
    }

    open spec fn score_of(&self, target: &Self) -> Seq<GuessResult<char>> {
        score(self@, target@)
    }

    fn is_same(&self, other: &Self) -> (r: bool) {
        *self == *other
    }

    /// Scores `self` as a guess against the target `other`: exact matches
    /// first, then misplaced atoms from left to right, each consuming one
    /// unclaimed atom of the target.
    fn guess(&self, other: &Self) -> (r: Guess<String, char>) {
        let g = chars_of(self);
        let t = chars_of(other);
        let n = g.len();
        let tn = t.len();
        let ghost gs = g@;
        let ghost ts = t@;

        if *self == *other {
            let mut cells: Vec<GuessResult<char>> = Vec::new();
            let mut i: usize = 0;
            while i < tn
                invariant
                    gs == ts,
                    tn == ts.len(),
                    t@ == ts,
                    i <= tn,
                    cells@ == score_upto(gs, ts, i as int),
                decreases tn - i,
            {
                cells.push(GuessResult::Correct(t[i]));
                i += 1;
                assert(cells@ =~= score_upto(gs, ts, i as int));
            }
            return Guess { word: self.clone(), guess: cells };
        }

        let mut result: Vec<GuessResult<char>> = Vec::new();
        let mut leftover: Vec<char> = Vec::new();
        proof {
            broadcast use vstd::seq_lib::group_to_multiset_ensures;

            assert(leftover@.to_multiset() =~= Multiset::empty());
        }
        let mut i: usize = 0;
        while i < n
            invariant
                g@ == gs,
                t@ == ts,
                n == gs.len(),
                tn == ts.len(),
                i <= n,
                result@.len() == i,
                forall|j: int| 0 <= j < i ==> result@[j] == first_pass_at(gs, ts, j),
                leftover@.to_multiset() == leftover_upto(gs, ts, i as int),
            decreases n - i,
        {
            broadcast use vstd::seq_lib::group_to_multiset_ensures;

            if i < tn && g[i] == t[i] {
                result.push(GuessResult::Correct(g[i]));
            } else {
                result.push(GuessResult::Incorrect(g[i]));
                if i < tn {
                    leftover.push(t[i]);
                }
            }
            i += 1;
        }

        let ghost total = leftover_upto(gs, ts, n as int);
        let mut i: usize = 0;
        while i < n
            invariant
                g@ == gs,
                t@ == ts,
                n == gs.len(),
                tn == ts.len(),
                i <= n,
                total == leftover_upto(gs, ts, n as int),
                result@.len() == n,
                forall|j: int| 0 <= j < i ==> result@[j] == cell_at(gs, ts, j),
                forall|j: int| i <= j < n ==> result@[j] == first_pass_at(gs, ts, j),
                forall|c: char|
                    #[trigger] leftover@.to_multiset().count(c) == unclaimed(
                        unmatched_upto(gs, ts, i as int).count(c),
                        total.count(c),
                    ),
            decreases n - i,
        {
            broadcast use vstd::seq_lib::group_to_multiset_ensures;

            if let GuessResult::Incorrect(_) = result[i] {
                let c = g[i];
                assert(!exact_at(gs, ts, i as int));
                let ghost before = leftover@;
                assert(before.to_multiset().count(c) > 0 <==> before.contains(c));
                match position_of(&leftover, c) {
                    Some(j) => {
                        result.set(i, GuessResult::Misplaced(c));
                        leftover.remove(j);
                        assert(leftover@ == before.remove(j as int));
                    },
                    None => {},
                }
                assert(unmatched_upto(gs, ts, i + 1) == unmatched_upto(gs, ts, i as int).insert(c));
            } else {
                assert(exact_at(gs, ts, i as int));
                assert(unmatched_upto(gs, ts, i + 1) == unmatched_upto(gs, ts, i as int));
            }
            i += 1;
        }
        assert(result@ =~= score(gs, ts));
        Guess { word: self.clone(), guess: result }
    }
}

} // verus!
