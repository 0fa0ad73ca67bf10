//! Exhaustive minimax over boards, scored from the computer's side.
use vstd::prelude::*;
use crate::board::{
    Board, BoardState, Cell, Outcome, Player, legal, ply, play, empties_from, lemma_empties_from,
    lemma_fill_one,
};

verus! {

/// The side to move at `b` is the computer's: that level maximizes, any other minimizes.
pub open spec fn maximizing(b: BoardState) -> bool {
    b.bot == Some(b.to_move)
}

/// The score of a finished board: a computer win scores `11 - ply`, a computer loss
/// `ply - 11`, and anything else (a draw, or a game without a computer side) 0.
pub open spec fn score_of(b: BoardState) -> int {
    match (b.outcome, b.bot) {
        (Outcome::Won(p), Some(q)) => if p == q {
            11 - ply(b.cells)
        } else {
            -11 + ply(b.cells)
        },
        _ => 0,
    }
}

/// The larger of two scores when maximizing, else the smaller; the first on a tie.
pub open spec fn pick(maximize: bool, a: int, b: int) -> int {
    if maximize {
        if a >= b {
            a
        } else {
            b
        }
    } else {
        if a <= b {
            a
        } else {
            b
        }
    }
}

/// The maximum (or minimum) of a non-empty sequence of scores.
pub open spec fn extreme(maximize: bool, s: Seq<i8>) -> int
    decreases s.len(),
{
    if s.len() == 0 {
        0
    } else if s.len() == 1 {
        s[0] as int
    } else {
        pick(maximize, s[0] as int, extreme(maximize, s.drop_first()))
    }
}

/// The minimax value of `b` looking at most `n` moves ahead.
pub open spec fn value_within(b: BoardState, n: nat) -> int
    decreases n, 1int, 0int,
{
    if b.outcome != Outcome::InProgress || n == 0 {
        score_of(b)
    } else {
        best_over(b, legal(b.cells), n)
    }
}

/// The best value, for the side to move at `b`, among the moves `ms`.
pub open spec fn best_over(b: BoardState, ms: Seq<i8>, n: nat) -> int
    decreases n, 0int, ms.len(),
{
    if n == 0 || ms.len() == 0 {
        0
    } else {
        let v = value_within(play(b, ms[0] as int), (n - 1) as nat);
        if ms.len() == 1 {
            v
        } else {
            pick(maximizing(b), v, best_over(b, ms.drop_first(), n))
        }
    }
}

/// The game-theoretic value of `b` for the computer, searching to the end of the game.
pub open spec fn value(b: BoardState) -> int {
    value_within(b, legal(b.cells).len())
}

/// The extreme of a non-empty sequence is one of its elements, and bounds all of them.
pub proof fn lemma_extreme(maximize: bool, s: Seq<i8>)
    requires
        s.len() > 0,
    ensures
        exists|i: int| 0 <= i < s.len() && s[i] as int == extreme(maximize, s),
        forall|i: int|
            0 <= i < s.len() ==> (if maximize {
                s[i] <= extreme(maximize, s)
            } else {
                s[i] >= extreme(maximize, s)
            }),
    decreases s.len(),
{
    if s.len() > 1 {
        let t = s.drop_first();
        lemma_extreme(maximize, t);
        let i = choose|i: int| 0 <= i < t.len() && t[i] as int == extreme(maximize, t);
        assert(s[i + 1] == t[i]);
        assert forall|j: int| 1 <= j < s.len() implies s[j] == t[j - 1] by {}
        if extreme(maximize, s) == s[0] as int {
            assert(s[0] as int == extreme(maximize, s));
        }
    } else {
        assert(s[0] as int == extreme(maximize, s));
    }
}

/// A computer win in fewer moves scores strictly higher, and a computer loss in fewer
/// moves scores strictly lower.
pub proof fn lemma_faster_ends_score_further(b1: BoardState, b2: BoardState, p1: Player, p2: Player)
    requires
        b1.outcome == Outcome::Won(p1),
        b2.outcome == Outcome::Won(p2),
        b1.bot == b2.bot,
        b1.bot is Some,
        ply(b1.cells) < ply(b2.cells),
    ensures
        b1.bot == Some(p1) && b2.bot == Some(p2) ==> score_of(b1) > score_of(b2),
        b1.bot != Some(p1) && b2.bot != Some(p2) ==> score_of(b1) < score_of(b2),
{
}

/// Folding the moves' values is folding the scores that hold those values.
proof fn lemma_best_over_scores(b: BoardState, ms: Seq<i8>, n: nat, s: Seq<i8>)
    requires
        n > 0,
        ms.len() == s.len(),
        forall|i: int|
            0 <= i < s.len() ==> s[i] as int == value_within(
                #[trigger] play(b, ms[i] as int),
                (n - 1) as nat,
            ),
    ensures
        best_over(b, ms, n) == extreme(maximizing(b), s),
    decreases ms.len(),
{
    if ms.len() > 1 {
        assert(play(b, ms.drop_first()[0] as int) == play(b, ms[1] as int));
        assert forall|i: int| 0 <= i < s.drop_first().len() implies s.drop_first()[i] as int
            == value_within(#[trigger] play(b, ms.drop_first()[i] as int), (n - 1) as nat) by {
            assert(play(b, ms.drop_first()[i] as int) == play(b, ms[i + 1] as int));
        }
        lemma_best_over_scores(b, ms.drop_first(), n, s.drop_first());
    } else if ms.len() == 1 {
        assert(play(b, ms[0] as int) == play(b, ms[0] as int));
    }
}

/// Scores a finished board from the computer's side; 0 when nobody has won.
pub fn score(b: &Board) -> (r: i8)
    ensures
        r == score_of(b@),
{
    match (b.outcome, b.bot) {
        (Outcome::Won(p), Some(q)) => {
            let depth = b.get_depth();
            if p == q {
                11 - depth
            } else {
                -11 + depth
            }
        },
        _ => 0,
    }
}

/// Whether the computer is the side to move.
pub fn bot_to_move(b: &Board) -> (r: bool)
    ensures
        r == maximizing(b@),
{
    match b.bot {
        Some(p) => p == b.to_move,
        None => false,
    }
}

/// The maximum (or minimum) of non-empty `scores`.
pub fn extreme_of(scores: &Vec<i8>, maximize: bool) -> (r: i8)
    requires
        scores.len() > 0,
    ensures
        r == extreme(maximize, scores@),
{
    let len = scores.len();
    let mut i: usize = len - 1;
    let mut acc: i8 = scores[i];
    proof {
        assert(scores@.subrange(i as int, len as int) =~= seq![scores[i as int]]);
    }
    while i > 0
        invariant
            0 <= i < len == scores.len(),
            acc == extreme(maximize, scores@.subrange(i as int, len as int)),
        decreases i,
    {
        proof {
            assert(scores@.subrange(i - 1, len as int).drop_first() =~= scores@.subrange(
                i as int,
                len as int,
            ));
        }
        i = i - 1;
        let v = scores[i];
        if maximize {
            if v >= acc {
                acc = v;
            }
        } else {
            if v <= acc {
                acc = v;
            }
        }
    }
    proof {
        assert(scores@.subrange(0, len as int) =~= scores@);
    }
    acc
}

/// The values of the boards that each move of `moves` leads to.
fn child_scores(b: &Board, moves: &Vec<i8>) -> (r: Vec<i8>)
    requires
        b.wf(),
        moves@ == legal(b.cells@),
        legal(b.cells@).len() > 0,
    ensures
        r.len() == moves.len(),
        forall|i: int|
            0 <= i < r.len() ==> r[i] as int == value_within(
                #[trigger] play(b@, moves[i] as int),
                (legal(b.cells@).len() - 1) as nat,
            ),
    decreases legal(b.cells@).len(), 0int,
{
    let mut scores: Vec<i8> = Vec::new();
    let mut j: usize = 0;
    while j < moves.len()
        invariant
            b.wf(),
            moves@ == legal(b.cells@),
            j <= moves.len(),
            scores.len() == j,
            forall|i: int|
                0 <= i < j ==> scores[i] as int == value_within(
                    #[trigger] play(b@, moves[i] as int),
                    (legal(b.cells@).len() - 1) as nat,
                ),
        decreases moves.len() - j,
    {
        let m = moves[j];
        proof {
            lemma_empties_from(b.cells@, 0);
            assert(empties_from(b.cells@, 0)[j as int] == m);
            assert(legal(b.cells@).contains(m));
            assert(legal(b.cells@).contains((m as int) as i8));
            lemma_fill_one(b.cells@, m as int, b.to_move, 0);
        }
        let child = match b.make_move(m) {
            Ok(c) => c,
            Err(_) => {
                return scores;
            },
        };
        let v = evaluate(&child);
        scores.push(v);
        j = j + 1;
    }
    scores
}

/// The value of `b` for the computer: the score of a finished board, else the best
/// (computer to move) or worst (opponent to move) value among the boards one move on.
pub fn evaluate(b: &Board) -> (r: i8)
    requires
        b.wf(),
    ensures
        r == value(b@),
    decreases legal(b.cells@).len(), 1int,
{
    if b.outcome != Outcome::InProgress {
        return score(b);
    }
    let moves = b.get_moves();
    let scores = child_scores(b, &moves);
    proof {
        lemma_best_over_scores(b@, moves@, legal(b.cells@).len(), scores@);
    }
    extreme_of(&scores, bot_to_move(b))
}

/// Relies on `rand::thread_rng` and `rand::Rng::gen_range`: a value drawn from `0..n`
/// (`gen_range` panics on an empty range).
#[verifier::external_body]
fn random_below(n: usize) -> (r: usize)
    requires
        n > 0,
    ensures
        r < n,
{
    rand::Rng::gen_range(&mut rand::thread_rng(), 0..n)
}

/// The positions among `k..` of `s` that hold `v`, ascending.
pub open spec fn positions_of(s: Seq<i8>, v: int, k: int) -> Seq<usize>
    decreases s.len() - k,
{
    if k < 0 || k >= s.len() {
        Seq::empty()
    } else if s[k] as int == v {
        seq![k as usize] + positions_of(s, v, k + 1)
    } else {
        positions_of(s, v, k + 1)
    }
}

/// The positions of the highest score of `s`, ascending.
pub open spec fn max_positions(s: Seq<i8>) -> Seq<usize> {
    positions_of(s, extreme(true, s), 0)
}

/// Each listed position holds `v`, and the list is non-empty when some position from
/// `k` on holds `v`.
proof fn lemma_positions_of(s: Seq<i8>, v: int, k: int)
    requires
        0 <= k <= s.len(),
        s.len() <= usize::MAX,
    ensures
        forall|i: int|
            0 <= i < positions_of(s, v, k).len() ==> k <= #[trigger] positions_of(s, v, k)[i]
                < s.len() && s[positions_of(s, v, k)[i] as int] as int == v,
        (exists|j: int| k <= j < s.len() && s[j] as int == v) ==> positions_of(s, v, k).len() > 0,
    decreases s.len() - k,
{
    if k < s.len() {
        lemma_positions_of(s, v, k + 1);
        let rest = positions_of(s, v, k + 1);
        if s[k] as int == v {
            assert forall|i: int| 1 <= i < positions_of(s, v, k).len() implies positions_of(
                s,
                v,
                k,
            )[i] == rest[i - 1] by {}
        } else {
            if exists|j: int| k <= j < s.len() && s[j] as int == v {
                let j = choose|j: int| k <= j < s.len() && s[j] as int == v;
                assert(k + 1 <= j);
            }
        }
    }
}

/// The positions of the highest score in non-empty `scores`, ascending.
pub fn max_score_indexes(scores: &Vec<i8>) -> (r: Vec<usize>)
    requires
        scores.len() > 0,
    ensures
        r@ == max_positions(scores@),
        r.len() > 0,
        forall|i: int|
            0 <= i < r.len() ==> r[i] < scores.len() && scores[r[i] as int] == extreme(
                true,
                scores@,
            ),
{
    let max_score = extreme_of(scores, true);
    let mut indexes: Vec<usize> = Vec::new();
    let mut j: usize = 0;
    while j < scores.len()
        invariant
            j <= scores.len(),
            max_score == extreme(true, scores@),
            indexes@ + positions_of(scores@, max_score as int, j as int) == max_positions(scores@),
        decreases scores.len() - j,
    {
        if scores[j] == max_score {
            proof {
                assert(indexes@ + positions_of(scores@, max_score as int, j as int) =~= indexes@.push(j)
                    + positions_of(scores@, max_score as int, j + 1));
            }
            indexes.push(j);
        }
        j = j + 1;
    }
    proof {
        assert(indexes@ + positions_of(scores@, max_score as int, j as int) =~= indexes@);
        lemma_extreme(true, scores@);
        lemma_positions_of(scores@, max_score as int, 0);
    }
    indexes
}

/// The position of the highest score that draw number `draw` selects: the `draw`-th of
/// the positions holding it, so that each such position belongs to exactly one draw.
pub fn pick_max(scores: &Vec<i8>, draw: usize) -> (r: usize)
    requires
        scores.len() > 0,
        draw < max_positions(scores@).len(),
    ensures
        r == max_positions(scores@)[draw as int],
        r < scores.len(),
        scores[r as int] == extreme(true, scores@),
{
    let indexes = max_score_indexes(scores);
    indexes[draw]
}

/// A position of the highest score in non-empty `scores`, drawn uniformly at random
/// among all positions that hold it.
pub fn rand_best_mv(scores: &Vec<i8>) -> (r: usize)
    requires
        scores.len() > 0,
    ensures
        r < scores.len(),
        scores[r as int] == extreme(true, scores@),
        max_positions(scores@).contains(r),
{
    let count = max_score_indexes(scores).len();
    let draw = random_below(count);
    pick_max(scores, draw)
}

/// The first position of the lowest score in non-empty `scores`.
pub fn first_min_index(scores: &Vec<i8>) -> (r: usize)
    requires
        scores.len() > 0,
    ensures
        r < scores.len(),
        scores[r as int] == extreme(false, scores@),
        forall|j: int| 0 <= j < r ==> scores[j] != extreme(false, scores@),
{
    let min_score = extreme_of(scores, false);
    proof {
        lemma_extreme(false, scores@);
    }
    let mut j: usize = 0;
    while j < scores.len()
        invariant
            j <= scores.len(),
            min_score == extreme(false, scores@),
            exists|k: int| j <= k < scores.len() && scores[k] == min_score,
            forall|k: int| 0 <= k < j ==> scores[k] != min_score,
        decreases scores.len() - j,
    {
        if scores[j] == min_score {
            return j;
        }
        j = j + 1;
    }
    j
}

/// The value of in-progress `b` for the computer, with a move that achieves it. When the
/// computer is to move, the move is drawn at random among all moves of the highest value;
/// otherwise it is the first move (in ascending order) of the lowest value.
pub fn best_move(b: &Board) -> (r: (i8, i8))
    requires
        b.wf(),
        b.outcome == Outcome::InProgress,
    ensures
        legal(b.cells@).contains(r.1),
        0 <= r.1 < 9,
        b.cells[r.1 as int] == Cell::Empty,
        r.0 == value(b@),
        r.0 == value(play(b@, r.1 as int)),
        !maximizing(b@) ==> forall|i: int|
            0 <= i < legal(b.cells@).len() && legal(b.cells@)[i] < r.1 ==> value(
                play(b@, legal(b.cells@)[i] as int),
            ) > r.0,
{
    let moves = b.get_moves();
    let scores = child_scores(b, &moves);
    let n = Ghost(legal(b.cells@).len());
    proof {
        lemma_best_over_scores(b@, moves@, n@, scores@);
        lemma_empties_from(b.cells@, 0);
    }
    let maximize = bot_to_move(b);
    let index = if maximize {
        rand_best_mv(&scores)
    } else {
        first_min_index(&scores)
    };
    let m = moves[index];
    proof {
        assert(legal(b.cells@)[index as int] == m);
        assert(legal(b.cells@).contains((m as int) as i8));
        lemma_fill_one(b.cells@, m as int, b.to_move, 0);
        assert(scores[index as int] == value_within(play(b@, moves[index as int] as int), (n@ - 1) as nat));
        if !maximize {
            lemma_extreme(false, scores@);
            assert forall|i: int|
                0 <= i < legal(b.cells@).len() && legal(b.cells@)[i] < m implies value(
                play(b@, legal(b.cells@)[i] as int),
            ) > scores[index as int] by {
                let mi = legal(b.cells@)[i];
                assert(legal(b.cells@).contains((mi as int) as i8));
                lemma_fill_one(b.cells@, mi as int, b.to_move, 0);
                if i >= index {
                    assert(legal(b.cells@)[index as int] <= legal(b.cells@)[i]);
                }
                assert(scores[i] as int == value_within(play(b@, moves[i] as int), (n@ - 1) as nat));
            }
        }
    }
    (scores[index], m)
}

} // verus!
