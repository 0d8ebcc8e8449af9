use vstd::prelude::*;

verus! {

/// Number of pieces each color owns.
pub const MAX_PIECES: u8 = 5;

/// First square of the lane that both colors share (inclusive).
pub const SHARE_TRACK_START: i32 = 4;

/// End of the shared lane (exclusive).
pub const SHARE_TRACK_END: i32 = 12;

/// The rosette on each color's private entry lane.
pub const FIRST_ROSE: i32 = 3;

/// The rosette in the middle of the shared lane.
pub const SHARED_ROSE: i32 = 7;

/// The last square of the track, itself a rosette.
pub const LAST_ROSE: i32 = 13;

/// Move identifier: bring a pending piece onto the board.
pub const ENTER_MOVE: i32 = -1;

/// Move identifier: the turn was skipped (only used inside the engines).
pub const SKIP_MOVE: i32 = -2;

#[derive(Clone, Copy, PartialEq, Eq, Debug, Hash, Structural)]
pub enum Color {
    Black,
    White,
}

pub open spec fn opposite(c: Color) -> Color {
    match c {
        Color::Black => Color::White,
        Color::White => Color::Black,
    }
}

/// Index of a color in the per-color arrays of a `GameState`.
pub open spec fn ci(c: Color) -> int {
    match c {
        Color::Black => 0,
        Color::White => 1,
    }
}

pub fn opposite_color(color: Color) -> (r: Color)
    ensures
        r == opposite(color),
        r != color,
{
    match color {
        Color::Black => Color::White,
        Color::White => Color::Black,
    }
}

pub fn color_index(color: Color) -> (r: usize)
    ensures
        r == ci(color),
{
    match color {
        Color::Black => 0,
        Color::White => 1,
    }
}

impl Color {
    /// The color's name, for display.
    pub fn name(&self) -> (r: &'static str)
        ensures
            *self == Color::Black ==> r@ == "Black"@,
            *self == Color::White ==> r@ == "White"@,
    {
        match self {
            Color::Black => "Black",
            Color::White => "White",
        }
    }
}

/// Number of `true` entries in a sequence.
pub open spec fn count_true(s: Seq<bool>) -> int
    decreases s.len(),
{
    if s.len() == 0 {
        0
    } else {
        count_true(s.drop_last()) + (if s.last() { 1int } else { 0int })
    }
}

pub proof fn lemma_count_true_nonneg(s: Seq<bool>)
    ensures
        0 <= count_true(s) <= s.len(),
    decreases s.len(),
{
    if s.len() > 0 {
        lemma_count_true_nonneg(s.drop_last());
    }
}

pub proof fn lemma_count_true_update(s: Seq<bool>, i: int, v: bool)
    requires
        0 <= i < s.len(),
    ensures
        count_true(s.update(i, v)) == count_true(s) - (if s[i] { 1int } else { 0int }) + (if v {
            1int
        } else {
            0int
        }),
    decreases s.len(),
{
    let t = s.update(i, v);
    if i == s.len() - 1 {
        assert(t.drop_last() =~= s.drop_last());
    } else {
        assert(t.drop_last() =~= s.drop_last().update(i, v));
        lemma_count_true_update(s.drop_last(), i, v);
    }
}

pub proof fn lemma_count_true_zero(s: Seq<bool>)
    requires
        forall|i: int| 0 <= i < s.len() ==> !s[i],
    ensures
        count_true(s) == 0,
    decreases s.len(),
{
    if s.len() > 0 {
        lemma_count_true_zero(s.drop_last());
    }
}

/// The mathematical model of a game position: per color, the pieces not yet
/// entered, the pieces that left the board, and which of the 14 squares hold
/// one of its pieces.
pub struct Board {
    pub pending: Seq<int>,
    pub finished: Seq<int>,
    pub tracks: Seq<Seq<bool>>,
}

impl Board {
    pub open spec fn occ(self, c: Color, p: int) -> bool {
        0 <= p < 14 && self.tracks[ci(c)][p]
    }

    pub open spec fn on_board(self, c: Color) -> int {
        count_true(self.tracks[ci(c)])
    }

    /// Every piece of each color is pending, finished or on exactly one square.
    pub open spec fn wf(self) -> bool {
        &&& self.pending.len() == 2
        &&& self.finished.len() == 2
        &&& self.tracks.len() == 2
        &&& self.tracks[0].len() == 14
        &&& self.tracks[1].len() == 14
        &&& forall|c: Color|
            0 <= #[trigger] self.pending[ci(c)] && 0 <= self.finished[ci(c)] && self.pending[ci(c)]
                + self.finished[ci(c)] + self.on_board(c) == MAX_PIECES
    }

    pub open spec fn enter_legal(self, c: Color, roll: int) -> bool {
        self.pending[ci(c)] > 0 && !self.occ(c, roll - 1)
    }

    /// The piece of `c` on square `p` may advance by `roll`.
    pub open spec fn piece_legal(self, c: Color, roll: int, p: int) -> bool {
        &&& self.occ(c, p)
        &&& {
            ||| p + roll == LAST_ROSE + 1
            ||| (p + roll == SHARED_ROSE && !self.occ(Color::Black, SHARED_ROSE as int) && !self.occ(
                Color::White,
                SHARED_ROSE as int,
            ))
            ||| (p + roll != SHARED_ROSE && p + roll <= LAST_ROSE && !self.occ(c, p + roll))
        }
    }

    pub open spec fn is_legal(self, c: Color, roll: int, m: int) -> bool {
        &&& 1 <= roll <= 4
        &&& (m == ENTER_MOVE && self.enter_legal(c, roll)) || (0 <= m && self.piece_legal(
            c,
            roll,
            m,
        ))
    }

    /// Legal piece moves from square `p` upwards, in ascending order.
    pub open spec fn legal_from(self, c: Color, roll: int, p: int) -> Seq<int>
        decreases 14 - p,
    {
        if p >= 14 || p < 0 {
            Seq::empty()
        } else {
            (if self.piece_legal(c, roll, p) {
                seq![p]
            } else {
                Seq::empty()
            }) + self.legal_from(c, roll, p + 1)
        }
    }

    /// The legal moves, in the order they are listed: entry first, then the
    /// pieces by ascending square.
    pub open spec fn legal_list(self, c: Color, roll: int) -> Seq<int> {
        if roll == 0 {
            Seq::empty()
        } else {
            (if self.enter_legal(c, roll) {
                seq![ENTER_MOVE as int]
            } else {
                Seq::empty()
            }) + self.legal_from(c, roll, 0)
        }
    }

    /// The position after `c` plays move `m` with `roll`.
    pub open spec fn apply(self, c: Color, roll: int, m: int) -> Board {
        let k = ci(c);
        let o = ci(opposite(c));
        if m == ENTER_MOVE {
            Board {
                pending: self.pending.update(k, self.pending[k] - 1),
                finished: self.finished,
                tracks: self.tracks.update(k, self.tracks[k].update(roll - 1, true)),
            }
        } else if m + roll == LAST_ROSE + 1 {
            Board {
                pending: self.pending,
                finished: self.finished.update(k, self.finished[k] + 1),
                tracks: self.tracks.update(k, self.tracks[k].update(m, false)),
            }
        } else {
            let d = m + roll;
            let mine = self.tracks[k].update(m, false).update(d, true);
            if SHARE_TRACK_START <= d < SHARE_TRACK_END && self.tracks[o][d] {
                Board {
                    pending: self.pending.update(o, self.pending[o] + 1),
                    finished: self.finished,
                    tracks: self.tracks.update(k, mine).update(o, self.tracks[o].update(d, false)),
                }
            } else {
                Board { pending: self.pending, finished: self.finished, tracks: self.tracks.update(k, mine) }
            }
        }
    }

    /// Whether move `m` earns its player another turn.
    pub open spec fn bonus(self, c: Color, roll: int, m: int) -> bool {
        if m == ENTER_MOVE {
            roll - 1 == FIRST_ROSE
        } else if m + roll == LAST_ROSE + 1 {
            false
        } else {
            m + roll == FIRST_ROSE || m + roll == SHARED_ROSE || m + roll == LAST_ROSE
        }
    }

    pub open spec fn winner(self) -> Option<Color> {
        if self.finished[0] == MAX_PIECES {
            Some(Color::Black)
        } else if self.finished[1] == MAX_PIECES {
            Some(Color::White)
        } else {
            None
        }
    }
}

#[derive(Clone, Copy, PartialEq, Eq, Debug, Hash)]
pub struct GameState {
    pub pending: [u8; 2],
    pub finished: [u8; 2],
    pub tracks: [[bool; 14]; 2],
}

impl View for GameState {
    type V = Board;

    open spec fn view(&self) -> Board {
        Board {
            pending: seq![self.pending[0] as int, self.pending[1] as int],
            finished: seq![self.finished[0] as int, self.finished[1] as int],
            tracks: seq![self.tracks[0]@, self.tracks[1]@],
        }
    }
}


/// A legal move keeps every piece accounted for: pending, finished and
/// on-board pieces of each color still add up to five.
pub proof fn lemma_apply_preserves_pieces(b: Board, c: Color, roll: int, m: int)
    requires
        b.wf(),
        b.is_legal(c, roll, m),
    ensures
        b.apply(c, roll, m).wf(),
{
    let k = ci(c);
    let o = ci(opposite(c));
    let a = b.apply(c, roll, m);
    assert(b.pending[ci(c)] >= 0);
    assert(b.pending[ci(opposite(c))] >= 0);
    if m == ENTER_MOVE {
        lemma_count_true_update(b.tracks[k], roll - 1, true);
    } else if m + roll == LAST_ROSE + 1 {
        lemma_count_true_update(b.tracks[k], m, false);
    } else {
        let d = m + roll;
        lemma_count_true_update(b.tracks[k], m, false);
        lemma_count_true_update(b.tracks[k].update(m, false), d, true);
        if SHARE_TRACK_START <= d < SHARE_TRACK_END && b.tracks[o][d] {
            lemma_count_true_update(b.tracks[o], d, false);
        }
    }
    assert forall|x: Color|
        0 <= #[trigger] a.pending[ci(x)] && 0 <= a.finished[ci(x)] && a.pending[ci(x)]
            + a.finished[ci(x)] + a.on_board(x) == MAX_PIECES by {
        assert(b.pending[ci(x)] >= 0);
        if x == c {
        } else {
            assert(x == opposite(c));
        }
    }
}

impl GameState {
    /// A fresh game: every piece pending, none finished, the board empty.
    pub fn new() -> (r: GameState)
        ensures
            r@.wf(),
            r@.pending == seq![5int, 5int],
            r@.finished == seq![0int, 0int],
            forall|c: Color, p: int| !r@.occ(c, p),
    {
        let r = GameState { pending: [MAX_PIECES, MAX_PIECES], finished: [0, 0], tracks: [[false; 14]; 2] };
        proof {
            assert(r@.pending =~= seq![5int, 5int]);
            assert(r@.finished =~= seq![0int, 0int]);
            assert(r.tracks[0]@ =~= Seq::new(14, |i: int| false));
            assert(r.tracks[1]@ =~= Seq::new(14, |i: int| false));
            lemma_count_true_zero(r.tracks[0]@);
            lemma_count_true_zero(r.tracks[1]@);
            assert forall|c: Color| 0 <= #[trigger] r@.pending[ci(c)] && 0 <= r@.finished[ci(c)]
                && r@.pending[ci(c)] + r@.finished[ci(c)] + r@.on_board(c) == MAX_PIECES by {
                match c {
                    Color::Black => {},
                    Color::White => {},
                }
            }
        }
        r
    }
}


/// The moves of a sequence of `i32` move identifiers, as integers.
pub open spec fn ints(v: Seq<i32>) -> Seq<int> {
    v.map_values(|x: i32| x as int)
}

pub proof fn lemma_legal_from_members(b: Board, c: Color, roll: int, p: int)
    requires
        0 <= p <= 14,
    ensures
        forall|m: int| #[trigger]
            b.legal_from(c, roll, p).contains(m) <==> (p <= m < 14 && b.piece_legal(c, roll, m)),
        forall|i: int, j: int|
            0 <= i < j < b.legal_from(c, roll, p).len() ==> b.legal_from(c, roll, p)[i] < b.legal_from(
                c,
                roll,
                p,
            )[j],
    decreases 14 - p,
{
    if p < 14 {
        lemma_legal_from_members(b, c, roll, p + 1);
        let rest = b.legal_from(c, roll, p + 1);
        let all = b.legal_from(c, roll, p);
        if b.piece_legal(c, roll, p) {
            assert(all =~= seq![p] + rest);
            assert forall|m: int| #[trigger] all.contains(m) <==> (p <= m < 14 && b.piece_legal(c, roll, m)) by {
                if all.contains(m) {
                    let i = choose|i: int| 0 <= i < all.len() && all[i] == m;
                    if i > 0 {
                        assert(rest[i - 1] == m);
                        assert(rest.contains(m));
                    }
                }
                if p < m < 14 && b.piece_legal(c, roll, m) {
                    assert(rest.contains(m));
                    let i = choose|i: int| 0 <= i < rest.len() && rest[i] == m;
                    assert(all[i + 1] == m);
                }
                if m == p {
                    assert(all[0] == m);
                }
            }
            assert forall|i: int, j: int| 0 <= i < j < all.len() implies all[i] < all[j] by {
                if i == 0 {
                    assert(rest.contains(all[j]));
                } else {
                    assert(all[i] == rest[i - 1] && all[j] == rest[j - 1]);
                }
            }
        } else {
            assert(all =~= rest);
        }
    } else {
        assert(b.legal_from(c, roll, p) =~= Seq::<int>::empty());
    }
}

/// The listed legal moves are exactly the legal moves, each listed once, and
/// none of them puts a piece on a square its own color already holds.
pub proof fn lemma_legal_list_members(b: Board, c: Color, roll: int)
    requires
        0 <= roll <= 4,
    ensures
        forall|m: int| #[trigger] b.legal_list(c, roll).contains(m) <==> b.is_legal(c, roll, m),
        b.legal_list(c, roll).no_duplicates(),
        forall|m: int|
            #![trigger b.legal_list(c, roll).contains(m)]
            b.legal_list(c, roll).contains(m) ==> if m == ENTER_MOVE {
                !b.occ(c, roll - 1)
            } else {
                m + roll == LAST_ROSE + 1 || !b.occ(c, m + roll)
            },
{
    lemma_legal_from_members(b, c, roll, 0);
    let rest = b.legal_from(c, roll, 0);
    let all = b.legal_list(c, roll);
    if roll == 0 {
        assert(all =~= Seq::<int>::empty());
    } else if b.enter_legal(c, roll) {
        assert(all =~= seq![ENTER_MOVE as int] + rest);
        assert forall|m: int| #[trigger] all.contains(m) <==> b.is_legal(c, roll, m) by {
            if all.contains(m) {
                let i = choose|i: int| 0 <= i < all.len() && all[i] == m;
                if i > 0 {
                    assert(rest[i - 1] == m);
                    assert(rest.contains(m));
                }
            }
            if 0 <= m && b.piece_legal(c, roll, m) {
                assert(rest.contains(m));
                let i = choose|i: int| 0 <= i < rest.len() && rest[i] == m;
                assert(all[i + 1] == m);
            }
            if m == ENTER_MOVE {
                assert(all[0] == m);
            }
        }
        assert forall|i: int, j: int| 0 <= i < all.len() && 0 <= j < all.len() && i != j implies all[i]
            != all[j] by {
            if i == 0 {
                assert(rest.contains(all[j]));
            } else if j == 0 {
                assert(rest.contains(all[i]));
            } else {
                assert(all[i] == rest[i - 1] && all[j] == rest[j - 1]);
            }
        }
    } else {
        assert(all =~= rest);
    }
}

/// A move earns another turn exactly when it lands on a rosette: an entry
/// onto square 3 (a roll of 4), or an advance that ends on square 3, 7 or 13.
/// Leaving the board earns none.
pub proof fn lemma_bonus_turn(b: Board, c: Color, roll: int, m: int)
    requires
        b.is_legal(c, roll, m),
    ensures
        m == ENTER_MOVE ==> (b.bonus(c, roll, m) <==> roll == 4),
        m != ENTER_MOVE && m + roll == LAST_ROSE + 1 ==> !b.bonus(c, roll, m),
        m != ENTER_MOVE && m + roll != LAST_ROSE + 1 ==> (b.bonus(c, roll, m) <==> (m + roll == 3
            || m + roll == 7 || m + roll == 13)),
{
}

/// Landing on a shared-lane square that the opponent holds sends that piece
/// back to the opponent's pending pool and leaves the mover on the square.
pub proof fn lemma_capture(b: Board, c: Color, roll: int, m: int)
    requires
        b.wf(),
        b.is_legal(c, roll, m),
        m != ENTER_MOVE,
        SHARE_TRACK_START <= m + roll < SHARE_TRACK_END,
        b.occ(opposite(c), m + roll),
    ensures
        !b.apply(c, roll, m).occ(opposite(c), m + roll),
        b.apply(c, roll, m).occ(c, m + roll),
        !b.apply(c, roll, m).occ(c, m),
        b.apply(c, roll, m).pending[ci(opposite(c))] == b.pending[ci(opposite(c))] + 1,
        b.apply(c, roll, m).pending[ci(c)] == b.pending[ci(c)],
        b.apply(c, roll, m).finished == b.finished,
{
}

/// A move never takes a finished piece back, so a color that has finished
/// all its pieces keeps them finished.
pub proof fn lemma_finished_monotone(b: Board, c: Color, roll: int, m: int)
    requires
        b.wf(),
        b.is_legal(c, roll, m),
    ensures
        b.apply(c, roll, m).finished[0] >= b.finished[0],
        b.apply(c, roll, m).finished[1] >= b.finished[1],
        b.apply(c, roll, m).finished[ci(opposite(c))] == b.finished[ci(opposite(c))],
{
}

/// There is a winner exactly when one color has finished all five pieces,
/// and it is that color.
pub proof fn lemma_winner(b: Board)
    requires
        b.wf(),
        !(b.finished[0] == MAX_PIECES && b.finished[1] == MAX_PIECES),
    ensures
        b.winner() is Some <==> (b.finished[0] == MAX_PIECES || b.finished[1] == MAX_PIECES),
        forall|w: Color| b.winner() == Some(w) ==> b.finished[ci(w)] == MAX_PIECES,
        forall|w: Color| b.finished[ci(w)] == MAX_PIECES ==> b.winner() == Some(w),
{
}

/// From a position with no winner, one move cannot finish both colors: the
/// game always ends with a single winner.
pub proof fn lemma_single_winner(b: Board, c: Color, roll: int, m: int)
    requires
        b.wf(),
        b.is_legal(c, roll, m),
        b.winner() is None,
    ensures
        !(b.apply(c, roll, m).finished[0] == MAX_PIECES && b.apply(c, roll, m).finished[1]
            == MAX_PIECES),
{
}

impl GameState {
    pub fn get_winner(&self) -> (r: Option<Color>)
        ensures
            r == self@.winner(),
    {
        if self.finished[0] == MAX_PIECES {
            Some(Color::Black)
        } else if self.finished[1] == MAX_PIECES {
            Some(Color::White)
        } else {
            None
        }
    }

    /// Lists the legal moves of `color` for `roll`: `ENTER_MOVE` first where a
    /// piece may enter, then the squares of the pieces that may advance, in
    /// ascending order.
    pub fn get_legal_moves(&self, color: Color, roll: i32) -> (r: Vec<i32>)
        requires
            0 <= roll <= 4,
        ensures
            ints(r@) == self@.legal_list(color, roll as int),
    {
        let mut ret: Vec<i32> = Vec::new();
        if roll == 0 {
            proof {
                assert(ints(ret@) =~= self@.legal_list(color, roll as int));
            }
            return ret;
        }
        let k = color_index(color);
        if self.pending[k] != 0 {
            if !self.tracks[k][(roll - 1) as usize] {
                ret.push(ENTER_MOVE);
            }
        }
        proof {
            let head = if self@.enter_legal(color, roll as int) {
                seq![ENTER_MOVE as int]
            } else {
                Seq::empty()
            };
            assert(ints(ret@) =~= head);
        }
        let mut piece: i32 = 0;
        while piece < 14
            invariant
                0 <= piece <= 14,
                1 <= roll <= 4,
                k == ci(color),
                ints(ret@) + self@.legal_from(color, roll as int, piece as int) == self@.legal_list(
                    color,
                    roll as int,
                ),
            decreases 14 - piece,
        {
            let ghost before = ret@;
            let dest = piece + roll;
            if self.tracks[k][piece as usize] {
                if dest == LAST_ROSE + 1 {
                    ret.push(piece);
                } else if dest == SHARED_ROSE {
                    if !self.tracks[0][SHARED_ROSE as usize] && !self.tracks[1][SHARED_ROSE as usize] {
                        ret.push(piece);
                    }
                } else if dest <= LAST_ROSE && !self.tracks[k][dest as usize] {
                    ret.push(piece);
                }
            }
            proof {
                let p = piece as int;
                let seg = if self@.piece_legal(color, roll as int, p) {
                    seq![p]
                } else {
                    Seq::empty()
                };
                let tail = self@.legal_from(color, roll as int, p + 1);
                assert(ints(ret@) =~= ints(before) + seg);
                assert(self@.legal_from(color, roll as int, p) == seg + tail);
                assert((ints(before) + seg) + tail =~= ints(before) + (seg + tail));
            }
            piece = piece + 1;
        }
        proof {
            assert(self@.legal_from(color, roll as int, 14) =~= Seq::<int>::empty());
            assert(ints(ret@) + Seq::<int>::empty() =~= ints(ret@));
        }
        ret
    }

    /// Plays move `to_exec` of `color` with `roll`; returns whether the move
    /// earns another turn.
    pub fn exec_move(&mut self, color: Color, roll: i32, to_exec: i32) -> (r: bool)
        requires
            old(self)@.wf(),
            old(self)@.is_legal(color, roll as int, to_exec as int),
        ensures
            final(self)@ == old(self)@.apply(color, roll as int, to_exec as int),
            r == old(self)@.bonus(color, roll as int, to_exec as int),
            final(self)@.wf(),
    {
        let ghost b = self@;
        let k = color_index(color);
        let o = color_index(opposite_color(color));
        proof {
            lemma_apply_preserves_pieces(b, color, roll as int, to_exec as int);
            assert(b.pending[ci(color)] >= 0);
            assert(b.pending[ci(opposite(color))] >= 0);
            lemma_count_true_nonneg(b.tracks[k as int]);
            lemma_count_true_nonneg(b.tracks[o as int]);
        }
        if to_exec == ENTER_MOVE {
            self.tracks[k][(roll - 1) as usize] = true;
            self.pending[k] = self.pending[k] - 1;
            proof {
                let a = b.apply(color, roll as int, to_exec as int);
                assert(self@.pending =~= a.pending);
                assert(self@.finished =~= a.finished);
                assert(self@.tracks[k as int] =~= a.tracks[k as int]);
                assert(self@.tracks[o as int] =~= a.tracks[o as int]);
                assert(self@.tracks =~= a.tracks);
            }
            roll - 1 == FIRST_ROSE
        } else if roll + to_exec == LAST_ROSE + 1 {
            proof {
                lemma_count_true_update(b.tracks[k as int], to_exec as int, false);
                lemma_count_true_nonneg(b.tracks[k as int].update(to_exec as int, false));
            }
            self.tracks[k][to_exec as usize] = false;
            self.finished[k] = self.finished[k] + 1;
            proof {
                let a = b.apply(color, roll as int, to_exec as int);
                assert(self@.pending =~= a.pending);
                assert(self@.finished =~= a.finished);
                assert(self@.tracks[k as int] =~= a.tracks[k as int]);
                assert(self@.tracks[o as int] =~= a.tracks[o as int]);
                assert(self@.tracks =~= a.tracks);
            }
            false
        } else {
            let dest = roll + to_exec;
            self.tracks[k][to_exec as usize] = false;
            self.tracks[k][dest as usize] = true;
            if dest >= SHARE_TRACK_START && dest < SHARE_TRACK_END && self.tracks[o][dest as usize] {
                proof {
                    lemma_count_true_update(b.tracks[o as int], dest as int, false);
                    lemma_count_true_nonneg(b.tracks[o as int].update(dest as int, false));
                }
                self.tracks[o][dest as usize] = false;
                self.pending[o] = self.pending[o] + 1;
            }
            proof {
                let a = b.apply(color, roll as int, to_exec as int);
                assert(self@.pending =~= a.pending);
                assert(self@.finished =~= a.finished);
                assert(self@.tracks[k as int] =~= a.tracks[k as int]);
                assert(self@.tracks[o as int] =~= a.tracks[o as int]);
                assert(self@.tracks =~= a.tracks);
            }
            dest == FIRST_ROSE || dest == SHARED_ROSE || dest == LAST_ROSE
        }
    }

    /// Plays one turn of `turn` with `roll`: the move `chosen`, or nothing
    /// where it is `SKIP_MOVE`. Returns who moves next: `turn` again after a
    /// move that earns another turn, else its opponent.
    pub fn play_turn(&mut self, turn: Color, roll: i32, chosen: i32) -> (next: Color)
        requires
            old(self)@.wf(),
            chosen == SKIP_MOVE || old(self)@.is_legal(turn, roll as int, chosen as int),
        ensures
            final(self)@.wf(),
            chosen == SKIP_MOVE ==> final(self)@ == old(self)@ && next == opposite(turn),
            chosen != SKIP_MOVE ==> final(self)@ == old(self)@.apply(turn, roll as int, chosen as int),
            chosen != SKIP_MOVE ==> next == if old(self)@.bonus(turn, roll as int, chosen as int) {
                turn
            } else {
                opposite(turn)
            },
    {
        if chosen == SKIP_MOVE {
            opposite_color(turn)
        } else if self.exec_move(turn, roll, chosen) {
            turn
        } else {
            opposite_color(turn)
        }
    }
}

} // verus!
