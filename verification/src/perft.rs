//! Counting the legal move sequences of a given length.

use vstd::prelude::*;
use crate::board::lemma_board_determined;
use crate::gmove::Move;
use crate::movegen::{
    en_passant_sound,
    lemma_en_passant_stays_sound,
    lemma_moves_ordered,
    lemma_pseudo_legal_playable,
    spec_moves,
};
use crate::position::{
    frame_after,
    is_legal,
    lemma_make_unmake,
    playable,
    spec_make,
    Position,
    PositionView,
};

verus! {

/// The number of sequences of `d` legal moves that start in position `p`.
pub open spec fn spec_perft(p: PositionView, d: nat) -> nat
    decreases d, 0int,
{
    if d == 0 {
        1
    } else {
        perft_sum(p, spec_moves(p), spec_moves(p).len() as int, (d - 1) as nat)
    }
}

/// The number of sequences of `d + 1` legal moves that start in position `p`
/// with one of the first `n` moves of `ms`.
pub open spec fn perft_sum(p: PositionView, ms: Seq<Move>, n: int, d: nat) -> nat
    decreases d, n,
{
    if n <= 0 {
        0
    } else {
        perft_sum(p, ms, n - 1, d) + (if is_legal(p, ms[n - 1]) {
            spec_perft(spec_make(p, ms[n - 1]), d)
        } else {
            0
        })
    }
}

proof fn lemma_perft_sum_monotone(p: PositionView, ms: Seq<Move>, i: int, n: int, d: nat)
    requires
        0 <= i <= n,
    ensures
        perft_sum(p, ms, i, d) <= perft_sum(p, ms, n, d),
    decreases n - i,
{
    if i < n {
        lemma_perft_sum_monotone(p, ms, i, n - 1, d);
    }
}

/// The walk of depth `d` from position `p` can be made: at depth 0 always;
/// else every generated move can be made, and from the position after every
/// legal one the walk of depth `d - 1` can be made.
pub open spec fn walkable(p: PositionView, d: nat) -> bool
    decreases d,
{
    d == 0 || forall|i: int|
        0 <= i < spec_moves(p).len() ==> playable(p, #[trigger] spec_moves(p)[i]) && (is_legal(
            p,
            spec_moves(p)[i],
        ) ==> walkable(spec_make(p, spec_moves(p)[i]), (d - 1) as nat))
}

/// The walk of depth `d` from position `p` can be made and counted: it can
/// be made, and the count fits in a `usize`.
pub open spec fn perft_defined(p: PositionView, d: nat) -> bool {
    walkable(p, d) && spec_perft(p, d) <= usize::MAX
}

/// From a position with a sound en-passant target, whose clocks can be
/// counted up `d` times, the walk of depth `d` can be made.
pub proof fn lemma_sound_walkable(p: PositionView, d: nat)
    requires
        p.valid(),
        en_passant_sound(p),
        p.top().hm_clock + d <= u32::MAX,
        p.top().fm_number + d <= u32::MAX,
    ensures
        walkable(p, d),
    decreases d,
{
    if d > 0 {
        lemma_moves_ordered(p);
        let ms = spec_moves(p);
        assert forall|i: int| 0 <= i < ms.len() implies playable(p, #[trigger] ms[i]) && (is_legal(
            p,
            ms[i],
        ) ==> walkable(spec_make(p, ms[i]), (d - 1) as nat)) by {
            let m = ms[i];
            assert(crate::movegen::pseudo_legal(p, m));
            lemma_pseudo_legal_playable(p, m);
            lemma_en_passant_stays_sound(p, m);
            assert(spec_make(p, m).top() == frame_after(p, m));
            lemma_sound_walkable(spec_make(p, m), (d - 1) as nat);
        }
    }
}

impl Position {
    /// The number of sequences of `d` legal moves that start in this
    /// position, or `None` where the walk cannot be made or the count does not
    /// fit. The position is walked through and left as it was.
    pub fn try_perft(&mut self, d: usize) -> (nodes: Option<usize>)
        requires
            old(self).wf(),
        ensures
            final(self).wf(),
            final(self)@ == old(self)@,
            final(self).spec_board() == old(self).spec_board(),
            nodes == (if perft_defined(old(self)@, d as nat) {
                Some(spec_perft(old(self)@, d as nat) as usize)
            } else {
                None
            }),
        decreases d,
    {
        if d == 0 {
            return Some(1);
        }
        let ghost pv = self@;
        let ghost brd = self.spec_board();
        let ghost d1 = (d - 1) as nat;
        let moves = self.gen_pseudolegal_moves();
        let mut total: usize = 0;
        let mut i: usize = 0;
        while i < moves.len()
            invariant
                i <= moves.len(),
                d >= 1,
                d1 == d - 1,
                self.wf(),
                self@ == pv,
                self.spec_board() == brd,
                pv == old(self)@,
                brd == old(self).spec_board(),
                pv.valid(),
                moves@ == spec_moves(pv),
                forall|j: int|
                    0 <= j < i ==> playable(pv, #[trigger] moves@[j]) && (is_legal(pv, moves@[j])
                        ==> walkable(spec_make(pv, moves@[j]), d1)),
                total == perft_sum(pv, moves@, i as int, d1),
            decreases moves.len() - i,
        {
            let m = moves[i];
            if !self.can_make(&m) {
                assert(!playable(pv, spec_moves(pv)[i as int]));
                return None;
            }
            proof {
                lemma_make_unmake(pv, m);
                lemma_perft_sum_monotone(pv, moves@, i + 1, moves.len() as int, d1);
            }
            let legal = self.make_move(m);
            let below: Option<usize> = if legal {
                match self.try_perft(d - 1) {
                    Some(rs) => total.checked_add(rs),
                    None => {
                        assert(!perft_defined(spec_make(pv, spec_moves(pv)[i as int]), d1));
                        None
                    },
                }
            } else {
                Some(total)
            };
            self.unmake_move(m);
            proof {
                lemma_board_determined(self.spec_board(), brd);
            }
            match below {
                Some(t) => {
                    total = t;
                },
                None => {
                    assert(is_legal(pv, spec_moves(pv)[i as int]));
                    assert(!perft_defined(pv, d as nat));
                    return None;
                },
            }
            i += 1;
        }
        assert(walkable(pv, d as nat));
        Some(total)
    }

    /// The number of sequences of `d` legal moves that start in this
    /// position. The position is walked through and left as it was.
    pub fn perft(&mut self, d: usize) -> (nodes: usize)
        requires
            old(self).wf(),
            perft_defined(old(self)@, d as nat),
        ensures
            final(self).wf(),
            final(self)@ == old(self)@,
            final(self).spec_board() == old(self).spec_board(),
            nodes == spec_perft(old(self)@, d as nat),
    {
        match self.try_perft(d) {
            Some(n) => n,
            None => 0,
        }
    }
}

} // verus!
