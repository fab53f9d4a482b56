//! The immutable board snapshot: it owns the transition function, check
//! detection and legal-move aggregation, and forms a persistent chain of
//! shared, read-only predecessor links.

use std::rc::Rc;
use vstd::prelude::*;
use crate::quasar::generator::{gen_seq, lemma_gen_seq_step, MoveGenerator};
use crate::quasar::geometry::Point;
use crate::quasar::moves::{
    apply_move_pieces, attack_exists, board_after, board_ok, idx_at, in_check, king_pos, move_ok,
    move_ok_m, occ_at, occ_index, Move,
};
use crate::quasar::pieces::{bview, distinct_alive_positions, fold_max_x, fold_max_y, fold_min_x,
    fold_min_y, has_king, lemma_permutation_keeps_distinct, spec_is_sliding, spec_offsets, Piece,
    PieceData, PieceList, PieceType};

verus! {

/// An immutable snapshot of the game: the piece collection, the ply count,
/// the side to move, and shared read-only links to the predecessor state
/// and the move that produced this state. A published state is never
/// mutated; `make_move` always returns a new one.
#[derive(Debug, Clone)]
pub struct State {
    pub pieces: PieceList,
    pub move_count: usize,
    pub to_move: bool,
    pub previous_state: Option<Rc<State>>,
    pub last_move: Option<Move>,
}

/// One recorded move equals another in every field the rules read.
pub open spec fn same_move_record(a: Move, b: Move) -> bool {
    &&& a.from == b.from
    &&& a.to == b.to
    &&& a.piece.data() == b.piece.data()
    &&& a.is_promotion == b.is_promotion
    &&& a.promotion_type == b.promotion_type
    &&& a.is_castling == b.is_castling
    &&& a.is_en_passant == b.is_en_passant
    &&& a.is_legal == b.is_legal
}

/// The observable part of a snapshot: board content, partition boundary,
/// counters, side to move and the recorded last move. Predecessor links
/// are left out, so the relation compares one snapshot, not the whole
/// history chain.
pub open spec fn obs_eq(a: State, b: State) -> bool {
    &&& bview(a.pieces.list@) == bview(b.pieces.list@)
    &&& a.pieces.white_index == b.pieces.white_index
    &&& a.pieces.white_count == b.pieces.white_count
    &&& a.pieces.black_count == b.pieces.black_count
    &&& a.move_count == b.move_count
    &&& a.to_move == b.to_move
    &&& match (a.last_move, b.last_move) {
        (Option::None, Option::None) => true,
        (Option::Some(x), Option::Some(y)) => same_move_record(x, y),
        _ => false,
    }
}

/// Relies on `Rc::clone`: the returned handle shares the same allocation,
/// so it holds the very same state value.
#[verifier::external_body]
fn share_state(rc: &Rc<State>) -> (r: Rc<State>)
    ensures
        r == *rc,
{
    Rc::clone(rc)
}

impl State {
    /// The board-relevant view of the piece collection.
    pub open spec fn board(&self) -> Seq<PieceData> {
        bview(self.pieces.list@)
    }

    /// The white partition boundary, which check detection uses to find
    /// each colour's king.
    pub open spec fn wi(&self) -> int {
        self.pieces.white_index as int
    }

    /// Well-formed for move generation and check detection: the collection
    /// is partitioned with a king ending each colour group, and at most
    /// one alive piece stands on any square.
    pub open spec fn wf(&self) -> bool {
        &&& self.pieces.wf()
        &&& board_ok(self.board())
    }

    pub fn new(pieces: PieceList, move_count: usize, to_move: bool) -> (s: State)
        ensures
            s.pieces == pieces,
            s.move_count == move_count,
            s.to_move == to_move,
            s.previous_state is None,
            s.last_move is None,
    {
        State { pieces, move_count, to_move, previous_state: None, last_move: None }
    }

    /// The standard initial position: both back ranks on ranks one and
    /// eight, both pawn rows, white to move, ply count zero.
    pub fn default() -> (s: State)
        ensures
            s.wf(),
            s.pieces.list@.len() == 32,
            bview(s.pieces.list@).to_multiset() == standard_board().to_multiset(),
            s.move_count == 0,
            s.to_move,
            s.previous_state is None,
            s.last_move is None,
    {
        let mut v: Vec<Piece> = Vec::new();
        let mut f: usize = 0;
        while f < 8
            invariant
                f <= 8,
                v@.len() == 2 * f,
                forall|j: int| 0 <= j < v@.len() ==> (#[trigger] v@[j]).wf(),
                forall|j: int| 0 <= j < v@.len() ==> (#[trigger] v@[j]).alive,
                forall|j: int|
                    0 <= j < v@.len() ==> 1 <= (#[trigger] v@[j]).position.x <= f && (
                    v@[j].position.y == 1 || v@[j].position.y == 8),
                forall|j1: int, j2: int|
                    0 <= j1 < v@.len() && 0 <= j2 < v@.len() && v@[j1].position == v@[j2].position ==> j1 == j2,
                forall|j: int| 0 <= j < v@.len() ==> (#[trigger] v@[j]).data() == standard_piece(j),
                f >= 5 ==> v@[8].form is King && v@[8].color,
                f >= 5 ==> v@[9].form is King && !v@[9].color,
            decreases 8 - f,
        {
            let form = back_rank_form(f);
            let x = (f + 1) as i128;
            v.push(Piece::new(form, Point::new(x, 1), true));
            v.push(Piece::new(form, Point::new(x, 8), false));
            f = f + 1;
        }
        let mut g: usize = 0;
        while g < 8
            invariant
                g <= 8,
                v@.len() == 16 + 2 * g,
                forall|j: int| 0 <= j < v@.len() ==> (#[trigger] v@[j]).wf(),
                forall|j: int| 0 <= j < v@.len() ==> (#[trigger] v@[j]).alive,
                forall|j: int|
                    0 <= j < 16 ==> ((#[trigger] v@[j]).position.y == 1 || v@[j].position.y == 8),
                forall|j: int|
                    16 <= j < v@.len() ==> 1 <= (#[trigger] v@[j]).position.x <= g && (
                    v@[j].position.y == 2 || v@[j].position.y == 7),
                forall|j1: int, j2: int|
                    0 <= j1 < v@.len() && 0 <= j2 < v@.len() && v@[j1].position == v@[j2].position ==> j1 == j2,
                forall|j: int| 0 <= j < v@.len() ==> (#[trigger] v@[j]).data() == standard_piece(j),
                v@[8].form is King && v@[8].color,
                v@[9].form is King && !v@[9].color,
            decreases 8 - g,
        {
            let x = (g + 1) as i128;
            v.push(Piece::new(PieceType::Pawn, Point::new(x, 2), true));
            v.push(Piece::new(PieceType::Pawn, Point::new(x, 7), false));
            g = g + 1;
        }
        proof {
            assert(has_king(v@, true));
            assert(has_king(v@, false));
            assert(distinct_alive_positions(v@));
        }
        let ghost input: Seq<Piece> = v@;
        let pieces = PieceList::new(v);
        let s = State { pieces, move_count: 0, to_move: true, previous_state: None, last_move: None };
        proof {
            lemma_permutation_keeps_distinct(s.pieces.list@, input);
            lemma_unique_positions_board_ok(s.pieces.list@);
            crate::quasar::pieces::lemma_bview_multiset(s.pieces.list@, input);
            assert(bview(input) =~= standard_board());
        }
        s
    }

    /// Applies a move: the moving piece relocates (substituting its shape
    /// on promotion), a captured piece is marked dead in place, a flagged
    /// castling relocates the rook, a flagged en passant removes the
    /// bypassed pawn, the en-passant marker is recomputed, the side to
    /// move flips, the ply count grows by one, and the new snapshot links
    /// to this one as its predecessor. Callers must only apply moves whose
    /// source square is occupied; `get_legal_moves` returns only such.
    pub fn make_move(&self, m: Move) -> (s: State)
        requires
            self.wf(),
            occ_at(self.board(), m.from.x as int, m.from.y as int),
            self.move_count < usize::MAX,
        ensures
            bview(s.pieces.list@) == board_after(
                self.board(),
                m.from,
                m.to,
                m.is_promotion,
                m.promotion_type,
                m.is_castling,
                m.is_en_passant,
            ),
            s.pieces.list@.len() == self.pieces.list@.len(),
            s.pieces.white_index == self.pieces.white_index,
            s.pieces.white_count == self.pieces.white_count,
            s.pieces.black_count == self.pieces.black_count,
            s.move_count == self.move_count + 1,
            s.to_move == !self.to_move,
            s.last_move == Some(m),
            s.previous_state is Some,
            obs_eq(*s.previous_state.unwrap(), *self),
            move_ok_m(self.board(), self.wi(), self.to_move, self.last_move, m, true)
                ==> s.wf(),
    {
        let new_list = apply_move_pieces(
            &self.pieces.list,
            m.from,
            m.to,
            m.is_promotion,
            m.promotion_type,
            m.is_castling,
            m.is_en_passant,
        );
        let new_pieces = PieceList {
            list: new_list,
            white_count: self.pieces.white_count,
            black_count: self.pieces.black_count,
            white_index: self.pieces.white_index,
        };
        let prev = State {
            pieces: PieceList {
                list: duplicate_pieces(&self.pieces.list),
                white_count: self.pieces.white_count,
                black_count: self.pieces.black_count,
                white_index: self.pieces.white_index,
            },
            move_count: self.move_count,
            to_move: self.to_move,
            previous_state: match &self.previous_state {
                Some(rc) => Some(share_state(rc)),
                None => None,
            },
            last_move: match &self.last_move {
                Some(lm) => Some(duplicate_move(lm)),
                None => None,
            },
        };
        let s = State {
            pieces: new_pieces,
            move_count: self.move_count + 1,
            to_move: !self.to_move,
            previous_state: Some(Rc::new(prev)),
            last_move: Some(m),
        };
        proof {
            if move_ok_m(self.board(), self.wi(), self.to_move, self.last_move, m, true) {
                crate::quasar::moves::lemma_board_after_wf(
                    self.board(),
                    self.wi(),
                    self.to_move,
                    self.last_move,
                    m,
                );
                let nb = bview(s.pieces.list@);
                let ob = self.board();
                assert forall|i: int|
                    0 <= i < s.pieces.list@.len() implies ((#[trigger] s.pieces.list@[i]).color
                    <==> i < s.pieces.white_index) by {
                    assert(nb[i] == s.pieces.list@[i].data());
                    assert(ob[i] == self.pieces.list@[i].data());
                    assert(nb[i].color == ob[i].color);
                    assert(self.pieces.list@[i].color <==> i < self.pieces.white_index);
                }
                assert(nb[s.wi() - 1] == s.pieces.list@[s.wi() - 1].data());
                assert(ob[s.wi() - 1] == self.pieces.list@[s.wi() - 1].data());
                assert(nb[nb.len() - 1] == s.pieces.list@[nb.len() - 1].data());
                assert(ob[ob.len() - 1] == self.pieces.list@[ob.len() - 1].data());
                assert(s.pieces.list@[s.wi() - 1].form is King);
                assert(s.pieces.list@[s.pieces.list@.len() - 1].form is King);
                assert(s.pieces.wf());
            }
        }
        s
    }

    /// True iff some alive enemy piece has a shape-legal move onto the
    /// square of this colour's king.
    pub fn is_king_in_check(&self, color: bool) -> (r: bool)
        requires
            self.wf(),
        ensures
            r == in_check(self.board(), self.wi(), color),
    {
        let ki: usize = if color {
            self.pieces.white_index - 1
        } else {
            self.pieces.list.len() - 1
        };
        let kp = self.pieces.list[ki].position;
        proof {
            assert(self.board()[ki as int] == self.pieces.list@[ki as int].data());
            assert(kp == king_pos(self.board(), self.wi(), color));
        }
        attack_exists(&self.pieces.list, kp, !color)
    }

    /// Enumerates, for every alive piece of the side to move, the
    /// geometrically reachable destinations, and keeps each candidate that
    /// the legality rules accept. Every returned move is fully legal — in
    /// particular, none leaves the mover's own king in check.
    pub fn get_legal_moves(&self) -> (r: Vec<Move>)
        requires
            self.wf(),
        ensures
            pairs_of(r@) == legal_pairs_from(
                self.board(),
                self.wi(),
                self.to_move,
                self.last_move,
                0,
            ),
            forall|k: int|
                0 <= k < r@.len() ==> move_ok_m(
                    self.board(),
                    self.wi(),
                    self.to_move,
                    self.last_move,
                    #[trigger] r@[k],
                    true,
                ),
            forall|k: int| 0 <= k < r@.len() ==> (#[trigger] r@[k]).is_legal,
            forall|k: int|
                0 <= k < r@.len() ==> !(#[trigger] r@[k]).is_castling && !r@[k].is_en_passant
                    && !r@[k].is_promotion,
            forall|k: int|
                0 <= k < r@.len() ==> occ_at(
                    self.board(),
                    (#[trigger] r@[k]).from.x as int,
                    r@[k].from.y as int,
                ),
    {
        let mut result: Vec<Move> = Vec::new();
        let n = self.pieces.list.len();
        let mut i: usize = 0;
        while i < n
            invariant
                self.wf(),
                n == self.pieces.list@.len(),
                i <= n,
                legal_pairs_from(self.board(), self.wi(), self.to_move, self.last_move, 0)
                    == pairs_of(result@) + legal_pairs_from(
                    self.board(),
                    self.wi(),
                    self.to_move,
                    self.last_move,
                    i as int,
                ),
                forall|k: int|
                    0 <= k < result@.len() ==> move_ok_m(
                        self.board(),
                        self.wi(),
                        self.to_move,
                        self.last_move,
                        #[trigger] result@[k],
                        true,
                    ),
                forall|k: int| 0 <= k < result@.len() ==> (#[trigger] result@[k]).is_legal,
                forall|k: int|
                    0 <= k < result@.len() ==> !(#[trigger] result@[k]).is_castling
                        && !result@[k].is_en_passant && !result@[k].is_promotion,
                forall|k: int|
                    0 <= k < result@.len() ==> occ_at(
                        self.board(),
                        (#[trigger] result@[k]).from.x as int,
                        result@[k].from.y as int,
                    ),
            decreases n - i,
        {
            let p = &self.pieces.list[i];
            proof {
                assert(self.board()[i as int] == self.pieces.list@[i as int].data());
                assert(legal_pairs_from(
                    self.board(),
                    self.wi(),
                    self.to_move,
                    self.last_move,
                    i as int,
                ) == with_from(
                    self.board()[i as int].position,
                    piece_legal_dests(
                        self.board(),
                        self.wi(),
                        self.to_move,
                        self.last_move,
                        self.board()[i as int],
                    ),
                ) + legal_pairs_from(
                    self.board(),
                    self.wi(),
                    self.to_move,
                    self.last_move,
                    i as int + 1,
                ));
            }
            if p.color == self.to_move && p.alive {
                proof {
                    assert(self.pieces.list@[i as int].wf());
                }
                let mut gen = MoveGenerator::new(p);
                proof {
                    assert(piece_legal_dests(
                        self.board(),
                        self.wi(),
                        self.to_move,
                        self.last_move,
                        self.board()[i as int],
                    ) == legal_dests_from_cursor(
                        self.board(),
                        self.wi(),
                        self.to_move,
                        self.last_move,
                        self.pieces.list@[i as int].position,
                        gen.offsets@,
                        gen.is_sliding,
                        gen.current_offset_index as int,
                        gen.current_multiplier as int,
                    ));
                }
                loop
                    invariant_except_break
                        self.wf(),
                        i < n,
                        n == self.pieces.list@.len(),
                        gen.wf(),
                        gen.current_position == self.pieces.list@[i as int].position,
                        self.pieces.list@[i as int].alive,
                        self.pieces.list@[i as int].color == self.to_move,
                        legal_pairs_from(self.board(), self.wi(), self.to_move, self.last_move, 0)
                            == pairs_of(result@) + with_from(
                            self.pieces.list@[i as int].position,
                            legal_dests_from_cursor(
                                self.board(),
                                self.wi(),
                                self.to_move,
                                self.last_move,
                                self.pieces.list@[i as int].position,
                                gen.offsets@,
                                gen.is_sliding,
                                gen.current_offset_index as int,
                                gen.current_multiplier as int,
                            ),
                        ) + legal_pairs_from(
                            self.board(),
                            self.wi(),
                            self.to_move,
                            self.last_move,
                            i as int + 1,
                        ),
                        forall|k: int|
                            0 <= k < result@.len() ==> move_ok_m(
                                self.board(),
                                self.wi(),
                                self.to_move,
                                self.last_move,
                                #[trigger] result@[k],
                                true,
                            ),
                        forall|k: int|
                            0 <= k < result@.len() ==> (#[trigger] result@[k]).is_legal,
                        forall|k: int|
                            0 <= k < result@.len() ==> !(#[trigger] result@[k]).is_castling
                                && !result@[k].is_en_passant && !result@[k].is_promotion,
                        forall|k: int|
                            0 <= k < result@.len() ==> occ_at(
                                self.board(),
                                (#[trigger] result@[k]).from.x as int,
                                result@[k].from.y as int,
                            ),
                    ensures
                        legal_pairs_from(self.board(), self.wi(), self.to_move, self.last_move, 0)
                            == pairs_of(result@) + legal_pairs_from(
                            self.board(),
                            self.wi(),
                            self.to_move,
                            self.last_move,
                            i as int + 1,
                        ),
                        forall|k: int|
                            0 <= k < result@.len() ==> move_ok_m(
                                self.board(),
                                self.wi(),
                                self.to_move,
                                self.last_move,
                                #[trigger] result@[k],
                                true,
                            ),
                        forall|k: int|
                            0 <= k < result@.len() ==> (#[trigger] result@[k]).is_legal,
                        forall|k: int|
                            0 <= k < result@.len() ==> !(#[trigger] result@[k]).is_castling
                                && !result@[k].is_en_passant && !result@[k].is_promotion,
                        forall|k: int|
                            0 <= k < result@.len() ==> occ_at(
                                self.board(),
                                (#[trigger] result@[k]).from.x as int,
                                result@[k].from.y as int,
                            ),
                    decreases i8::MAX - gen.current_multiplier, gen.offsets@.len()
                        - gen.current_offset_index,
                {
                    let ghost g0 = gen;
                    let next = gen.next();
                    proof {
                        lemma_cursor_step(
                            self.board(),
                            self.wi(),
                            self.to_move,
                            self.last_move,
                            g0,
                            gen,
                            next,
                        );
                    }
                    match next {
                        None => {
                            proof {
                                assert(with_from(
                                    self.pieces.list@[i as int].position,
                                    Seq::<Point>::empty(),
                                ) =~= Seq::<(Point, Point)>::empty());
                                assert(pairs_of(result@) + Seq::<(Point, Point)>::empty()
                                    + legal_pairs_from(
                                    self.board(),
                                    self.wi(),
                                    self.to_move,
                                    self.last_move,
                                    i as int + 1,
                                ) =~= pairs_of(result@) + legal_pairs_from(
                                    self.board(),
                                    self.wi(),
                                    self.to_move,
                                    self.last_move,
                                    i as int + 1,
                                ));
                            }
                            break ;
                        },
                        Some(dest) => {
                            let mut mv = Move::new(
                                self.pieces.list[i].position,
                                dest,
                                self.pieces.list[i].duplicate(),
                            );
                            let ghost candidate = mv;
                            let ghost result0 = result@;
                            let legal = mv.is_legal(self);
                            if legal {
                                proof {
                                    crate::quasar::moves::lemma_legality_deterministic(
                                        self.board(),
                                        self.wi(),
                                        self.to_move,
                                        self.last_move,
                                        candidate,
                                        mv,
                                        true,
                                    );
                                }
                                result.push(mv);
                            }
                            proof {
                                let b = self.board();
                                let wix = self.wi();
                                let tm = self.to_move;
                                let lm = self.last_move;
                                let from = self.pieces.list@[i as int].position;
                                let admitted = move_ok(
                                    b,
                                    wix,
                                    tm,
                                    lm,
                                    from,
                                    dest,
                                    false,
                                    Option::None,
                                    false,
                                    false,
                                    true,
                                );
                                let head: Seq<Point> = if admitted {
                                    seq![dest]
                                } else {
                                    Seq::empty()
                                };
                                let rest = legal_dests_from_cursor(
                                    b,
                                    wix,
                                    tm,
                                    lm,
                                    from,
                                    gen.offsets@,
                                    gen.is_sliding,
                                    gen.current_offset_index as int,
                                    gen.current_multiplier as int,
                                );
                                assert(legal == admitted);
                                assert(with_from(from, head + rest) =~= with_from(from, head)
                                    + with_from(from, rest));
                                if legal {
                                    assert(with_from(from, head) =~= seq![(from, dest)]);
                                    assert(pairs_of(result@) =~= pairs_of(result0) + seq![
                                        (from, dest),
                                    ]);
                                } else {
                                    assert(with_from(from, head) =~= Seq::<(Point, Point)>::empty());
                                    assert(pairs_of(result@) =~= pairs_of(result0));
                                }
                                assert(pairs_of(result0) + with_from(from, head + rest)
                                    + legal_pairs_from(b, wix, tm, lm, i as int + 1) =~= pairs_of(
                                    result@,
                                ) + with_from(from, rest) + legal_pairs_from(
                                    b,
                                    wix,
                                    tm,
                                    lm,
                                    i as int + 1,
                                ));
                            }
                        },
                    }
                }
            } else {
                proof {
                    let b = self.board();
                    assert(piece_legal_dests(
                        b,
                        self.wi(),
                        self.to_move,
                        self.last_move,
                        b[i as int],
                    ) == Seq::<Point>::empty());
                    assert(with_from(b[i as int].position, Seq::<Point>::empty()) =~= Seq::<
                        (Point, Point),
                    >::empty());
                    assert(pairs_of(result@) + (Seq::<(Point, Point)>::empty()
                        + legal_pairs_from(
                        b,
                        self.wi(),
                        self.to_move,
                        self.last_move,
                        i as int + 1,
                    )) =~= pairs_of(result@) + legal_pairs_from(
                        b,
                        self.wi(),
                        self.to_move,
                        self.last_move,
                        i as int + 1,
                    ));
                    assert(Seq::<(Point, Point)>::empty() + legal_pairs_from(
                        b,
                        self.wi(),
                        self.to_move,
                        self.last_move,
                        i as int + 1,
                    ) =~= legal_pairs_from(b, self.wi(), self.to_move, self.last_move, i as int + 1));
                }
            }
            i = i + 1;
        }
        proof {
            assert(legal_pairs_from(self.board(), self.wi(), self.to_move, self.last_move, n as int)
                == Seq::<(Point, Point)>::empty());
            assert(pairs_of(result@) + Seq::<(Point, Point)>::empty() =~= pairs_of(result@));
        }
        result
    }

    /// A diagnostic text rendering over the bounding box of the pieces:
    /// rows from the top rank down, one glyph per alive occupant (upper
    /// case for white), a blank elsewhere, each row ended by a newline.
    /// The window bound keeps the rendering of machine-representable size.
    pub fn render(&self) -> (r: String)
        requires
            self.wf(),
            forall|i: int|
                0 <= i < self.pieces.list@.len() ==> -1024 <= (
                #[trigger] self.pieces.list@[i]).position.x <= 1024 && -1024
                    <= self.pieces.list@[i].position.y <= 1024,
        ensures
            r@ == grid_chars(
                self.board(),
                fold_max_y(self.pieces.list@, 0, i128::MIN as int),
                fold_min_y(self.pieces.list@, 0, i128::MAX as int),
                fold_min_x(self.pieces.list@, 0, i128::MAX as int),
                fold_max_x(self.pieces.list@, 0, i128::MIN as int),
            ),
    {
        let ghost b = self.board();
        let bounds = self.pieces.get_board_boundaries();
        let min_x = bounds.0;
        let max_x = bounds.1;
        let min_y = bounds.2;
        let max_y = bounds.3;
        let mut out = String::new();
        if max_y < min_y {
            return out;
        }
        proof {
            assert(self.pieces.list@.len() > 0);
            assert(-1024 <= min_x <= 1024 && -1024 <= max_x <= 1024) by {
                let i = choose|i: int|
                    0 <= i < self.pieces.list@.len() && self.pieces.list@[i].position.x == min_x;
                let j = choose|j: int|
                    0 <= j < self.pieces.list@.len() && self.pieces.list@[j].position.x == max_x;
                assert(-1024 <= self.pieces.list@[i].position.x <= 1024);
                assert(-1024 <= self.pieces.list@[j].position.x <= 1024);
            }
            assert(-1024 <= min_y <= 1024 && -1024 <= max_y <= 1024) by {
                let i = choose|i: int|
                    0 <= i < self.pieces.list@.len() && self.pieces.list@[i].position.y == min_y;
                let j = choose|j: int|
                    0 <= j < self.pieces.list@.len() && self.pieces.list@[j].position.y == max_y;
                assert(-1024 <= self.pieces.list@[i].position.y <= 1024);
                assert(-1024 <= self.pieces.list@[j].position.y <= 1024);
            }
        }
        proof {
            assert(min_x <= max_x) by {
                let i = choose|i: int|
                    0 <= i < self.pieces.list@.len() && self.pieces.list@[i].position.x == min_x;
                assert(min_x <= self.pieces.list@[i].position.x <= max_x);
            }
        }
        let mut y: i128 = max_y;
        while y >= min_y
            invariant
                b == self.board(),
                board_ok(b),
                -1024 <= min_x <= 1024,
                -1024 <= max_x <= 1024,
                -1024 <= min_y <= 1024,
                -1024 <= max_y <= 1024,
                min_x <= max_x,
                min_y <= max_y,
                min_y - 1 <= y <= max_y,
                grid_chars(b, max_y as int, min_y as int, min_x as int, max_x as int) == out@
                    + grid_chars(b, y as int, min_y as int, min_x as int, max_x as int),
            decreases y - min_y + 1,
        {
            proof {
                assert(grid_chars(b, y as int, min_y as int, min_x as int, max_x as int)
                    == row_chars(b, y as int, min_x as int, max_x as int) + seq!['\n']
                    + grid_chars(b, y as int - 1, min_y as int, min_x as int, max_x as int));
                assert(out@ + grid_chars(b, y as int, min_y as int, min_x as int, max_x as int)
                    =~= out@ + row_chars(b, y as int, min_x as int, max_x as int) + seq!['\n']
                    + grid_chars(b, y as int - 1, min_y as int, min_x as int, max_x as int));
            }
            let mut x: i128 = min_x;
            while x <= max_x
                invariant
                    b == self.board(),
                    board_ok(b),
                    -1024 <= min_x <= 1024,
                    -1024 <= max_x <= 1024,
                    -1024 <= min_y <= 1024,
                    -1024 <= max_y <= 1024,
                    min_x <= max_x,
                    min_y <= max_y,
                    min_y <= y <= max_y,
                    min_x <= x <= max_x + 1,
                    grid_chars(b, max_y as int, min_y as int, min_x as int, max_x as int)
                        == out@ + row_chars(b, y as int, x as int, max_x as int) + seq!['\n']
                        + grid_chars(b, y as int - 1, min_y as int, min_x as int, max_x as int),
                decreases max_x - x + 1,
            {
                let cs = cell_str(&self.pieces.list, x, y);
                let ghost out0 = out@;
                out.append(cs);
                proof {
                    assert(row_chars(b, y as int, x as int, max_x as int) == seq![cell_char(
                        b,
                        x as int,
                        y as int,
                    )] + row_chars(b, y as int, x as int + 1, max_x as int));
                    assert(out0 + row_chars(b, y as int, x as int, max_x as int) =~= out@
                        + row_chars(b, y as int, x as int + 1, max_x as int));
                    assert(out0 + row_chars(b, y as int, x as int, max_x as int) + seq!['\n']
                        + grid_chars(b, y as int - 1, min_y as int, min_x as int, max_x as int)
                        =~= out@ + row_chars(b, y as int, x as int + 1, max_x as int) + seq![
                        '\n',
                    ] + grid_chars(b, y as int - 1, min_y as int, min_x as int, max_x as int));
                }
                x = x + 1;
            }
            let ghost out1 = out@;
            out.append("\n");
            proof {
                reveal_strlit("\n");
                assert("\n"@ =~= seq!['\n']);
                assert(row_chars(b, y as int, max_x as int + 1, max_x as int) =~= Seq::<
                    char,
                >::empty());
                assert(out1 + row_chars(b, y as int, max_x as int + 1, max_x as int) =~= out1);
                assert(out@ =~= out1 + seq!['\n']);
                assert(out1 + seq!['\n'] + grid_chars(
                    b,
                    y as int - 1,
                    min_y as int,
                    min_x as int,
                    max_x as int,
                ) =~= out@ + grid_chars(b, y as int - 1, min_y as int, min_x as int, max_x as int));
            }
            y = y - 1;
        }
        proof {
            assert(grid_chars(b, y as int, min_y as int, min_x as int, max_x as int) =~= Seq::<
                char,
            >::empty());
            assert(out@ + grid_chars(b, y as int, min_y as int, min_x as int, max_x as int)
                =~= out@);
        }
        out
    }

    /// Checkmate: this colour's king is in check and the side to move has
    /// no legal move at all.
    pub fn is_checkmate(&self, color: bool) -> (r: bool)
        requires
            self.wf(),
        ensures
            r == (in_check(self.board(), self.wi(), color) && legal_pairs_from(
                self.board(),
                self.wi(),
                self.to_move,
                self.last_move,
                0,
            ).len() == 0),
    {
        self.is_king_in_check(color) && self.get_legal_moves().is_empty()
    }
}




/// The standard arrangement, in construction order: for each file, the
/// white and black back-rank piece, then for each file the white and
/// black pawn. Even positions hold white, odd ones black.
pub open spec fn standard_piece(k: int) -> PieceData {
    let file = (k % 16) / 2;
    let white = k % 2 == 0;
    if k < 16 {
        PieceData {
            form: spec_back_rank(file),
            position: Point {
                x: (file + 1) as i128,
                y: if white {
                    1i128
                } else {
                    8i128
                },
            },
            color: white,
            alive: true,
            moved: false,
            is_en_passant_target: false,
        }
    } else {
        PieceData {
            form: PieceType::Pawn,
            position: Point {
                x: (file + 1) as i128,
                y: if white {
                    2i128
                } else {
                    7i128
                },
            },
            color: white,
            alive: true,
            moved: false,
            is_en_passant_target: false,
        }
    }
}

/// The standard arrangement as a sequence.
pub open spec fn standard_board() -> Seq<PieceData> {
    Seq::new(32, |k: int| standard_piece(k))
}

/// The (source, destination) pairs of a move list.
pub open spec fn pairs_of(s: Seq<Move>) -> Seq<(Point, Point)> {
    Seq::new(s.len(), |k: int| (s[k].from, s[k].to))
}

/// Each destination paired with one fixed source square.
pub open spec fn with_from(from: Point, dests: Seq<Point>) -> Seq<(Point, Point)> {
    Seq::new(dests.len(), |k: int| (from, dests[k]))
}

/// The legal destinations a generator will emit from the given cursor,
/// for a plain candidate of the mover standing on `from`.
pub open spec fn legal_dests_from_cursor(
    b: Seq<PieceData>,
    wi: int,
    tm: bool,
    last: Option<Move>,
    from: Point,
    offs: Seq<Point>,
    sliding: bool,
    idx: int,
    mult: int,
) -> Seq<Point> {
    gen_seq(from, offs, sliding, idx, mult).filter(
        |q: Point| move_ok(b, wi, tm, last, from, q, false, Option::None, false, false, true),
    )
}

/// The accepted candidate destinations of one piece: every geometric
/// emission of a fresh generator that the legality rules admit. A dead
/// piece, or one of the waiting side, contributes nothing.
pub open spec fn piece_legal_dests(
    b: Seq<PieceData>,
    wi: int,
    tm: bool,
    last: Option<Move>,
    p: PieceData,
) -> Seq<Point> {
    if p.alive && p.color == tm {
        legal_dests_from_cursor(
            b,
            wi,
            tm,
            last,
            p.position,
            spec_offsets(p.form, p.color, p.moved),
            spec_is_sliding(p.form),
            0,
            1,
        )
    } else {
        Seq::empty()
    }
}

/// The legal (source, destination) pairs of the pieces from index `i` on,
/// in collection order and, within a piece, generator emission order.
pub open spec fn legal_pairs_from(
    b: Seq<PieceData>,
    wi: int,
    tm: bool,
    last: Option<Move>,
    i: int,
) -> Seq<(Point, Point)>
    decreases b.len() - i,
{
    if i < 0 || i >= b.len() {
        Seq::empty()
    } else {
        with_from(b[i].position, piece_legal_dests(b, wi, tm, last, b[i])) + legal_pairs_from(
            b,
            wi,
            tm,
            last,
            i + 1,
        )
    }
}

/// One `next` call splits a cursor's legal destinations into the head
/// candidate, kept when the rules admit it, and the rest.
pub proof fn lemma_cursor_step(
    b: Seq<PieceData>,
    wi: int,
    tm: bool,
    last: Option<Move>,
    pre: MoveGenerator,
    post: MoveGenerator,
    r: Option<Point>,
)
    requires
        pre.wf(),
        MoveGenerator::next_spec(pre, post, r),
    ensures
        (r matches Some(q) ==> legal_dests_from_cursor(
            b,
            wi,
            tm,
            last,
            pre.current_position,
            pre.offsets@,
            pre.is_sliding,
            pre.current_offset_index as int,
            pre.current_multiplier as int,
        ) == (if move_ok(
            b,
            wi,
            tm,
            last,
            pre.current_position,
            q,
            false,
            Option::None,
            false,
            false,
            true,
        ) {
            seq![q]
        } else {
            Seq::<Point>::empty()
        }) + legal_dests_from_cursor(
            b,
            wi,
            tm,
            last,
            pre.current_position,
            post.offsets@,
            post.is_sliding,
            post.current_offset_index as int,
            post.current_multiplier as int,
        )),
        (r is None ==> legal_dests_from_cursor(
            b,
            wi,
            tm,
            last,
            pre.current_position,
            pre.offsets@,
            pre.is_sliding,
            pre.current_offset_index as int,
            pre.current_multiplier as int,
        ) == Seq::<Point>::empty()),
{
    broadcast use vstd::seq_lib::group_filter_ensures;

    lemma_gen_seq_step(pre, post, r);
    match r {
        Option::Some(q) => {
            reveal_with_fuel(Seq::filter, 3);
            assert(seq![q].drop_last() =~= Seq::<Point>::empty());
        },
        Option::None => {
            reveal_with_fuel(Seq::filter, 2);
        },
    }
}

/// The glyph of one shape and colour: an upper-case letter for a white
/// piece, lower case for a black one, a blank for the Null shape.
pub open spec fn spec_glyph(form: PieceType, color: bool) -> char {
    if color {
        match form {
            PieceType::Pawn => 'P',
            PieceType::Knight => 'N',
            PieceType::Bishop => 'B',
            PieceType::Rook => 'R',
            PieceType::Queen => 'Q',
            PieceType::King => 'K',
            PieceType::Null => ' ',
        }
    } else {
        match form {
            PieceType::Pawn => 'p',
            PieceType::Knight => 'n',
            PieceType::Bishop => 'b',
            PieceType::Rook => 'r',
            PieceType::Queen => 'q',
            PieceType::King => 'k',
            PieceType::Null => ' ',
        }
    }
}

/// The glyph one square shows: its alive occupant, or a blank.
pub open spec fn cell_char(b: Seq<PieceData>, x: int, y: int) -> char {
    if occ_at(b, x, y) {
        spec_glyph(b[idx_at(b, x, y)].form, b[idx_at(b, x, y)].color)
    } else {
        ' '
    }
}

/// The glyphs of one row, for x from `x_lo` to `x_hi`.
pub open spec fn row_chars(b: Seq<PieceData>, y: int, x: int, x_hi: int) -> Seq<char>
    decreases x_hi - x + 1,
{
    if x > x_hi {
        Seq::empty()
    } else {
        seq![cell_char(b, x, y)] + row_chars(b, y, x + 1, x_hi)
    }
}

/// The newline-ended rows, for y from `y` down to `y_lo`.
pub open spec fn grid_chars(b: Seq<PieceData>, y: int, y_lo: int, x_lo: int, x_hi: int) -> Seq<
    char,
>
    decreases y - y_lo + 1,
{
    if y < y_lo {
        Seq::empty()
    } else {
        row_chars(b, y, x_lo, x_hi) + seq!['\n'] + grid_chars(b, y - 1, y_lo, x_lo, x_hi)
    }
}

fn glyph_str(form: PieceType, color: bool) -> (r: &'static str)
    ensures
        r@ == seq![spec_glyph(form, color)],
{
    let r: &'static str = if color {
        match form {
            PieceType::Pawn => "P",
            PieceType::Knight => "N",
            PieceType::Bishop => "B",
            PieceType::Rook => "R",
            PieceType::Queen => "Q",
            PieceType::King => "K",
            PieceType::Null => " ",
        }
    } else {
        match form {
            PieceType::Pawn => "p",
            PieceType::Knight => "n",
            PieceType::Bishop => "b",
            PieceType::Rook => "r",
            PieceType::Queen => "q",
            PieceType::King => "k",
            PieceType::Null => " ",
        }
    };
    proof {
        reveal_strlit("P");
        reveal_strlit("N");
        reveal_strlit("B");
        reveal_strlit("R");
        reveal_strlit("Q");
        reveal_strlit("K");
        reveal_strlit("p");
        reveal_strlit("n");
        reveal_strlit("b");
        reveal_strlit("r");
        reveal_strlit("q");
        reveal_strlit("k");
        reveal_strlit(" ");
        assert(r@ =~= seq![spec_glyph(form, color)]);
    }
    r
}

/// The glyph of one square, as a one-character string.
fn cell_str(list: &Vec<Piece>, x: i128, y: i128) -> (r: &'static str)
    requires
        board_ok(bview(list@)),
    ensures
        r@ == seq![cell_char(bview(list@), x as int, y as int)],
{
    match occ_index(list, x, y) {
        Some(i) => {
            proof {
                crate::quasar::moves::lemma_idx_at_unique(
                    bview(list@),
                    x as int,
                    y as int,
                    i as int,
                );
                assert(bview(list@)[i as int] == list@[i as int].data());
            }
            glyph_str(list[i].form, list[i].color)
        },
        None => {
            proof {
                reveal_strlit(" ");
                assert(" "@ =~= seq![cell_char(bview(list@), x as int, y as int)]);
            }
            " "
        },
    }
}

/// The back-rank shape of one file, rooks in the corners and the king on
/// the fifth file.
fn back_rank_form(f: usize) -> (t: PieceType)
    requires
        f < 8,
    ensures
        t == spec_back_rank(f as int),
{
    match f {
        0 => PieceType::Rook,
        1 => PieceType::Knight,
        2 => PieceType::Bishop,
        3 => PieceType::Queen,
        4 => PieceType::King,
        5 => PieceType::Bishop,
        6 => PieceType::Knight,
        _ => PieceType::Rook,
    }
}

/// The standard back-rank layout by file index.
pub open spec fn spec_back_rank(f: int) -> PieceType {
    if f == 0 {
        PieceType::Rook
    } else if f == 1 {
        PieceType::Knight
    } else if f == 2 {
        PieceType::Bishop
    } else if f == 3 {
        PieceType::Queen
    } else if f == 4 {
        PieceType::King
    } else if f == 5 {
        PieceType::Bishop
    } else if f == 6 {
        PieceType::Knight
    } else {
        PieceType::Rook
    }
}

/// A fresh vector holding a fresh copy of each piece.
fn duplicate_pieces(pieces: &Vec<Piece>) -> (r: Vec<Piece>)
    ensures
        r@.len() == pieces@.len(),
        bview(r@) == bview(pieces@),
        forall|j: int| 0 <= j < r@.len() ==> (#[trigger] r@[j]).offsets@ == pieces@[j].offsets@,
        forall|j: int| 0 <= j < r@.len() ==> (#[trigger] r@[j]).sliding == pieces@[j].sliding,
{
    let mut out: Vec<Piece> = Vec::new();
    let mut i: usize = 0;
    while i < pieces.len()
        invariant
            i <= pieces@.len(),
            out@.len() == i,
            forall|j: int| 0 <= j < i ==> (#[trigger] out@[j]).data() == pieces@[j].data(),
            forall|j: int| 0 <= j < i ==> (#[trigger] out@[j]).offsets@ == pieces@[j].offsets@,
            forall|j: int| 0 <= j < i ==> (#[trigger] out@[j]).sliding == pieces@[j].sliding,
        decreases pieces@.len() - i,
    {
        out.push(pieces[i].duplicate());
        i = i + 1;
    }
    proof {
        assert forall|j: int| 0 <= j < out@.len() implies bview(out@)[j] == bview(pieces@)[j] by {
            assert(bview(out@)[j] == out@[j].data());
            assert(bview(pieces@)[j] == pieces@[j].data());
        }
        assert(bview(out@) =~= bview(pieces@));
    }
    out
}

/// A fresh copy of a move record, piece snapshots included.
fn duplicate_move(m: &Move) -> (r: Move)
    ensures
        r.from == m.from,
        r.to == m.to,
        r.piece.data() == m.piece.data(),
        r.is_promotion == m.is_promotion,
        r.promotion_type == m.promotion_type,
        r.is_castling == m.is_castling,
        r.is_en_passant == m.is_en_passant,
        r.is_legal == m.is_legal,
{
    Move {
        from: m.from,
        to: m.to,
        piece: m.piece.duplicate(),
        captured_piece: match &m.captured_piece {
            Some(c) => Some(c.duplicate()),
            None => None,
        },
        is_promotion: m.is_promotion,
        promotion_type: m.promotion_type,
        is_castling: m.is_castling,
        is_en_passant: m.is_en_passant,
        is_legal: m.is_legal,
    }
}

/// A collection whose alive pieces stand on pairwise distinct squares is
/// board-ok; the standard start is such a collection because `PieceList::new`
/// keeps exactly the pieces given.
pub(crate) proof fn lemma_unique_positions_board_ok(s: Seq<Piece>)
    requires
        forall|i: int, j: int|
            0 <= i < s.len() && 0 <= j < s.len() && s[i].alive && s[j].alive && s[i].position
                == s[j].position ==> i == j,
    ensures
        board_ok(bview(s)),
{
    assert forall|i: int, j: int|
        0 <= i < bview(s).len() && 0 <= j < bview(s).len() && bview(s)[i].alive && bview(
            s,
        )[j].alive && bview(s)[i].position == bview(s)[j].position implies i == j by {
        assert(bview(s)[i] == s[i].data());
        assert(bview(s)[j] == s[j].data());
    }
}

} // verus!
