//! The piece model: per-shape attributes, direction-offset tables, and the
//! ordered, colour-partitioned piece collection.

use vstd::prelude::*;
use vstd::seq_lib::group_to_multiset_ensures;
use vstd::multiset::Multiset;
use crate::quasar::geometry::Point;

verus! {

#[derive(Debug, Clone, Copy, PartialEq, Eq, Structural)]
pub enum PieceType {
    Null,
    Pawn,
    Knight,
    Bishop,
    Rook,
    Queen,
    King,
}

/// The sliding shapes reach indefinitely along their directions; the others
/// step once per offset.
pub open spec fn spec_is_sliding(t: PieceType) -> bool {
    t is Bishop || t is Rook || t is Queen
}

impl PieceType {
    pub fn is_sliding(&self) -> (r: bool)
        ensures
            r == spec_is_sliding(*self),
    {
        matches!(self, PieceType::Bishop | PieceType::Rook | PieceType::Queen)
    }
}

/// The direction offsets of a pawn: forward one, forward two (only while it
/// has not moved), and the two diagonal attacks, flipped for the black side.
pub open spec fn spec_pawn_offsets(color: bool, moved: bool) -> Seq<Point> {
    let d: i128 = if color {
        1i128
    } else {
        -1i128
    };
    let dd: i128 = if color {
        2i128
    } else {
        -2i128
    };
    if moved {
        seq![
            Point { x: 0i128, y: d },
            Point { x: -1i128, y: d },
            Point { x: 1i128, y: d },
        ]
    } else {
        seq![
            Point { x: 0i128, y: d },
            Point { x: 0i128, y: dd },
            Point { x: -1i128, y: d },
            Point { x: 1i128, y: d },
        ]
    }
}

pub open spec fn spec_knight_offsets() -> Seq<Point> {
    seq![
        Point { x: 1i128, y: 2i128 },
        Point { x: 2i128, y: 1i128 },
        Point { x: 2i128, y: -1i128 },
        Point { x: 1i128, y: -2i128 },
        Point { x: -1i128, y: -2i128 },
        Point { x: -2i128, y: -1i128 },
        Point { x: -2i128, y: 1i128 },
        Point { x: -1i128, y: 2i128 },
    ]
}

pub open spec fn spec_bishop_offsets() -> Seq<Point> {
    seq![
        Point { x: 1i128, y: 1i128 },
        Point { x: 1i128, y: -1i128 },
        Point { x: -1i128, y: -1i128 },
        Point { x: -1i128, y: 1i128 },
    ]
}

pub open spec fn spec_rook_offsets() -> Seq<Point> {
    seq![
        Point { x: 0i128, y: 1i128 },
        Point { x: 1i128, y: 0i128 },
        Point { x: 0i128, y: -1i128 },
        Point { x: -1i128, y: 0i128 },
    ]
}

pub open spec fn spec_queen_king_offsets() -> Seq<Point> {
    seq![
        Point { x: 0i128, y: 1i128 },
        Point { x: 1i128, y: 1i128 },
        Point { x: 1i128, y: 0i128 },
        Point { x: 1i128, y: -1i128 },
        Point { x: 0i128, y: -1i128 },
        Point { x: -1i128, y: -1i128 },
        Point { x: -1i128, y: 0i128 },
        Point { x: -1i128, y: 1i128 },
    ]
}

/// The offset table of a piece derives solely from its shape and colour,
/// and, for a pawn, from whether it has moved (the double step drops out).
pub open spec fn spec_offsets(form: PieceType, color: bool, moved: bool) -> Seq<Point> {
    match form {
        PieceType::Pawn => spec_pawn_offsets(color, moved),
        PieceType::Knight => spec_knight_offsets(),
        PieceType::Bishop => spec_bishop_offsets(),
        PieceType::Rook => spec_rook_offsets(),
        PieceType::Queen => spec_queen_king_offsets(),
        PieceType::King => spec_queen_king_offsets(),
        PieceType::Null => Seq::empty(),
    }
}

/// The board-relevant part of a piece: what occupancy, the shape rules and
/// check detection read. The offset table is left out: it derives from the
/// fields here.
#[derive(Clone, Copy, PartialEq, Eq, Structural, Debug)]
pub struct PieceData {
    pub form: PieceType,
    pub position: Point,
    pub color: bool,
    pub alive: bool,
    pub moved: bool,
    pub is_en_passant_target: bool,
}

/// A value entity: shape, position, colour (`true` is white), derived
/// sliding flag, alive flag, moved flag, direction-offset list, and the
/// en-passant-target marker.
#[derive(Debug, Clone, PartialEq, Eq)]
pub struct Piece {
    pub form: PieceType,
    pub position: Point,
    pub color: bool,
    pub sliding: bool,
    pub alive: bool,
    pub moved: bool,
    pub offsets: Vec<Point>,
    pub is_en_passant_target: bool,
}

impl Piece {
    /// The derived fields agree with the shape: the sliding flag, and the
    /// offset table as a function of shape, colour and the moved flag.
    pub open spec fn wf(&self) -> bool {
        &&& self.sliding == spec_is_sliding(self.form)
        &&& self.offsets@ == spec_offsets(self.form, self.color, self.moved)
    }

    /// The board-relevant view of this piece.
    pub open spec fn data(&self) -> PieceData {
        PieceData {
            form: self.form,
            position: self.position,
            color: self.color,
            alive: self.alive,
            moved: self.moved,
            is_en_passant_target: self.is_en_passant_target,
        }
    }

    pub fn new(form: PieceType, position: Point, color: bool) -> (p: Piece)
        ensures
            p.form == form,
            p.position == position,
            p.color == color,
            p.alive,
            !p.moved,
            !p.is_en_passant_target,
            p.wf(),
    {
        Piece {
            form,
            position,
            color,
            sliding: form.is_sliding(),
            alive: true,
            moved: false,
            offsets: build_offsets(form, color, false),
            is_en_passant_target: false,
        }
    }


    /// A fresh value with the same fields, the offset table copied.
    pub fn duplicate(&self) -> (r: Piece)
        ensures
            r.data() == self.data(),
            r.sliding == self.sliding,
            r.offsets@ == self.offsets@,
    {
        let mut offsets: Vec<Point> = Vec::new();
        let mut i: usize = 0;
        while i < self.offsets.len()
            invariant
                i <= self.offsets@.len(),
                offsets@ == self.offsets@.subrange(0, i as int),
            decreases self.offsets@.len() - i,
        {
            offsets.push(self.offsets[i]);
            i = i + 1;
        }
        proof {
            assert(offsets@ =~= self.offsets@);
        }
        Piece {
            form: self.form,
            position: self.position,
            color: self.color,
            sliding: self.sliding,
            alive: self.alive,
            moved: self.moved,
            offsets,
            is_en_passant_target: self.is_en_passant_target,
        }
    }

    /// Recomputes the offset table after the moved flag changed; only a
    /// pawn's table depends on it (the double step drops out).
    pub fn update_offsets(&mut self)
        requires
            !(old(self).form is Pawn) ==> old(self).offsets@ == spec_offsets(
                old(self).form,
                old(self).color,
                old(self).moved,
            ),
        ensures
            final(self).form == old(self).form,
            final(self).position == old(self).position,
            final(self).color == old(self).color,
            final(self).sliding == old(self).sliding,
            final(self).alive == old(self).alive,
            final(self).moved == old(self).moved,
            final(self).is_en_passant_target == old(self).is_en_passant_target,
            final(self).offsets@ == spec_offsets(old(self).form, old(self).color, old(self).moved),
    {
        if let PieceType::Pawn = self.form {
            self.offsets = build_offsets(PieceType::Pawn, self.color, self.moved);
        }
    }
}

/// The board-relevant view of a piece sequence.
pub open spec fn bview(s: Seq<Piece>) -> Seq<PieceData> {
    Seq::new(s.len(), |i: int| s[i].data())
}

/// Builds the executable offset table matching `spec_offsets`.
pub(crate) fn build_offsets(form: PieceType, color: bool, moved: bool) -> (v: Vec<Point>)
    ensures
        v@ == spec_offsets(form, color, moved),
{
    let mut v: Vec<Point> = Vec::new();
    match form {
        PieceType::Pawn => {
            let d: i128 = if color {
                1
            } else {
                -1
            };
            v.push(Point { x: 0, y: d });
            if !moved {
                v.push(Point { x: 0, y: 2 * d });
            }
            v.push(Point { x: -1, y: d });
            v.push(Point { x: 1, y: d });
            proof {
                assert(v@ =~= spec_offsets(form, color, moved));
            }
        },
        PieceType::Knight => {
            v.push(Point { x: 1, y: 2 });
            v.push(Point { x: 2, y: 1 });
            v.push(Point { x: 2, y: -1 });
            v.push(Point { x: 1, y: -2 });
            v.push(Point { x: -1, y: -2 });
            v.push(Point { x: -2, y: -1 });
            v.push(Point { x: -2, y: 1 });
            v.push(Point { x: -1, y: 2 });
            proof {
                assert(v@ =~= spec_offsets(form, color, moved));
            }
        },
        PieceType::Bishop => {
            v.push(Point { x: 1, y: 1 });
            v.push(Point { x: 1, y: -1 });
            v.push(Point { x: -1, y: -1 });
            v.push(Point { x: -1, y: 1 });
            proof {
                assert(v@ =~= spec_offsets(form, color, moved));
            }
        },
        PieceType::Rook => {
            v.push(Point { x: 0, y: 1 });
            v.push(Point { x: 1, y: 0 });
            v.push(Point { x: 0, y: -1 });
            v.push(Point { x: -1, y: 0 });
            proof {
                assert(v@ =~= spec_offsets(form, color, moved));
            }
        },
        PieceType::Queen | PieceType::King => {
            v.push(Point { x: 0, y: 1 });
            v.push(Point { x: 1, y: 1 });
            v.push(Point { x: 1, y: 0 });
            v.push(Point { x: 1, y: -1 });
            v.push(Point { x: 0, y: -1 });
            v.push(Point { x: -1, y: -1 });
            v.push(Point { x: -1, y: 0 });
            v.push(Point { x: -1, y: 1 });
            proof {
                assert(v@ =~= spec_offsets(form, color, moved));
            }
        },
        PieceType::Null => {
            proof {
                assert(v@ =~= spec_offsets(form, color, moved));
            }
        },
    }
    v
}

/// The shape's place in the collection order: declaration order, so that a
/// king sorts after every other shape of its colour.
pub open spec fn spec_rank(form: PieceType) -> int {
    match form {
        PieceType::Null => 0,
        PieceType::Pawn => 1,
        PieceType::Knight => 2,
        PieceType::Bishop => 3,
        PieceType::Rook => 4,
        PieceType::Queen => 5,
        PieceType::King => 6,
    }
}

/// The collection sort key: every white piece before every black one, and
/// shapes in declaration order within a colour.
pub open spec fn spec_key(p: Piece) -> int {
    spec_rank(p.form) + if p.color {
        0int
    } else {
        8int
    }
}

pub open spec fn sorted_by_key(s: Seq<Piece>) -> bool {
    forall|i: int, j: int| 0 <= i <= j < s.len() ==> spec_key(s[i]) <= spec_key(s[j])
}

fn piece_key(p: &Piece) -> (k: u8)
    ensures
        k as int == spec_key(*p),
{
    let rank: u8 = match p.form {
        PieceType::Null => 0,
        PieceType::Pawn => 1,
        PieceType::Knight => 2,
        PieceType::Bishop => 3,
        PieceType::Rook => 4,
        PieceType::Queen => 5,
        PieceType::King => 6,
    };
    if p.color {
        rank
    } else {
        rank + 8
    }
}

/// Selection sort by the collection key; keeps exactly the given pieces.
fn sort_by_piece_key(v: Vec<Piece>) -> (r: Vec<Piece>)
    ensures
        r@.to_multiset() == v@.to_multiset(),
        r@.len() == v@.len(),
        sorted_by_key(r@),
{
    let ghost orig: Seq<Piece> = v@;
    let mut rest: Vec<Piece> = v;
    let mut out: Vec<Piece> = Vec::new();
    proof {
        broadcast use group_to_multiset_ensures;

        assert(out@.to_multiset().add(rest@.to_multiset()) =~= orig.to_multiset());
    }
    while rest.len() > 0
        invariant
            out@.to_multiset().add(rest@.to_multiset()) == orig.to_multiset(),
            out@.len() + rest@.len() == orig.len(),
            sorted_by_key(out@),
            forall|i: int, j: int|
                0 <= i < out@.len() && 0 <= j < rest@.len() ==> spec_key(out@[i]) <= spec_key(
                    rest@[j],
                ),
        decreases rest@.len(),
    {
        let mut m: usize = 0;
        let mut i: usize = 1;
        while i < rest.len()
            invariant
                rest@.len() > 0,
                m < i <= rest@.len(),
                forall|k: int| 0 <= k < i ==> spec_key(rest@[m as int]) <= spec_key(rest@[k]),
            decreases rest@.len() - i,
        {
            if piece_key(&rest[i]) < piece_key(&rest[m]) {
                m = i;
            }
            i = i + 1;
        }
        let ghost before: Seq<Piece> = rest@;
        let p = rest.remove(m);
        proof {
            broadcast use group_to_multiset_ensures;

            assert(before.remove(m as int).to_multiset() =~= before.to_multiset().remove(p));
            assert(before.contains(p));
            assert(before.to_multiset().count(p) > 0);
            assert(out@.push(p).to_multiset() =~= out@.to_multiset().insert(p));
            assert(out@.push(p).to_multiset().add(rest@.to_multiset()) =~= orig.to_multiset());
        }
        out.push(p);
    }
    proof {
        broadcast use group_to_multiset_ensures;

        assert(rest@.to_multiset() =~= Multiset::empty());
        assert(out@.to_multiset() =~= orig.to_multiset());
    }
    out
}

/// Whether some piece of the sequence is a king of the given colour.
pub open spec fn has_king(s: Seq<Piece>, color: bool) -> bool {
    exists|i: int| 0 <= i < s.len() && s[i].color == color && s[i].form is King
}

/// An ordered piece collection, partitioned so that every white piece
/// stands before every black one.
#[derive(Debug, Clone)]
pub struct PieceList {
    pub list: Vec<Piece>,
    pub white_count: usize,
    pub black_count: usize,
    pub white_index: usize,
}

impl PieceList {
    /// The colour partition: the pieces up to `white_index` are exactly the
    /// white ones, and the counts add up.
    pub open spec fn partitioned(&self) -> bool {
        &&& self.white_index == self.white_count
        &&& self.white_count + self.black_count == self.list@.len()
        &&& forall|i: int|
            0 <= i < self.list@.len() ==> (self.list@[i].color <==> i < self.white_index)
    }

    /// Well-formed for check detection: partitioned, each colour group ends
    /// in a king, and every piece's derived fields agree with its shape.
    pub open spec fn wf(&self) -> bool {
        &&& self.partitioned()
        &&& 0 < self.white_index < self.list@.len()
        &&& self.list@[self.white_index - 1].form is King
        &&& self.list@[self.list@.len() - 1].form is King
        &&& forall|i: int| 0 <= i < self.list@.len() ==> #[trigger] self.list@[i].wf()
    }

    /// Orders the pieces by colour and shape. The collection holds exactly
    /// the pieces given; when they are well formed and both kings are
    /// present, the collection is well formed.
    pub fn new(pieces: Vec<Piece>) -> (r: PieceList)
        ensures
            r.list@.to_multiset() == pieces@.to_multiset(),
            r.list@.len() == pieces@.len(),
            sorted_by_key(r.list@),
            r.partitioned(),
            (forall|i: int| 0 <= i < pieces@.len() ==> #[trigger] pieces@[i].wf()) && has_king(
                pieces@,
                true,
            ) && has_king(pieces@, false) ==> r.wf(),
    {
        let ghost input: Seq<Piece> = pieces@;
        let sorted = sort_by_piece_key(pieces);
        let n = sorted.len();
        let mut wc: usize = 0;
        while wc < n && sorted[wc].color
            invariant
                n == sorted@.len(),
                wc <= n,
                forall|i: int| 0 <= i < wc ==> sorted@[i].color,
            decreases n - wc,
        {
            wc = wc + 1;
        }
        proof {
            assert forall|i: int| wc <= i < sorted@.len() implies !sorted@[i].color by {
                assert(spec_key(sorted@[wc as int]) <= spec_key(sorted@[i]));
            }
        }
        let r = PieceList { list: sorted, white_count: wc, black_count: n - wc, white_index: wc };
        proof {
            broadcast use group_to_multiset_ensures;

            if (forall|i: int| 0 <= i < input.len() ==> #[trigger] input[i].wf()) && has_king(
                input,
                true,
            ) && has_king(input, false) {
                assert forall|i: int| 0 <= i < r.list@.len() implies #[trigger] r.list@[i].wf() by {
                    let p = r.list@[i];
                    assert(r.list@.contains(p));
                    assert(r.list@.to_multiset().count(p) > 0);
                    assert(input.contains(p));
                    let j = choose|j: int| 0 <= j < input.len() && input[j] == p;
                    assert(input[j].wf());
                }
                lemma_king_sorts_last(r.list@, input, true);
                lemma_king_sorts_last(r.list@, input, false);
                let wk = choose|k: int|
                    0 <= k < r.list@.len() && r.list@[k].color && r.list@[k].form is King;
                let bk = choose|k: int|
                    0 <= k < r.list@.len() && !r.list@[k].color && r.list@[k].form is King;
                assert(wk < r.white_index);
                assert(r.white_index <= bk);
                assert(spec_key(r.list@[wk]) <= spec_key(r.list@[r.white_index - 1]));
                assert(spec_key(r.list@[bk]) <= spec_key(r.list@[r.list@.len() - 1]));
                lemma_rank_six_is_king(r.list@[r.white_index - 1]);
                lemma_rank_six_is_king(r.list@[r.list@.len() - 1]);
            }
        }
        r
    }
}

/// A king of the wanted colour survives sorting: equal multisets hold the
/// same pieces.
proof fn lemma_king_sorts_last(sorted: Seq<Piece>, input: Seq<Piece>, color: bool)
    requires
        sorted.to_multiset() == input.to_multiset(),
        has_king(input, color),
    ensures
        has_king(sorted, color),
{
    broadcast use group_to_multiset_ensures;

    let j = choose|j: int| 0 <= j < input.len() && input[j].color == color && input[j].form is King;
    let p = input[j];
    assert(input.contains(p));
    assert(input.to_multiset().count(p) > 0);
    assert(sorted.contains(p));
    let k = choose|k: int| 0 <= k < sorted.len() && sorted[k] == p;
    assert(0 <= k < sorted.len() && sorted[k].color == color && sorted[k].form is King);
}

/// The only shape of rank six is the king.
proof fn lemma_rank_six_is_king(p: Piece)
    requires
        spec_rank(p.form) == 6,
    ensures
        p.form is King,
{
}

/// Whether the alive pieces of a sequence stand on pairwise distinct
/// squares.
pub open spec fn distinct_alive_positions(s: Seq<Piece>) -> bool {
    forall|i: int, j: int|
        0 <= i < s.len() && 0 <= j < s.len() && s[i].alive && s[j].alive && s[i].position
            == s[j].position ==> i == j
}

/// A permutation keeps the alive pieces on pairwise distinct squares.
pub proof fn lemma_permutation_keeps_distinct(sorted: Seq<Piece>, input: Seq<Piece>)
    requires
        sorted.to_multiset() == input.to_multiset(),
        distinct_alive_positions(input),
    ensures
        distinct_alive_positions(sorted),
{
    broadcast use group_to_multiset_ensures;

    assert forall|i: int, j: int|
        0 <= i < sorted.len() && 0 <= j < sorted.len() && sorted[i].alive && sorted[j].alive
            && sorted[i].position == sorted[j].position implies i == j by {
        if i != j {
            let p = sorted[i];
            let q = sorted[j];
            if p == q {
                let s2 = sorted.remove(i);
                assert(s2.to_multiset() =~= sorted.to_multiset().remove(p));
                let j2: int = if j < i {
                    j
                } else {
                    j - 1
                };
                assert(s2[j2] == q);
                assert(s2.contains(q));
                assert(s2.to_multiset().count(q) > 0);
                assert(sorted.to_multiset().count(p) >= 2);
                assert(input.to_multiset().count(p) >= 2);
                assert(input.to_multiset().count(p) > 0);
                assert(input.contains(p));
                let i1 = choose|t: int| 0 <= t < input.len() && input[t] == p;
                let inp2 = input.remove(i1);
                assert(inp2.to_multiset() =~= input.to_multiset().remove(p));
                assert(inp2.to_multiset().count(p) >= 1);
                assert(inp2.contains(p));
                let t2 = choose|t: int| 0 <= t < inp2.len() && inp2[t] == p;
                let t2o: int = if t2 < i1 {
                    t2
                } else {
                    t2 + 1
                };
                assert(input[t2o] == p);
                assert(t2o != i1);
                assert(input[i1].alive && input[t2o].alive && input[i1].position == input[
                    t2o
                ].position);
                assert(false);
            } else {
                assert(sorted.contains(p));
                assert(sorted.contains(q));
                assert(input.to_multiset().count(p) > 0);
                assert(input.to_multiset().count(q) > 0);
                assert(input.contains(p));
                assert(input.contains(q));
                let i1 = choose|t: int| 0 <= t < input.len() && input[t] == p;
                let i2 = choose|t: int| 0 <= t < input.len() && input[t] == q;
                assert(i1 != i2);
                assert(input[i1].alive && input[i2].alive && input[i1].position == input[
                    i2
                ].position);
                assert(false);
            }
        }
    }
}

/// Sequences holding the same pieces hold the same piece data.
pub proof fn lemma_bview_multiset(s1: Seq<Piece>, s2: Seq<Piece>)
    requires
        s1.to_multiset() == s2.to_multiset(),
    ensures
        bview(s1).to_multiset() == bview(s2).to_multiset(),
    decreases s1.len(),
{
    broadcast use group_to_multiset_ensures;

    if s1.len() == 0 {
        assert(s1.to_multiset().len() == s1.len());
        assert(s2.to_multiset().len() == s2.len());
        assert(s2.len() == 0);
        assert(bview(s1) =~= Seq::<PieceData>::empty());
        assert(bview(s2) =~= Seq::<PieceData>::empty());
        assert(bview(s1).to_multiset() =~= bview(s2).to_multiset());
    } else {
        let p = s1[0];
        let d = p.data();
        let s1r = s1.remove(0);
        assert(s1r.to_multiset() =~= s1.to_multiset().remove(p));
        assert(s1.contains(p));
        assert(s2.to_multiset().count(p) > 0);
        assert(s2.contains(p));
        let k = choose|t: int| 0 <= t < s2.len() && s2[t] == p;
        let s2r = s2.remove(k);
        assert(s2r.to_multiset() =~= s2.to_multiset().remove(p));
        assert(s1r.to_multiset() =~= s2r.to_multiset());
        lemma_bview_multiset(s1r, s2r);
        let b1 = bview(s1);
        let b2 = bview(s2);
        assert(b1.remove(0) =~= bview(s1r)) by {
            assert forall|j: int| 0 <= j < b1.remove(0).len() implies b1.remove(0)[j] == bview(
                s1r,
            )[j] by {
                assert(bview(s1r)[j] == s1r[j].data());
            }
        }
        assert(b2.remove(k) =~= bview(s2r)) by {
            assert forall|j: int| 0 <= j < b2.remove(k).len() implies b2.remove(k)[j] == bview(
                s2r,
            )[j] by {
                assert(bview(s2r)[j] == s2r[j].data());
            }
        }
        assert(b1.remove(0).to_multiset() =~= b1.to_multiset().remove(b1[0]));
        assert(b2.remove(k).to_multiset() =~= b2.to_multiset().remove(b2[k]));
        assert(b1[0] == d);
        assert(b2[k] == d);
        assert(b1.to_multiset().remove(d) =~= b2.to_multiset().remove(d));
        assert(b1.contains(b1[0]));
        assert(b1.to_multiset().count(d) > 0);
        assert(b2.contains(b2[k]));
        assert(b2.to_multiset().count(d) > 0);
        assert forall|e: PieceData| true implies b1.to_multiset().count(e) == b2.to_multiset().count(
            e,
        ) by {
            if e == d {
                assert(b1.to_multiset().remove(d).count(e) + 1 == b1.to_multiset().count(e));
                assert(b2.to_multiset().remove(d).count(e) + 1 == b2.to_multiset().count(e));
            } else {
                assert(b1.to_multiset().remove(d).count(e) == b1.to_multiset().count(e));
                assert(b2.to_multiset().remove(d).count(e) == b2.to_multiset().count(e));
            }
        }
        assert(b1.to_multiset() =~= b2.to_multiset());
    }
}


/// The pieces a reference sequence points at, in order.
pub open spec fn deref_seq(s: Seq<&Piece>) -> Seq<Piece> {
    Seq::new(s.len(), |i: int| *s[i])
}

/// The least x coordinate folded over the pieces from `i`, seeded with `acc`.
pub open spec fn fold_min_x(s: Seq<Piece>, i: int, acc: int) -> int
    decreases s.len() - i,
{
    if i < 0 || i >= s.len() {
        acc
    } else {
        fold_min_x(
            s,
            i + 1,
            if s[i].position.x < acc {
                s[i].position.x as int
            } else {
                acc
            },
        )
    }
}

/// The greatest x coordinate folded over the pieces from `i`.
pub open spec fn fold_max_x(s: Seq<Piece>, i: int, acc: int) -> int
    decreases s.len() - i,
{
    if i < 0 || i >= s.len() {
        acc
    } else {
        fold_max_x(
            s,
            i + 1,
            if s[i].position.x > acc {
                s[i].position.x as int
            } else {
                acc
            },
        )
    }
}

/// The least y coordinate folded over the pieces from `i`.
pub open spec fn fold_min_y(s: Seq<Piece>, i: int, acc: int) -> int
    decreases s.len() - i,
{
    if i < 0 || i >= s.len() {
        acc
    } else {
        fold_min_y(
            s,
            i + 1,
            if s[i].position.y < acc {
                s[i].position.y as int
            } else {
                acc
            },
        )
    }
}

/// The greatest y coordinate folded over the pieces from `i`.
pub open spec fn fold_max_y(s: Seq<Piece>, i: int, acc: int) -> int
    decreases s.len() - i,
{
    if i < 0 || i >= s.len() {
        acc
    } else {
        fold_max_y(
            s,
            i + 1,
            if s[i].position.y > acc {
                s[i].position.y as int
            } else {
                acc
            },
        )
    }
}

/// The first index at or after `i` whose piece stands on `(x, y)`, dead
/// or alive; -1 if none.
pub open spec fn first_at(s: Seq<Piece>, x: int, y: int, i: int) -> int
    decreases s.len() - i,
{
    if i < 0 || i >= s.len() {
        -1int
    } else if s[i].position.x == x && s[i].position.y == y {
        i
    } else {
        first_at(s, x, y, i + 1)
    }
}

/// The first index at or after `i` holding a pawn marked as the
/// en-passant target; -1 if none.
pub open spec fn first_ep_target(s: Seq<Piece>, i: int) -> int
    decreases s.len() - i,
{
    if i < 0 || i >= s.len() {
        -1int
    } else if s[i].form is Pawn && s[i].is_en_passant_target {
        i
    } else {
        first_ep_target(s, i + 1)
    }
}

impl PieceList {
    pub fn get_all_pieces(&self) -> (r: &[Piece])
        ensures
            r@ == self.list@,
    {
        self.list.as_slice()
    }

    pub fn get_white_pieces(&self) -> (r: &[Piece])
        requires
            self.white_index <= self.list@.len(),
        ensures
            r@ == self.list@.subrange(0, self.white_index as int),
    {
        &self.list.as_slice()[0..self.white_index]
    }

    pub fn get_black_pieces(&self) -> (r: &[Piece])
        requires
            self.white_index <= self.list@.len(),
        ensures
            r@ == self.list@.subrange(self.white_index as int, self.list@.len() as int),
    {
        &self.list.as_slice()[self.white_index..self.list.len()]
    }

    pub fn get_pieces_by_type(&self, piece_type: PieceType) -> (r: Vec<&Piece>)
        ensures
            deref_seq(r@) == self.list@.filter(
                |p: Piece| p.form == piece_type,
            ),
    {
        filter_by_type(self.list.as_slice(), piece_type)
    }

    pub fn get_white_pieces_by_type(&self, piece_type: PieceType) -> (r: Vec<&Piece>)
        requires
            self.white_index <= self.list@.len(),
        ensures
            deref_seq(r@) == self.list@.subrange(
                0,
                self.white_index as int,
            ).filter(|p: Piece| p.form == piece_type),
    {
        filter_by_type(self.get_white_pieces(), piece_type)
    }

    pub fn get_black_pieces_by_type(&self, piece_type: PieceType) -> (r: Vec<&Piece>)
        requires
            self.white_index <= self.list@.len(),
        ensures
            deref_seq(r@) == self.list@.subrange(
                self.white_index as int,
                self.list@.len() as int,
            ).filter(|p: Piece| p.form == piece_type),
    {
        filter_by_type(self.get_black_pieces(), piece_type)
    }

    pub fn get_alive_pieces(&self) -> (r: Vec<&Piece>)
        ensures
            deref_seq(r@) == self.list@.filter(|p: Piece| p.alive),
    {
        let s = self.list.as_slice();
        let mut r: Vec<&Piece> = Vec::new();
        let mut i: usize = 0;
        while i < s.len()
            invariant
                i <= s@.len(),
                deref_seq(r@) == s@.subrange(0, i as int).filter(|p: Piece| p.alive),
            decreases s@.len() - i,
        {
            let ghost r0 = r@;
            if s[i].alive {
                r.push(&s[i]);
            }
            proof {
                lemma_filter_loop_step(s@, |p: Piece| p.alive, i as int, r0, r@);
            }
            i = i + 1;
        }
        proof {
            assert(s@.subrange(0, s@.len() as int) =~= s@);
        }
        r
    }

    pub fn get_sliding_pieces(&self) -> (r: Vec<&Piece>)
        ensures
            deref_seq(r@) == self.list@.filter(|p: Piece| p.sliding),
    {
        let s = self.list.as_slice();
        let mut r: Vec<&Piece> = Vec::new();
        let mut i: usize = 0;
        while i < s.len()
            invariant
                i <= s@.len(),
                deref_seq(r@) == s@.subrange(0, i as int).filter(|p: Piece| p.sliding),
            decreases s@.len() - i,
        {
            let ghost r0 = r@;
            if s[i].sliding {
                r.push(&s[i]);
            }
            proof {
                lemma_filter_loop_step(s@, |p: Piece| p.sliding, i as int, r0, r@);
            }
            i = i + 1;
        }
        proof {
            assert(s@.subrange(0, s@.len() as int) =~= s@);
        }
        r
    }

    pub fn get_unmoved_pieces(&self) -> (r: Vec<&Piece>)
        ensures
            deref_seq(r@) == self.list@.filter(|p: Piece| !p.moved),
    {
        let s = self.list.as_slice();
        let mut r: Vec<&Piece> = Vec::new();
        let mut i: usize = 0;
        while i < s.len()
            invariant
                i <= s@.len(),
                deref_seq(r@) == s@.subrange(0, i as int).filter(|p: Piece| !p.moved),
            decreases s@.len() - i,
        {
            let ghost r0 = r@;
            if !s[i].moved {
                r.push(&s[i]);
            }
            proof {
                lemma_filter_loop_step(s@, |p: Piece| !p.moved, i as int, r0, r@);
            }
            i = i + 1;
        }
        proof {
            assert(s@.subrange(0, s@.len() as int) =~= s@);
        }
        r
    }

    /// The first piece standing on `(x, y)`, dead or alive.
    pub fn get_piece_at(&self, x: i128, y: i128) -> (r: Option<&Piece>)
        ensures
            first_at(self.list@, x as int, y as int, 0) < 0 ==> r is None,
            first_at(self.list@, x as int, y as int, 0) >= 0 ==> (r matches Some(p) && *p
                == self.list@[first_at(self.list@, x as int, y as int, 0)]),
    {
        let s = self.list.as_slice();
        let mut i: usize = 0;
        while i < s.len()
            invariant
                s@ == self.list@,
                i <= s@.len(),
                first_at(s@, x as int, y as int, 0) == first_at(s@, x as int, y as int, i as int),
            decreases s@.len() - i,
        {
            if s[i].position.x == x && s[i].position.y == y {
                proof {
                    assert(first_at(s@, x as int, y as int, i as int) == i);
                }
                return Some(&s[i]);
            }
            proof {
                assert(first_at(s@, x as int, y as int, i as int) == first_at(
                    s@,
                    x as int,
                    y as int,
                    i as int + 1,
                ));
            }
            i = i + 1;
        }
        proof {
            assert(first_at(s@, x as int, y as int, s@.len() as int) == -1);
        }
        None
    }

    pub fn get_white_king(&self) -> (r: &Piece)
        requires
            0 < self.white_index <= self.list@.len(),
        ensures
            *r == self.list@[self.white_index - 1],
    {
        &self.list[self.white_index - 1]
    }

    pub fn get_black_king(&self) -> (r: &Piece)
        requires
            self.list@.len() > 0,
        ensures
            *r == self.list@[self.list@.len() - 1],
    {
        &self.list[self.list.len() - 1]
    }

    /// The bounding box of every piece, dead or alive: least and greatest
    /// x, then least and greatest y. An empty collection keeps the fold
    /// seeds, the extreme representable values.
    pub fn get_board_boundaries(&self) -> (r: (i128, i128, i128, i128))
        ensures
            r.0 == fold_min_x(self.list@, 0, i128::MAX as int),
            r.1 == fold_max_x(self.list@, 0, i128::MIN as int),
            r.2 == fold_min_y(self.list@, 0, i128::MAX as int),
            r.3 == fold_max_y(self.list@, 0, i128::MIN as int),
            forall|i: int|
                0 <= i < self.list@.len() ==> r.0 <= (#[trigger] self.list@[i]).position.x <= r.1
                    && r.2 <= self.list@[i].position.y <= r.3,
            self.list@.len() == 0 ==> r == (i128::MAX, i128::MIN, i128::MAX, i128::MIN),
            self.list@.len() > 0 ==> (exists|i: int|
                0 <= i < self.list@.len() && (#[trigger] self.list@[i]).position.x == r.0) && (
            exists|i: int|
                0 <= i < self.list@.len() && (#[trigger] self.list@[i]).position.x == r.1) && (
            exists|i: int|
                0 <= i < self.list@.len() && (#[trigger] self.list@[i]).position.y == r.2) && (
            exists|i: int|
                0 <= i < self.list@.len() && (#[trigger] self.list@[i]).position.y == r.3),
    {
        let mut min_x: i128 = i128::MAX;
        let mut max_x: i128 = i128::MIN;
        let mut min_y: i128 = i128::MAX;
        let mut max_y: i128 = i128::MIN;
        let mut i: usize = 0;
        while i < self.list.len()
            invariant
                i <= self.list@.len(),
                forall|j: int|
                    0 <= j < i ==> min_x <= (#[trigger] self.list@[j]).position.x <= max_x
                        && min_y <= self.list@[j].position.y <= max_y,
                i == 0 ==> (min_x, max_x, min_y, max_y) == (
                    i128::MAX,
                    i128::MIN,
                    i128::MAX,
                    i128::MIN,
                ),
                fold_min_x(self.list@, 0, i128::MAX as int) == fold_min_x(
                    self.list@,
                    i as int,
                    min_x as int,
                ),
                fold_max_x(self.list@, 0, i128::MIN as int) == fold_max_x(
                    self.list@,
                    i as int,
                    max_x as int,
                ),
                fold_min_y(self.list@, 0, i128::MAX as int) == fold_min_y(
                    self.list@,
                    i as int,
                    min_y as int,
                ),
                fold_max_y(self.list@, 0, i128::MIN as int) == fold_max_y(
                    self.list@,
                    i as int,
                    max_y as int,
                ),
                i > 0 ==> (exists|j: int|
                    0 <= j < i && (#[trigger] self.list@[j]).position.x == min_x) && (exists|
                j: int|
                    0 <= j < i && (#[trigger] self.list@[j]).position.x == max_x) && (exists|
                j: int|
                    0 <= j < i && (#[trigger] self.list@[j]).position.y == min_y) && (exists|
                j: int|
                    0 <= j < i && (#[trigger] self.list@[j]).position.y == max_y),
            decreases self.list@.len() - i,
        {
            let p = self.list[i].position;
            if p.x < min_x {
                min_x = p.x;
            }
            if p.x > max_x {
                max_x = p.x;
            }
            if p.y < min_y {
                min_y = p.y;
            }
            if p.y > max_y {
                max_y = p.y;
            }
            i = i + 1;
        }
        (min_x, max_x, min_y, max_y)
    }

    /// The position of the first pawn marked as the en-passant target.
    pub fn get_en_passant_target(&self) -> (r: Option<(i128, i128)>)
        ensures
            first_ep_target(self.list@, 0) < 0 ==> r is None,
            first_ep_target(self.list@, 0) >= 0 ==> (r matches Some(t) && t == (
                self.list@[first_ep_target(self.list@, 0)].position.x,
                self.list@[first_ep_target(self.list@, 0)].position.y,
            )),
    {
        let s = self.list.as_slice();
        let mut i: usize = 0;
        while i < s.len()
            invariant
                s@ == self.list@,
                i <= s@.len(),
                first_ep_target(s@, 0) == first_ep_target(s@, i as int),
            decreases s@.len() - i,
        {
            if matches!(s[i].form, PieceType::Pawn) && s[i].is_en_passant_target {
                proof {
                    assert(first_ep_target(s@, i as int) == i);
                }
                return Some((s[i].position.x, s[i].position.y));
            }
            proof {
                assert(first_ep_target(s@, i as int) == first_ep_target(s@, i as int + 1));
            }
            i = i + 1;
        }
        proof {
            assert(first_ep_target(s@, s@.len() as int) == -1);
        }
        None
    }

    /// Marks the first piece standing on `(x, y)` as the en-passant
    /// target; a miss changes nothing.
    pub fn set_en_passant_target(&mut self, x: i128, y: i128)
        ensures
            final(self).white_index == old(self).white_index,
            final(self).white_count == old(self).white_count,
            final(self).black_count == old(self).black_count,
            final(self).list@.len() == old(self).list@.len(),
            ({
                let k = first_at(old(self).list@, x as int, y as int, 0);
                if k < 0 {
                    final(self).list@ == old(self).list@
                } else {
                    &&& final(self).list@[k].is_en_passant_target
                    &&& final(self).list@[k].data() == (PieceData {
                        is_en_passant_target: true,
                        ..old(self).list@[k].data()
                    })
                    &&& final(self).list@[k].offsets@ == old(self).list@[k].offsets@
                    &&& final(self).list@[k].sliding == old(self).list@[k].sliding
                    &&& forall|j: int|
                        0 <= j < old(self).list@.len() && j != k ==> final(self).list@[j] == old(
                            self,
                        ).list@[j]
                }
            }),
    {
        let n = self.list.len();
        let mut i: usize = 0;
        while i < n
            invariant
                n == self.list@.len(),
                i <= n,
                first_at(self.list@, x as int, y as int, 0) == first_at(
                    self.list@,
                    x as int,
                    y as int,
                    i as int,
                ),
                *self == *old(self),
            decreases n - i,
        {
            if self.list[i].position.x == x && self.list[i].position.y == y {
                proof {
                    assert(first_at(self.list@, x as int, y as int, i as int) == i);
                }
                let ghost before = self.list@;
                let mut p = self.list.remove(i);
                p.is_en_passant_target = true;
                self.list.insert(i, p);
                proof {
                    assert forall|j: int|
                        0 <= j < before.len() && j != i as int implies self.list@[j] == before[
                        j] by {
                        assert(self.list@ =~= before.update(i as int, self.list@[i as int]));
                    }
                }
                return ;
            }
            proof {
                assert(first_at(self.list@, x as int, y as int, i as int) == first_at(
                    self.list@,
                    x as int,
                    y as int,
                    i as int + 1,
                ));
            }
            i = i + 1;
        }
        proof {
            assert(first_at(self.list@, x as int, y as int, self.list@.len() as int) == -1);
        }
    }


    /// A mutable borrow of the first piece standing on `(x, y)`, dead or
    /// alive; the collection afterwards holds whatever the caller leaves
    /// in that slot.
    pub fn get_piece_mut_at(&mut self, x: i128, y: i128) -> (r: Option<&mut Piece>)
        ensures
            first_at(old(self).list@, x as int, y as int, 0) < 0 ==> r is None && *final(self)
                == *old(self),
            first_at(old(self).list@, x as int, y as int, 0) >= 0 ==> (r matches Some(p) && ({
                let k = first_at(old(self).list@, x as int, y as int, 0);
                &&& *p == old(self).list@[k]
                &&& final(self).list@ == old(self).list@.update(k, *final(p))
                &&& final(self).white_index == old(self).white_index
                &&& final(self).white_count == old(self).white_count
                &&& final(self).black_count == old(self).black_count
            })),
    {
        let n = self.list.len();
        let mut i: usize = 0;
        while i < n
            invariant
                n == self.list@.len(),
                i <= n,
                *self == *old(self),
                first_at(self.list@, x as int, y as int, 0) == first_at(
                    self.list@,
                    x as int,
                    y as int,
                    i as int,
                ),
            decreases n - i,
        {
            if self.list[i].position.x == x && self.list[i].position.y == y {
                proof {
                    assert(first_at(self.list@, x as int, y as int, i as int) == i);
                }
                return Some(&mut self.list[i]);
            }
            proof {
                assert(first_at(self.list@, x as int, y as int, i as int) == first_at(
                    self.list@,
                    x as int,
                    y as int,
                    i as int + 1,
                ));
            }
            i = i + 1;
        }
        proof {
            assert(first_at(self.list@, x as int, y as int, self.list@.len() as int) == -1);
        }
        None
    }

    /// Clears every en-passant marker.
    pub fn clear_en_passant_target(&mut self)
        ensures
            final(self).white_index == old(self).white_index,
            final(self).white_count == old(self).white_count,
            final(self).black_count == old(self).black_count,
            final(self).list@.len() == old(self).list@.len(),
            forall|j: int|
                0 <= j < old(self).list@.len() ==> !(#[trigger] final(self).list@[j]).is_en_passant_target
                    && final(self).list@[j].data() == (PieceData {
                    is_en_passant_target: false,
                    ..old(self).list@[j].data()
                }) && final(self).list@[j].offsets@ == old(self).list@[j].offsets@ && final(self).list@[j].sliding == old(self).list@[j].sliding,
    {
        let n = self.list.len();
        let mut i: usize = 0;
        while i < n
            invariant
                n == self.list@.len(),
                i <= n,
                self.white_index == old(self).white_index,
                self.white_count == old(self).white_count,
                self.black_count == old(self).black_count,
                forall|j: int| i <= j < n ==> self.list@[j] == old(self).list@[j],
                forall|j: int|
                    0 <= j < i ==> !(#[trigger] self.list@[j]).is_en_passant_target
                        && self.list@[j].data() == (PieceData {
                        is_en_passant_target: false,
                        ..old(self).list@[j].data()
                    }) && self.list@[j].offsets@ == old(self).list@[j].offsets@
                        && self.list@[j].sliding == old(self).list@[j].sliding,
            decreases n - i,
        {
            let ghost before = self.list@;
            let mut p = self.list.remove(i);
            p.is_en_passant_target = false;
            self.list.insert(i, p);
            proof {
                assert(self.list@ =~= before.update(i as int, self.list@[i as int]));
            }
            i = i + 1;
        }
    }
}

/// Keeps, in order, references to the pieces of a slice matching one
/// shape.
fn filter_by_type<'a>(s: &'a [Piece], piece_type: PieceType) -> (r: Vec<&'a Piece>)
    ensures
        deref_seq(r@) == s@.filter(|p: Piece| p.form == piece_type),
{
    let mut r: Vec<&Piece> = Vec::new();
    let mut i: usize = 0;
    while i < s.len()
        invariant
            i <= s@.len(),
            deref_seq(r@) == s@.subrange(0, i as int).filter(|p: Piece| p.form == piece_type),
        decreases s@.len() - i,
    {
        let ghost r0 = r@;
        if matches_type(&s[i], piece_type) {
            r.push(&s[i]);
        }
        proof {
            lemma_filter_loop_step(s@, |p: Piece| p.form == piece_type, i as int, r0, r@);
        }
        i = i + 1;
    }
    proof {
        assert(s@.subrange(0, s@.len() as int) =~= s@);
    }
    r
}

fn matches_type(p: &Piece, t: PieceType) -> (r: bool)
    ensures
        r == (p.form == t),
{
    p.form == t
}

/// One step of a forward filter scan at the sequence level: the filtered
/// prefix grows by the element exactly when the predicate holds of it.
proof fn lemma_filter_loop_step(
    s: Seq<Piece>,
    pred: spec_fn(Piece) -> bool,
    i: int,
    r0: Seq<&Piece>,
    r1: Seq<&Piece>,
)
    requires
        0 <= i < s.len(),
        deref_seq(r0) == s.subrange(0, i).filter(pred),
        pred(s[i]) ==> r1.len() == r0.len() + 1 && (forall|k: int| 0 <= k < r0.len() ==> r1[k]
            == r0[k]) && *r1[r0.len() as int] == s[i],
        !pred(s[i]) ==> r1 == r0,
    ensures
        deref_seq(r1) == s.subrange(0, i + 1).filter(pred),
{
    lemma_filter_step(s, pred, i);
    if pred(s[i]) {
        assert forall|k: int| 0 <= k < r1.len() implies deref_seq(r1)[k] == s.subrange(
            0,
            i + 1,
        ).filter(pred)[k] by {
            if k < r0.len() {
                assert(deref_seq(r0)[k] == s.subrange(0, i).filter(pred)[k]);
            }
        }
        assert(deref_seq(r1) =~= s.subrange(0, i + 1).filter(pred));
    } else {
        assert(deref_seq(r1) =~= s.subrange(0, i + 1).filter(pred));
    }
}

/// One step of a forward filter scan: filtering one more element either
/// appends it or not.
proof fn lemma_filter_step(s: Seq<Piece>, pred: spec_fn(Piece) -> bool, i: int)
    requires
        0 <= i < s.len(),
    ensures
        pred(s[i]) ==> s.subrange(0, i + 1).filter(pred) == s.subrange(0, i).filter(pred).push(
            s[i],
        ),
        !pred(s[i]) ==> s.subrange(0, i + 1).filter(pred) == s.subrange(0, i).filter(pred),
{
    reveal_with_fuel(Seq::filter, 2);
    let s1 = s.subrange(0, i + 1);
    assert(s1.drop_last() =~= s.subrange(0, i));
    assert(s1.last() == s[i]);
    assert(s1.len() > 0);
    assert(s1.filter(pred) == (if pred(s1.last()) {
        s1.drop_last().filter(pred).push(s1.last())
    } else {
        s1.drop_last().filter(pred)
    }));
}

} // verus!
