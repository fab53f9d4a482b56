//! Move candidates and the legality core: per-shape geometric rules,
//! path-blocking, the special castling and en-passant rules, and the
//! king-safety test against a simulated successor board.

use vstd::prelude::*;
use vstd::math::abs;
use crate::quasar::geometry::Point;
use crate::quasar::pieces::{bview, Piece, PieceData, PieceType};

verus! {

/// The sign of an integer: -1, 0 or 1.
pub open spec fn sgn(v: int) -> int {
    if v > 0 {
        1int
    } else if v < 0 {
        -1int
    } else {
        0int
    }
}

pub open spec fn max_int(a: int, b: int) -> int {
    if a >= b {
        a
    } else {
        b
    }
}

/// Whether some alive piece stands on the square `(x, y)`.
pub open spec fn occ_at(board: Seq<PieceData>, x: int, y: int) -> bool {
    exists|i: int|
        0 <= i < board.len() && board[i].alive && board[i].position.x == x
            && board[i].position.y == y
}

/// Whether an alive piece of the given colour stands on `(x, y)`.
pub open spec fn occ_color_at(board: Seq<PieceData>, x: int, y: int, color: bool) -> bool {
    exists|i: int|
        0 <= i < board.len() && board[i].alive && board[i].position.x == x
            && board[i].position.y == y && board[i].color == color
}

/// The index of the alive piece on `(x, y)`; meaningful where `occ_at`
/// holds and the board has at most one alive piece per square.
pub open spec fn idx_at(board: Seq<PieceData>, x: int, y: int) -> int {
    choose|i: int|
        0 <= i < board.len() && board[i].alive && board[i].position.x == x
            && board[i].position.y == y
}

/// At most one alive piece stands on any square.
pub open spec fn board_ok(board: Seq<PieceData>) -> bool {
    forall|i: int, j: int|
        0 <= i < board.len() && 0 <= j < board.len() && board[i].alive && board[j].alive
            && board[i].position == board[j].position ==> i == j
}

/// The number of unit steps from `from` to `to` along the signum direction.
pub open spec fn plen(from: Point, to: Point) -> int {
    max_int(abs(to.x - from.x) as int, abs(to.y - from.y) as int)
}

/// The x coordinate after `k` signum steps from `from` toward `to`.
pub open spec fn path_x(from: Point, to: Point, k: int) -> int {
    from.x + k * sgn(to.x - from.x)
}

/// The y coordinate after `k` signum steps from `from` toward `to`.
pub open spec fn path_y(from: Point, to: Point, k: int) -> int {
    from.y + k * sgn(to.y - from.y)
}

/// The square `k` signum steps from `from` toward `to` is empty.
pub open spec fn path_square_empty(board: Seq<PieceData>, from: Point, to: Point, k: int) -> bool {
    !occ_at(board, path_x(from, to, k), path_y(from, to, k))
}

/// Every square strictly between `from` and `to`, walking one signum step
/// at a time, is empty. Meaningful for aligned squares.
pub open spec fn path_clear(board: Seq<PieceData>, from: Point, to: Point) -> bool {
    forall|k: int| 1 <= k < plen(from, to) ==> #[trigger] path_square_empty(board, from, to, k)
}

/// The geometric shape rule of one piece shape, together with the
/// path-blocking rule, for a candidate from `from` to `to`. Exactly one
/// branch per shape; castling and en passant are validated separately and
/// only enter here through their flags.
pub open spec fn shape_legal(
    board: Seq<PieceData>,
    form: PieceType,
    color: bool,
    moved: bool,
    from: Point,
    to: Point,
    ep_flag: bool,
    castling_flag: bool,
) -> bool {
    let dx = to.x - from.x;
    let dy = to.y - from.y;
    match form {
        PieceType::Pawn => {
            let d: int = if color {
                1int
            } else {
                -1int
            };
            ||| (dx == 0 && dy == d && !occ_at(board, to.x as int, to.y as int))
            ||| (dx == 0 && dy == 2 * d && !moved && !occ_at(board, from.x as int, from.y + d)
                && !occ_at(board, to.x as int, to.y as int))
            ||| ((dx == 1 || dx == -1) && dy == d && (occ_at(board, to.x as int, to.y as int)
                || ep_flag))
        },
        PieceType::Knight => (abs(dx) == 1 && abs(dy) == 2) || (abs(dx) == 2 && abs(dy) == 1),
        PieceType::Bishop => abs(dx) == abs(dy) && path_clear(board, from, to),
        PieceType::Rook => (dx == 0 || dy == 0) && path_clear(board, from, to),
        PieceType::Queen => (abs(dx) == abs(dy) || dx == 0 || dy == 0) && path_clear(
            board,
            from,
            to,
        ),
        PieceType::King => (abs(dx) <= 1 && abs(dy) <= 1) || castling_flag,
        PieceType::Null => false,
    }
}

/// Whether some alive piece of `by_color` has a shape-legal move onto
/// `target`: the check-detection notion of attack. It never probes castling
/// or en passant, which keeps check detection non-recursive.
pub open spec fn attacked(board: Seq<PieceData>, target: Point, by_color: bool) -> bool {
    exists|i: int|
        0 <= i < board.len() && board[i].alive && board[i].color == by_color
            && board[i].position != target && shape_legal(
            board,
            board[i].form,
            board[i].color,
            board[i].moved,
            board[i].position,
            target,
            false,
            false,
        )
}

/// On a board with one alive piece per square, the alive piece found at a
/// square is the one `idx_at` denotes.
pub proof fn lemma_idx_at_unique(board: Seq<PieceData>, x: int, y: int, i: int)
    requires
        board_ok(board),
        0 <= i < board.len(),
        board[i].alive,
        board[i].position.x == x,
        board[i].position.y == y,
    ensures
        idx_at(board, x, y) == i,
        occ_at(board, x, y),
{
    assert(occ_at(board, x, y));
    let c = idx_at(board, x, y);
    assert(board[c].alive && board[c].position.x == x && board[c].position.y == y);
    assert(board[c].position == board[i].position);
}

/// The index of the first alive piece on the square, if the square is
/// occupied.
pub(crate) fn occ_index(pieces: &Vec<Piece>, x: i128, y: i128) -> (r: Option<usize>)
    ensures
        match r {
            Some(i) => i < pieces@.len() && bview(pieces@)[i as int].alive && bview(pieces@)[
                i as int
            ].position.x == x && bview(pieces@)[i as int].position.y == y,
            None => !occ_at(bview(pieces@), x as int, y as int),
        },
        r is Some <==> occ_at(bview(pieces@), x as int, y as int),
{
    let ghost b: Seq<PieceData> = bview(pieces@);
    let mut i: usize = 0;
    while i < pieces.len()
        invariant
            b == bview(pieces@),
            i <= pieces@.len(),
            forall|j: int|
                0 <= j < i ==> !(b[j].alive && b[j].position.x == x && b[j].position.y == y),
        decreases pieces@.len() - i,
    {
        let p = &pieces[i];
        if p.alive && p.position.x == x && p.position.y == y {
            return Some(i);
        }
        i = i + 1;
    }
    None
}

/// The absolute difference of two coordinates, computed without leaving
/// the representable range.
fn abs_diff(a: i128, b: i128) -> (r: u128)
    ensures
        r == abs(a - b),
{
    let hi: i128 = if a >= b {
        a
    } else {
        b
    };
    let lo: i128 = if a >= b {
        b
    } else {
        a
    };
    if lo >= 0 || hi < 0 {
        (hi - lo) as u128
    } else {
        let lo_mag: u128 = ((-(lo + 1)) as u128) + 1;
        (hi as u128) + lo_mag
    }
}

/// Whether `v == base + delta`, decided without overflowing.
fn is_step(base: i128, delta: i128, v: i128) -> (r: bool)
    ensures
        r == (v == base + delta),
{
    match base.checked_add(delta) {
        Some(s) => v == s,
        None => false,
    }
}

/// Whether two squares lie on a common rank, file or diagonal; the walking
/// precondition of the path check.
pub open spec fn aligned(from: Point, to: Point) -> bool {
    &&& !(from == to)
    &&& (to.x == from.x || to.y == from.y || abs(to.x - from.x) == abs(to.y - from.y))
}

/// For aligned squares the signum walk reaches `to` after exactly
/// `plen` steps, stays within the bounding box on the way, and meets `to`
/// no earlier.
proof fn lemma_path_endpoint(from: Point, to: Point)
    requires
        aligned(from, to),
    ensures
        plen(from, to) >= 1,
        path_x(from, to, plen(from, to)) == to.x,
        path_y(from, to, plen(from, to)) == to.y,
        forall|k: int|
            0 <= k <= plen(from, to) ==> i128::MIN <= #[trigger] path_x(from, to, k) <= i128::MAX,
        forall|k: int|
            0 <= k <= plen(from, to) ==> i128::MIN <= #[trigger] path_y(from, to, k) <= i128::MAX,
        forall|k: int|
            0 <= k < plen(from, to) ==> !(path_x(from, to, k) == to.x && #[trigger] path_y(
                from,
                to,
                k,
            ) == to.y),
{
    let n = plen(from, to);
    let sx = sgn(to.x - from.x);
    let sy = sgn(to.y - from.y);
    assert forall|k: int| 0 <= k <= n implies i128::MIN <= #[trigger] path_x(from, to, k)
        <= i128::MAX by {
        if sx == 0 {
            assert(k * 0 == 0) by (nonlinear_arith);
        } else if sx == 1 {
            assert(k * 1 == k) by (nonlinear_arith);
            assert(k <= n == to.x - from.x);
        } else {
            assert(k * -1 == -k) by (nonlinear_arith);
            assert(k <= n == from.x - to.x);
        }
    }
    assert forall|k: int| 0 <= k <= n implies i128::MIN <= #[trigger] path_y(from, to, k)
        <= i128::MAX by {
        if sy == 0 {
            assert(k * 0 == 0) by (nonlinear_arith);
        } else if sy == 1 {
            assert(k * 1 == k) by (nonlinear_arith);
            assert(k <= n == to.y - from.y);
        } else {
            assert(k * -1 == -k) by (nonlinear_arith);
            assert(k <= n == from.y - to.y);
        }
    }
    assert(n * 1 == n && n * -1 == -n && n * 0 == 0) by (nonlinear_arith);
    assert forall|k: int|
        0 <= k < n implies !(path_x(from, to, k) == to.x && #[trigger] path_y(from, to, k)
        == to.y) by {
        assert(k * 1 == k && k * -1 == -k && k * 0 == 0) by (nonlinear_arith);
    }
}

/// Walks the exclusive path between two aligned squares and reports
/// whether every square strictly between them is empty.
fn path_clear_exec(pieces: &Vec<Piece>, from: Point, to: Point) -> (r: bool)
    requires
        aligned(from, to),
    ensures
        r == path_clear(bview(pieces@), from, to),
{
    proof {
        lemma_path_endpoint(from, to);
    }
    let sx: i128 = if to.x > from.x {
        1
    } else if to.x < from.x {
        -1
    } else {
        0
    };
    let sy: i128 = if to.y > from.y {
        1
    } else if to.y < from.y {
        -1
    } else {
        0
    };
    let ghost n: int = plen(from, to);
    let ghost mut k: int = 1;
    let mut cx: i128 = from.x + sx;
    let mut cy: i128 = from.y + sy;
    while !(cx == to.x && cy == to.y)
        invariant
            aligned(from, to),
            n == plen(from, to),
            sx == sgn(to.x - from.x),
            sy == sgn(to.y - from.y),
            1 <= k <= n,
            cx == path_x(from, to, k),
            cy == path_y(from, to, k),
            forall|j: int| 1 <= j < k ==> path_square_empty(bview(pieces@), from, to, j),
        decreases n - k,
    {
        proof {
            lemma_path_endpoint(from, to);
            assert(k < n);
        }
        if occ_index(pieces, cx, cy).is_some() {
            assert(!path_square_empty(bview(pieces@), from, to, k));
            return false;
        }
        proof {
            assert(path_square_empty(bview(pieces@), from, to, k));
        }
        cx = cx + sx;
        cy = cy + sy;
        proof {
            k = k + 1;
        }
    }
    proof {
        lemma_path_endpoint(from, to);
        assert(k == n);
    }
    true
}

/// Decides the per-shape geometric rule, matching `shape_legal`.
fn shape_legal_exec(
    pieces: &Vec<Piece>,
    form: PieceType,
    color: bool,
    moved: bool,
    from: Point,
    to: Point,
    ep_flag: bool,
    castling_flag: bool,
) -> (r: bool)
    ensures
        r == shape_legal(bview(pieces@), form, color, moved, from, to, ep_flag, castling_flag),
{
    match form {
        PieceType::Pawn => {
            let d: i128 = if color {
                1
            } else {
                -1
            };
            if to.x == from.x && is_step(from.y, d, to.y) {
                occ_index(pieces, to.x, to.y).is_none()
            } else if to.x == from.x && is_step(from.y, 2 * d, to.y) && !moved {
                let mid_y = from.y + d;
                occ_index(pieces, from.x, mid_y).is_none() && occ_index(
                    pieces,
                    to.x,
                    to.y,
                ).is_none()
            } else if (is_step(from.x, 1, to.x) || is_step(from.x, -1, to.x)) && is_step(
                from.y,
                d,
                to.y,
            ) {
                occ_index(pieces, to.x, to.y).is_some() || ep_flag
            } else {
                false
            }
        },
        PieceType::Knight => {
            let ax = abs_diff(to.x, from.x);
            let ay = abs_diff(to.y, from.y);
            (ax == 1 && ay == 2) || (ax == 2 && ay == 1)
        },
        PieceType::Bishop => {
            if from.x == to.x && from.y == to.y {
                true
            } else if abs_diff(to.x, from.x) == abs_diff(to.y, from.y) {
                path_clear_exec(pieces, from, to)
            } else {
                false
            }
        },
        PieceType::Rook => {
            if from.x == to.x && from.y == to.y {
                true
            } else if to.x == from.x || to.y == from.y {
                path_clear_exec(pieces, from, to)
            } else {
                false
            }
        },
        PieceType::Queen => {
            if from.x == to.x && from.y == to.y {
                true
            } else if to.x == from.x || to.y == from.y || abs_diff(to.x, from.x) == abs_diff(
                to.y,
                from.y,
            ) {
                path_clear_exec(pieces, from, to)
            } else {
                false
            }
        },
        PieceType::King => {
            (abs_diff(to.x, from.x) <= 1 && abs_diff(to.y, from.y) <= 1) || castling_flag
        },
        PieceType::Null => false,
    }
}

/// Scans the board for an alive piece of `by_color` with a shape-legal
/// move onto `target`.
pub(crate) fn attack_exists(pieces: &Vec<Piece>, target: Point, by_color: bool) -> (r: bool)
    ensures
        r == attacked(bview(pieces@), target, by_color),
{
    let mut i: usize = 0;
    while i < pieces.len()
        invariant
            i <= pieces@.len(),
            forall|j: int|
                0 <= j < i ==> !(bview(pieces@)[j].alive && bview(pieces@)[j].color == by_color
                    && bview(pieces@)[j].position != target && shape_legal(
                    bview(pieces@),
                    bview(pieces@)[j].form,
                    bview(pieces@)[j].color,
                    bview(pieces@)[j].moved,
                    bview(pieces@)[j].position,
                    target,
                    false,
                    false,
                )),
        decreases pieces@.len() - i,
    {
        let p_form = pieces[i].form;
        let p_color = pieces[i].color;
        let p_moved = pieces[i].moved;
        let p_pos = pieces[i].position;
        let p_alive = pieces[i].alive;
        if p_alive && p_color == by_color && !(p_pos.x == target.x && p_pos.y == target.y) {
            if shape_legal_exec(pieces, p_form, p_color, p_moved, p_pos, target, false, false) {
                proof {
                    let b = bview(pieces@);
                    assert(b[i as int] == pieces@[i as int].data());
                    assert(b[i as int].alive && b[i as int].color == by_color && b[i as int].position
                        != target && shape_legal(
                        b,
                        b[i as int].form,
                        b[i as int].color,
                        b[i as int].moved,
                        b[i as int].position,
                        target,
                        false,
                        false,
                    ));
                }
                return true;
            }
        }
        i = i + 1;
    }
    false
}

/// A transient candidate or record of one move: squares, a snapshot of the
/// moving piece, an optional snapshot of the captured piece, optional
/// promotion, the special-move flags, and the cached legality verdict.
#[derive(Debug, Clone, PartialEq, Eq)]
pub struct Move {
    pub from: Point,
    pub to: Point,
    pub piece: Piece,
    pub captured_piece: Option<Piece>,
    pub is_promotion: bool,
    pub promotion_type: Option<PieceType>,
    pub is_castling: bool,
    pub is_en_passant: bool,
    pub is_legal: bool,
}

impl Move {
    pub fn new(from: Point, to: Point, piece: Piece) -> (m: Move)
        ensures
            m.from == from,
            m.to == to,
            m.piece == piece,
            m.captured_piece is None,
            !m.is_promotion,
            m.promotion_type is None,
            !m.is_castling,
            !m.is_en_passant,
            !m.is_legal,
    {
        Move {
            from,
            to,
            piece,
            captured_piece: None,
            is_promotion: false,
            promotion_type: None,
            is_castling: false,
            is_en_passant: false,
            is_legal: false,
        }
    }

    pub fn with_capture(self, captured_piece: Piece) -> (m: Move)
        ensures
            m == (Move { captured_piece: Some(captured_piece), ..self }),
    {
        let mut m = self;
        m.captured_piece = Some(captured_piece);
        m
    }

    pub fn with_promotion(self, promotion_type: PieceType) -> (m: Move)
        ensures
            m == (Move { is_promotion: true, promotion_type: Some(promotion_type), ..self }),
    {
        let mut m = self;
        m.is_promotion = true;
        m.promotion_type = Some(promotion_type);
        m
    }

    pub fn set_castling(self) -> (m: Move)
        ensures
            m == (Move { is_castling: true, ..self }),
    {
        let mut m = self;
        m.is_castling = true;
        m
    }

    pub fn set_en_passant(self) -> (m: Move)
        ensures
            m == (Move { is_en_passant: true, ..self }),
    {
        let mut m = self;
        m.is_en_passant = true;
        m
    }
}

/// The rank of the pawn a flagged en-passant capture removes: directly
/// behind the capturing pawn's destination.
pub open spec fn ep_victim_y(to: Point, mover_color: bool) -> int {
    if mover_color {
        to.y - 1
    } else {
        to.y + 1
    }
}

/// The board after applying a move: the mover relocates (substituting its
/// shape on promotion and becoming the en-passant target after a double
/// step), a captured enemy is marked dead in place, a flagged en-passant
/// capture removes the bypassed pawn, a flagged castling relocates the
/// rook from its corner, and every other en-passant marker is cleared.
pub open spec fn board_after(
    b: Seq<PieceData>,
    from: Point,
    to: Point,
    is_promo: bool,
    promo: Option<PieceType>,
    castl: bool,
    ep: bool,
) -> Seq<PieceData> {
    let mi = idx_at(b, from.x as int, from.y as int);
    let mover = b[mi];
    let nf = if is_promo && promo is Some {
        promo.unwrap()
    } else {
        mover.form
    };
    let cap1 = occ_color_at(b, to.x as int, to.y as int, !mover.color);
    let v1 = idx_at(b, to.x as int, to.y as int);
    let vy = ep_victim_y(to, mover.color);
    let has_v2 = ep && occ_at(b, to.x as int, vy);
    let v2 = idx_at(b, to.x as int, vy);
    let kingside = to.x > from.x;
    let rx: int = if kingside {
        8int
    } else {
        1int
    };
    let rtx: i128 = if kingside {
        6i128
    } else {
        4i128
    };
    let has_rook = castl && occ_at(b, rx, from.y as int);
    let ri = idx_at(b, rx, from.y as int);
    Seq::new(
        b.len(),
        |i: int|
            {
                let p = b[i];
                if i == mi {
                    PieceData {
                        form: nf,
                        position: to,
                        color: p.color,
                        alive: p.alive,
                        moved: true,
                        is_en_passant_target: nf is Pawn && abs(to.y - from.y) == 2,
                    }
                } else if cap1 && i == v1 {
                    PieceData {
                        form: p.form,
                        position: p.position,
                        color: p.color,
                        alive: false,
                        moved: p.moved,
                        is_en_passant_target: false,
                    }
                } else if has_v2 && i == v2 {
                    PieceData {
                        form: p.form,
                        position: p.position,
                        color: p.color,
                        alive: false,
                        moved: p.moved,
                        is_en_passant_target: false,
                    }
                } else if has_rook && i == ri {
                    PieceData {
                        form: p.form,
                        position: Point { x: rtx, y: from.y },
                        color: p.color,
                        alive: p.alive,
                        moved: true,
                        is_en_passant_target: false,
                    }
                } else {
                    PieceData {
                        form: p.form,
                        position: p.position,
                        color: p.color,
                        alive: p.alive,
                        moved: p.moved,
                        is_en_passant_target: false,
                    }
                }
            },
    )
}

/// The square of the king whose colour group ends at the given boundary:
/// the last white piece, or the last piece of the list.
pub open spec fn king_pos(b: Seq<PieceData>, wi: int, color: bool) -> Point {
    if color {
        b[wi - 1].position
    } else {
        b[b.len() - 1].position
    }
}

/// Check: some alive enemy piece has a shape-legal move onto the king's
/// square.
pub open spec fn in_check(b: Seq<PieceData>, wi: int, color: bool) -> bool {
    attacked(b, king_pos(b, wi, color), !color)
}

/// The en-passant rule: the mover is a pawn, the immediately preceding
/// move was a two-square advance of an enemy pawn, the capturing pawn
/// stands adjacent on that pawn's rank, and the capture lands on the
/// square the advance skipped.
pub open spec fn ep_ok(mover: PieceData, from: Point, to: Point, last: Option<Move>) -> bool {
    &&& mover.form is Pawn
    &&& last is Some
    &&& {
        let lm = last.unwrap();
        &&& lm.piece.form is Pawn
        &&& lm.piece.color == !mover.color
        &&& abs(lm.to.y - lm.from.y) == 2
        &&& to.x == lm.to.x
        &&& to.y == (lm.from.y + lm.to.y) / 2
        &&& from.y == lm.to.y
        &&& abs(from.x - lm.to.x) == 1
    }
}

/// The castling rule: the mover is an unmoved king on the king's column,
/// stepping two squares along its rank toward an unmoved rook of its
/// colour in the relevant corner column; every square strictly between
/// king and rook is empty; the king is not in check on its start square;
/// and the square it crosses is reachable by a legal one-step king move,
/// probed without re-entering castling probing, which bounds the
/// recursion to one extra ply.
pub open spec fn castling_ok(
    b: Seq<PieceData>,
    wi: int,
    to_move: bool,
    last: Option<Move>,
    from: Point,
    to: Point,
    probe: bool,
) -> bool
    decreases
            (if probe {
                1int
            } else {
                0int
            }),
            0int,
{
    if !probe {
        false
    } else {
        let mi = idx_at(b, from.x as int, from.y as int);
        let mover = b[mi];
        let kingside = to.x > from.x;
        let rx: int = if kingside {
            8int
        } else {
            1int
        };
        let ri = idx_at(b, rx, from.y as int);
        let midx = (from.x + to.x) / 2;
        &&& mover.form is King
        &&& !mover.moved
        &&& to.y == from.y
        &&& abs(to.x - from.x) == 2
        &&& from.x == 5
        &&& occ_at(b, rx, from.y as int)
        &&& b[ri].form is Rook
        &&& !b[ri].moved
        &&& b[ri].color == mover.color
        &&& (forall|x: int|
            (from.x < x < rx || rx < x < from.x) ==> !occ_at(b, x, from.y as int))
        &&& !attacked(b, from, !mover.color)
        &&& move_ok(
            b,
            wi,
            to_move,
            last,
            from,
            Point { x: midx as i128, y: from.y },
            false,
            None,
            false,
            false,
            false,
        )
    }
}

/// Full move legality, evaluated for the side to move: the squares differ
/// and the side to move occupies the source; the shape rule holds; a
/// flagged castling or en passant obeys its rule; only a pawn may carry a
/// promotion; a friendly-occupied target is rejected unless castling; and
/// applying the move must not leave the mover's own king attacked.
pub open spec fn move_ok(
    b: Seq<PieceData>,
    wi: int,
    to_move: bool,
    last: Option<Move>,
    from: Point,
    to: Point,
    is_promo: bool,
    promo: Option<PieceType>,
    castl: bool,
    ep: bool,
    probe: bool,
) -> bool
    decreases
            (if probe {
                1int
            } else {
                0int
            }),
            1int,
{
    let mi = idx_at(b, from.x as int, from.y as int);
    let mover = b[mi];
    &&& !(from == to)
    &&& occ_color_at(b, from.x as int, from.y as int, to_move)
    &&& shape_legal(b, mover.form, mover.color, mover.moved, from, to, ep, castl)
    &&& (castl ==> castling_ok(b, wi, to_move, last, from, to, probe))
    &&& (ep ==> ep_ok(mover, from, to, last))
    &&& (is_promo ==> mover.form is Pawn)
    &&& (occ_color_at(b, to.x as int, to.y as int, to_move) ==> castl)
    &&& !in_check(board_after(b, from, to, is_promo, promo, castl, ep), wi, to_move)
}

/// Legality of a candidate value: its squares and flags decide; the
/// mutable annotations (piece snapshot, recorded capture, cached verdict)
/// have no bearing.
pub open spec fn move_ok_m(
    b: Seq<PieceData>,
    wi: int,
    to_move: bool,
    last: Option<Move>,
    m: Move,
    probe: bool,
) -> bool {
    move_ok(
        b,
        wi,
        to_move,
        last,
        m.from,
        m.to,
        m.is_promotion,
        m.promotion_type,
        m.is_castling,
        m.is_en_passant,
        probe,
    )
}

/// Evaluating legality is idempotent: two candidates with the same squares
/// and flags get the same verdict on the same board, whatever their
/// mutable annotations hold. Re-validating a candidate therefore never
/// changes the answer.
pub proof fn lemma_legality_deterministic(
    b: Seq<PieceData>,
    wi: int,
    to_move: bool,
    last: Option<Move>,
    m1: Move,
    m2: Move,
    probe: bool,
)
    requires
        m1.from == m2.from,
        m1.to == m2.to,
        m1.is_promotion == m2.is_promotion,
        m1.promotion_type == m2.promotion_type,
        m1.is_castling == m2.is_castling,
        m1.is_en_passant == m2.is_en_passant,
    ensures
        move_ok_m(b, wi, to_move, last, m1, probe) == move_ok_m(b, wi, to_move, last, m2, probe),
{
}

/// Applying a legal move never leaves the mover's own king in check: the
/// king-safety clause is part of legality itself.
pub proof fn lemma_legal_move_keeps_king_safe(
    b: Seq<PieceData>,
    wi: int,
    to_move: bool,
    last: Option<Move>,
    m: Move,
)
    requires
        move_ok_m(b, wi, to_move, last, m, true),
    ensures
        !in_check(
            board_after(b, m.from, m.to, m.is_promotion, m.promotion_type, m.is_castling, m.is_en_passant),
            wi,
            to_move,
        ),
{
}

/// Builds the successor piece list of one move, matching `board_after`
/// element for element; every piece in the result is well formed.
#[verifier::rlimit(100)]
pub(crate) fn apply_move_pieces(
    pieces: &Vec<Piece>,
    from: Point,
    to: Point,
    is_promo: bool,
    promo: Option<PieceType>,
    castl: bool,
    ep: bool,
) -> (r: Vec<Piece>)
    requires
        board_ok(bview(pieces@)),
        occ_at(bview(pieces@), from.x as int, from.y as int),
    ensures
        r@.len() == pieces@.len(),
        bview(r@) == board_after(bview(pieces@), from, to, is_promo, promo, castl, ep),
        forall|j: int| 0 <= j < r@.len() ==> (#[trigger] r@[j]).wf(),
{
    let ghost b: Seq<PieceData> = bview(pieces@);
    let ghost after: Seq<PieceData> = board_after(b, from, to, is_promo, promo, castl, ep);
    let mi: usize = match occ_index(pieces, from.x, from.y) {
        Some(i) => i,
        None => {
            proof {
                assert(false);
            }
            0
        },
    };
    let mover_color = pieces[mi].color;
    proof {
        lemma_idx_at_unique(b, from.x as int, from.y as int, mi as int);
    }
    let cap_opt = occ_index(pieces, to.x, to.y);
    let mut cap1: bool = false;
    let mut v1: usize = 0;
    match cap_opt {
        Some(ci) => {
            proof {
                lemma_idx_at_unique(b, to.x as int, to.y as int, ci as int);
            }
            if pieces[ci].color != mover_color {
                cap1 = true;
                v1 = ci;
            } else {
                proof {
                    assert forall|j: int|
                        0 <= j < b.len() && b[j].alive && b[j].position.x == to.x
                            && b[j].position.y == to.y implies b[j].color == mover_color by {
                        lemma_idx_at_unique(b, to.x as int, to.y as int, j);
                    }
                    assert(!occ_color_at(b, to.x as int, to.y as int, !mover_color));
                }
            }
        },
        None => {
            proof {
                assert(!occ_color_at(b, to.x as int, to.y as int, !mover_color));
            }
        },
    }
    let ghost vy: int = ep_victim_y(to, mover_color);
    let mut has_v2: bool = false;
    let mut v2: usize = 0;
    if ep {
        let vy_opt: Option<i128> = if mover_color {
            to.y.checked_sub(1)
        } else {
            to.y.checked_add(1)
        };
        match vy_opt {
            Some(vye) => {
                match occ_index(pieces, to.x, vye) {
                    Some(vi) => {
                        proof {
                            lemma_idx_at_unique(b, to.x as int, vy, vi as int);
                        }
                        has_v2 = true;
                        v2 = vi;
                    },
                    None => {
                    },
                }
            },
            None => {
                proof {
                    assert(!occ_at(b, to.x as int, vy));
                }
            },
        }
    }
    let kingside = to.x > from.x;
    let rx: i128 = if kingside {
        8
    } else {
        1
    };
    let rtx: i128 = if kingside {
        6
    } else {
        4
    };
    let mut has_rook: bool = false;
    let mut ri: usize = 0;
    if castl {
        match occ_index(pieces, rx, from.y) {
            Some(i) => {
                proof {
                    lemma_idx_at_unique(b, rx as int, from.y as int, i as int);
                }
                has_rook = true;
                ri = i;
            },
            None => {
            },
        }
    }
    let n = pieces.len();
    let mut out: Vec<Piece> = Vec::new();
    let mut i: usize = 0;
    while i < n
        invariant
            n == pieces@.len(),
            b == bview(pieces@),
            after == board_after(b, from, to, is_promo, promo, castl, ep),
            out@.len() == i,
            i <= n,
            mi < n,
            mi as int == idx_at(b, from.x as int, from.y as int),
            mover_color == b[mi as int].color,
            cap1 == occ_color_at(b, to.x as int, to.y as int, !mover_color),
            cap1 ==> v1 as int == idx_at(b, to.x as int, to.y as int),
            vy == ep_victim_y(to, mover_color),
            has_v2 == (ep && occ_at(b, to.x as int, vy)),
            has_v2 ==> v2 as int == idx_at(b, to.x as int, vy),
            kingside == (to.x > from.x),
            rx == (if kingside { 8int } else { 1int }),
            rtx == (if kingside { 6int } else { 4int }),
            has_rook == (castl && occ_at(b, rx as int, from.y as int)),
            has_rook ==> ri as int == idx_at(b, rx as int, from.y as int),
            forall|j: int| 0 <= j < i ==> (#[trigger] out@[j]).data() == after[j],
            forall|j: int| 0 <= j < i ==> (#[trigger] out@[j]).wf(),
        decreases n - i,
    {
        let p = &pieces[i];
        let newp: Piece = if i == mi {
            let nf: PieceType = if is_promo {
                match promo {
                    Some(t) => t,
                    None => p.form,
                }
            } else {
                p.form
            };
            let double = abs_diff(to.y, from.y) == 2;
            Piece {
                form: nf,
                position: to,
                color: p.color,
                sliding: nf.is_sliding(),
                alive: p.alive,
                moved: true,
                offsets: crate::quasar::pieces::build_offsets(nf, p.color, true),
                is_en_passant_target: matches!(nf, PieceType::Pawn) && double,
            }
        } else if cap1 && i == v1 {
            Piece {
                form: p.form,
                position: p.position,
                color: p.color,
                sliding: p.form.is_sliding(),
                alive: false,
                moved: p.moved,
                offsets: crate::quasar::pieces::build_offsets(p.form, p.color, p.moved),
                is_en_passant_target: false,
            }
        } else if has_v2 && i == v2 {
            Piece {
                form: p.form,
                position: p.position,
                color: p.color,
                sliding: p.form.is_sliding(),
                alive: false,
                moved: p.moved,
                offsets: crate::quasar::pieces::build_offsets(p.form, p.color, p.moved),
                is_en_passant_target: false,
            }
        } else if has_rook && i == ri {
            Piece {
                form: p.form,
                position: Point { x: rtx, y: from.y },
                color: p.color,
                sliding: p.form.is_sliding(),
                alive: p.alive,
                moved: true,
                offsets: crate::quasar::pieces::build_offsets(p.form, p.color, true),
                is_en_passant_target: false,
            }
        } else {
            Piece {
                form: p.form,
                position: p.position,
                color: p.color,
                sliding: p.form.is_sliding(),
                alive: p.alive,
                moved: p.moved,
                offsets: crate::quasar::pieces::build_offsets(p.form, p.color, p.moved),
                is_en_passant_target: false,
            }
        };
        proof {
            assert(b[i as int] == pieces@[i as int].data());
            assert(newp.data() == after[i as int]);
        }
        out.push(newp);
        i = i + 1;
    }
    proof {
        assert forall|j: int| 0 <= j < out@.len() implies bview(out@)[j] == after[j] by {
            assert(bview(out@)[j] == out@[j].data());
        }
        assert(bview(out@) =~= after);
    }
    out
}

/// Applying a legal move keeps the board well formed: colours never
/// change, a king slot keeps a king (promotion is pawn-only), and at most
/// one alive piece stands on any square afterwards.
#[verifier::rlimit(100)]
pub proof fn lemma_board_after_wf(
    b: Seq<PieceData>,
    wi: int,
    to_move: bool,
    last: Option<Move>,
    m: Move,
)
    requires
        board_ok(b),
        move_ok_m(b, wi, to_move, last, m, true),
    ensures
        board_after(b, m.from, m.to, m.is_promotion, m.promotion_type, m.is_castling, m.is_en_passant).len() == b.len(),
        forall|i: int|
            0 <= i < b.len() ==> (#[trigger] board_after(
                b,
                m.from,
                m.to,
                m.is_promotion,
                m.promotion_type,
                m.is_castling,
                m.is_en_passant,
            )[i]).color == b[i].color,
        forall|i: int|
            0 <= i < b.len() && b[i].form is King ==> (#[trigger] board_after(
                b,
                m.from,
                m.to,
                m.is_promotion,
                m.promotion_type,
                m.is_castling,
                m.is_en_passant,
            )[i]).form is King,
        board_ok(
            board_after(b, m.from, m.to, m.is_promotion, m.promotion_type, m.is_castling, m.is_en_passant),
        ),
{
    let from = m.from;
    let to = m.to;
    let af = board_after(b, from, to, m.is_promotion, m.promotion_type, m.is_castling, m.is_en_passant);
    let mi = idx_at(b, from.x as int, from.y as int);
    assert(occ_color_at(b, from.x as int, from.y as int, to_move));
    let w = choose|t: int|
        0 <= t < b.len() && b[t].alive && b[t].position.x == from.x && b[t].position.y == from.y
            && b[t].color == to_move;
    lemma_idx_at_unique(b, from.x as int, from.y as int, w);
    assert(mi == w);
    let mover = b[mi];
    assert(mover.alive && mover.color == to_move);
    let cap1 = occ_color_at(b, to.x as int, to.y as int, !mover.color);
    let v1 = idx_at(b, to.x as int, to.y as int);
    let vy = ep_victim_y(to, mover.color);
    let has_v2 = m.is_en_passant && occ_at(b, to.x as int, vy);
    let v2 = idx_at(b, to.x as int, vy);
    let kingside = to.x > from.x;
    let rx: int = if kingside {
        8int
    } else {
        1int
    };
    let rtx: int = if kingside {
        6int
    } else {
        4int
    };
    let has_rook = m.is_castling && occ_at(b, rx, from.y as int);
    let ri = idx_at(b, rx, from.y as int);
    if m.is_castling {
        assert(castling_ok(b, wi, to_move, last, from, to, true));
        assert(from.x == 5 && to.y == from.y);
        assert(to.x == 7 || to.x == 3);
    }
    assert forall|i: int| 0 <= i < b.len() implies (#[trigger] af[i]).color == b[i].color by {}
    assert forall|i: int| 0 <= i < b.len() && b[i].form is King implies (#[trigger] af[i]).form
        is King by {
        if i == mi {
            assert(m.is_promotion ==> mover.form is Pawn);
        }
    }
    assert forall|i: int, j: int|
        0 <= i < af.len() && 0 <= j < af.len() && af[i].alive && af[j].alive && af[i].position
            == af[j].position implies i == j by {
        if i != j {
            let cap1 = occ_color_at(b, to.x as int, to.y as int, !mover.color);
            let v1 = idx_at(b, to.x as int, to.y as int);
            let vy2 = ep_victim_y(to, mover.color);
            let has_v2 = m.is_en_passant && occ_at(b, to.x as int, vy2);
            let v2 = idx_at(b, to.x as int, vy2);
            let has_rook = m.is_castling && occ_at(b, rx, from.y as int);
            let ri = idx_at(b, rx, from.y as int);
            // Any alive piece on the target square beforehand is either the
            // enemy victim (dead afterwards) or a friend (excluded: then the
            // move is a castling, whose rules keep the target square empty).
            assert forall|t: int|
                0 <= t < b.len() && b[t].alive && b[t].position.x == to.x && b[t].position.y
                    == to.y && !(cap1 && t == v1) implies false by {
                if b[t].color != mover.color {
                    assert(occ_color_at(b, to.x as int, to.y as int, !mover.color));
                    lemma_idx_at_unique(b, to.x as int, to.y as int, t);
                } else {
                    assert(occ_color_at(b, to.x as int, to.y as int, to_move));
                    assert(m.is_castling);
                    assert(!occ_at(b, to.x as int, from.y as int));
                    assert(occ_at(b, to.x as int, to.y as int));
                }
            }
            if has_rook {
                assert(!occ_at(b, rtx, from.y as int));
            }
            if i == mi || j == mi {
                let a = if i == mi {
                    j
                } else {
                    i
                };
                assert(af[a].alive && af[a].position == to);
                if has_rook && a == ri && !(cap1 && a == v1) && !(has_v2 && a == v2) {
                    assert(af[a].position.x == rtx && rtx != to.x);
                    assert(false);
                } else {
                    assert(af[a].position == b[a].position && b[a].alive);
                    assert(b[a].position.x == to.x && b[a].position.y == to.y);
                    assert(!(cap1 && a == v1));
                    assert(false);
                }
            } else if (has_rook && i == ri) || (has_rook && j == ri) {
                let a = if has_rook && i == ri {
                    j
                } else {
                    i
                };
                assert(af[a].alive && af[a].position.x == rtx && af[a].position.y == from.y);
                assert(af[a].position == b[a].position && b[a].alive);
                assert(occ_at(b, rtx, from.y as int));
                assert(false);
            } else {
                assert(af[i].position == b[i].position && b[i].alive);
                assert(af[j].position == b[j].position && b[j].alive);
                assert(b[i].position == b[j].position);
                assert(false);
            }
        }
    }
}

/// Decides the castling rule; the probe flag, when cleared, rejects
/// castling outright, which bounds the mutual recursion with `check_move`.
fn castling_exec(state: &crate::quasar::state::State, from: Point, to: Point, probe: bool) -> (r:
    bool)
    requires
        state.wf(),
        occ_color_at(state.board(), from.x as int, from.y as int, state.to_move),
    ensures
        r == castling_ok(
            state.board(),
            state.wi(),
            state.to_move,
            state.last_move,
            from,
            to,
            probe,
        ),
    decreases
            (if probe {
                1int
            } else {
                0int
            }),
            0int,
{
    let ghost b = state.board();
    if !probe {
        return false;
    }
    let list = &state.pieces.list;
    let mi: usize = match occ_index(list, from.x, from.y) {
        Some(i) => i,
        None => {
            proof {
                assert(false);
            }
            0
        },
    };
    proof {
        lemma_idx_at_unique(b, from.x as int, from.y as int, mi as int);
    }
    let mover_form = list[mi].form;
    let mover_moved = list[mi].moved;
    let mover_color = list[mi].color;
    if !matches!(mover_form, PieceType::King) {
        return false;
    }
    if mover_moved {
        return false;
    }
    if to.y != from.y {
        return false;
    }
    if !(abs_diff(to.x, from.x) == 2) {
        return false;
    }
    if from.x != 5 {
        return false;
    }
    let kingside = to.x > from.x;
    let rx: i128 = if kingside {
        8
    } else {
        1
    };
    let ri: usize = match occ_index(list, rx, from.y) {
        Some(i) => i,
        None => {
            return false;
        },
    };
    proof {
        lemma_idx_at_unique(b, rx as int, from.y as int, ri as int);
    }
    if !matches!(list[ri].form, PieceType::Rook) {
        return false;
    }
    if list[ri].moved {
        return false;
    }
    if list[ri].color != mover_color {
        return false;
    }
    // every square strictly between king and rook must be empty
    if kingside {
        if occ_index(list, 6, from.y).is_some() {
            return false;
        }
        if occ_index(list, 7, from.y).is_some() {
            return false;
        }
        proof {
            assert forall|x: int| from.x < x < rx || rx < x < from.x implies !occ_at(
                b,
                x,
                from.y as int,
            ) by {
                assert(x == 6 || x == 7);
            }
        }
    } else {
        if occ_index(list, 2, from.y).is_some() {
            return false;
        }
        if occ_index(list, 3, from.y).is_some() {
            return false;
        }
        if occ_index(list, 4, from.y).is_some() {
            return false;
        }
        proof {
            assert forall|x: int| from.x < x < rx || rx < x < from.x implies !occ_at(
                b,
                x,
                from.y as int,
            ) by {
                assert(x == 2 || x == 3 || x == 4);
            }
        }
    }
    // the king must not be in check on its start square
    if attack_exists(list, from, !mover_color) {
        return false;
    }
    // the crossed square is probed as a one-step king move, with castling
    // probing disabled
    let midx: i128 = if kingside {
        6
    } else {
        4
    };
    proof {
        assert(midx as int == (from.x + to.x) / 2);
    }
    let crossing = Point { x: midx, y: from.y };
    let step_ok = check_move(state, from, crossing, false, None, false, false, false);
    if !step_ok {
        return false;
    }
    true
}

/// Decides the en-passant rule against the recorded previous move.
fn ep_exec(
    last: &Option<Move>,
    mover_form: PieceType,
    mover_color: bool,
    from: Point,
    to: Point,
) -> (r: bool)
    ensures
        r == ep_ok(
            PieceData {
                form: mover_form,
                position: from,
                color: mover_color,
                alive: true,
                moved: true,
                is_en_passant_target: false,
            },
            from,
            to,
            *last,
        ),
{
    if !matches!(mover_form, PieceType::Pawn) {
        return false;
    }
    match last {
        None => false,
        Some(lm) => {
            if !matches!(lm.piece.form, PieceType::Pawn) {
                return false;
            }
            if lm.piece.color == mover_color {
                return false;
            }
            if !(abs_diff(lm.to.y, lm.from.y) == 2) {
                return false;
            }
            if to.x != lm.to.x {
                return false;
            }
            let skipped_y: i128 = if lm.to.y > lm.from.y {
                lm.from.y + 1
            } else {
                lm.from.y - 1
            };
            proof {
                assert(skipped_y as int == (lm.from.y + lm.to.y) / 2);
            }
            if to.y != skipped_y {
                return false;
            }
            if from.y != lm.to.y {
                return false;
            }
            if !(abs_diff(from.x, lm.to.x) == 1) {
                return false;
            }
            true
        },
    }
}

/// Decides full move legality, mirroring `move_ok` clause by clause; the
/// king-safety test simulates the move on a successor board and scans it
/// for an attack on the mover's king.
pub(crate) fn check_move(
    state: &crate::quasar::state::State,
    from: Point,
    to: Point,
    is_promo: bool,
    promo: Option<PieceType>,
    castl: bool,
    ep: bool,
    probe: bool,
) -> (r: bool)
    requires
        state.wf(),
    ensures
        r == move_ok(
            state.board(),
            state.wi(),
            state.to_move,
            state.last_move,
            from,
            to,
            is_promo,
            promo,
            castl,
            ep,
            probe,
        ),
    decreases
            (if probe {
                1int
            } else {
                0int
            }),
            1int,
{
    let ghost b = state.board();
    let list = &state.pieces.list;
    if from.x == to.x && from.y == to.y {
        return false;
    }
    let mi: usize = match occ_index(list, from.x, from.y) {
        Some(i) => i,
        None => {
            proof {
                assert(!occ_color_at(b, from.x as int, from.y as int, state.to_move));
            }
            return false;
        },
    };
    proof {
        lemma_idx_at_unique(b, from.x as int, from.y as int, mi as int);
    }
    let mover_form = list[mi].form;
    let mover_color = list[mi].color;
    let mover_moved = list[mi].moved;
    if mover_color != state.to_move {
        proof {
            assert forall|t: int|
                0 <= t < b.len() && b[t].alive && b[t].position.x == from.x && b[t].position.y
                    == from.y implies b[t].color == mover_color by {
                lemma_idx_at_unique(b, from.x as int, from.y as int, t);
            }
            assert(!occ_color_at(b, from.x as int, from.y as int, state.to_move));
        }
        return false;
    }
    proof {
        assert(occ_color_at(b, from.x as int, from.y as int, state.to_move));
    }
    if !shape_legal_exec(list, mover_form, mover_color, mover_moved, from, to, ep, castl) {
        return false;
    }
    if castl {
        if !castling_exec(state, from, to, probe) {
            return false;
        }
    }
    if ep {
        if !ep_exec(&state.last_move, mover_form, mover_color, from, to) {
            return false;
        }
    }
    if is_promo && !matches!(mover_form, PieceType::Pawn) {
        return false;
    }
    match occ_index(list, to.x, to.y) {
        Some(ci) => {
            proof {
                lemma_idx_at_unique(b, to.x as int, to.y as int, ci as int);
            }
            if list[ci].color == state.to_move {
                if !castl {
                    proof {
                        assert(occ_color_at(b, to.x as int, to.y as int, state.to_move));
                    }
                    return false;
                }
            } else {
                proof {
                    assert forall|t: int|
                        0 <= t < b.len() && b[t].alive && b[t].position.x == to.x
                            && b[t].position.y == to.y implies b[t].color != state.to_move by {
                        lemma_idx_at_unique(b, to.x as int, to.y as int, t);
                    }
                    assert(!occ_color_at(b, to.x as int, to.y as int, state.to_move));
                }
            }
        },
        None => {
            proof {
                assert(!occ_color_at(b, to.x as int, to.y as int, state.to_move));
            }
        },
    }
    // king safety: simulate the move and scan for an attack on the king
    let succ = apply_move_pieces(list, from, to, is_promo, promo, castl, ep);
    let ki: usize = if state.to_move {
        state.pieces.white_index - 1
    } else {
        list.len() - 1
    };
    let kp = succ[ki].position;
    proof {
        let after = board_after(b, from, to, is_promo, promo, castl, ep);
        assert(bview(succ@)[ki as int] == succ@[ki as int].data());
        assert(kp == king_pos(after, state.wi(), state.to_move));
    }
    let atk = attack_exists(&succ, kp, !state.to_move);
    !atk
}

impl Move {
    /// Evaluates and caches the legality of this candidate on the given
    /// state. On the way it refreshes the snapshot of the moving piece
    /// from the board and records any enemy occupant of the target square.
    /// The verdict depends only on the squares, the flags and the state,
    /// so repeated calls return the same result; the state is never
    /// changed.
    pub fn is_legal(&mut self, state: &crate::quasar::state::State) -> (r: bool)
        requires
            state.wf(),
        ensures
            r == move_ok_m(
                state.board(),
                state.wi(),
                state.to_move,
                state.last_move,
                *old(self),
                true,
            ),
            final(self).from == old(self).from,
            final(self).to == old(self).to,
            final(self).is_promotion == old(self).is_promotion,
            final(self).promotion_type == old(self).promotion_type,
            final(self).is_castling == old(self).is_castling,
            final(self).is_en_passant == old(self).is_en_passant,
            final(self).is_legal == r,
            occ_color_at(
                state.board(),
                old(self).from.x as int,
                old(self).from.y as int,
                state.to_move,
            ) ==> final(self).piece.data() == state.board()[idx_at(
                state.board(),
                old(self).from.x as int,
                old(self).from.y as int,
            )],
    {
        let ghost b = state.board();
        let list = &state.pieces.list;
        match occ_index(list, self.from.x, self.from.y) {
            Some(mi) => {
                proof {
                    lemma_idx_at_unique(b, self.from.x as int, self.from.y as int, mi as int);
                }
                if list[mi].color == state.to_move {
                    self.piece = list[mi].duplicate();
                } else {
                    proof {
                        assert forall|t: int|
                            0 <= t < b.len() && b[t].alive && b[t].position.x == self.from.x
                                && b[t].position.y == self.from.y implies b[t].color != state.to_move by {
                            lemma_idx_at_unique(b, self.from.x as int, self.from.y as int, t);
                        }
                        assert(!occ_color_at(
                            b,
                            self.from.x as int,
                            self.from.y as int,
                            state.to_move,
                        ));
                    }
                }
            },
            None => {
                proof {
                    assert(!occ_color_at(
                        b,
                        self.from.x as int,
                        self.from.y as int,
                        state.to_move,
                    ));
                }
            },
        }
        match occ_index(list, self.to.x, self.to.y) {
            Some(ci) => {
                if list[ci].color != self.piece.color {
                    self.captured_piece = Some(list[ci].duplicate());
                }
            },
            None => {},
        }
        let r = check_move(
            state,
            self.from,
            self.to,
            self.is_promotion,
            self.promotion_type,
            self.is_castling,
            self.is_en_passant,
            true,
        );
        self.is_legal = r;
        r
    }
}

/// A flagged en-passant capture is legal only when the immediately
/// preceding move was a two-square advance of an enemy pawn, the capturer
/// stood adjacent on that pawn's rank, and the capture lands on the
/// square the advance skipped.
pub proof fn lemma_en_passant_needs_double_advance(
    b: Seq<PieceData>,
    wi: int,
    to_move: bool,
    last: Option<Move>,
    m: Move,
)
    requires
        move_ok_m(b, wi, to_move, last, m, true),
        m.is_en_passant,
    ensures
        last is Some,
        last.unwrap().piece.form is Pawn,
        abs(last.unwrap().to.y - last.unwrap().from.y) == 2,
        m.to.x == last.unwrap().to.x,
        m.to.y == (last.unwrap().from.y + last.unwrap().to.y) / 2,
        m.from.y == last.unwrap().to.y,
        abs(m.from.x - last.unwrap().to.x) == 1,
{
}

/// A flagged castling is legal only while the king and the relevant rook
/// are both unmoved, every square strictly between them is empty, and the
/// king is not in check on its start square.
pub proof fn lemma_castling_requirements(
    b: Seq<PieceData>,
    wi: int,
    to_move: bool,
    last: Option<Move>,
    m: Move,
)
    requires
        board_ok(b),
        move_ok_m(b, wi, to_move, last, m, true),
        m.is_castling,
    ensures
        b[idx_at(b, m.from.x as int, m.from.y as int)].form is King,
        !b[idx_at(b, m.from.x as int, m.from.y as int)].moved,
        !attacked(b, m.from, !to_move),
        ({
            let rx: int = if m.to.x > m.from.x {
                8int
            } else {
                1int
            };
            &&& occ_at(b, rx, m.from.y as int)
            &&& b[idx_at(b, rx, m.from.y as int)].form is Rook
            &&& !b[idx_at(b, rx, m.from.y as int)].moved
            &&& forall|x: int|
                (m.from.x < x < rx || rx < x < m.from.x) ==> !occ_at(b, x, m.from.y as int)
        }),
{
    let w = choose|t: int|
        0 <= t < b.len() && b[t].alive && b[t].position.x == m.from.x && b[t].position.y
            == m.from.y && b[t].color == to_move;
    lemma_idx_at_unique(b, m.from.x as int, m.from.y as int, w);
}

} // verus!
