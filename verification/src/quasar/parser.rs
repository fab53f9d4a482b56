//! Board-description ingestion: a rank-delimited textual layout with
//! empty-square run-length digits and letter case encoding colour, plus
//! active-colour and half-move-clock fields, is turned into an initial
//! state. A malformed description is reported as a descriptive failure
//! before any state is built.

use vstd::prelude::*;
use vstd::seq_lib::group_to_multiset_ensures;
use crate::quasar::geometry::Point;
use crate::quasar::pieces::{bview, distinct_alive_positions, has_king, lemma_bview_multiset,
    lemma_permutation_keeps_distinct, sorted_by_key, Piece, PieceData, PieceList, PieceType};
use crate::quasar::state::lemma_unique_positions_board_ok;
use crate::quasar::state::State;
use crate::pieces::lower_char;

verus! {

/// ASCII whitespace, the field separator.
pub open spec fn is_ws(c: char) -> bool {
    c == ' ' || c == '\t' || c == '\n' || c == '\r'
}

fn is_ws_exec(c: char) -> (r: bool)
    ensures
        r == is_ws(c),
{
    c == ' ' || c == '\t' || c == '\n' || c == '\r'
}

/// The first position at or after `pos` holding a non-whitespace character.
pub open spec fn next_non_ws(s: Seq<char>, pos: int) -> int
    decreases s.len() - pos,
{
    if pos < s.len() && is_ws(s[pos]) {
        next_non_ws(s, pos + 1)
    } else {
        pos
    }
}

/// The first position at or after `pos` holding whitespace, or the end.
pub open spec fn tok_end(s: Seq<char>, pos: int) -> int
    decreases s.len() - pos,
{
    if pos < s.len() && !is_ws(s[pos]) {
        tok_end(s, pos + 1)
    } else {
        pos
    }
}

pub proof fn lemma_next_non_ws_bounds(s: Seq<char>, pos: int)
    requires
        0 <= pos <= s.len(),
    ensures
        pos <= next_non_ws(s, pos) <= s.len(),
        next_non_ws(s, pos) < s.len() ==> !is_ws(s[next_non_ws(s, pos)]),
    decreases s.len() - pos,
{
    if pos < s.len() && is_ws(s[pos]) {
        lemma_next_non_ws_bounds(s, pos + 1);
    }
}

pub proof fn lemma_tok_end_bounds(s: Seq<char>, pos: int)
    requires
        0 <= pos <= s.len(),
    ensures
        pos <= tok_end(s, pos) <= s.len(),
        pos < s.len() && !is_ws(s[pos]) ==> tok_end(s, pos) > pos,
    decreases s.len() - pos,
{
    if pos < s.len() && !is_ws(s[pos]) {
        lemma_tok_end_bounds(s, pos + 1);
    }
}

/// The whitespace-separated tokens of `s` from `pos` on.
pub open spec fn split_ws_from(s: Seq<char>, pos: int) -> Seq<Seq<char>>
    decreases s.len() - pos,
    when 0 <= pos <= s.len()
    via split_ws_from_decreases
{
    let a = next_non_ws(s, pos);
    if a >= s.len() {
        Seq::empty()
    } else {
        let e = tok_end(s, a);
        seq![s.subrange(a, e)] + split_ws_from(s, e)
    }
}

#[via_fn]
proof fn split_ws_from_decreases(s: Seq<char>, pos: int) {
    lemma_next_non_ws_bounds(s, pos);
    let a = next_non_ws(s, pos);
    if a < s.len() {
        lemma_tok_end_bounds(s, a);
    }
}

/// The fields of a board description: its whitespace-separated tokens.
pub open spec fn fen_fields(s: Seq<char>) -> Seq<Seq<char>> {
    split_ws_from(s, 0)
}

/// The first position at or after `pos` holding `sep`, or the end.
pub open spec fn find_from(s: Seq<char>, sep: char, pos: int) -> int
    decreases s.len() - pos,
{
    if pos < s.len() && s[pos] != sep {
        find_from(s, sep, pos + 1)
    } else {
        pos
    }
}

pub proof fn lemma_find_from_bounds(s: Seq<char>, sep: char, pos: int)
    requires
        0 <= pos <= s.len(),
    ensures
        pos <= find_from(s, sep, pos) <= s.len(),
    decreases s.len() - pos,
{
    if pos < s.len() && s[pos] != sep {
        lemma_find_from_bounds(s, sep, pos + 1);
    }
}

/// The `sep`-separated pieces of `s` from `pos` on; empty pieces count.
pub open spec fn split_char_from(s: Seq<char>, sep: char, pos: int) -> Seq<Seq<char>>
    decreases s.len() - pos,
    when 0 <= pos <= s.len()
    via split_char_from_decreases
{
    let e = find_from(s, sep, pos);
    if e >= s.len() {
        seq![s.subrange(pos, s.len() as int)]
    } else {
        seq![s.subrange(pos, e)] + split_char_from(s, sep, e + 1)
    }
}

#[via_fn]
proof fn split_char_from_decreases(s: Seq<char>, sep: char, pos: int) {
    lemma_find_from_bounds(s, sep, pos);
}

/// The ranks of the board field: its slash-separated pieces.
pub open spec fn fen_ranks(s: Seq<char>) -> Seq<Seq<char>> {
    split_char_from(s, '/', 0)
}

/// The numeric value of a digit, or -1.
pub open spec fn digit_val(c: char) -> int {
    match c {
        '0' => 0,
        '1' => 1,
        '2' => 2,
        '3' => 3,
        '4' => 4,
        '5' => 5,
        '6' => 6,
        '7' => 7,
        '8' => 8,
        '9' => 9,
        _ => -1,
    }
}

fn digit_val_exec(c: char) -> (r: i8)
    ensures
        r as int == digit_val(c),
{
    match c {
        '0' => 0,
        '1' => 1,
        '2' => 2,
        '3' => 3,
        '4' => 4,
        '5' => 5,
        '6' => 6,
        '7' => 7,
        '8' => 8,
        '9' => 9,
        _ => -1,
    }
}

/// The shape a piece letter denotes, in either case; Null otherwise.
pub open spec fn letter_form(c: char) -> PieceType {
    match lower_char(c) {
        'p' => PieceType::Pawn,
        'n' => PieceType::Knight,
        'b' => PieceType::Bishop,
        'r' => PieceType::Rook,
        'q' => PieceType::Queen,
        'k' => PieceType::King,
        _ => PieceType::Null,
    }
}

/// Upper case encodes the white side.
pub open spec fn is_upper(c: char) -> bool {
    lower_char(c) != c
}

/// The piece a board letter places on `(x, y)`: alive, unmoved, unmarked.
pub open spec fn placed(form: PieceType, x: int, y: int, color: bool) -> PieceData {
    PieceData {
        form,
        position: Point { x: x as i128, y: y as i128 },
        color,
        alive: true,
        moved: false,
        is_en_passant_target: false,
    }
}

/// Scans one rank row from position `i` with `file` squares already
/// consumed: digits advance the file, letters place pieces, anything else
/// fails.
pub open spec fn rank_scan(rank: Seq<char>, i: int, file: int, y: int) -> Option<Seq<PieceData>>
    decreases rank.len() - i,
{
    if i >= rank.len() {
        Some(Seq::empty())
    } else {
        let c = rank[i];
        if digit_val(c) >= 0 {
            rank_scan(rank, i + 1, file + digit_val(c), y)
        } else if letter_form(c) is Null {
            None
        } else {
            match rank_scan(rank, i + 1, file + 1, y) {
                None => None,
                Some(rest) => Some(
                    seq![placed(letter_form(c), file + 1, y, is_upper(c))] + rest,
                ),
            }
        }
    }
}

/// Scans the rank rows from `idx` on, top row first on rank eight.
pub open spec fn ranks_scan(ranks: Seq<Seq<char>>, idx: int) -> Option<Seq<PieceData>>
    decreases ranks.len() - idx,
{
    if idx >= ranks.len() {
        Some(Seq::empty())
    } else {
        match rank_scan(ranks[idx], 0, 0, 8 - idx) {
            None => None,
            Some(row) => match ranks_scan(ranks, idx + 1) {
                None => None,
                Some(rest) => Some(row + rest),
            },
        }
    }
}

/// The number a decimal token denotes, with one optional leading plus
/// sign; `None` for an empty or non-numeric token.
pub open spec fn num_val(s: Seq<char>, i: int, acc: int) -> Option<int>
    decreases s.len() - i,
{
    if i >= s.len() {
        Some(acc)
    } else if digit_val(s[i]) >= 0 {
        num_val(s, i + 1, acc * 10 + digit_val(s[i]))
    } else {
        None
    }
}

pub open spec fn token_num(s: Seq<char>) -> Option<int> {
    if s.len() == 0 {
        None
    } else if s[0] == '+' {
        if s.len() == 1 {
            None
        } else {
            num_val(s, 1, 0)
        }
    } else {
        num_val(s, 0, 0)
    }
}

/// The whole description parses: six fields, eight ranks, every rank row
/// scans, a one-letter side to move, and a half-move clock that fits.
pub open spec fn parse_ok(s: Seq<char>) -> bool {
    let fs = fen_fields(s);
    &&& fs.len() == 6
    &&& fen_ranks(fs[0]).len() == 8
    &&& ranks_scan(fen_ranks(fs[0]), 0) is Some
    &&& (fs[1] == seq!['w'] || fs[1] == seq!['b'])
    &&& token_num(fs[4]) is Some
    &&& token_num(fs[4]).unwrap() <= usize::MAX
}

/// The pieces the board field places, in scan order.
pub open spec fn parsed_pieces(s: Seq<char>) -> Seq<PieceData> {
    ranks_scan(fen_ranks(fen_fields(s)[0]), 0).unwrap()
}

/// Whether some entry of the data sequence is a king of the given colour.
pub open spec fn has_king_data(s: Seq<PieceData>, color: bool) -> bool {
    exists|i: int| 0 <= i < s.len() && s[i].color == color && s[i].form is King
}

/// Whether the alive entries stand on pairwise distinct squares.
pub open spec fn distinct_data_positions(s: Seq<PieceData>) -> bool {
    forall|i: int, j: int|
        0 <= i < s.len() && 0 <= j < s.len() && s[i].alive && s[j].alive && s[i].position
            == s[j].position ==> i == j
}

/// A numeric scan only grows its accumulator.
proof fn lemma_num_val_monotone(s: Seq<char>, i: int, acc: int)
    requires
        0 <= acc,
        num_val(s, i, acc) is Some,
    ensures
        num_val(s, i, acc).unwrap() >= acc,
    decreases s.len() - i,
{
    if i < s.len() && digit_val(s[i]) >= 0 {
        lemma_num_val_monotone(s, i + 1, acc * 10 + digit_val(s[i]));
    }
}

/// The characters of a string, in order.
fn str_chars(s: &str) -> (v: Vec<char>)
    ensures
        v@ == s@,
{
    let n = s.unicode_len();
    let mut v: Vec<char> = Vec::new();
    let mut i: usize = 0;
    while i < n
        invariant
            n == s@.len(),
            i <= n,
            v@ == s@.subrange(0, i as int),
        decreases n - i,
    {
        v.push(s.get_char(i));
        i = i + 1;
    }
    proof {
        assert(v@ =~= s@);
    }
    v
}

fn next_non_ws_exec(v: &Vec<char>, pos: usize) -> (r: usize)
    requires
        pos <= v@.len(),
    ensures
        r as int == next_non_ws(v@, pos as int),
        pos <= r <= v@.len(),
    decreases v@.len() - pos,
{
    if pos < v.len() && is_ws_exec(v[pos]) {
        next_non_ws_exec(v, pos + 1)
    } else {
        pos
    }
}

fn tok_end_exec(v: &Vec<char>, pos: usize) -> (r: usize)
    requires
        pos <= v@.len(),
    ensures
        r as int == tok_end(v@, pos as int),
        pos <= r <= v@.len(),
    decreases v@.len() - pos,
{
    if pos < v.len() && !is_ws_exec(v[pos]) {
        tok_end_exec(v, pos + 1)
    } else {
        pos
    }
}

fn find_from_exec(v: &Vec<char>, sep: char, pos: usize) -> (r: usize)
    requires
        pos <= v@.len(),
    ensures
        r as int == find_from(v@, sep, pos as int),
        pos <= r <= v@.len(),
    decreases v@.len() - pos,
{
    if pos < v.len() && v[pos] != sep {
        find_from_exec(v, sep, pos + 1)
    } else {
        pos
    }
}

/// A fresh vector holding the characters of `v[a..b]`.
fn subrange_chars(v: &Vec<char>, a: usize, b: usize) -> (r: Vec<char>)
    requires
        a <= b <= v@.len(),
    ensures
        r@ == v@.subrange(a as int, b as int),
{
    let mut r: Vec<char> = Vec::new();
    let mut i: usize = a;
    while i < b
        invariant
            a <= i <= b <= v@.len(),
            r@ == v@.subrange(a as int, i as int),
        decreases b - i,
    {
        r.push(v[i]);
        i = i + 1;
    }
    proof {
        assert(r@ =~= v@.subrange(a as int, b as int));
    }
    r
}

/// The views of a token list.
pub open spec fn token_views(ts: Seq<Vec<char>>) -> Seq<Seq<char>> {
    Seq::new(ts.len(), |i: int| ts[i]@)
}

fn split_ws_exec(v: &Vec<char>, pos: usize) -> (r: Vec<Vec<char>>)
    requires
        pos <= v@.len(),
    ensures
        token_views(r@) == split_ws_from(v@, pos as int),
    decreases v@.len() - pos,
{
    let a = next_non_ws_exec(v, pos);
    if a >= v.len() {
        let r: Vec<Vec<char>> = Vec::new();
        proof {
            assert(token_views(r@) =~= split_ws_from(v@, pos as int));
        }
        r
    } else {
        proof {
            lemma_tok_end_bounds(v@, a as int);
            lemma_next_non_ws_bounds(v@, pos as int);
        }
        let e = tok_end_exec(v, a);
        let tok = subrange_chars(v, a, e);
        let mut rest = split_ws_exec(v, e);
        rest.insert(0, tok);
        proof {
            assert(token_views(rest@) =~= split_ws_from(v@, pos as int));
        }
        rest
    }
}

fn split_char_exec(v: &Vec<char>, sep: char, pos: usize) -> (r: Vec<Vec<char>>)
    requires
        pos <= v@.len(),
    ensures
        token_views(r@) == split_char_from(v@, sep, pos as int),
    decreases v@.len() - pos,
{
    let e = find_from_exec(v, sep, pos);
    if e >= v.len() {
        let tok = subrange_chars(v, pos, v.len());
        let mut r: Vec<Vec<char>> = Vec::new();
        r.push(tok);
        proof {
            assert(token_views(r@) =~= split_char_from(v@, sep, pos as int));
        }
        r
    } else {
        let tok = subrange_chars(v, pos, e);
        let mut rest = split_char_exec(v, sep, e + 1);
        rest.insert(0, tok);
        proof {
            assert(token_views(rest@) =~= split_char_from(v@, sep, pos as int));
        }
        rest
    }
}

fn letter_form_exec(c: char) -> (t: PieceType)
    ensures
        t == letter_form(c),
{
    match crate::pieces::lower_char_for(c) {
        'p' => PieceType::Pawn,
        'n' => PieceType::Knight,
        'b' => PieceType::Bishop,
        'r' => PieceType::Rook,
        'q' => PieceType::Queen,
        'k' => PieceType::King,
        _ => PieceType::Null,
    }
}

/// Scans one rank row, appending the pieces it places.
fn rank_scan_exec(rank: &Vec<char>, i: usize, file: u128, y: i128, out: &mut Vec<Piece>) -> (ok:
    bool)
    requires
        i <= rank@.len(),
        file as int <= 9 * (i as int),
        1 <= y <= 8,
    ensures
        ok == (rank_scan(rank@, i as int, file as int, y as int) is Some),
        ok ==> final(out)@.len() == old(out)@.len() + rank_scan(
            rank@,
            i as int,
            file as int,
            y as int,
        ).unwrap().len(),
        ok ==> final(out)@.subrange(0, old(out)@.len() as int) == old(out)@,
        ok ==> bview(final(out)@).subrange(old(out)@.len() as int, final(out)@.len() as int)
            == rank_scan(rank@, i as int, file as int, y as int).unwrap(),
        ok ==> forall|j: int|
            old(out)@.len() <= j < final(out)@.len() ==> (#[trigger] final(out)@[j]).wf(),
    decreases rank@.len() - i,
{
    if i >= rank.len() {
        proof {
            assert(bview(final(out)@).subrange(
                old(out)@.len() as int,
                final(out)@.len() as int,
            ) =~= Seq::<PieceData>::empty());
            assert(final(out)@.subrange(0, old(out)@.len() as int) =~= old(out)@);
        }
        true
    } else {
        let c = rank[i];
        let d = digit_val_exec(c);
        if d >= 0 {
            rank_scan_exec(rank, i + 1, file + (d as u128), y, out)
        } else {
            let form = letter_form_exec(c);
            if matches!(form, PieceType::Null) {
                return false;
            }
            let color = crate::pieces::lower_char_for(c) != c;
            let x: i128 = (file + 1) as i128;
            let p = Piece::new(form, Point::new(x, y), color);
            let ghost out0 = out@;
            out.push(p);
            let ok = rank_scan_exec(rank, i + 1, file + 1, y, out);
            if ok {
                proof {
                    assert forall|j: int|
                        out0.len() <= j < out@.len() implies (#[trigger] out@[j]).wf() by {
                        if j == out0.len() {
                            assert(out@[j] == out@.subrange(0, (out0.len() + 1) as int)[j]);
                        }
                    }
                    let whole = rank_scan(rank@, i as int, file as int, y as int).unwrap();
                    let rest = rank_scan(rank@, i + 1, file as int + 1, y as int).unwrap();
                    assert(out@.subrange(0, (out0.len() + 1) as int) == out0.push(p));
                    assert(out@[out0.len() as int] == out@.subrange(
                        0,
                        (out0.len() + 1) as int,
                    )[out0.len() as int]);
                    assert(out@[out0.len() as int] == p);
                    assert(out@.subrange(0, out0.len() as int) =~= out0);
                    assert(bview(out@).subrange(out0.len() as int, out@.len() as int)
                        =~= whole) by {
                        assert(bview(out@)[out0.len() as int] == out@[out0.len() as int].data());
                        assert(whole[0] == placed(form, file as int + 1, y as int, color));
                        assert(p.data() == placed(form, file as int + 1, y as int, color));
                        assert forall|j: int| 1 <= j < whole.len() implies bview(out@).subrange(
                            out0.len() as int,
                            out@.len() as int,
                        )[j] == whole[j] by {
                            assert(bview(out@).subrange(
                                (out0.len() + 1) as int,
                                out@.len() as int,
                            )[j - 1] == rest[j - 1]);
                        }
                    }
                }
            }
            ok
        }
    }
}

/// Scans every rank row in order.
fn ranks_scan_exec(ranks: &Vec<Vec<char>>, idx: usize, out: &mut Vec<Piece>) -> (ok: bool)
    requires
        idx <= ranks@.len(),
        ranks@.len() <= 8,
    ensures
        ok == (ranks_scan(token_views(ranks@), idx as int) is Some),
        ok ==> final(out)@.len() == old(out)@.len() + ranks_scan(
            token_views(ranks@),
            idx as int,
        ).unwrap().len(),
        ok ==> final(out)@.subrange(0, old(out)@.len() as int) == old(out)@,
        ok ==> bview(final(out)@).subrange(old(out)@.len() as int, final(out)@.len() as int)
            == ranks_scan(token_views(ranks@), idx as int).unwrap(),
        ok ==> forall|j: int|
            old(out)@.len() <= j < final(out)@.len() ==> (#[trigger] final(out)@[j]).wf(),
    decreases ranks@.len() - idx,
{
    if idx >= ranks.len() {
        proof {
            assert(bview(final(out)@).subrange(
                old(out)@.len() as int,
                final(out)@.len() as int,
            ) =~= Seq::<PieceData>::empty());
            assert(final(out)@.subrange(0, old(out)@.len() as int) =~= old(out)@);
        }
        true
    } else {
        let y: i128 = 8 - (idx as i128);
        let ghost out0 = out@;
        let row = &ranks[idx];
        proof {
            assert(token_views(ranks@)[idx as int] == ranks@[idx as int]@);
        }
        let ok1 = rank_scan_exec(row, 0, 0, y, out);
        if !ok1 {
            return false;
        }
        let ghost out1 = out@;
        let ok2 = ranks_scan_exec(ranks, idx + 1, out);
        if !ok2 {
            return false;
        }
        proof {
            let tv = token_views(ranks@);
            let row_s = rank_scan(tv[idx as int], 0, 0, 8 - idx as int).unwrap();
            let rest_s = ranks_scan(tv, idx as int + 1).unwrap();
            let whole = ranks_scan(tv, idx as int).unwrap();
            assert(whole =~= row_s + rest_s);
            assert(out@.subrange(0, out0.len() as int) =~= out0) by {
                assert(out1.subrange(0, out0.len() as int) == out0);
                assert(out@.subrange(0, out1.len() as int) == out1);
                assert forall|j: int| 0 <= j < out0.len() implies out@.subrange(
                    0,
                    out0.len() as int,
                )[j] == out0[j] by {
                    assert(out@[j] == out@.subrange(0, out1.len() as int)[j]);
                    assert(out1[j] == out1.subrange(0, out0.len() as int)[j]);
                }
            }
            assert(bview(out@).subrange(out0.len() as int, out@.len() as int) =~= whole) by {
                assert forall|j: int| 0 <= j < whole.len() implies bview(out@).subrange(
                    out0.len() as int,
                    out@.len() as int,
                )[j] == whole[j] by {
                    if j < row_s.len() {
                        assert(out@[out0.len() + j] == out@.subrange(0, out1.len() as int)[
                            out0.len() + j
                        ]);
                        assert(out@[out0.len() + j] == out1[out0.len() + j]);
                        assert(bview(out1).subrange(out0.len() as int, out1.len() as int)[j]
                            == row_s[j]);
                        assert(bview(out1)[out0.len() + j] == out1[out0.len() + j].data());
                        assert(bview(out@)[out0.len() + j] == out@[out0.len() + j].data());
                    } else {
                        assert(bview(out@).subrange(out1.len() as int, out@.len() as int)[
                            j - row_s.len()
                        ] == rest_s[j - row_s.len()]);
                    }
                }
            }
            assert forall|j: int| out0.len() <= j < out@.len() implies (
            #[trigger] out@[j]).wf() by {
                if j < out1.len() {
                    assert(out@[j] == out@.subrange(0, out1.len() as int)[j]);
                    assert(out@[j] == out1[j]);
                }
            }
        }
        true
    }
}

fn token_num_exec(tok: &Vec<char>) -> (r: Option<usize>)
    ensures
        r is Some <==> (token_num(tok@) is Some && token_num(tok@).unwrap() <= usize::MAX),
        r is Some ==> r.unwrap() as int == token_num(tok@).unwrap(),
{
    if tok.len() == 0 {
        return None;
    }
    let start: usize = if tok[0] == '+' {
        1
    } else {
        0
    };
    if start == 1 && tok.len() == 1 {
        return None;
    }
    num_val_exec(tok, start, 0)
}

fn num_val_exec(tok: &Vec<char>, i: usize, acc: usize) -> (r: Option<usize>)
    requires
        i <= tok@.len(),
    ensures
        r is Some <==> (num_val(tok@, i as int, acc as int) is Some && num_val(
            tok@,
            i as int,
            acc as int,
        ).unwrap() <= usize::MAX),
        r is Some ==> r.unwrap() as int == num_val(tok@, i as int, acc as int).unwrap(),
    decreases tok@.len() - i,
{
    if i >= tok.len() {
        return Some(acc);
    }
    let d = digit_val_exec(tok[i]);
    if d < 0 {
        return None;
    }
    let scaled = match acc.checked_mul(10) {
        Some(v) => v,
        None => {
            proof {
                if num_val(tok@, i as int, acc as int) is Some {
                    lemma_num_val_overflow(tok@, i as int, acc as int);
                }
            }
            return None;
        },
    };
    let next_acc = match scaled.checked_add(d as usize) {
        Some(v) => v,
        None => {
            proof {
                if num_val(tok@, i as int, acc as int) is Some {
                    lemma_num_val_overflow(tok@, i as int, acc as int);
                }
            }
            return None;
        },
    };
    num_val_exec(tok, i + 1, next_acc)
}

/// If the next accumulator step leaves the machine range, so does the
/// final value.
proof fn lemma_num_val_overflow(s: Seq<char>, i: int, acc: int)
    requires
        0 <= i < s.len(),
        0 <= acc,
        digit_val(s[i]) >= 0,
        num_val(s, i, acc) is Some,
    ensures
        num_val(s, i, acc).unwrap() >= acc * 10 + digit_val(s[i]),
{
    lemma_num_val_monotone(s, i + 1, acc * 10 + digit_val(s[i]));
}

/// Turns a textual board description into an initial state: the board
/// field places the pieces (digits skip squares, letter case encodes the
/// colour, ranks run top to bottom), the second field names the side to
/// move, and the fifth holds the half-move clock. A malformed description
/// is reported as a descriptive failure, first fault first, and no state
/// is built.
pub fn parse_fen(fen: &str) -> (r: Result<State, String>)
    ensures
        r is Ok <==> parse_ok(fen@),
        (match r {
            Ok(s) => {
                &&& bview(s.pieces.list@).to_multiset() == parsed_pieces(fen@).to_multiset()
                &&& s.pieces.list@.len() == parsed_pieces(fen@).len()
                &&& sorted_by_key(s.pieces.list@)
                &&& s.pieces.partitioned()
                &&& forall|j: int|
                    0 <= j < s.pieces.list@.len() ==> (#[trigger] s.pieces.list@[j]).wf()
                &&& s.to_move == (fen_fields(fen@)[1] == seq!['w'])
                &&& s.move_count as int == token_num(fen_fields(fen@)[4]).unwrap()
                &&& s.previous_state is None
                &&& s.last_move is None
                &&& (has_king_data(parsed_pieces(fen@), true) && has_king_data(
                    parsed_pieces(fen@),
                    false,
                ) && distinct_data_positions(parsed_pieces(fen@)) ==> s.wf())
            },
            Err(e) => {
                if fen_fields(fen@).len() != 6 {
                    e@ == "Invalid FEN string: incorrect number of fields"@
                } else if fen_ranks(fen_fields(fen@)[0]).len() != 8 {
                    e@ == "Invalid FEN string: incorrect number of ranks"@
                } else if !(ranks_scan(fen_ranks(fen_fields(fen@)[0]), 0) is Some) {
                    e@ == "Invalid piece type in FEN"@
                } else if !(fen_fields(fen@)[1] == seq!['w'] || fen_fields(fen@)[1] == seq!['b']) {
                    e@ == "Invalid active color in FEN"@
                } else {
                    e@ == "Invalid halfmove clock in FEN"@
                }
            },
        }),
{
    let ghost fs = fen_fields(fen@);
    let chars = str_chars(fen);
    let fields = split_ws_exec(&chars, 0);
    if fields.len() != 6 {
        return Err("Invalid FEN string: incorrect number of fields".to_owned());
    }
    proof {
        assert(token_views(fields@)[0] == fields@[0]@);
        assert(token_views(fields@)[1] == fields@[1]@);
        assert(token_views(fields@)[4] == fields@[4]@);
    }
    let ranks = split_char_exec(&fields[0], '/', 0);
    if ranks.len() != 8 {
        return Err("Invalid FEN string: incorrect number of ranks".to_owned());
    }
    let mut pieces_vec: Vec<Piece> = Vec::new();
    let ok = ranks_scan_exec(&ranks, 0, &mut pieces_vec);
    if !ok {
        return Err("Invalid piece type in FEN".to_owned());
    }
    let ghost parsed = parsed_pieces(fen@);
    proof {
        assert(bview(pieces_vec@).subrange(0, pieces_vec@.len() as int) =~= bview(pieces_vec@));
        assert(bview(pieces_vec@) == parsed);
    }
    let f1 = &fields[1];
    let to_move: bool = if f1.len() == 1 && f1[0] == 'w' {
        proof {
            assert(f1@ =~= seq!['w']);
        }
        true
    } else if f1.len() == 1 && f1[0] == 'b' {
        proof {
            assert(f1@ =~= seq!['b']);
            assert(!(f1@ =~= seq!['w']));
        }
        false
    } else {
        proof {
            assert(!(fs[1] == seq!['w'] || fs[1] == seq!['b'])) by {
                if fs[1] == seq!['w'] {
                    assert(f1@.len() == 1 && f1@[0] == 'w');
                }
                if fs[1] == seq!['b'] {
                    assert(f1@.len() == 1 && f1@[0] == 'b');
                }
            }
        }
        return Err("Invalid active color in FEN".to_owned());
    };
    let move_count: usize = match token_num_exec(&fields[4]) {
        Some(v) => v,
        None => {
            return Err("Invalid halfmove clock in FEN".to_owned());
        },
    };
    let ghost input: Seq<Piece> = pieces_vec@;
    let piece_list = PieceList::new(pieces_vec);
    let st = State::new(piece_list, move_count, to_move);
    proof {
        broadcast use group_to_multiset_ensures;

        lemma_bview_multiset(st.pieces.list@, input);
        assert forall|j: int| 0 <= j < input.len() implies #[trigger] input[j].wf() by {}
        assert forall|j: int|
            0 <= j < st.pieces.list@.len() implies (#[trigger] st.pieces.list@[j]).wf() by {
            let p = st.pieces.list@[j];
            assert(st.pieces.list@.contains(p));
            assert(st.pieces.list@.to_multiset().count(p) > 0);
            assert(input.to_multiset().count(p) > 0);
            assert(input.contains(p));
            let k = choose|t: int| 0 <= t < input.len() && input[t] == p;
            assert(input[k].wf());
        }
        if has_king_data(parsed, true) && has_king_data(parsed, false) && distinct_data_positions(
            parsed,
        ) {
            assert(has_king(input, true)) by {
                let k = choose|k: int|
                    0 <= k < parsed.len() && parsed[k].color == true && parsed[k].form is King;
                assert(bview(input)[k] == input[k].data());
            }
            assert(has_king(input, false)) by {
                let k = choose|k: int|
                    0 <= k < parsed.len() && parsed[k].color == false && parsed[k].form is King;
                assert(bview(input)[k] == input[k].data());
            }
            assert(st.pieces.wf());
            assert(distinct_alive_positions(input)) by {
                assert forall|i1: int, j1: int|
                    0 <= i1 < input.len() && 0 <= j1 < input.len() && input[i1].alive && input[j1].alive && input[i1].position == input[j1].position implies i1 == j1 by {
                    assert(bview(input)[i1] == input[i1].data());
                    assert(bview(input)[j1] == input[j1].data());
                }
            }
            lemma_permutation_keeps_distinct(st.pieces.list@, input);
            lemma_unique_positions_board_ok(st.pieces.list@);
        }
    }
    Ok(st)
}

} // verus!
