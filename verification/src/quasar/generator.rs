//! The lazy, single-use enumerator of geometrically reachable destinations
//! for one piece. It knows nothing of occupancy or board extent: stepping
//! pieces exhaust their offset list once; sliding pieces cycle it at growing
//! multipliers until the checked coordinate arithmetic fails at the edge of
//! representable space.

use vstd::prelude::*;
use crate::quasar::geometry::{representable, Point};
use crate::quasar::pieces::Piece;

verus! {

/// Whether scaling `off` by `m` and adding it to `pos` stays representable.
pub open spec fn step_fits(pos: Point, off: Point, m: int) -> bool {
    &&& representable(off.x * m)
    &&& representable(off.y * m)
    &&& representable(pos.x + off.x * m)
    &&& representable(pos.y + off.y * m)
}

/// The destination `m` steps along `off` from `pos`.
pub open spec fn step_point(pos: Point, off: Point, m: int) -> Point {
    Point { x: (pos.x + off.x * m) as i128, y: (pos.y + off.y * m) as i128 }
}

pub struct MoveGenerator {
    pub current_position: Point,
    pub offsets: Vec<Point>,
    pub current_offset_index: usize,
    pub current_multiplier: i8,
    pub is_sliding: bool,
}

impl MoveGenerator {
    pub open spec fn wf(&self) -> bool {
        &&& self.is_sliding ==> self.offsets@.len() > 0
        &&& self.current_offset_index <= self.offsets@.len()
        &&& self.current_multiplier >= 1
    }

    /// The offset index and ring multiplier that the next emission would
    /// use: reaching the end of the offset list starts the next ring.
    pub open spec fn spec_wrapped(&self) -> (int, int) {
        if self.current_offset_index >= self.offsets@.len() {
            (0int, self.current_multiplier + 1)
        } else {
            (self.current_offset_index as int, self.current_multiplier as int)
        }
    }

    /// A generator in this state emits nothing now or ever after: either a
    /// stepping piece exhausted its list, or the ring multiplier reached the
    /// edge of its representable range, or the arithmetic for the pending
    /// step fails.
    pub open spec fn exhausted(&self) -> bool {
        ||| self.current_offset_index >= self.offsets@.len() && !self.is_sliding
        ||| self.current_offset_index >= self.offsets@.len() && self.is_sliding
            && self.current_multiplier == i8::MAX
        ||| self.current_offset_index < self.offsets@.len() && !step_fits(
            self.current_position,
            self.offsets@[self.current_offset_index as int],
            self.current_multiplier as int,
        )
    }

    /// The full transition relation of one `next` call.
    pub open spec fn next_spec(pre: MoveGenerator, post: MoveGenerator, r: Option<Point>) -> bool {
        &&& post.current_position == pre.current_position
        &&& post.offsets@ == pre.offsets@
        &&& post.is_sliding == pre.is_sliding
        &&& if pre.current_offset_index >= pre.offsets@.len() && (!pre.is_sliding
            || pre.current_multiplier == i8::MAX) {
            r is None && post.current_offset_index == pre.current_offset_index
                && post.current_multiplier == pre.current_multiplier
        } else {
            {
                let (i, m) = pre.spec_wrapped();
                let off = pre.offsets@[i];
                if step_fits(pre.current_position, off, m) {
                    &&& r == Some(step_point(pre.current_position, off, m))
                    &&& post.current_offset_index == i + 1
                    &&& post.current_multiplier == m
                } else {
                    &&& r is None
                    &&& post.current_offset_index == i
                    &&& post.current_multiplier == m
                }
            }
        }
    }

    /// A fresh generator for one piece, at its position, on ring one.
    pub fn new(piece: &Piece) -> (g: MoveGenerator)
        requires
            crate::quasar::pieces::spec_is_sliding(piece.form) ==> piece.offsets@.len() > 0,
        ensures
            g.current_position == piece.position,
            g.offsets@ == piece.offsets@,
            g.current_offset_index == 0,
            g.current_multiplier == 1,
            g.is_sliding == crate::quasar::pieces::spec_is_sliding(piece.form),
            g.wf(),
    {
        let mut offsets: Vec<Point> = Vec::new();
        let mut i: usize = 0;
        while i < piece.offsets.len()
            invariant
                i <= piece.offsets@.len(),
                offsets@ == piece.offsets@.subrange(0, i as int),
            decreases piece.offsets@.len() - i,
        {
            offsets.push(piece.offsets[i]);
            i = i + 1;
        }
        proof {
            assert(offsets@ =~= piece.offsets@);
        }
        MoveGenerator {
            current_position: piece.position,
            offsets,
            current_offset_index: 0,
            current_multiplier: 1,
            is_sliding: piece.form.is_sliding(),
        }
    }

    /// Emits the next geometric destination, or `None` once the arithmetic
    /// fails; after the first `None` every later call returns `None` too.
    pub fn next(&mut self) -> (r: Option<Point>)
        requires
            old(self).wf(),
        ensures
            final(self).wf(),
            Self::next_spec(*old(self), *final(self), r),
            r is None ==> final(self).exhausted(),
            old(self).exhausted() ==> r is None && *final(self) == *old(self),
    {
        if self.current_offset_index >= self.offsets.len() {
            if !self.is_sliding {
                return None;
            }
            if self.current_multiplier == i8::MAX {
                return None;
            }
            self.current_offset_index = 0;
            self.current_multiplier = self.current_multiplier + 1;
        }
        let off = self.offsets[self.current_offset_index];
        let m = self.current_multiplier as i128;
        let sx = match off.x.checked_mul(m) {
            Some(v) => v,
            None => {
                return None;
            },
        };
        let sy = match off.y.checked_mul(m) {
            Some(v) => v,
            None => {
                return None;
            },
        };
        let scaled = Point { x: sx, y: sy };
        let new_point = match self.current_position.checked_add(scaled) {
            Some(p) => p,
            None => {
                return None;
            },
        };
        self.current_offset_index = self.current_offset_index + 1;
        Some(new_point)
    }
}

/// Exhaustion is absorbing: a generator that has reached a state in which
/// it emits nothing emits nothing on every later call and never changes
/// again. Together with `next`'s postconditions this says the sequence
/// terminates for good once the checked arithmetic fails at the edge of
/// representable space, instead of wrapping around.
pub proof fn lemma_exhausted_is_absorbing(pre: MoveGenerator, post: MoveGenerator, r: Option<
    Point,
>)
    requires
        pre.exhausted(),
        MoveGenerator::next_spec(pre, post, r),
    ensures
        r is None,
        post.current_position == pre.current_position,
        post.offsets@ == pre.offsets@,
        post.is_sliding == pre.is_sliding,
        post.current_offset_index == pre.current_offset_index,
        post.current_multiplier == pre.current_multiplier,
        post.exhausted(),
{
}

/// Every destination a generator will emit from the given cursor, in
/// emission order: the offsets in turn, rings growing, the sequence ending
/// at the first failure of the checked arithmetic.
pub open spec fn gen_seq(pos: Point, offs: Seq<Point>, sliding: bool, idx: int, mult: int) -> Seq<
    Point,
>
    decreases i8::MAX - mult, offs.len() - idx + 1,
    when 1 <= mult <= i8::MAX && 0 <= idx
{
    if offs.len() == 0 {
        Seq::empty()
    } else if idx >= offs.len() && (!sliding || mult >= i8::MAX) {
        Seq::empty()
    } else {
        let i = if idx >= offs.len() {
            0int
        } else {
            idx
        };
        let m = if idx >= offs.len() {
            mult + 1
        } else {
            mult
        };
        if step_fits(pos, offs[i], m) {
            seq![step_point(pos, offs[i], m)] + gen_seq(pos, offs, sliding, i + 1, m)
        } else {
            Seq::empty()
        }
    }
}

/// One `next` call consumes exactly the head of the emission sequence:
/// an emitted point was its first element, and a `None` marks it empty.
pub proof fn lemma_gen_seq_step(pre: MoveGenerator, post: MoveGenerator, r: Option<Point>)
    requires
        pre.wf(),
        MoveGenerator::next_spec(pre, post, r),
    ensures
        (r matches Some(p) ==> gen_seq(
            pre.current_position,
            pre.offsets@,
            pre.is_sliding,
            pre.current_offset_index as int,
            pre.current_multiplier as int,
        ) == seq![p] + gen_seq(
            post.current_position,
            post.offsets@,
            post.is_sliding,
            post.current_offset_index as int,
            post.current_multiplier as int,
        )),
        (r is None ==> gen_seq(
            pre.current_position,
            pre.offsets@,
            pre.is_sliding,
            pre.current_offset_index as int,
            pre.current_multiplier as int,
        ) == Seq::<Point>::empty()),
{
}

} // verus!
