//! The optimizer's rewrite passes as mathematical functions on trees.
//!
//! Each pass of `optimizer` is proved to return exactly the tree these
//! functions describe.  The folds walk left to right with an accumulator,
//! mirroring the peephole shape of the passes: each step looks at the node
//! just emitted and the next node, and either fuses them or emits the next
//! node unchanged.  Unmergeable neighbours are always left as they are; no
//! pass can fail.

use vstd::prelude::*;

use crate::semantics::lemma_size_unfold;
use crate::semantics::size_block;
use crate::semantics::sub_mod;
use crate::semantics::NodeView;

verus! {

/// Does `x` fit the signed 32-bit offset fields?
pub open spec fn in_i32(x: int) -> bool {
    -0x8000_0000 <= x <= 0x7fff_ffff
}

pub open spec fn iabs(x: int) -> int {
    if x < 0 {
        -x
    } else {
        x
    }
}

pub open spec fn sgn(x: int) -> int {
    if x > 0 {
        1int
    } else if x < 0 {
        -1int
    } else {
        0int
    }
}

// --- Strip comments -----------------------------------------------------

/// Remove every `Comment` node, recursively; everything else is kept.
pub open spec fn strip_comments(code: Seq<NodeView>) -> Seq<NodeView>
    decreases size_block(code),
        via strip_comments_dec
{
    if code.len() == 0 {
        Seq::empty()
    } else {
        let rest = strip_comments(code.subrange(1, code.len() as int));
        match code[0] {
            NodeView::Comment(_) => rest,
            NodeView::Conditional(body) => seq![
                NodeView::Conditional(strip_comments(body)),
            ] + rest,
            n => seq![n] + rest,
        }
    }
}

// --- Merge repeated operators -------------------------------------------

/// Fuse two adjacent nodes where safe: `Shift`s add if the sum stays
/// representable; non-committing `Inc`/`Inc` and `Dec`/`Dec` pairs at the
/// same offset add if the sum stays a byte.
pub open spec fn merge_pair(a: NodeView, b: NodeView) -> Option<NodeView> {
    match (a, b) {
        (NodeView::Shift(x), NodeView::Shift(y)) => if in_i32(x + y) {
            Some(NodeView::Shift((x + y) as i32))
        } else {
            None
        },
        (NodeView::Inc(x, o1, false), NodeView::Inc(y, o2, false)) => if x + y <= 255 && o1
            == o2 {
            Some(NodeView::Inc((x + y) as u8, o1, false))
        } else {
            None
        },
        (NodeView::Dec(x, o1, false), NodeView::Dec(y, o2, false)) => if x + y <= 255 && o1
            == o2 {
            Some(NodeView::Dec((x + y) as u8, o1, false))
        } else {
            None
        },
        _ => None,
    }
}

pub open spec fn merge_loop(acc: Seq<NodeView>, rest: Seq<NodeView>) -> Seq<NodeView>
    decreases size_block(rest), 0nat,
        via merge_loop_dec
{
    if rest.len() == 0 {
        acc
    } else {
        let n = rest[0];
        let tail = rest.subrange(1, rest.len() as int);
        let merged = if acc.len() > 0 {
            merge_pair(acc.last(), n)
        } else {
            None
        };
        let acc2 = match merged {
            Some(mn) => acc.drop_last().push(mn),
            None => match n {
                NodeView::Conditional(body) => acc.push(
                    NodeView::Conditional(merge_ops(body)),
                ),
                _ => acc.push(n),
            },
        };
        merge_loop(acc2, tail)
    }
}

/// Merge repeated operators across a block, recursing into loop bodies.
pub open spec fn merge_ops(code: Seq<NodeView>) -> Seq<NodeView>
    decreases size_block(code), 1nat,
{
    merge_loop(Seq::empty(), code)
}

// --- Collapse assignments -----------------------------------------------

/// The canonical zero-the-cell idiom: a loop whose whole body decrements the
/// current cell by one.
pub open spec fn is_zero_loop(body: Seq<NodeView>) -> bool {
    body.len() == 1 && body[0] == NodeView::Dec(1, 0, false)
}

/// First stage: rewrite each zero-loop to `Assign(0, 0, false)`; other loops
/// recurse into the whole pass.
pub open spec fn assign_map(code: Seq<NodeView>) -> Seq<NodeView>
    decreases size_block(code), 0nat,
        via assign_map_dec
{
    if code.len() == 0 {
        Seq::empty()
    } else {
        let rest = assign_map(code.subrange(1, code.len() as int));
        let n2 = match code[0] {
            NodeView::Conditional(body) => if is_zero_loop(body) {
                NodeView::Assign(0, 0, false)
            } else {
                NodeView::Conditional(collapse_assigns(body))
            },
            n => n,
        };
        seq![n2] + rest
    }
}

/// Second stage: an `Assign(0)` followed by an `Inc`/`Dec` at the same
/// offset folds into a single constant assignment.
pub open spec fn assign_step(acc: Seq<NodeView>, n: NodeView) -> Seq<NodeView> {
    if acc.len() == 0 {
        acc.push(n)
    } else {
        match (acc.last(), n) {
            (NodeView::Assign(a, o1, false), NodeView::Inc(v, o2, false)) => if a == 0 && o1
                == o2 {
                acc.drop_last().push(NodeView::Assign(v, o1, false))
            } else {
                acc.push(n)
            },
            (NodeView::Assign(a, o1, false), NodeView::Dec(v, o2, false)) => if a == 0 && o1
                == o2 {
                acc.drop_last().push(NodeView::Assign(sub_mod(0, v), o1, false))
            } else {
                acc.push(n)
            },
            _ => acc.push(n),
        }
    }
}

pub open spec fn assign_fold(acc: Seq<NodeView>, rest: Seq<NodeView>) -> Seq<NodeView>
    decreases rest.len(),
{
    if rest.len() == 0 {
        acc
    } else {
        assign_fold(assign_step(acc, rest[0]), rest.subrange(1, rest.len() as int))
    }
}

/// Collapse assignments across a block: zero-loops become assignments, then
/// assignments absorb the increment that follows them.
pub open spec fn collapse_assigns(code: Seq<NodeView>) -> Seq<NodeView>
    decreases size_block(code), 1nat,
{
    assign_fold(Seq::empty(), assign_map(code))
}

// --- Collapse offsets ----------------------------------------------------

/// A zero-offset, non-committing instruction absorbs the `Shift` before it,
/// taking the shift's displacement as a committing offset.
pub open spec fn absorb_shift(off: i32, n: NodeView) -> Option<NodeView> {
    match n {
        NodeView::Inc(v, 0, false) => Some(NodeView::Inc(v, off, true)),
        NodeView::Dec(v, 0, false) => Some(NodeView::Dec(v, off, true)),
        NodeView::Assign(v, 0, false) => Some(NodeView::Assign(v, off, true)),
        NodeView::Out(0, false) => Some(NodeView::Out(off, true)),
        NodeView::In(0, false) => Some(NodeView::In(off, true)),
        _ => None,
    }
}

/// The offset a committing instruction would move the pointer by, if this
/// node is one of the kinds the pass reduces.
pub open spec fn committed_offset(n: NodeView) -> Option<i32> {
    match n {
        NodeView::Inc(_, o, true) => Some(o),
        NodeView::Dec(_, o, true) => Some(o),
        NodeView::Assign(_, o, true) => Some(o),
        NodeView::In(o, true) => Some(o),
        NodeView::Out(o, true) => Some(o),
        _ => None,
    }
}

/// `n` with its offset and commit flag replaced (for the five offset-carrying
/// kinds; anything else is returned unchanged).
pub open spec fn with_offset(n: NodeView, off: i32, mv: bool) -> NodeView {
    match n {
        NodeView::Inc(v, _, _) => NodeView::Inc(v, off, mv),
        NodeView::Dec(v, _, _) => NodeView::Dec(v, off, mv),
        NodeView::Assign(v, _, _) => NodeView::Assign(v, off, mv),
        NodeView::In(_, _) => NodeView::In(off, mv),
        NodeView::Out(_, _) => NodeView::Out(off, mv),
        _ => n,
    }
}

/// Reduce a committing instruction at offset `o` against a following `Shift`
/// of opposite sign: the smaller magnitude cancels, and the remainder stays
/// as a residual shift before or after the (now non-committing) instruction.
/// A residual that comes before carries the sign of `o`; one that comes
/// after carries the shift's own sign, so that an offset of zero still
/// leaves the following shift's movement in place.
pub open spec fn split_shift(last: NodeView, o: int, sh: int) -> Seq<NodeView> {
    let diff = iabs(o) - iabs(sh);
    if diff == 0 {
        seq![with_offset(last, o as i32, false)]
    } else if diff > 0 {
        let w = sgn(o) * diff;
        seq![NodeView::Shift(w as i32), with_offset(last, (o - w) as i32, false)]
    } else {
        let w = sgn(sh) * (-diff);
        seq![with_offset(last, o as i32, false), NodeView::Shift(w as i32)]
    }
}

pub open spec fn offsets_step(acc: Seq<NodeView>, nn: NodeView) -> Seq<NodeView> {
    if acc.len() == 0 {
        acc.push(nn)
    } else {
        match acc.last() {
            NodeView::Shift(off) => match absorb_shift(off, nn) {
                Some(x) => acc.drop_last().push(x),
                None => acc.push(nn),
            },
            last => match nn {
                NodeView::Shift(sh) => match committed_offset(last) {
                    Some(o) => if sgn(o as int) != sgn(sh as int) {
                        acc.drop_last() + split_shift(last, o as int, sh as int)
                    } else {
                        acc.push(nn)
                    },
                    None => acc.push(nn),
                },
                _ => acc.push(nn),
            },
        }
    }
}

pub open spec fn offsets_loop(acc: Seq<NodeView>, rest: Seq<NodeView>) -> Seq<NodeView>
    decreases size_block(rest), 0nat,
        via offsets_loop_dec
{
    if rest.len() == 0 {
        acc
    } else {
        let nn = match rest[0] {
            NodeView::Conditional(body) => NodeView::Conditional(fold_offsets(body)),
            n => n,
        };
        offsets_loop(offsets_step(acc, nn), rest.subrange(1, rest.len() as int))
    }
}

/// Collapse explicit `Shift`s into the offset fields of their neighbours.
pub open spec fn fold_offsets(code: Seq<NodeView>) -> Seq<NodeView>
    decreases size_block(code), 1nat,
{
    offsets_loop(Seq::empty(), code)
}

// --- Defer movements -----------------------------------------------------

/// Two's-complement wrap into the signed 32-bit range, for sums of two
/// 32-bit values: one overflow step is corrected.
pub open spec fn w32(x: int) -> int {
    if x > 0x7fff_ffff {
        x - 0x1_0000_0000
    } else if x < -0x8000_0000 {
        x + 0x1_0000_0000
    } else {
        x
    }
}

/// Phase one: cut the block into maximal straight-line runs; every
/// `Conditional` (recursively deferred) and every `Scan` stands alone.
pub open spec fn runs_loop(
    memo: Seq<Seq<NodeView>>,
    current: Seq<NodeView>,
    rest: Seq<NodeView>,
) -> Seq<Seq<NodeView>>
    decreases size_block(rest), 0nat,
        via runs_loop_dec
{
    if rest.len() == 0 {
        memo.push(current)
    } else {
        let tail = rest.subrange(1, rest.len() as int);
        match rest[0] {
            NodeView::Scan(iv) => runs_loop(
                memo.push(current).push(seq![NodeView::Scan(iv)]),
                Seq::empty(),
                tail,
            ),
            NodeView::Conditional(body) => runs_loop(
                memo.push(current).push(seq![NodeView::Conditional(defer_moves(body))]),
                Seq::empty(),
                tail,
            ),
            n => runs_loop(memo, current.push(n), tail),
        }
    }
}

/// Phase two, inside one run: a running carry swallows every `Shift`, each
/// instruction is re-addressed by the carry and stripped of its commit, and
/// a committing instruction folds its offset into the carry.
pub open spec fn carry_loop(emitted: Seq<NodeView>, carry: int, rest: Seq<NodeView>) -> (
    Seq<NodeView>,
    int,
)
    decreases rest.len(),
{
    if rest.len() == 0 {
        (emitted, carry)
    } else {
        let tail = rest.subrange(1, rest.len() as int);
        match rest[0] {
            NodeView::Shift(v) => if in_i32(carry + v) {
                carry_loop(emitted, carry + v, tail)
            } else {
                carry_loop(emitted.push(NodeView::Shift(carry as i32)), v as int, tail)
            },
            NodeView::Inc(v, off, mv) => carry_loop(
                emitted.push(NodeView::Inc(v, w32(carry + off) as i32, false)),
                if mv {
                    w32(carry + off)
                } else {
                    carry
                },
                tail,
            ),
            NodeView::Dec(v, off, mv) => carry_loop(
                emitted.push(NodeView::Dec(v, w32(carry + off) as i32, false)),
                if mv {
                    w32(carry + off)
                } else {
                    carry
                },
                tail,
            ),
            NodeView::Assign(v, off, mv) => carry_loop(
                emitted.push(NodeView::Assign(v, w32(carry + off) as i32, false)),
                if mv {
                    w32(carry + off)
                } else {
                    carry
                },
                tail,
            ),
            NodeView::Mul(val, into, off, mv) => carry_loop(
                emitted.push(NodeView::Mul(val, into, w32(carry + off) as i32, false)),
                if mv {
                    w32(carry + off)
                } else {
                    carry
                },
                tail,
            ),
            NodeView::In(off, mv) => carry_loop(
                emitted.push(NodeView::In(w32(carry + off) as i32, false)),
                if mv {
                    w32(carry + off)
                } else {
                    carry
                },
                tail,
            ),
            NodeView::Out(off, mv) => carry_loop(
                emitted.push(NodeView::Out(w32(carry + off) as i32, false)),
                if mv {
                    w32(carry + off)
                } else {
                    carry
                },
                tail,
            ),
            _ => carry_loop(emitted, carry, tail),
        }
    }
}

/// Rewrite one run: carry the movement to the end, then flush it as a single
/// trailing `Shift` if anything is left.
pub open spec fn defer_run(group: Seq<NodeView>) -> Seq<NodeView> {
    let folded = carry_loop(Seq::empty(), 0, group);
    if folded.1 != 0 {
        folded.0.push(NodeView::Shift(folded.1 as i32))
    } else {
        folded.0
    }
}

/// Phase two over all runs: a `Conditional` or `Scan` boundary run is kept
/// as it stands; every ordinary run is rewritten, however short.
pub open spec fn emit_runs(groups: Seq<Seq<NodeView>>) -> Seq<NodeView>
    decreases groups.len(),
{
    if groups.len() == 0 {
        Seq::empty()
    } else {
        let g = groups[0];
        let done = if g.len() == 1 && (g[0] matches NodeView::Conditional(_) || g[0]
            matches NodeView::Scan(_)) {
            seq![g[0]]
        } else {
            defer_run(g)
        };
        done + emit_runs(groups.subrange(1, groups.len() as int))
    }
}

/// Defer pointer movements to the end of each straight-line run.
pub open spec fn defer_moves(code: Seq<NodeView>) -> Seq<NodeView>
    decreases size_block(code), 1nat,
{
    emit_runs(runs_loop(Seq::empty(), Seq::empty(), code))
}

// --- Collapse simple (multiplication) loops -------------------------------

pub open spec fn only_inc_dec(body: Seq<NodeView>) -> bool {
    forall|i: int|
        0 <= i < body.len() ==> (#[trigger] body[i] matches NodeView::Inc(_, _, false)
            || body[i] matches NodeView::Dec(_, _, false))
}

pub open spec fn has_unit_dec(body: Seq<NodeView>) -> bool {
    exists|i: int| 0 <= i < body.len() && #[trigger] body[i] == NodeView::Dec(1, 0, false)
}

/// A multiplication loop: only non-committing `Inc`/`Dec` nodes, at least
/// one unit decrement of the current cell to count the loop down.
pub open spec fn collapsible_loop(body: Seq<NodeView>) -> bool {
    body.len() > 0 && only_inc_dec(body) && has_unit_dec(body)
}

/// One `Mul` per surviving `Inc`/`Dec` of the body, in order; the unit
/// decrements of the counter cell vanish.
pub open spec fn loop_muls(body: Seq<NodeView>) -> Seq<NodeView>
    decreases body.len(),
{
    if body.len() == 0 {
        Seq::empty()
    } else {
        let rest = loop_muls(body.subrange(1, body.len() as int));
        match body[0] {
            NodeView::Inc(v, off, mv) => if !mv {
                seq![NodeView::Mul(v as i16, off, 0, false)] + rest
            } else {
                rest
            },
            NodeView::Dec(v, off, mv) => if v == 1 && off == 0 && !mv {
                rest
            } else if !mv {
                seq![NodeView::Mul((-(v as int)) as i16, off, 0, false)] + rest
            } else {
                rest
            },
            _ => rest,
        }
    }
}

/// Collapse multiplication loops into `Mul` nodes followed by the `Assign`
/// that zeroes the counter cell.
pub open spec fn collapse_loops(code: Seq<NodeView>) -> Seq<NodeView>
    decreases size_block(code),
        via collapse_loops_dec
{
    if code.len() == 0 {
        Seq::empty()
    } else {
        let rest = collapse_loops(code.subrange(1, code.len() as int));
        match code[0] {
            NodeView::Conditional(body) => if collapsible_loop(body) {
                loop_muls(body) + seq![NodeView::Assign(0, 0, false)] + rest
            } else {
                seq![NodeView::Conditional(collapse_loops(body))] + rest
            },
            n => seq![n] + rest,
        }
    }
}

// --- Collapse scan loops ---------------------------------------------------

/// A loop whose whole body is one `Shift` strides until it lands on a zero
/// cell: rewrite it to `Scan`.
pub open spec fn collapse_scans(code: Seq<NodeView>) -> Seq<NodeView>
    decreases size_block(code),
        via collapse_scans_dec
{
    if code.len() == 0 {
        Seq::empty()
    } else {
        let rest = collapse_scans(code.subrange(1, code.len() as int));
        match code[0] {
            NodeView::Conditional(body) => if body.len() == 1 && body[0] matches NodeView::Shift(
                _,
            ) {
                seq![NodeView::Scan(body[0]->Shift_0)] + rest
            } else {
                seq![NodeView::Conditional(collapse_scans(body))] + rest
            },
            n => seq![n] + rest,
        }
    }
}

#[via_fn]
proof fn strip_comments_dec(code: Seq<NodeView>) {
    if code.len() > 0 {
        lemma_size_unfold(code);
    }
}

#[via_fn]
proof fn merge_loop_dec(acc: Seq<NodeView>, rest: Seq<NodeView>) {
    if rest.len() > 0 {
        lemma_size_unfold(rest);
    }
}

#[via_fn]
proof fn assign_map_dec(code: Seq<NodeView>) {
    if code.len() > 0 {
        lemma_size_unfold(code);
    }
}

#[via_fn]
proof fn offsets_loop_dec(acc: Seq<NodeView>, rest: Seq<NodeView>) {
    if rest.len() > 0 {
        lemma_size_unfold(rest);
    }
}

#[via_fn]
proof fn runs_loop_dec(memo: Seq<Seq<NodeView>>, current: Seq<NodeView>, rest: Seq<NodeView>) {
    if rest.len() > 0 {
        lemma_size_unfold(rest);
    }
}

#[via_fn]
proof fn collapse_loops_dec(code: Seq<NodeView>) {
    if code.len() > 0 {
        lemma_size_unfold(code);
    }
}

#[via_fn]
proof fn collapse_scans_dec(code: Seq<NodeView>) {
    if code.len() > 0 {
        lemma_size_unfold(code);
    }
}


/// One unfolding of `strip_comments` over a head element and a rest.
proof fn lemma_strip_unfold(n: NodeView, rest: Seq<NodeView>)
    ensures
        strip_comments(seq![n] + rest) == (match n {
            NodeView::Comment(_) => strip_comments(rest),
            NodeView::Conditional(body) => seq![NodeView::Conditional(strip_comments(body))]
                + strip_comments(rest),
            other => seq![other] + strip_comments(rest),
        }),
{
    let whole = seq![n] + rest;
    assert(whole[0] == n);
    assert(whole.subrange(1, whole.len() as int) =~= rest);
}

/// Comment stripping is idempotent: a second pass finds nothing left to
/// remove and returns its input unchanged.
pub proof fn lemma_strip_comments_idempotent(code: Seq<NodeView>)
    ensures
        strip_comments(strip_comments(code)) == strip_comments(code),
    decreases size_block(code),
{
    if code.len() == 0 {
    } else {
        let rest = code.subrange(1, code.len() as int);
        lemma_size_unfold(code);
        lemma_strip_comments_idempotent(rest);
        match code[0] {
            NodeView::Comment(_) => {}
            NodeView::Conditional(body) => {
                lemma_strip_comments_idempotent(body);
                lemma_strip_unfold(
                    NodeView::Conditional(strip_comments(body)),
                    strip_comments(rest),
                );
            }
            n => {
                lemma_strip_unfold(n, strip_comments(rest));
            }
        }
    }
}


/// One unfolding of `collapse_scans` over a head element and a rest.
proof fn lemma_scans_unfold(n: NodeView, rest: Seq<NodeView>)
    ensures
        collapse_scans(seq![n] + rest) == (match n {
            NodeView::Conditional(body) => if body.len() == 1 && body[0] matches NodeView::Shift(
                _,
            ) {
                seq![NodeView::Scan(body[0]->Shift_0)] + collapse_scans(rest)
            } else {
                seq![NodeView::Conditional(collapse_scans(body))] + collapse_scans(rest)
            },
            other => seq![other] + collapse_scans(rest),
        }),
{
    let whole = seq![n] + rest;
    assert(whole[0] == n);
    assert(whole.subrange(1, whole.len() as int) =~= rest);
}

/// Scan collapsing keeps the length of every sequence it rewrites.
proof fn lemma_scans_len(code: Seq<NodeView>)
    ensures
        collapse_scans(code).len() == code.len(),
    decreases size_block(code),
{
    if code.len() > 0 {
        let rest = code.subrange(1, code.len() as int);
        lemma_size_unfold(code);
        lemma_scans_len(rest);
    }
}

/// Scan collapsing is idempotent: a second pass finds no loop left whose
/// whole body is one `Shift` and returns its input unchanged.
pub proof fn lemma_collapse_scans_idempotent(code: Seq<NodeView>)
    ensures
        collapse_scans(collapse_scans(code)) == collapse_scans(code),
    decreases size_block(code),
{
    if code.len() == 0 {
    } else {
        let rest = code.subrange(1, code.len() as int);
        lemma_size_unfold(code);
        lemma_collapse_scans_idempotent(rest);
        match code[0] {
            NodeView::Conditional(body) => {
                if body.len() == 1 && body[0] matches NodeView::Shift(_) {
                    lemma_scans_unfold(
                        NodeView::Scan(body[0]->Shift_0),
                        collapse_scans(rest),
                    );
                } else {
                    lemma_collapse_scans_idempotent(body);
                    let nb = collapse_scans(body);
                    assert(!(nb.len() == 1 && nb[0] matches NodeView::Shift(_))) by {
                        lemma_scans_len(body);
                        if body.len() == 1 {
                            assert(body =~= seq![body[0]] + Seq::<NodeView>::empty());
                            lemma_scans_unfold(body[0], Seq::empty());
                            match body[0] {
                                NodeView::Conditional(b2) => {
                                    assert(!(nb[0] matches NodeView::Shift(_)));
                                }
                                _ => {
                                    assert(nb[0] == body[0]);
                                }
                            }
                        }
                    }
                    lemma_scans_unfold(NodeView::Conditional(nb), collapse_scans(rest));
                }
            }
            n => {
                lemma_scans_unfold(n, collapse_scans(rest));
            }
        }
    }
}

} // verus!
