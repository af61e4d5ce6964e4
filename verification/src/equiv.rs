//! Semantic preservation of the optimizer's rewrite steps, proved against
//! the `run_steps` model: merging adjacent operators, collapsing the zero
//! loop and the assignment that follows it, folding shifts into offsets,
//! deferring movement across a straight-line run, and specializing
//! multiplication and scan loops each leave the machine exactly where the
//! nodes they replace would.  The statements are per rewrite step, each
//! under the conditions on which the rewrite is exact; they are not lifted
//! to whole trees.

use vstd::prelude::*;

use crate::rewrites::carry_loop;
use crate::rewrites::defer_run;
use crate::rewrites::iabs;
use crate::rewrites::in_i32;
use crate::rewrites::loop_muls;
use crate::rewrites::merge_pair;
use crate::rewrites::sgn;
use crate::rewrites::split_shift;
use crate::rewrites::w32;
use crate::semantics::abs_byte;
use crate::semantics::add_mod;
use crate::semantics::init_cfg;
use crate::semantics::run_steps;
use crate::semantics::step;
use crate::semantics::mul_amt;
use crate::semantics::sub_mod;
use crate::semantics::wrap_idx;
use crate::semantics::Cfg;
use crate::semantics::FrameView;
use crate::semantics::Machine;
use crate::semantics::NodeView;
use crate::semantics::Outcome;
use crate::semantics::Step;
use crate::vm::TAPE_LEN;
use vstd::arithmetic::div_mod::lemma_add_mod_noop_right;
use vstd::arithmetic::div_mod::lemma_mod_bound;
use vstd::arithmetic::div_mod::lemma_small_mod;

verus! {

/// The canonical zero-the-cell loop, `[-]` as a tree.
pub open spec fn zero_loop_node() -> NodeView {
    NodeView::Conditional(seq![NodeView::Dec(1, 0, false)])
}

/// Running `Assign(0, 0, false)` sets the current cell to zero and changes
/// nothing else.
pub proof fn lemma_assign_zero_runs(m: Machine)
    requires
        m.wf(),
    ensures
        run_steps(init_cfg(seq![NodeView::Assign(0, 0, false)], m), 2) == Outcome::Done(
            Machine { cells: m.cells.update(m.pos, 0), ..m },
        ),
{
    let c0 = init_cfg(seq![NodeView::Assign(0, 0, false)], m);
    let target = Machine { cells: m.cells.update(m.pos, 0), ..m };
    assert(wrap_idx(m.pos, 0) == m.pos) by {
        vstd::arithmetic::div_mod::lemma_small_mod(m.pos as nat, TAPE_LEN as nat);
    }
    let c1 = Cfg {
        frames: seq![FrameView { block: seq![NodeView::Assign(0, 0, false)], idx: 1 }],
        m: target,
    };
    assert(step(c0) == Step::Next(c1)) by {
        assert(c0.frames.update(0, c1.frames[0]) =~= c1.frames);
    }
    let c2 = Cfg { frames: Seq::empty(), m: target };
    assert(step(c1) == Step::Next(c2)) by {
        assert(c1.frames.drop_last() =~= c2.frames);
    }
    assert(run_steps(c1, 1) == run_steps(c2, 0));
    assert(run_steps(c0, 2) == run_steps(c1, 1));
}

/// Running the `[-]` loop zeroes the current cell and changes nothing else:
/// it needs three machine steps per count left in the cell, plus two to
/// check and leave.
#[verifier::spinoff_prover]
#[verifier::rlimit(60)]
pub proof fn lemma_zero_loop_runs(m: Machine)
    requires
        m.wf(),
    ensures
        run_steps(
            init_cfg(seq![zero_loop_node()], m),
            (3 * (m.cells[m.pos] as nat) + 2) as nat,
        ) == Outcome::Done(Machine { cells: m.cells.update(m.pos, 0), ..m }),
    decreases m.cells[m.pos],
{
    let body = seq![NodeView::Dec(1, 0, false)];
    let block = seq![zero_loop_node()];
    let c0 = init_cfg(block, m);
    let target = Machine { cells: m.cells.update(m.pos, 0), ..m };
    assert(wrap_idx(m.pos, 0) == m.pos) by {
        vstd::arithmetic::div_mod::lemma_small_mod(m.pos as nat, TAPE_LEN as nat);
    }
    if m.cells[m.pos] == 0 {
        // The guard fails at once: check, then walk off the block.
        let c1 = Cfg { frames: seq![FrameView { block, idx: 1 }], m };
        assert(step(c0) == Step::Next(c1)) by {
            assert(c0.frames.update(0, c1.frames[0]) =~= c1.frames);
        }
        let c2 = Cfg { frames: Seq::empty(), m };
        assert(step(c1) == Step::Next(c2)) by {
            assert(c1.frames.drop_last() =~= c2.frames);
        }
        assert(run_steps(c1, 1) == run_steps(c2, 0));
        assert(run_steps(c0, 2) == run_steps(c1, 1));
        assert(m.cells.update(m.pos, 0) =~= m.cells);
        assert(target =~= m);
    } else {
        // One iteration: enter the body, decrement, leave the body; the
        // machine stands at the loop again with the cell one lower.
        let v = m.cells[m.pos];
        let c1 = Cfg {
            frames: seq![
                FrameView { block, idx: 0 },
                FrameView { block: body, idx: 0 },
            ],
            m,
        };
        assert(step(c0) == Step::Next(c1)) by {
            assert(c0.frames.push(FrameView { block: body, idx: 0 }) =~= c1.frames);
        }
        let m1 = Machine { cells: m.cells.update(m.pos, sub_mod(v, 1)), ..m };
        let c2 = Cfg {
            frames: seq![
                FrameView { block, idx: 0 },
                FrameView { block: body, idx: 1 },
            ],
            m: m1,
        };
        assert(step(c1) == Step::Next(c2)) by {
            assert(c1.frames.update(1, c2.frames[1]) =~= c2.frames);
        }
        let c3 = init_cfg(block, m1);
        assert(step(c2) == Step::Next(c3)) by {
            assert(c2.frames.drop_last() =~= c3.frames);
        }
        assert(m1.cells[m1.pos] == v - 1);
        lemma_zero_loop_runs(m1);
        let rest = (3 * (m1.cells[m1.pos] as nat) + 2) as nat;
        assert(run_steps(c0, (rest + 3) as nat) == run_steps(c1, (rest + 2) as nat));
        assert(run_steps(c1, (rest + 2) as nat) == run_steps(c2, (rest + 1) as nat));
        assert(run_steps(c2, (rest + 1) as nat) == run_steps(c3, rest));
        assert(m1.cells.update(m.pos, 0) =~= m.cells.update(m.pos, 0));
        assert(Machine { cells: m1.cells.update(m1.pos, 0), ..m1 } == target);
    }
}

/// The assignment-collapse rewrite of the zero loop preserves meaning: from
/// every well-formed machine, `[-]` and `Assign(0, 0, false)` run to the
/// same final machine.
pub proof fn lemma_zero_loop_equiv_assign(m: Machine)
    requires
        m.wf(),
    ensures
        exists|f: nat|
            run_steps(init_cfg(seq![zero_loop_node()], m), f) == Outcome::Done(
                Machine { cells: m.cells.update(m.pos, 0), ..m },
            ),
        exists|f: nat|
            run_steps(init_cfg(seq![NodeView::Assign(0, 0, false)], m), f) == Outcome::Done(
                Machine { cells: m.cells.update(m.pos, 0), ..m },
            ),
{
    lemma_zero_loop_runs(m);
    lemma_assign_zero_runs(m);
    let target = Machine { cells: m.cells.update(m.pos, 0), ..m };
    assert(run_steps(
        init_cfg(seq![zero_loop_node()], m),
        (3 * (m.cells[m.pos] as nat) + 2) as nat,
    ) == Outcome::Done(target));
    assert(run_steps(init_cfg(seq![NodeView::Assign(0, 0, false)], m), 2) == Outcome::Done(
        target,
    ));
}

/// A comment is a no-op, and removing it preserves meaning: the one-node
/// comment block and the empty block complete on the same machine.
pub proof fn lemma_comment_runs(m: Machine, ch: char)
    requires
        m.wf(),
    ensures
        run_steps(init_cfg(seq![NodeView::Comment(ch)], m), 2) == Outcome::Done(m),
        run_steps(init_cfg(Seq::<NodeView>::empty(), m), 1) == Outcome::Done(m),
{
    let block = seq![NodeView::Comment(ch)];
    let c0 = init_cfg(block, m);
    let c1 = Cfg { frames: seq![FrameView { block, idx: 1 }], m };
    assert(step(c0) == Step::Next(c1)) by {
        assert(c0.frames.update(0, c1.frames[0]) =~= c1.frames);
    }
    let c2 = Cfg { frames: Seq::empty(), m };
    assert(step(c1) == Step::Next(c2)) by {
        assert(c1.frames.drop_last() =~= c2.frames);
    }
    assert(run_steps(c0, 2) == run_steps(c1, 1));
    assert(run_steps(c1, 1) == run_steps(c2, 0));
    let e0 = init_cfg(Seq::<NodeView>::empty(), m);
    let e1 = Cfg { frames: Seq::empty(), m };
    assert(step(e0) == Step::Next(e1)) by {
        assert(e0.frames.drop_last() =~= e1.frames);
    }
    assert(run_steps(e0, 1) == run_steps(e1, 0));
}

/// A loop whose whole body is one `Shift`, `[>]`-style, as a tree.
pub open spec fn scan_loop_node(d: i32) -> NodeView {
    NodeView::Conditional(seq![NodeView::Shift(d)])
}

/// Wraparound addressing stays on the tape.
proof fn lemma_wrap_in_range(pos: int, off: int)
    ensures
        0 <= wrap_idx(pos, off) < TAPE_LEN,
{
    vstd::arithmetic::div_mod::lemma_mod_bound(pos + off, TAPE_LEN as int);
}

/// Whenever the scan-shaped loop runs to completion, `Scan` reaches the very
/// same machine.
#[verifier::spinoff_prover]
#[verifier::rlimit(60)]
pub proof fn lemma_scan_loop_complete(m: Machine, d: i32, f: nat, mp: Machine)
    requires
        m.wf(),
        run_steps(init_cfg(seq![scan_loop_node(d)], m), f) == Outcome::Done(mp),
    ensures
        exists|f2: nat|
            run_steps(init_cfg(seq![NodeView::Scan(d)], m), f2) == Outcome::Done(mp),
    decreases f,
{
    let body = seq![NodeView::Shift(d)];
    let block = seq![scan_loop_node(d)];
    let c0 = init_cfg(block, m);
    let s0 = init_cfg(seq![NodeView::Scan(d)], m);
    if m.cells[m.pos] == 0 {
        let c1 = Cfg { frames: seq![FrameView { block, idx: 1 }], m };
        assert(step(c0) == Step::Next(c1)) by {
            assert(c0.frames.update(0, c1.frames[0]) =~= c1.frames);
        }
        let c2 = Cfg { frames: Seq::empty(), m };
        assert(step(c1) == Step::Next(c2)) by {
            assert(c1.frames.drop_last() =~= c2.frames);
        }
        assert(f >= 2) by {
            if f == 0 {
                assert(run_steps(c0, f) == Outcome::Exhausted(c0));
            } else if f == 1 {
                assert(run_steps(c0, f) == run_steps(c1, 0));
            }
        }
        assert(run_steps(c0, f) == run_steps(c1, (f - 1) as nat));
        assert(run_steps(c1, (f - 1) as nat) == run_steps(c2, (f - 2) as nat));
        assert(mp == m);
        let s1 = Cfg {
            frames: seq![FrameView { block: seq![NodeView::Scan(d)], idx: 1 }],
            m,
        };
        assert(step(s0) == Step::Next(s1)) by {
            assert(s0.frames.update(0, s1.frames[0]) =~= s1.frames);
        }
        let s2 = Cfg { frames: Seq::empty(), m };
        assert(step(s1) == Step::Next(s2)) by {
            assert(s1.frames.drop_last() =~= s2.frames);
        }
        assert(run_steps(s0, 2) == run_steps(s1, 1));
        assert(run_steps(s1, 1) == run_steps(s2, 0));
        assert(run_steps(s0, 2) == Outcome::Done(mp));
    } else {
        let m2 = Machine { pos: wrap_idx(m.pos, d as int), ..m };
        lemma_wrap_in_range(m.pos, d as int);
        let c1 = Cfg {
            frames: seq![
                FrameView { block, idx: 0 },
                FrameView { block: body, idx: 0 },
            ],
            m,
        };
        assert(step(c0) == Step::Next(c1)) by {
            assert(c0.frames.push(FrameView { block: body, idx: 0 }) =~= c1.frames);
        }
        let c2 = Cfg {
            frames: seq![
                FrameView { block, idx: 0 },
                FrameView { block: body, idx: 1 },
            ],
            m: m2,
        };
        assert(step(c1) == Step::Next(c2)) by {
            assert(c1.frames.update(1, c2.frames[1]) =~= c2.frames);
        }
        let c3 = init_cfg(block, m2);
        assert(step(c2) == Step::Next(c3)) by {
            assert(c2.frames.drop_last() =~= c3.frames);
        }
        assert(f >= 3) by {
            if f == 0 {
                assert(run_steps(c0, f) == Outcome::Exhausted(c0));
            } else if f == 1 {
                assert(run_steps(c0, f) == run_steps(c1, 0));
            } else if f == 2 {
                assert(run_steps(c0, f) == run_steps(c1, 1));
                assert(run_steps(c1, 1) == run_steps(c2, 0));
            }
        }
        assert(run_steps(c0, f) == run_steps(c1, (f - 1) as nat));
        assert(run_steps(c1, (f - 1) as nat) == run_steps(c2, (f - 2) as nat));
        assert(run_steps(c2, (f - 2) as nat) == run_steps(c3, (f - 3) as nat));
        lemma_scan_loop_complete(m2, d, (f - 3) as nat, mp);
        let f2 = choose|f2: nat|
            run_steps(init_cfg(seq![NodeView::Scan(d)], m2), f2) == Outcome::Done(mp);
        let s1 = init_cfg(seq![NodeView::Scan(d)], m2);
        assert(step(s0) == Step::Next(s1));
        assert(run_steps(s0, (f2 + 1) as nat) == run_steps(s1, f2));
    }
}

/// Whenever `Scan` runs to completion, the scan-shaped loop reaches the very
/// same machine.
#[verifier::spinoff_prover]
#[verifier::rlimit(60)]
pub proof fn lemma_scan_loop_sound(m: Machine, d: i32, f: nat, mp: Machine)
    requires
        m.wf(),
        run_steps(init_cfg(seq![NodeView::Scan(d)], m), f) == Outcome::Done(mp),
    ensures
        exists|f2: nat|
            run_steps(init_cfg(seq![scan_loop_node(d)], m), f2) == Outcome::Done(mp),
    decreases f,
{
    let body = seq![NodeView::Shift(d)];
    let block = seq![scan_loop_node(d)];
    let c0 = init_cfg(block, m);
    let s0 = init_cfg(seq![NodeView::Scan(d)], m);
    if m.cells[m.pos] == 0 {
        let s1 = Cfg {
            frames: seq![FrameView { block: seq![NodeView::Scan(d)], idx: 1 }],
            m,
        };
        assert(step(s0) == Step::Next(s1)) by {
            assert(s0.frames.update(0, s1.frames[0]) =~= s1.frames);
        }
        let s2 = Cfg { frames: Seq::empty(), m };
        assert(step(s1) == Step::Next(s2)) by {
            assert(s1.frames.drop_last() =~= s2.frames);
        }
        assert(f >= 2) by {
            if f == 0 {
                assert(run_steps(s0, f) == Outcome::Exhausted(s0));
            } else if f == 1 {
                assert(run_steps(s0, f) == run_steps(s1, 0));
            }
        }
        assert(run_steps(s0, f) == run_steps(s1, (f - 1) as nat));
        assert(run_steps(s1, (f - 1) as nat) == run_steps(s2, (f - 2) as nat));
        assert(mp == m);
        let c1 = Cfg { frames: seq![FrameView { block, idx: 1 }], m };
        assert(step(c0) == Step::Next(c1)) by {
            assert(c0.frames.update(0, c1.frames[0]) =~= c1.frames);
        }
        let c2 = Cfg { frames: Seq::empty(), m };
        assert(step(c1) == Step::Next(c2)) by {
            assert(c1.frames.drop_last() =~= c2.frames);
        }
        assert(run_steps(c0, 2) == run_steps(c1, 1));
        assert(run_steps(c1, 1) == run_steps(c2, 0));
        assert(run_steps(c0, 2) == Outcome::Done(mp));
    } else {
        let m2 = Machine { pos: wrap_idx(m.pos, d as int), ..m };
        lemma_wrap_in_range(m.pos, d as int);
        let s1 = init_cfg(seq![NodeView::Scan(d)], m2);
        assert(step(s0) == Step::Next(s1));
        assert(f >= 1) by {
            if f == 0 {
                assert(run_steps(s0, f) == Outcome::Exhausted(s0));
            }
        }
        assert(run_steps(s0, f) == run_steps(s1, (f - 1) as nat));
        lemma_scan_loop_sound(m2, d, (f - 1) as nat, mp);
        let f2 = choose|f2: nat|
            run_steps(init_cfg(block, m2), f2) == Outcome::Done(mp);
        let c1 = Cfg {
            frames: seq![
                FrameView { block, idx: 0 },
                FrameView { block: body, idx: 0 },
            ],
            m,
        };
        assert(step(c0) == Step::Next(c1)) by {
            assert(c0.frames.push(FrameView { block: body, idx: 0 }) =~= c1.frames);
        }
        let c2 = Cfg {
            frames: seq![
                FrameView { block, idx: 0 },
                FrameView { block: body, idx: 1 },
            ],
            m: m2,
        };
        assert(step(c1) == Step::Next(c2)) by {
            assert(c1.frames.update(1, c2.frames[1]) =~= c2.frames);
        }
        let c3 = init_cfg(block, m2);
        assert(step(c2) == Step::Next(c3)) by {
            assert(c2.frames.drop_last() =~= c3.frames);
        }
        assert(run_steps(c0, (f2 + 3) as nat) == run_steps(c1, (f2 + 2) as nat));
        assert(run_steps(c1, (f2 + 2) as nat) == run_steps(c2, (f2 + 1) as nat));
        assert(run_steps(c2, (f2 + 1) as nat) == run_steps(c3, f2));
    }
}

/// Two byte-additions in a row collapse into one.
proof fn lemma_add_mod_twice(c: u8, x: u8, y: u8)
    requires
        x + y <= 255,
    ensures
        add_mod(add_mod(c, x), y) == add_mod(c, (x + y) as u8),
{
    vstd::arithmetic::div_mod::lemma_add_mod_noop_right(y as int, c + x, 256);
}

/// Two byte-subtractions in a row collapse into one.
proof fn lemma_sub_mod_twice(c: u8, x: u8, y: u8)
    requires
        x + y <= 255,
    ensures
        sub_mod(sub_mod(c, x), y) == sub_mod(c, (x + y) as u8),
{
    vstd::arithmetic::div_mod::lemma_add_mod_noop_right(256 - y, c - x + 256, 256);
    vstd::arithmetic::div_mod::lemma_mod_add_multiples_vanish(c - x - y + 256, 256);
}

/// Two pointer displacements in a row land where their sum lands.
proof fn lemma_wrap_twice(p: int, x: int, y: int)
    ensures
        wrap_idx(wrap_idx(p, x), y) == wrap_idx(p, x + y),
{
    vstd::arithmetic::div_mod::lemma_add_mod_noop_right(y, p + x, TAPE_LEN as int);
}

/// The operator-merge step preserves meaning: whenever `merge_pair` fuses
/// two adjacent nodes, running the pair and running the fused node from the
/// same well-formed machine complete on the same final machine.
#[verifier::spinoff_prover]
#[verifier::rlimit(60)]
pub proof fn lemma_merge_pair_equiv(m: Machine, a: NodeView, b: NodeView)
    requires
        m.wf(),
        merge_pair(a, b) is Some,
    ensures
        run_steps(init_cfg(seq![a, b], m), 3) is Done,
        run_steps(init_cfg(seq![a, b], m), 3) == run_steps(
            init_cfg(seq![merge_pair(a, b)->Some_0], m),
            2,
        ),
{
    let c = merge_pair(a, b)->Some_0;
    let ab = seq![a, b];
    let c0 = init_cfg(ab, m);
    let d0 = init_cfg(seq![c], m);
    match (a, b) {
        (NodeView::Shift(x), NodeView::Shift(y)) => {
            lemma_wrap_twice(m.pos as int, x as int, y as int);
            lemma_wrap_in_range(m.pos as int, x as int);
            let m1 = Machine { pos: wrap_idx(m.pos as int, x as int), ..m };
            let m2 = Machine { pos: wrap_idx(m.pos as int, (x + y) as int), ..m };
            let c1 = Cfg { frames: seq![FrameView { block: ab, idx: 1 }], m: m1 };
            assert(step(c0) == Step::Next(c1)) by {
                assert(c0.frames.update(0, c1.frames[0]) =~= c1.frames);
            }
            let c2 = Cfg { frames: seq![FrameView { block: ab, idx: 2 }], m: m2 };
            assert(step(c1) == Step::Next(c2)) by {
                assert(c1.frames.update(0, c2.frames[0]) =~= c2.frames);
            }
            let c3 = Cfg { frames: Seq::empty(), m: m2 };
            assert(step(c2) == Step::Next(c3)) by {
                assert(c2.frames.drop_last() =~= c3.frames);
            }
            assert(run_steps(c0, 3) == run_steps(c1, 2));
            assert(run_steps(c1, 2) == run_steps(c2, 1));
            assert(run_steps(c2, 1) == run_steps(c3, 0));
            let d1 = Cfg { frames: seq![FrameView { block: seq![c], idx: 1 }], m: m2 };
            assert(step(d0) == Step::Next(d1)) by {
                assert(d0.frames.update(0, d1.frames[0]) =~= d1.frames);
            }
            let d2 = Cfg { frames: Seq::empty(), m: m2 };
            assert(step(d1) == Step::Next(d2)) by {
                assert(d1.frames.drop_last() =~= d2.frames);
            }
            assert(run_steps(d0, 2) == run_steps(d1, 1));
            assert(run_steps(d1, 1) == run_steps(d2, 0));
        }
        (NodeView::Inc(x, o1, false), NodeView::Inc(y, o2, false)) => {
            let q = wrap_idx(m.pos as int, o1 as int);
            lemma_wrap_in_range(m.pos as int, o1 as int);
            lemma_add_mod_twice(m.cells[q], x, y);
            let m1 = Machine { cells: m.cells.update(q, add_mod(m.cells[q], x)), ..m };
            let m2 = Machine {
                cells: m.cells.update(q, add_mod(m.cells[q], (x + y) as u8)),
                ..m
            };
            assert(m1.cells[q] == add_mod(m.cells[q], x));
            assert(m1.cells.update(q, add_mod(m1.cells[q], y)) =~= m2.cells);
            let c1 = Cfg { frames: seq![FrameView { block: ab, idx: 1 }], m: m1 };
            assert(step(c0) == Step::Next(c1)) by {
                assert(c0.frames.update(0, c1.frames[0]) =~= c1.frames);
            }
            let c2 = Cfg { frames: seq![FrameView { block: ab, idx: 2 }], m: m2 };
            assert(step(c1) == Step::Next(c2)) by {
                assert(c1.frames.update(0, c2.frames[0]) =~= c2.frames);
                assert(Machine { cells: m1.cells.update(q, add_mod(m1.cells[q], y)), ..m1 }
                    == m2);
            }
            let c3 = Cfg { frames: Seq::empty(), m: m2 };
            assert(step(c2) == Step::Next(c3)) by {
                assert(c2.frames.drop_last() =~= c3.frames);
            }
            assert(run_steps(c0, 3) == run_steps(c1, 2));
            assert(run_steps(c1, 2) == run_steps(c2, 1));
            assert(run_steps(c2, 1) == run_steps(c3, 0));
            let d1 = Cfg { frames: seq![FrameView { block: seq![c], idx: 1 }], m: m2 };
            assert(step(d0) == Step::Next(d1)) by {
                assert(d0.frames.update(0, d1.frames[0]) =~= d1.frames);
            }
            let d2 = Cfg { frames: Seq::empty(), m: m2 };
            assert(step(d1) == Step::Next(d2)) by {
                assert(d1.frames.drop_last() =~= d2.frames);
            }
            assert(run_steps(d0, 2) == run_steps(d1, 1));
            assert(run_steps(d1, 1) == run_steps(d2, 0));
        }
        (NodeView::Dec(x, o1, false), NodeView::Dec(y, o2, false)) => {
            let q = wrap_idx(m.pos as int, o1 as int);
            lemma_wrap_in_range(m.pos as int, o1 as int);
            lemma_sub_mod_twice(m.cells[q], x, y);
            let m1 = Machine { cells: m.cells.update(q, sub_mod(m.cells[q], x)), ..m };
            let m2 = Machine {
                cells: m.cells.update(q, sub_mod(m.cells[q], (x + y) as u8)),
                ..m
            };
            assert(m1.cells[q] == sub_mod(m.cells[q], x));
            assert(m1.cells.update(q, sub_mod(m1.cells[q], y)) =~= m2.cells);
            let c1 = Cfg { frames: seq![FrameView { block: ab, idx: 1 }], m: m1 };
            assert(step(c0) == Step::Next(c1)) by {
                assert(c0.frames.update(0, c1.frames[0]) =~= c1.frames);
            }
            let c2 = Cfg { frames: seq![FrameView { block: ab, idx: 2 }], m: m2 };
            assert(step(c1) == Step::Next(c2)) by {
                assert(c1.frames.update(0, c2.frames[0]) =~= c2.frames);
                assert(Machine { cells: m1.cells.update(q, sub_mod(m1.cells[q], y)), ..m1 }
                    == m2);
            }
            let c3 = Cfg { frames: Seq::empty(), m: m2 };
            assert(step(c2) == Step::Next(c3)) by {
                assert(c2.frames.drop_last() =~= c3.frames);
            }
            assert(run_steps(c0, 3) == run_steps(c1, 2));
            assert(run_steps(c1, 2) == run_steps(c2, 1));
            assert(run_steps(c2, 1) == run_steps(c3, 0));
            let d1 = Cfg { frames: seq![FrameView { block: seq![c], idx: 1 }], m: m2 };
            assert(step(d0) == Step::Next(d1)) by {
                assert(d0.frames.update(0, d1.frames[0]) =~= d1.frames);
            }
            let d2 = Cfg { frames: Seq::empty(), m: m2 };
            assert(step(d1) == Step::Next(d2)) by {
                assert(d1.frames.drop_last() =~= d2.frames);
            }
            assert(run_steps(d0, 2) == run_steps(d1, 1));
            assert(run_steps(d1, 1) == run_steps(d2, 0));
        }
        _ => {}
    }
}

/// The assignment-fold step preserves meaning: an `Assign(0)` followed by an
/// `Inc` or `Dec` at the same offset and the single folded constant
/// assignment complete on the same final machine.
#[verifier::spinoff_prover]
#[verifier::rlimit(60)]
pub proof fn lemma_assign_fold_equiv(m: Machine, o: i32, v: u8, dec: bool)
    requires
        m.wf(),
    ensures
        ({
            let second = if dec {
                NodeView::Dec(v, o, false)
            } else {
                NodeView::Inc(v, o, false)
            };
            let folded = NodeView::Assign(
                if dec {
                    sub_mod(0, v)
                } else {
                    v
                },
                o,
                false,
            );
            let pair = seq![NodeView::Assign(0, o, false), second];
            &&& run_steps(init_cfg(pair, m), 3) is Done
            &&& run_steps(init_cfg(pair, m), 3) == run_steps(init_cfg(seq![folded], m), 2)
        }),
{
    let second = if dec {
        NodeView::Dec(v, o, false)
    } else {
        NodeView::Inc(v, o, false)
    };
    let w = if dec {
        sub_mod(0, v)
    } else {
        v
    };
    let folded = NodeView::Assign(w, o, false);
    let pair = seq![NodeView::Assign(0, o, false), second];
    let q = wrap_idx(m.pos as int, o as int);
    lemma_wrap_in_range(m.pos as int, o as int);
    let c0 = init_cfg(pair, m);
    let d0 = init_cfg(seq![folded], m);
    let m1 = Machine { cells: m.cells.update(q, 0), ..m };
    let m2 = Machine { cells: m.cells.update(q, w), ..m };
    assert(m1.cells[q] == 0);
    if dec {
        assert(m1.cells.update(q, sub_mod(m1.cells[q], v)) =~= m2.cells);
    } else {
        assert(add_mod(0, v) == v) by {
            vstd::arithmetic::div_mod::lemma_small_mod(v as nat, 256);
        }
        assert(m1.cells.update(q, add_mod(m1.cells[q], v)) =~= m2.cells);
    }
    let c1 = Cfg { frames: seq![FrameView { block: pair, idx: 1 }], m: m1 };
    assert(step(c0) == Step::Next(c1)) by {
        assert(c0.frames.update(0, c1.frames[0]) =~= c1.frames);
    }
    let c2 = Cfg { frames: seq![FrameView { block: pair, idx: 2 }], m: m2 };
    assert(step(c1) == Step::Next(c2)) by {
        assert(c1.frames.update(0, c2.frames[0]) =~= c2.frames);
        if dec {
            assert(Machine { cells: m1.cells.update(q, sub_mod(m1.cells[q], v)), ..m1 } == m2);
        } else {
            assert(Machine { cells: m1.cells.update(q, add_mod(m1.cells[q], v)), ..m1 } == m2);
        }
    }
    let c3 = Cfg { frames: Seq::empty(), m: m2 };
    assert(step(c2) == Step::Next(c3)) by {
        assert(c2.frames.drop_last() =~= c3.frames);
    }
    assert(run_steps(c0, 3) == run_steps(c1, 2));
    assert(run_steps(c1, 2) == run_steps(c2, 1));
    assert(run_steps(c2, 1) == run_steps(c3, 0));
    let d1 = Cfg { frames: seq![FrameView { block: seq![folded], idx: 1 }], m: m2 };
    assert(step(d0) == Step::Next(d1)) by {
        assert(d0.frames.update(0, d1.frames[0]) =~= d1.frames);
    }
    let d2 = Cfg { frames: Seq::empty(), m: m2 };
    assert(step(d1) == Step::Next(d2)) by {
        assert(d1.frames.drop_last() =~= d2.frames);
    }
    assert(run_steps(d0, 2) == run_steps(d1, 1));
    assert(run_steps(d1, 1) == run_steps(d2, 0));
}

/// The shift-absorb step preserves meaning: a `Shift` before a zero-offset,
/// non-committing `Inc` and the single committing `Inc` at the shift's
/// displacement complete on the same final machine.
#[verifier::spinoff_prover]
#[verifier::rlimit(60)]
pub proof fn lemma_absorb_shift_inc_equiv(m: Machine, sh: i32, v: u8)
    requires
        m.wf(),
    ensures
        ({
            let pair = seq![NodeView::Shift(sh), NodeView::Inc(v, 0, false)];
            let fused = NodeView::Inc(v, sh, true);
            &&& run_steps(init_cfg(pair, m), 3) is Done
            &&& run_steps(init_cfg(pair, m), 3) == run_steps(init_cfg(seq![fused], m), 2)
        }),
{
    let pair = seq![NodeView::Shift(sh), NodeView::Inc(v, 0, false)];
    let fused = NodeView::Inc(v, sh, true);
    let q = wrap_idx(m.pos as int, sh as int);
    lemma_wrap_in_range(m.pos as int, sh as int);
    assert(wrap_idx(q, 0) == q) by {
        vstd::arithmetic::div_mod::lemma_small_mod(q as nat, TAPE_LEN as nat);
    }
    let c0 = init_cfg(pair, m);
    let d0 = init_cfg(seq![fused], m);
    let m1 = Machine { pos: q, ..m };
    let m2 = Machine { cells: m.cells.update(q, add_mod(m.cells[q], v)), pos: q, ..m };
    let c1 = Cfg { frames: seq![FrameView { block: pair, idx: 1 }], m: m1 };
    assert(step(c0) == Step::Next(c1)) by {
        assert(c0.frames.update(0, c1.frames[0]) =~= c1.frames);
    }
    let c2 = Cfg { frames: seq![FrameView { block: pair, idx: 2 }], m: m2 };
    assert(step(c1) == Step::Next(c2)) by {
        assert(c1.frames.update(0, c2.frames[0]) =~= c2.frames);
        assert(Machine { cells: m1.cells.update(q, add_mod(m1.cells[q], v)), pos: q, ..m1 }
            == m2);
    }
    let c3 = Cfg { frames: Seq::empty(), m: m2 };
    assert(step(c2) == Step::Next(c3)) by {
        assert(c2.frames.drop_last() =~= c3.frames);
    }
    assert(run_steps(c0, 3) == run_steps(c1, 2));
    assert(run_steps(c1, 2) == run_steps(c2, 1));
    assert(run_steps(c2, 1) == run_steps(c3, 0));
    let d1 = Cfg { frames: seq![FrameView { block: seq![fused], idx: 1 }], m: m2 };
    assert(step(d0) == Step::Next(d1)) by {
        assert(d0.frames.update(0, d1.frames[0]) =~= d1.frames);
    }
    let d2 = Cfg { frames: Seq::empty(), m: m2 };
    assert(step(d1) == Step::Next(d2)) by {
        assert(d1.frames.drop_last() =~= d2.frames);
    }
    assert(run_steps(d0, 2) == run_steps(d1, 1));
    assert(run_steps(d1, 1) == run_steps(d2, 0));
}

/// With opposite signs and the offset the larger, the residual before the
/// instruction carries their sum.
proof fn lemma_residual_before(o: int, sh: int)
    requires
        sgn(o) != sgn(sh),
        iabs(o) - iabs(sh) > 0,
    ensures
        sgn(o) * (iabs(o) - iabs(sh)) == o + sh,
        o != 0,
{
    let d = iabs(o) - iabs(sh);
    if o > 0 {
        assert(d == o + sh);
        assert(sgn(o) * d == d) by (nonlinear_arith)
            requires
                sgn(o) == 1,
        ;
    } else if o < 0 {
        assert(d == -(o + sh));
        assert(sgn(o) * d == -d) by (nonlinear_arith)
            requires
                sgn(o) == -1,
        ;
    }
}

/// With opposite signs and the shift the larger, the residual after the
/// instruction carries their sum.
proof fn lemma_residual_after(o: int, sh: int)
    requires
        sgn(o) != sgn(sh),
        iabs(o) - iabs(sh) < 0,
    ensures
        sgn(sh) * (-(iabs(o) - iabs(sh))) == o + sh,
        sh != 0,
{
    let d = -(iabs(o) - iabs(sh));
    if sh > 0 {
        assert(d == o + sh);
        assert(sgn(sh) * d == d) by (nonlinear_arith)
            requires
                sgn(sh) == 1,
        ;
    } else if sh < 0 {
        assert(d == -(o + sh));
        assert(sgn(sh) * d == -d) by (nonlinear_arith)
            requires
                sgn(sh) == -1,
        ;
    }
}

/// The shift-reduce step preserves meaning for a committing `Inc` followed
/// by an opposite-signed `Shift`: the reduced sequence completes on the same
/// final machine.
#[verifier::spinoff_prover]
#[verifier::rlimit(100)]
pub proof fn lemma_split_shift_inc_equiv(m: Machine, o: i32, sh: i32, v: u8)
    requires
        m.wf(),
        sgn(o as int) != sgn(sh as int),
    ensures
        ({
            let pair = seq![NodeView::Inc(v, o, true), NodeView::Shift(sh)];
            let reduced = split_shift(NodeView::Inc(v, o, true), o as int, sh as int);
            &&& run_steps(init_cfg(pair, m), 3) is Done
            &&& run_steps(init_cfg(pair, m), 3) == run_steps(init_cfg(reduced, m), 3)
        }),
{
    let pair = seq![NodeView::Inc(v, o, true), NodeView::Shift(sh)];
    let diff = iabs(o as int) - iabs(sh as int);
    let reduced = split_shift(NodeView::Inc(v, o, true), o as int, sh as int);
    let q = wrap_idx(m.pos as int, o as int);
    lemma_wrap_in_range(m.pos as int, o as int);
    lemma_wrap_twice(m.pos as int, o as int, sh as int);
    let fpos = wrap_idx(m.pos as int, o + sh);
    lemma_wrap_in_range(m.pos as int, o + sh);
    let fin = Machine { cells: m.cells.update(q, add_mod(m.cells[q], v)), pos: fpos, ..m };

    // The original pair: commit to the cell's address, then shift away.
    let m1 = Machine { cells: m.cells.update(q, add_mod(m.cells[q], v)), pos: q, ..m };
    let c0 = init_cfg(pair, m);
    let c1 = Cfg { frames: seq![FrameView { block: pair, idx: 1 }], m: m1 };
    assert(step(c0) == Step::Next(c1)) by {
        assert(c0.frames.update(0, c1.frames[0]) =~= c1.frames);
    }
    let c2 = Cfg { frames: seq![FrameView { block: pair, idx: 2 }], m: fin };
    assert(step(c1) == Step::Next(c2)) by {
        assert(c1.frames.update(0, c2.frames[0]) =~= c2.frames);
        assert(Machine { pos: wrap_idx(q, sh as int), ..m1 } == fin);
    }
    let c3 = Cfg { frames: Seq::empty(), m: fin };
    assert(step(c2) == Step::Next(c3)) by {
        assert(c2.frames.drop_last() =~= c3.frames);
    }
    assert(run_steps(c0, 3) == run_steps(c1, 2));
    assert(run_steps(c1, 2) == run_steps(c2, 1));
    assert(run_steps(c2, 1) == run_steps(c3, 0));

    let d0 = init_cfg(reduced, m);
    if diff == 0 {
        // The shift is fully absorbed: one non-committing node.
        assert(fpos == wrap_idx(m.pos as int, 0));
        assert(fpos == m.pos) by {
            vstd::arithmetic::div_mod::lemma_small_mod(m.pos as nat, TAPE_LEN as nat);
        }
        let d1 = Cfg {
            frames: seq![FrameView { block: reduced, idx: 1 }],
            m: Machine { cells: fin.cells, ..m },
        };
        assert(step(d0) == Step::Next(d1)) by {
            assert(d0.frames.update(0, d1.frames[0]) =~= d1.frames);
        }
        let d2 = Cfg { frames: Seq::empty(), m: d1.m };
        assert(step(d1) == Step::Next(d2)) by {
            assert(d1.frames.drop_last() =~= d2.frames);
        }
        assert(d1.m == fin);
        assert(run_steps(d0, 3) == run_steps(d1, 2));
        assert(run_steps(d1, 2) == run_steps(d2, 1));
        assert(run_steps(d2, 1) == Outcome::Done(fin));
    } else if diff > 0 {
        // The residual shift comes first; the instruction keeps the rest.
        let w = sgn(o as int) * diff;
        lemma_residual_before(o as int, sh as int);
        assert(reduced == seq![
            NodeView::Shift(w as i32),
            NodeView::Inc(v, (o - w) as i32, false),
        ]);
        assert(w as i32 as int == w);
        assert((o - w) as i32 as int == o - w);
        let d1 = Cfg {
            frames: seq![FrameView { block: reduced, idx: 1 }],
            m: Machine { pos: fpos, ..m },
        };
        assert(step(d0) == Step::Next(d1)) by {
            assert(d0.frames.update(0, d1.frames[0]) =~= d1.frames);
        }
        lemma_wrap_twice(m.pos as int, w, o - w);
        assert(wrap_idx(fpos, o - w) == q);
        let d2 = Cfg { frames: seq![FrameView { block: reduced, idx: 2 }], m: fin };
        assert(step(d1) == Step::Next(d2)) by {
            assert(d1.frames.update(0, d2.frames[0]) =~= d2.frames);
            assert(Machine { cells: d1.m.cells.update(q, add_mod(d1.m.cells[q], v)), ..d1.m }
                == fin);
        }
        let d3 = Cfg { frames: Seq::empty(), m: fin };
        assert(step(d2) == Step::Next(d3)) by {
            assert(d2.frames.drop_last() =~= d3.frames);
        }
        assert(run_steps(d0, 3) == run_steps(d1, 2));
        assert(run_steps(d1, 2) == run_steps(d2, 1));
        assert(run_steps(d2, 1) == run_steps(d3, 0));
    } else {
        // The instruction comes first; the residual shift follows it,
        // carrying the shift's own sign.
        let w = sgn(sh as int) * (-diff);
        lemma_residual_after(o as int, sh as int);
        assert(reduced == seq![
            NodeView::Inc(v, o, false),
            NodeView::Shift(w as i32),
        ]);
        assert(w as i32 as int == w);
        let d1 = Cfg {
            frames: seq![FrameView { block: reduced, idx: 1 }],
            m: Machine { cells: fin.cells, ..m },
        };
        assert(step(d0) == Step::Next(d1)) by {
            assert(d0.frames.update(0, d1.frames[0]) =~= d1.frames);
        }
        lemma_wrap_twice(m.pos as int, 0, w);
        assert(wrap_idx(m.pos as int, w) == fpos);
        let d2 = Cfg { frames: seq![FrameView { block: reduced, idx: 2 }], m: fin };
        assert(step(d1) == Step::Next(d2)) by {
            assert(d1.frames.update(0, d2.frames[0]) =~= d2.frames);
            assert(Machine { pos: wrap_idx(d1.m.pos, w), ..d1.m } == fin);
        }
        let d3 = Cfg { frames: Seq::empty(), m: fin };
        assert(step(d2) == Step::Next(d3)) by {
            assert(d2.frames.drop_last() =~= d3.frames);
        }
        assert(run_steps(d0, 3) == run_steps(d1, 2));
        assert(run_steps(d1, 2) == run_steps(d2, 1));
        assert(run_steps(d2, 1) == run_steps(d3, 0));
    }
}

/// The signed amount one non-committing `Inc`/`Dec` adds to the cell at
/// absolute index `q`, when run with the pointer at `p`; zero for every
/// other node kind.
pub open spec fn node_delta(n: NodeView, p: int, q: int) -> int {
    match n {
        NodeView::Inc(v, off, false) => if wrap_idx(p, off as int) == q {
            v as int
        } else {
            0
        },
        NodeView::Dec(v, off, false) => if wrap_idx(p, off as int) == q {
            -(v as int)
        } else {
            0
        },
        _ => 0,
    }
}

/// The signed amount one pass over `body[i..]` adds to the cell at `q`.
pub open spec fn body_delta(body: Seq<NodeView>, i: int, p: int, q: int) -> int
    decreases body.len() - i,
{
    if i < 0 || i >= body.len() {
        0
    } else {
        node_delta(body[i], p, q) + body_delta(body, i + 1, p, q)
    }
}

/// The tape after one pass over `body[i..]` with the pointer at `p`.
pub open spec fn cells_after(cells: Seq<u8>, body: Seq<NodeView>, i: int, p: int) -> Seq<u8> {
    Seq::new(cells.len(), |q: int| ((cells[q] + body_delta(body, i, p, q)) % 256) as u8)
}

/// Running the rest of a frame of non-committing `Inc`/`Dec` nodes takes one
/// step per node plus the pop, adds each node's amount to its cell, and
/// touches nothing else.
#[verifier::spinoff_prover]
#[verifier::rlimit(60)]
proof fn lemma_simple_frame_runs(
    base: Seq<FrameView>,
    body: Seq<NodeView>,
    i: int,
    m: Machine,
    f: nat,
)
    requires
        m.wf(),
        0 <= i <= body.len(),
        forall|j: int|
            0 <= j < body.len() ==> (#[trigger] body[j] matches NodeView::Inc(_, _, false)
                || body[j] matches NodeView::Dec(_, _, false)),
    ensures
        run_steps(
            Cfg { frames: base.push(FrameView { block: body, idx: i }), m },
            (body.len() - i + 1 + f) as nat,
        ) == run_steps(
            Cfg { frames: base, m: Machine { cells: cells_after(m.cells, body, i, m.pos), ..m } },
            f,
        ),
    decreases body.len() - i,
{
    let c0 = Cfg { frames: base.push(FrameView { block: body, idx: i }), m };
    if i == body.len() {
        // Only the pop is left, and the pass adds nothing.
        let m2 = Machine { cells: cells_after(m.cells, body, i, m.pos), ..m };
        assert(m2.cells =~= m.cells) by {
            assert forall|q: int| 0 <= q < m.cells.len() implies ((m.cells[q] + body_delta(
                body,
                i,
                m.pos,
                q,
            )) % 256) as u8 == m.cells[q] by {
                lemma_small_mod(m.cells[q] as nat, 256);
            }
        }
        assert(step(c0) == Step::Next(Cfg { frames: base, m })) by {
            assert(c0.frames.drop_last() =~= base);
        }
        assert(run_steps(c0, (1 + f) as nat) == run_steps(Cfg { frames: base, m }, f));
        assert(Machine { cells: cells_after(m.cells, body, i, m.pos), ..m } == m);
    } else {
        let p = m.pos;
        let n = body[i];
        let off = (match n {
            NodeView::Inc(_, o, _) => o,
            NodeView::Dec(_, o, _) => o,
            _ => 0,
        }) as int;
        let amt = match n {
            NodeView::Inc(v, _, _) => v as int,
            NodeView::Dec(v, _, _) => -(v as int),
            _ => 0,
        };
        let q0 = wrap_idx(p, off);
        lemma_wrap_in_range(p, off);
        let written = if amt >= 0 {
            add_mod(m.cells[q0], amt as u8)
        } else {
            sub_mod(m.cells[q0], (-amt) as u8)
        };
        let m1 = Machine { cells: m.cells.update(q0, written), ..m };
        let c1 = Cfg { frames: base.push(FrameView { block: body, idx: i + 1 }), m: m1 };
        assert(step(c0) == Step::Next(c1)) by {
            assert(c0.frames.update(c0.frames.len() - 1, FrameView { block: body, idx: i + 1 })
                =~= c1.frames);
            assert(Machine { cells: m.cells.update(q0, written), pos: m.pos, ..m } == m1);
        }
        lemma_simple_frame_runs(base, body, i + 1, m1, f);
        assert(run_steps(c0, (body.len() - i + 1 + f) as nat) == run_steps(
            c1,
            (body.len() - (i + 1) + 1 + f) as nat,
        ));
        // The one-step update then the rest of the pass equals the whole pass.
        assert(cells_after(m1.cells, body, i + 1, p) =~= cells_after(m.cells, body, i, p)) by {
            assert forall|q: int| 0 <= q < m.cells.len() implies ((m1.cells[q] + body_delta(
                body,
                i + 1,
                p,
                q,
            )) % 256) as u8 == ((m.cells[q] + body_delta(body, i, p, q)) % 256) as u8 by {
                if q == q0 {
                    assert(written as int == (m.cells[q0] + amt) % 256) by {
                        if amt >= 0 {
                        } else {
                            vstd::arithmetic::div_mod::lemma_mod_add_multiples_vanish(
                                m.cells[q0] + amt,
                                256,
                            );
                        }
                    }
                    lemma_add_mod_noop_right(
                        body_delta(body, i + 1, p, q),
                        m.cells[q0] + amt,
                        256,
                    );
                    assert(node_delta(n, p, q) == amt);
                } else {
                    assert(node_delta(n, p, q) == 0);
                }
            }
        }
    }
}

/// How many exact `Dec(1, 0, false)` counter decrements `body[i..]` holds.
pub open spec fn unit_dec_count(body: Seq<NodeView>, i: int) -> int
    decreases body.len() - i,
{
    if i < 0 || i >= body.len() {
        0
    } else {
        (if body[i] == NodeView::Dec(1, 0, false) {
            1int
        } else {
            0int
        }) + unit_dec_count(body, i + 1)
    }
}

/// The multiplication-loop shape on which the collapse is exact: nothing but
/// non-committing `Inc`/`Dec`, exactly one counter decrement, and no other
/// node addressing the counter cell.
pub open spec fn mult_loop_shape(body: Seq<NodeView>) -> bool {
    &&& body.len() > 0
    &&& (forall|j: int|
        0 <= j < body.len() ==> (#[trigger] body[j] matches NodeView::Inc(_, _, false)
            || body[j] matches NodeView::Dec(_, _, false)))
    &&& unit_dec_count(body, 0) == 1
    &&& (forall|j: int|
        0 <= j < body.len() ==> (#[trigger] body[j] == NodeView::Dec(1, 0, false) || (match body[j] {
            NodeView::Inc(_, off, _) => off as int % (TAPE_LEN as int) != 0,
            NodeView::Dec(_, off, _) => off as int % (TAPE_LEN as int) != 0,
            _ => true,
        })))
}

/// A displacement that is not a multiple of the tape length moves the
/// pointer somewhere else.
proof fn lemma_wrap_moves(p: int, off: int)
    requires
        0 <= p < TAPE_LEN,
        off % (TAPE_LEN as int) != 0,
    ensures
        wrap_idx(p, off) != p,
{
    let n = TAPE_LEN as int;
    lemma_add_mod_noop_right(p, off, n);
    lemma_mod_bound(off, n);
    let r = off % n;
    if p + r < n {
        lemma_small_mod((p + r) as nat, n as nat);
    } else {
        vstd::arithmetic::div_mod::lemma_mod_sub_multiples_vanish(p + r, n);
        lemma_small_mod((p + r - n) as nat, n as nat);
    }
}

/// One pass over a multiplication-loop body moves the counter cell down by
/// exactly the number of counter decrements it holds.
proof fn lemma_body_delta_counter(body: Seq<NodeView>, i: int, p: int)
    requires
        0 <= i <= body.len(),
        0 <= p < TAPE_LEN,
        forall|j: int|
            0 <= j < body.len() ==> (#[trigger] body[j] == NodeView::Dec(1, 0, false) || (
            match body[j] {
                NodeView::Inc(_, off, _) => off as int % (TAPE_LEN as int) != 0,
                NodeView::Dec(_, off, _) => off as int % (TAPE_LEN as int) != 0,
                _ => true,
            })),
    ensures
        body_delta(body, i, p, p) == -unit_dec_count(body, i),
    decreases body.len() - i,
{
    if i < body.len() {
        lemma_body_delta_counter(body, i + 1, p);
        if body[i] == NodeView::Dec(1, 0, false) {
            assert(wrap_idx(p, 0) == p) by {
                lemma_small_mod(p as nat, TAPE_LEN as nat);
            }
            assert(node_delta(body[i], p, p) == -1);
        } else {
            match body[i] {
                NodeView::Inc(_, off, _) => lemma_wrap_moves(p, off as int),
                NodeView::Dec(_, off, _) => lemma_wrap_moves(p, off as int),
                _ => {}
            }
            assert(node_delta(body[i], p, p) == 0);
        }
    }
}

/// The machine a multiplication loop leaves behind: the counter cell zero,
/// every other cell moved by the counter's value times the body's one-pass
/// contribution.
pub open spec fn mult_loop_final(m: Machine, body: Seq<NodeView>) -> Machine {
    Machine {
        cells: Seq::new(
            m.cells.len(),
            |q: int|
                if q == m.pos {
                    0u8
                } else {
                    ((m.cells[q] + (m.cells[m.pos] as int) * body_delta(body, 0, m.pos, q))
                        % 256) as u8
                },
        ),
        ..m
    }
}

/// The frame stack that walks one block.
spec fn block_frames(block: Seq<NodeView>) -> Seq<FrameView> {
    seq![FrameView { block, idx: 0 }]
}

/// Running a multiplication loop takes one check plus one pass per count in
/// the counter cell, and lands exactly on `mult_loop_final`.
#[verifier::spinoff_prover]
#[verifier::rlimit(60)]
pub proof fn lemma_mult_loop_runs(body: Seq<NodeView>, m: Machine)
    requires
        m.wf(),
        mult_loop_shape(body),
    ensures
        run_steps(
            init_cfg(seq![NodeView::Conditional(body)], m),
            ((m.cells[m.pos] as int) * (body.len() + 2) + 2) as nat,
        ) == Outcome::Done(mult_loop_final(m, body)),
    decreases m.cells[m.pos],
{
    let p = m.pos;
    let v = m.cells[p] as int;
    let block = seq![NodeView::Conditional(body)];
    let c0 = init_cfg(block, m);
    if v == 0 {
        let c1 = Cfg { frames: seq![FrameView { block, idx: 1 }], m };
        assert(step(c0) == Step::Next(c1)) by {
            assert(c0.frames.update(0, c1.frames[0]) =~= c1.frames);
        }
        let c2 = Cfg { frames: Seq::empty(), m };
        assert(step(c1) == Step::Next(c2)) by {
            assert(c1.frames.drop_last() =~= c2.frames);
        }
        assert(run_steps(c0, 2) == run_steps(c1, 1));
        assert(run_steps(c1, 1) == run_steps(c2, 0));
        lemma_mult_final_zero(m, body);
    } else {
        let c1 = Cfg { frames: block_frames(block).push(FrameView { block: body, idx: 0 }), m };
        assert(step(c0) == Step::Next(c1)) by {
            assert(c0.frames.push(FrameView { block: body, idx: 0 }) =~= c1.frames);
        }
        let m1 = Machine { cells: cells_after(m.cells, body, 0, p), ..m };
        assert(v * (body.len() + 2) + 2 == 1 + (body.len() + 1) + ((v - 1) * (body.len() + 2)
            + 2)) by (nonlinear_arith)
            requires v >= 1;
        assert((v - 1) * (body.len() + 2) >= 0) by (nonlinear_arith)
            requires v >= 1;
        let rest = ((v - 1) * (body.len() + 2) + 2) as nat;
        lemma_simple_frame_runs(block_frames(block), body, 0, m, rest);
        assert(Cfg { frames: block_frames(block), m: m1 } == init_cfg(block, m1));
        lemma_body_delta_counter(body, 0, p);
        assert(m1.cells[p] as int == v - 1) by {
            assert(m1.cells[p] as int == (v - 1) % 256);
            lemma_small_mod((v - 1) as nat, 256);
        }
        assert(m1.wf());
        lemma_mult_loop_runs(body, m1);
        assert(run_steps(c0, ((v * (body.len() + 2)) + 2) as nat) == run_steps(
            c1,
            (body.len() + 1 + rest) as nat,
        ));
        assert(run_steps(c1, (body.len() + 1 + rest) as nat) == run_steps(
            init_cfg(block, m1),
            rest,
        ));
        lemma_mult_final_step(m, m1, body);
    }
}


/// A zero counter makes the multiplication loop a no-op.
proof fn lemma_mult_final_zero(m: Machine, body: Seq<NodeView>)
    requires
        m.wf(),
        m.cells[m.pos] == 0,
    ensures
        mult_loop_final(m, body) == m,
{
    assert(mult_loop_final(m, body).cells =~= m.cells) by {
        assert forall|q: int| 0 <= q < m.cells.len() implies mult_loop_final(m, body).cells[q]
            == m.cells[q] by {
            if q != m.pos {
                lemma_small_mod(m.cells[q] as nat, 256);
            }
        }
    }
}

/// One pass through the body followed by the remaining passes lands where
/// all the passes at once land.
proof fn lemma_mult_final_step(m: Machine, m1: Machine, body: Seq<NodeView>)
    requires
        m.wf(),
        m.cells[m.pos] >= 1,
        m1 == (Machine { cells: cells_after(m.cells, body, 0, m.pos), ..m }),
        m1.cells[m.pos] as int == m.cells[m.pos] - 1,
    ensures
        mult_loop_final(m1, body) == mult_loop_final(m, body),
{
    let p = m.pos;
    let v = m.cells[p] as int;
    assert(mult_loop_final(m1, body).cells =~= mult_loop_final(m, body).cells) by {
        assert forall|q: int| 0 <= q < m.cells.len() implies mult_loop_final(m1, body).cells[q]
            == mult_loop_final(m, body).cells[q] by {
            if q != p {
                let d = body_delta(body, 0, p, q);
                assert(m1.cells[q] as int == (m.cells[q] + d) % 256);
                lemma_add_mod_noop_right((v - 1) * d, m.cells[q] + d, 256);
                assert(m.cells[q] + d + (v - 1) * d == m.cells[q] + v * d) by (nonlinear_arith);
            }
        }
    }
}

/// The per-count signed amount one `Mul` node adds to the cell at `q`: its
/// signed factor where its destination is `q`, zero elsewhere.
pub open spec fn mul_delta(n: NodeView, p: int, q: int) -> int {
    match n {
        NodeView::Mul(f, into, 0, false) => if wrap_idx(p, into as int) == q {
            f as int
        } else {
            0
        },
        _ => 0,
    }
}

/// The per-count signed amount the nodes `block[i..bound]` add to `q`.
pub open spec fn mul_block_delta(block: Seq<NodeView>, i: int, bound: int, p: int, q: int) -> int
    decreases bound - i,
{
    if i < 0 || i >= bound || bound > block.len() {
        0
    } else {
        mul_delta(block[i], p, q) + mul_block_delta(block, i + 1, bound, p, q)
    }
}

/// The delta of a range only reads the range: a suffix appended after the
/// bound changes nothing.
proof fn lemma_mul_block_delta_append(
    a: Seq<NodeView>,
    b: Seq<NodeView>,
    i: int,
    bound: int,
    p: int,
    q: int,
)
    requires
        0 <= i,
        bound <= a.len(),
    ensures
        mul_block_delta(a + b, i, bound, p, q) == mul_block_delta(a, i, bound, p, q),
    decreases bound - i,
{
    if i < bound {
        assert((a + b)[i] == a[i]);
        lemma_mul_block_delta_append(a, b, i + 1, bound, p, q);
    }
}

/// Consing one node in front shifts the window one to the right.
proof fn lemma_mul_block_delta_cons(
    x: NodeView,
    r: Seq<NodeView>,
    i: int,
    bound: int,
    p: int,
    q: int,
)
    requires
        0 <= i,
        bound <= r.len(),
    ensures
        mul_block_delta(seq![x] + r, i + 1, bound + 1, p, q) == mul_block_delta(
            r,
            i,
            bound,
            p,
            q,
        ),
    decreases bound - i,
{
    if i < bound {
        assert((seq![x] + r)[i + 1] == r[i]);
        lemma_mul_block_delta_cons(x, r, i + 1, bound, p, q);
    }
}

/// Dropping the head of the body shifts its window one to the left.
proof fn lemma_body_delta_tail(body: Seq<NodeView>, i: int, p: int, q: int)
    requires
        1 <= i <= body.len(),
    ensures
        body_delta(body, i, p, q) == body_delta(
            body.subrange(1, body.len() as int),
            i - 1,
            p,
            q,
        ),
    decreases body.len() - i,
{
    if i < body.len() {
        assert(body.subrange(1, body.len() as int)[i - 1] == body[i]);
        lemma_body_delta_tail(body, i + 1, p, q);
    }
}

/// Every node the multiplication-loop rewrite emits for a well-shaped body
/// is a non-committing, zero-source `Mul` with a byte-sized factor whose
/// destination is off the counter cell.
proof fn lemma_loop_muls_shape(body: Seq<NodeView>)
    requires
        forall|j: int|
            0 <= j < body.len() ==> (#[trigger] body[j] matches NodeView::Inc(_, _, false)
                || body[j] matches NodeView::Dec(_, _, false)),
        forall|j: int|
            0 <= j < body.len() ==> (#[trigger] body[j] == NodeView::Dec(1, 0, false) || (
            match body[j] {
                NodeView::Inc(_, off, _) => off as int % (TAPE_LEN as int) != 0,
                NodeView::Dec(_, off, _) => off as int % (TAPE_LEN as int) != 0,
                _ => true,
            })),
    ensures
        forall|j: int|
            0 <= j < loop_muls(body).len() ==> (match #[trigger] loop_muls(body)[j] {
                NodeView::Mul(f, into, src, mv) => {
                    &&& src == 0
                    &&& mv == false
                    &&& -255 <= f <= 255
                    &&& into as int % (TAPE_LEN as int) != 0
                },
                _ => false,
            }),
    decreases body.len(),
{
    if body.len() > 0 {
        let rest = body.subrange(1, body.len() as int);
        lemma_loop_muls_shape(rest);
        let mr = loop_muls(rest);
        match body[0] {
            NodeView::Inc(v, off, mv) => {
                if !mv {
                    assert forall|j: int| 0 <= j < loop_muls(body).len() implies (
                    match #[trigger] loop_muls(body)[j] {
                        NodeView::Mul(f, into, src, mvx) => {
                            &&& src == 0
                            &&& mvx == false
                            &&& -255 <= f <= 255
                            &&& into as int % (TAPE_LEN as int) != 0
                        },
                        _ => false,
                    }) by {
                        if j >= 1 {
                            assert(loop_muls(body)[j] == mr[j - 1]);
                        }
                    }
                }
            }
            NodeView::Dec(v, off, mv) => {
                if !(v == 1 && off == 0 && !mv) && !mv {
                    assert forall|j: int| 0 <= j < loop_muls(body).len() implies (
                    match #[trigger] loop_muls(body)[j] {
                        NodeView::Mul(f, into, src, mvx) => {
                            &&& src == 0
                            &&& mvx == false
                            &&& -255 <= f <= 255
                            &&& into as int % (TAPE_LEN as int) != 0
                        },
                        _ => false,
                    }) by {
                        if j >= 1 {
                            assert(loop_muls(body)[j] == mr[j - 1]);
                        }
                    }
                }
            }
            _ => {}
        }
    }
}

/// Off the counter cell, the emitted `Mul` nodes carry per count exactly
/// what one pass of the body adds.
proof fn lemma_loop_muls_delta(body: Seq<NodeView>, p: int, q: int)
    requires
        0 <= p < TAPE_LEN,
        q != p,
        forall|j: int|
            0 <= j < body.len() ==> (#[trigger] body[j] matches NodeView::Inc(_, _, false)
                || body[j] matches NodeView::Dec(_, _, false)),
    ensures
        mul_block_delta(loop_muls(body), 0, loop_muls(body).len() as int, p, q) == body_delta(
            body,
            0,
            p,
            q,
        ),
    decreases body.len(),
{
    if body.len() == 0 {
    } else {
        let rest = body.subrange(1, body.len() as int);
        lemma_loop_muls_delta(rest, p, q);
        lemma_body_delta_tail(body, 1, p, q);
        let mr = loop_muls(rest);
        assert(wrap_idx(p, 0) == p) by {
            lemma_small_mod(p as nat, TAPE_LEN as nat);
        }
        match body[0] {
            NodeView::Inc(v, off, mv) => {
                if !mv {
                    let x = NodeView::Mul(v as i16, off, 0, false);
                    assert(loop_muls(body) == seq![x] + mr);
                    assert((seq![x] + mr)[0] == x);
                    lemma_mul_block_delta_cons(x, mr, 0, mr.len() as int, p, q);
                    assert(mul_delta(x, p, q) == node_delta(body[0], p, q));
                }
            }
            NodeView::Dec(v, off, mv) => {
                if v == 1 && off == 0 && !mv {
                    assert(loop_muls(body) == mr);
                    assert(node_delta(body[0], p, q) == 0);
                } else if !mv {
                    let x = NodeView::Mul((-(v as int)) as i16, off, 0, false);
                    assert(loop_muls(body) == seq![x] + mr);
                    assert((seq![x] + mr)[0] == x);
                    lemma_mul_block_delta_cons(x, mr, 0, mr.len() as int, p, q);
                    assert(mul_delta(x, p, q) == node_delta(body[0], p, q));
                }
            }
            _ => {}
        }
    }
}

/// The machine after the `Mul` nodes `block[i..bound]`: each destination
/// moved by the counter's value times the node's signed factor.
pub open spec fn mul_advanced(m: Machine, block: Seq<NodeView>, i: int, bound: int) -> Machine {
    Machine {
        cells: Seq::new(
            m.cells.len(),
            |q: int|
                ((m.cells[q] + (m.cells[m.pos] as int) * mul_block_delta(block, i, bound, m.pos, q))
                    % 256) as u8,
        ),
        ..m
    }
}

/// Walking the `Mul` prefix of a frame takes one step per node and moves
/// each destination cell by the counter times the factor; the counter cell
/// itself, which no destination hits, keeps feeding every node the same
/// source value.
#[verifier::spinoff_prover]
#[verifier::rlimit(100)]
proof fn lemma_mul_frame_advance(block: Seq<NodeView>, i: int, bound: int, m: Machine, f: nat)
    requires
        m.wf(),
        0 <= i <= bound <= block.len(),
        forall|j: int|
            i <= j < bound ==> (match #[trigger] block[j] {
                NodeView::Mul(f2, into, src, mv) => {
                    &&& src == 0
                    &&& mv == false
                    &&& -255 <= f2 <= 255
                    &&& into as int % (TAPE_LEN as int) != 0
                },
                _ => false,
            }),
    ensures
        run_steps(
            Cfg { frames: seq![FrameView { block, idx: i }], m },
            (bound - i + f) as nat,
        ) == run_steps(
            Cfg {
                frames: seq![FrameView { block, idx: bound }],
                m: mul_advanced(m, block, i, bound),
            },
            f,
        ),
    decreases bound - i,
{
    let p = m.pos;
    let v = m.cells[p] as int;
    if i == bound {
        assert(mul_advanced(m, block, i, bound).cells =~= m.cells) by {
            assert forall|q: int| 0 <= q < m.cells.len() implies mul_advanced(
                m,
                block,
                i,
                bound,
            ).cells[q] == m.cells[q] by {
                lemma_small_mod(m.cells[q] as nat, 256);
            }
        }
        assert(mul_advanced(m, block, i, bound) == m);
    } else {
        let n = block[i];
        let f2 = n->Mul_0;
        let into = n->Mul_1;
        assert(wrap_idx(p, 0) == p) by {
            lemma_small_mod(p as nat, TAPE_LEN as nat);
        }
        let q0 = wrap_idx(p, into as int);
        lemma_wrap_in_range(p, into as int);
        lemma_wrap_moves(p, into as int);
        lemma_mul_write_value(m.cells[q0], m.cells[p], f2);
        let amt = mul_amt(m.cells[p], f2);
        let written = if f2 >= 0 {
            add_mod(m.cells[q0], amt)
        } else {
            sub_mod(m.cells[q0], amt)
        };
        assert(written as int == (m.cells[q0] + v * (f2 as int)) % 256);
        let m1 = Machine { cells: m.cells.update(q0, written), ..m };
        let c1 = Cfg { frames: seq![FrameView { block, idx: i + 1 }], m: m1 };
        assert(step(Cfg { frames: seq![FrameView { block, idx: i }], m }) == Step::Next(c1))
            by {
            let c0 = Cfg { frames: seq![FrameView { block, idx: i }], m };
            assert(c0.frames.update(0, FrameView { block, idx: i + 1 }) =~= c1.frames);
            assert(Machine { cells: m.cells.update(q0, written), pos: m.pos, ..m } == m1);
        }
        lemma_mul_frame_advance(block, i + 1, bound, m1, f);
        assert(run_steps(
            Cfg { frames: seq![FrameView { block, idx: i }], m },
            (bound - i + f) as nat,
        ) == run_steps(c1, (bound - (i + 1) + f) as nat));
        assert(m1.cells[p] == m.cells[p]);
        assert(mul_advanced(m1, block, i + 1, bound).cells =~= mul_advanced(
            m,
            block,
            i,
            bound,
        ).cells) by {
            assert forall|q: int| 0 <= q < m.cells.len() implies mul_advanced(
                m1,
                block,
                i + 1,
                bound,
            ).cells[q] == mul_advanced(m, block, i, bound).cells[q] by {
                let dd = mul_block_delta(block, i + 1, bound, p, q);
                if q == q0 {
                    assert(mul_delta(n, p, q) == f2 as int);
                    lemma_add_mod_noop_right(v * dd, m.cells[q0] + v * (f2 as int), 256);
                    assert(v * (f2 as int) + v * dd == v * ((f2 as int) + dd))
                        by (nonlinear_arith);
                } else {
                    assert(mul_delta(n, p, q) == 0);
                }
            }
        }
        assert(mul_advanced(m1, block, i + 1, bound) == mul_advanced(m, block, i, bound));
    }
}

/// The multiplication-loop rewrite preserves meaning on the shape it is
/// exact for: from every well-formed machine, the loop and its replacement
/// (the `Mul` nodes followed by the `Assign` that zeroes the counter) run to
/// the same final machine.
#[verifier::spinoff_prover]
#[verifier::rlimit(100)]
pub proof fn lemma_mult_loop_equiv(body: Seq<NodeView>, m: Machine)
    requires
        m.wf(),
        mult_loop_shape(body),
    ensures
        exists|f: nat|
            run_steps(init_cfg(seq![NodeView::Conditional(body)], m), f) == Outcome::Done(
                mult_loop_final(m, body),
            ),
        exists|f: nat|
            run_steps(
                init_cfg(loop_muls(body) + seq![NodeView::Assign(0, 0, false)], m),
                f,
            ) == Outcome::Done(mult_loop_final(m, body)),
{
    let p = m.pos;
    let v = m.cells[p] as int;
    lemma_mult_loop_runs(body, m);
    assert(run_steps(
        init_cfg(seq![NodeView::Conditional(body)], m),
        ((m.cells[m.pos] as int) * (body.len() + 2) + 2) as nat,
    ) == Outcome::Done(mult_loop_final(m, body)));

    let muls = loop_muls(body);
    let block = muls + seq![NodeView::Assign(0, 0, false)];
    let bound = muls.len() as int;
    lemma_loop_muls_shape(body);
    assert forall|j: int| 0 <= j < bound implies (match #[trigger] block[j] {
        NodeView::Mul(f2, into, src, mv) => {
            &&& src == 0
            &&& mv == false
            &&& -255 <= f2 <= 255
            &&& into as int % (TAPE_LEN as int) != 0
        },
        _ => false,
    }) by {
        assert(block[j] == muls[j]);
    }
    lemma_mul_frame_advance(block, 0, bound, m, 3);
    let m2 = mul_advanced(m, block, 0, bound);
    assert(Cfg { frames: seq![FrameView { block, idx: 0 }], m } == init_cfg(block, m));
    assert(wrap_idx(p, 0) == p) by {
        lemma_small_mod(p as nat, TAPE_LEN as nat);
    }
    let m3 = Machine { cells: m2.cells.update(p, 0), ..m2 };
    assert(block[bound] == NodeView::Assign(0, 0, false));
    let cl = Cfg { frames: seq![FrameView { block, idx: bound }], m: m2 };
    let cl1 = Cfg { frames: seq![FrameView { block, idx: bound + 1 }], m: m3 };
    assert(step(cl) == Step::Next(cl1)) by {
        assert(cl.frames.update(0, FrameView { block, idx: bound + 1 }) =~= cl1.frames);
        assert(Machine { cells: m2.cells.update(p, 0), pos: m2.pos, ..m2 } == m3);
    }
    let cl2 = Cfg { frames: Seq::empty(), m: m3 };
    assert(step(cl1) == Step::Next(cl2)) by {
        assert(cl1.frames.drop_last() =~= cl2.frames);
    }
    assert(run_steps(cl, 3) == run_steps(cl1, 2));
    assert(run_steps(cl1, 2) == run_steps(cl2, 1));
    assert(run_steps(init_cfg(block, m), (bound + 3) as nat) == Outcome::Done(m3));
    assert(m3.cells =~= mult_loop_final(m, body).cells) by {
        assert forall|q: int| 0 <= q < m.cells.len() implies m3.cells[q] == mult_loop_final(
            m,
            body,
        ).cells[q] by {
            if q != p {
                lemma_mul_block_delta_append(
                    muls,
                    seq![NodeView::Assign(0, 0, false)],
                    0,
                    bound,
                    p,
                    q,
                );
                lemma_loop_muls_delta(body, p, q);
            }
        }
    }
    assert(m3 == mult_loop_final(m, body));
}

/// What one `Mul` writes: its destination cell moved by the source value
/// times the signed factor, modulo 256.
#[verifier::spinoff_prover]
proof fn lemma_mul_write_value(c: u8, srcv: u8, f2: i16)
    requires
        -255 <= f2 <= 255,
    ensures
        ({
            let amt = mul_amt(srcv, f2);
            let written = if f2 >= 0 {
                add_mod(c, amt)
            } else {
                sub_mod(c, amt)
            };
            written as int == (c + (srcv as int) * (f2 as int)) % 256
        }),
{
    let v = srcv as int;
    let af = if f2 >= 0 {
        f2 as int
    } else {
        -(f2 as int)
    };
    assert(abs_byte(f2) == af) by {
        lemma_small_mod(af as nat, 256);
    }
    let big = v * af;
    assert(big >= 0) by (nonlinear_arith)
        requires
            v >= 0,
            af >= 0,
            big == v * af,
    ;
    lemma_mod_bound(big, 256);
    if f2 >= 0 {
        lemma_add_mod_noop_right(c as int, big, 256);
    } else {
        assert(big == -(v * (f2 as int))) by (nonlinear_arith)
            requires
                big == v * af,
                af == -(f2 as int),
        ;
        vstd::arithmetic::div_mod::lemma_mod_add_multiples_vanish(c - (big % 256), 256);
        vstd::arithmetic::div_mod::lemma_sub_mod_noop(c as int, big, 256);
        lemma_small_mod(c as nat, 256);
    }
}


/// A node a straight-line run may hold here: anything but a loop, a scan,
/// or byte I/O.
pub open spec fn straightline(n: NodeView) -> bool {
    match n {
        NodeView::Shift(_) => true,
        NodeView::Inc(_, _, _) => true,
        NodeView::Dec(_, _, _) => true,
        NodeView::Assign(_, _, _) => true,
        NodeView::Mul(_, _, _, _) => true,
        NodeView::Comment(_) => true,
        _ => false,
    }
}

/// What one straight-line node does to the machine.
pub open spec fn sim_node(m: Machine, n: NodeView) -> Machine {
    match n {
        NodeView::Shift(d) => Machine { pos: wrap_idx(m.pos, d as int), ..m },
        NodeView::Inc(v, off, mv) => {
            let q = wrap_idx(m.pos, off as int);
            Machine {
                cells: m.cells.update(q, add_mod(m.cells[q], v)),
                pos: if mv {
                    q
                } else {
                    m.pos
                },
                ..m
            }
        },
        NodeView::Dec(v, off, mv) => {
            let q = wrap_idx(m.pos, off as int);
            Machine {
                cells: m.cells.update(q, sub_mod(m.cells[q], v)),
                pos: if mv {
                    q
                } else {
                    m.pos
                },
                ..m
            }
        },
        NodeView::Assign(v, off, mv) => {
            let q = wrap_idx(m.pos, off as int);
            Machine {
                cells: m.cells.update(q, v),
                pos: if mv {
                    q
                } else {
                    m.pos
                },
                ..m
            }
        },
        NodeView::Mul(f, into, off, mv) => {
            let p2 = wrap_idx(m.pos, off as int);
            let q = wrap_idx(p2, into as int);
            let amt = mul_amt(m.cells[p2], f);
            let written = if f >= 0 {
                add_mod(m.cells[q], amt)
            } else {
                sub_mod(m.cells[q], amt)
            };
            Machine {
                cells: m.cells.update(q, written),
                pos: if mv {
                    p2
                } else {
                    m.pos
                },
                ..m
            }
        },
        _ => m,
    }
}

/// What a straight-line run `g[i..]` does to the machine.
pub open spec fn sim_run(m: Machine, g: Seq<NodeView>, i: int) -> Machine
    decreases g.len() - i,
{
    if i < 0 || i >= g.len() {
        m
    } else {
        sim_run(sim_node(m, g[i]), g, i + 1)
    }
}

proof fn lemma_sim_node_wf(m: Machine, n: NodeView)
    requires
        m.wf(),
    ensures
        sim_node(m, n).wf(),
{
    match n {
        NodeView::Shift(d) => lemma_wrap_in_range(m.pos, d as int),
        NodeView::Inc(_, off, _) => lemma_wrap_in_range(m.pos, off as int),
        NodeView::Dec(_, off, _) => lemma_wrap_in_range(m.pos, off as int),
        NodeView::Assign(_, off, _) => lemma_wrap_in_range(m.pos, off as int),
        NodeView::Mul(_, into, off, _) => {
            lemma_wrap_in_range(m.pos, off as int);
            lemma_wrap_in_range(wrap_idx(m.pos, off as int), into as int);
        }
        _ => {}
    }
}

proof fn lemma_sim_run_wf(m: Machine, g: Seq<NodeView>, i: int)
    requires
        m.wf(),
    ensures
        sim_run(m, g, i).wf(),
    decreases g.len() - i,
{
    if 0 <= i < g.len() {
        lemma_sim_node_wf(m, g[i]);
        lemma_sim_run_wf(sim_node(m, g[i]), g, i + 1);
    }
}

/// Walking the rest of a straight-line frame takes one step per node and
/// lands on `sim_run`.
#[verifier::spinoff_prover]
#[verifier::rlimit(100)]
proof fn lemma_straightline_frame_runs(g: Seq<NodeView>, i: int, m: Machine)
    requires
        m.wf(),
        0 <= i <= g.len(),
        forall|j: int| i <= j < g.len() ==> straightline(#[trigger] g[j]),
    ensures
        run_steps(
            Cfg { frames: seq![FrameView { block: g, idx: i }], m },
            (g.len() - i + 1) as nat,
        ) == Outcome::Done(sim_run(m, g, i)),
    decreases g.len() - i,
{
    let c0 = Cfg { frames: seq![FrameView { block: g, idx: i }], m };
    if i == g.len() {
        let c1 = Cfg { frames: Seq::empty(), m };
        assert(step(c0) == Step::Next(c1)) by {
            assert(c0.frames.drop_last() =~= c1.frames);
        }
        assert(run_steps(c0, 1) == run_steps(c1, 0));
    } else {
        let m1 = sim_node(m, g[i]);
        lemma_sim_node_wf(m, g[i]);
        let c1 = Cfg { frames: seq![FrameView { block: g, idx: i + 1 }], m: m1 };
        assert(step(c0) == Step::Next(c1)) by {
            assert(c0.frames.update(0, FrameView { block: g, idx: i + 1 }) =~= c1.frames);
            match g[i] {
                NodeView::Shift(d) => {}
                NodeView::Inc(v, off, mv) => {
                    let q = wrap_idx(m.pos, off as int);
                    assert(Machine {
                        cells: m.cells.update(q, add_mod(m.cells[q], v)),
                        pos: if mv {
                            q
                        } else {
                            m.pos
                        },
                        ..m
                    } == m1);
                }
                NodeView::Dec(v, off, mv) => {
                    let q = wrap_idx(m.pos, off as int);
                    assert(Machine {
                        cells: m.cells.update(q, sub_mod(m.cells[q], v)),
                        pos: if mv {
                            q
                        } else {
                            m.pos
                        },
                        ..m
                    } == m1);
                }
                NodeView::Assign(v, off, mv) => {
                    let q = wrap_idx(m.pos, off as int);
                    assert(Machine {
                        cells: m.cells.update(q, v),
                        pos: if mv {
                            q
                        } else {
                            m.pos
                        },
                        ..m
                    } == m1);
                }
                NodeView::Mul(f, into, off, mv) => {}
                _ => {}
            }
        }
        lemma_straightline_frame_runs(g, i + 1, m1);
        assert(run_steps(c0, (g.len() - i + 1) as nat) == run_steps(
            c1,
            (g.len() - (i + 1) + 1) as nat,
        ));
    }
}


/// The carry fold only appends: what it emits does not depend on what was
/// emitted before.
proof fn lemma_carry_loop_append(e: Seq<NodeView>, carry: int, rest: Seq<NodeView>)
    ensures
        carry_loop(e, carry, rest).0 == e + carry_loop(Seq::empty(), carry, rest).0,
        carry_loop(e, carry, rest).1 == carry_loop(Seq::empty(), carry, rest).1,
    decreases rest.len(),
{
    if rest.len() == 0 {
        assert(e + Seq::<NodeView>::empty() =~= e);
    } else {
        let tail = rest.subrange(1, rest.len() as int);
        match rest[0] {
            NodeView::Shift(v) => {
                if in_i32(carry + v) {
                    lemma_carry_loop_append(e, carry + v, tail);
                } else {
                    lemma_carry_loop_append(e.push(NodeView::Shift(carry as i32)), v as int, tail);
                    lemma_carry_loop_append(
                        Seq::empty().push(NodeView::Shift(carry as i32)),
                        v as int,
                        tail,
                    );
                    assert(e.push(NodeView::Shift(carry as i32)) + carry_loop(
                        Seq::empty(),
                        v as int,
                        tail,
                    ).0 =~= e + (Seq::empty().push(NodeView::Shift(carry as i32)) + carry_loop(
                        Seq::empty(),
                        v as int,
                        tail,
                    ).0));
                }
            }
            NodeView::Inc(v, off, mv) => {
                let x = NodeView::Inc(v, w32(carry + off) as i32, false);
                let c2 = if mv {
                    w32(carry + off)
                } else {
                    carry
                };
                lemma_carry_loop_append(e.push(x), c2, tail);
                lemma_carry_loop_append(Seq::empty().push(x), c2, tail);
                assert(e.push(x) + carry_loop(Seq::empty(), c2, tail).0 =~= e + (
                Seq::empty().push(x) + carry_loop(Seq::empty(), c2, tail).0));
            }
            NodeView::Dec(v, off, mv) => {
                let x = NodeView::Dec(v, w32(carry + off) as i32, false);
                let c2 = if mv {
                    w32(carry + off)
                } else {
                    carry
                };
                lemma_carry_loop_append(e.push(x), c2, tail);
                lemma_carry_loop_append(Seq::empty().push(x), c2, tail);
                assert(e.push(x) + carry_loop(Seq::empty(), c2, tail).0 =~= e + (
                Seq::empty().push(x) + carry_loop(Seq::empty(), c2, tail).0));
            }
            NodeView::Assign(v, off, mv) => {
                let x = NodeView::Assign(v, w32(carry + off) as i32, false);
                let c2 = if mv {
                    w32(carry + off)
                } else {
                    carry
                };
                lemma_carry_loop_append(e.push(x), c2, tail);
                lemma_carry_loop_append(Seq::empty().push(x), c2, tail);
                assert(e.push(x) + carry_loop(Seq::empty(), c2, tail).0 =~= e + (
                Seq::empty().push(x) + carry_loop(Seq::empty(), c2, tail).0));
            }
            NodeView::Mul(val, into, off, mv) => {
                let x = NodeView::Mul(val, into, w32(carry + off) as i32, false);
                let c2 = if mv {
                    w32(carry + off)
                } else {
                    carry
                };
                lemma_carry_loop_append(e.push(x), c2, tail);
                lemma_carry_loop_append(Seq::empty().push(x), c2, tail);
                assert(e.push(x) + carry_loop(Seq::empty(), c2, tail).0 =~= e + (
                Seq::empty().push(x) + carry_loop(Seq::empty(), c2, tail).0));
            }
            NodeView::In(off, mv) => {
                let x = NodeView::In(w32(carry + off) as i32, false);
                let c2 = if mv {
                    w32(carry + off)
                } else {
                    carry
                };
                lemma_carry_loop_append(e.push(x), c2, tail);
                lemma_carry_loop_append(Seq::empty().push(x), c2, tail);
                assert(e.push(x) + carry_loop(Seq::empty(), c2, tail).0 =~= e + (
                Seq::empty().push(x) + carry_loop(Seq::empty(), c2, tail).0));
            }
            NodeView::Out(off, mv) => {
                let x = NodeView::Out(w32(carry + off) as i32, false);
                let c2 = if mv {
                    w32(carry + off)
                } else {
                    carry
                };
                lemma_carry_loop_append(e.push(x), c2, tail);
                lemma_carry_loop_append(Seq::empty().push(x), c2, tail);
                assert(e.push(x) + carry_loop(Seq::empty(), c2, tail).0 =~= e + (
                Seq::empty().push(x) + carry_loop(Seq::empty(), c2, tail).0));
            }
            _ => {
                lemma_carry_loop_append(e, carry, tail);
            }
        }
    }
}

/// Consing one node in front of a run shifts the rest one to the right.
proof fn lemma_sim_run_cons_tail(x: NodeView, r: Seq<NodeView>, i: int, m: Machine)
    requires
        0 <= i <= r.len(),
    ensures
        sim_run(m, seq![x] + r, i + 1) == sim_run(m, r, i),
    decreases r.len() - i,
{
    if i < r.len() {
        assert((seq![x] + r)[i + 1] == r[i]);
        lemma_sim_run_cons_tail(x, r, i + 1, sim_node(m, r[i]));
    }
}

/// Running a cons is running the head and then the rest.
proof fn lemma_sim_run_cons(x: NodeView, r: Seq<NodeView>, m: Machine)
    ensures
        sim_run(m, seq![x] + r, 0) == sim_run(sim_node(m, x), r, 0),
{
    assert((seq![x] + r)[0] == x);
    lemma_sim_run_cons_tail(x, r, 0, sim_node(m, x));
}

/// Wrapping a displacement to 32 bits does not move its landing cell: the
/// corrected term differs by a multiple of the tape length.
proof fn lemma_wrap_w32(p: int, x: int)
    ensures
        wrap_idx(p, w32(x)) == wrap_idx(p, x),
{
    let n = TAPE_LEN as int;
    if x > 0x7fff_ffff {
        vstd::arithmetic::div_mod::lemma_mod_multiples_vanish(-(n as int), p + x, n);
        assert(p + w32(x) == (-n) * 65536 + (p + x)) by (nonlinear_arith)
            requires
                w32(x) == x - 0x1_0000_0000,
                n == 0x1_0000,
        ;
        vstd::arithmetic::div_mod::lemma_mod_multiples_vanish(-65536, p + x, n);
    } else if x < -0x8000_0000 {
        vstd::arithmetic::div_mod::lemma_mod_multiples_vanish(65536, p + x, n);
        assert(p + w32(x) == 65536 * n + (p + x)) by (nonlinear_arith)
            requires
                w32(x) == x + 0x1_0000_0000,
                n == 0x1_0000,
        ;
    }
}

/// A straight-line head in front of straight-line nodes stays straight-line.
proof fn lemma_straightline_cons(x: NodeView, r: Seq<NodeView>)
    requires
        straightline(x),
        forall|j: int| 0 <= j < r.len() ==> straightline(#[trigger] r[j]),
    ensures
        forall|j: int|
            0 <= j < (Seq::empty().push(x) + r).len() ==> straightline(
                #[trigger] (Seq::empty().push(x) + r)[j],
            ),
{
    assert forall|j: int| 0 <= j < (Seq::empty().push(x) + r).len() implies straightline(
        (Seq::empty().push(x) + r)[j],
    ) by {
        if j == 0 {
            assert((Seq::empty().push(x) + r)[0] == x);
        } else {
            assert((Seq::empty().push(x) + r)[j] == r[j - 1]);
        }
    }
}

/// Over an I/O-free run, everything the carry fold emits is a straight-line
/// node.
proof fn lemma_carry_loop_straightline(carry: int, rest: Seq<NodeView>)
    requires
        forall|j: int|
            0 <= j < rest.len() ==> !(#[trigger] rest[j] matches NodeView::In(_, _))
                && !(rest[j] matches NodeView::Out(_, _)),
    ensures
        forall|j: int|
            0 <= j < carry_loop(Seq::empty(), carry, rest).0.len() ==> straightline(
                #[trigger] carry_loop(Seq::empty(), carry, rest).0[j],
            ),
        in_i32(carry) ==> in_i32(carry_loop(Seq::empty(), carry, rest).1),
    decreases rest.len(),
{
    if rest.len() == 0 {
    } else {
        let tail = rest.subrange(1, rest.len() as int);
        let whole = carry_loop(Seq::empty(), carry, rest);
        assert forall|j: int| 0 <= j < tail.len() implies !(#[trigger] tail[j]
            matches NodeView::In(_, _)) && !(tail[j] matches NodeView::Out(_, _)) by {
            assert(tail[j] == rest[j + 1]);
        }
        match rest[0] {
            NodeView::Shift(v) => {
                if in_i32(carry + v) {
                    lemma_carry_loop_straightline(carry + v, tail);
                    assert(whole.0 == carry_loop(Seq::empty(), carry + v, tail).0);
                } else {
                    lemma_carry_loop_straightline(v as int, tail);
                    lemma_carry_loop_append(
                        Seq::empty().push(NodeView::Shift(carry as i32)),
                        v as int,
                        tail,
                    );
                    lemma_straightline_cons(
                        NodeView::Shift(carry as i32),
                        carry_loop(Seq::empty(), v as int, tail).0,
                    );
                    assert(whole.0 == Seq::empty().push(NodeView::Shift(carry as i32))
                        + carry_loop(Seq::empty(), v as int, tail).0);
                }
            }
            NodeView::Inc(v, off, mv) => {
                let x = NodeView::Inc(v, w32(carry + off) as i32, false);
                let c2 = if mv {
                    w32(carry + off)
                } else {
                    carry
                };
                lemma_carry_loop_straightline(c2, tail);
                lemma_carry_loop_append(Seq::empty().push(x), c2, tail);
                lemma_straightline_cons(x, carry_loop(Seq::empty(), c2, tail).0);
                assert(whole.0 == Seq::empty().push(x) + carry_loop(Seq::empty(), c2, tail).0);
            }
            NodeView::Dec(v, off, mv) => {
                let x = NodeView::Dec(v, w32(carry + off) as i32, false);
                let c2 = if mv {
                    w32(carry + off)
                } else {
                    carry
                };
                lemma_carry_loop_straightline(c2, tail);
                lemma_carry_loop_append(Seq::empty().push(x), c2, tail);
                lemma_straightline_cons(x, carry_loop(Seq::empty(), c2, tail).0);
                assert(whole.0 == Seq::empty().push(x) + carry_loop(Seq::empty(), c2, tail).0);
            }
            NodeView::Assign(v, off, mv) => {
                let x = NodeView::Assign(v, w32(carry + off) as i32, false);
                let c2 = if mv {
                    w32(carry + off)
                } else {
                    carry
                };
                lemma_carry_loop_straightline(c2, tail);
                lemma_carry_loop_append(Seq::empty().push(x), c2, tail);
                lemma_straightline_cons(x, carry_loop(Seq::empty(), c2, tail).0);
                assert(whole.0 == Seq::empty().push(x) + carry_loop(Seq::empty(), c2, tail).0);
            }
            NodeView::Mul(val, into, off, mv) => {
                let x = NodeView::Mul(val, into, w32(carry + off) as i32, false);
                let c2 = if mv {
                    w32(carry + off)
                } else {
                    carry
                };
                lemma_carry_loop_straightline(c2, tail);
                lemma_carry_loop_append(Seq::empty().push(x), c2, tail);
                lemma_straightline_cons(x, carry_loop(Seq::empty(), c2, tail).0);
                assert(whole.0 == Seq::empty().push(x) + carry_loop(Seq::empty(), c2, tail).0);
            }
            NodeView::In(_, _) => {
                assert(false);
            }
            NodeView::Out(_, _) => {
                assert(false);
            }
            _ => {
                assert forall|j: int| 0 <= j < tail.len() implies !(#[trigger] tail[j]
                    matches NodeView::In(_, _)) && !(tail[j] matches NodeView::Out(_, _)) by {
                    assert(tail[j] == rest[j + 1]);
                }
                lemma_carry_loop_straightline(carry, tail);
                assert(whole.0 == carry_loop(Seq::empty(), carry, tail).0);
            }
        }
    }
}


/// Machine `m` with a pending displacement still to apply.
pub open spec fn adjusted(m: Machine, carry: int) -> Machine {
    Machine { pos: wrap_idx(m.pos, carry), ..m }
}

/// The heart of movement deferral, over an I/O-free run: running the
/// original nodes equals running the carry-rewritten nodes and then applying
/// the final carry to the pointer.
#[verifier::spinoff_prover]
#[verifier::rlimit(100)]
proof fn lemma_carry_fold_effect(g: Seq<NodeView>, i: int, m_o: Machine, m_d: Machine, carry: int)
    requires
        m_o.wf(),
        m_d.wf(),
        0 <= i <= g.len(),
        in_i32(carry),
        forall|j: int| i <= j < g.len() ==> straightline(#[trigger] g[j]),
        m_o.cells == m_d.cells,
        m_o.input == m_d.input,
        m_o.output == m_d.output,
        m_o.pos == wrap_idx(m_d.pos, carry),
    ensures
        ({
            let folded = carry_loop(Seq::empty(), carry, g.subrange(i, g.len() as int));
            sim_run(m_o, g, i) == adjusted(sim_run(m_d, folded.0, 0), folded.1)
        }),
    decreases g.len() - i,
{
    let suffix = g.subrange(i, g.len() as int);
    if i == g.len() {
        assert(suffix =~= Seq::<NodeView>::empty());
        assert(adjusted(sim_run(m_d, Seq::empty(), 0), carry) == m_o);
    } else {
        assert(suffix[0] == g[i]);
        assert(suffix.subrange(1, suffix.len() as int) =~= g.subrange(i + 1, g.len() as int));
        let tail = g.subrange(i + 1, g.len() as int);
        match g[i] {
            NodeView::Shift(v) => {
                let m_o2 = sim_node(m_o, g[i]);
                if in_i32(carry + v) {
                    lemma_wrap_twice(m_d.pos, carry, v as int);
                    lemma_sim_node_wf(m_o, g[i]);
                    lemma_carry_fold_effect(g, i + 1, m_o2, m_d, carry + v);
                    assert(carry_loop(Seq::empty(), carry, suffix) == carry_loop(
                        Seq::empty(),
                        carry + v,
                        tail,
                    ));
                } else {
                    let x = NodeView::Shift(carry as i32);
                    let m_d2 = sim_node(m_d, x);
                    assert(m_d2.pos == wrap_idx(m_d.pos, carry));
                    lemma_sim_node_wf(m_o, g[i]);
                    lemma_sim_node_wf(m_d, x);
                    lemma_wrap_twice(m_d.pos, carry, v as int);
                    assert(m_o2.pos == wrap_idx(m_d2.pos, v as int));
                    lemma_carry_fold_effect(g, i + 1, m_o2, m_d2, v as int);
                    let rec = carry_loop(Seq::empty(), v as int, tail);
                    lemma_carry_loop_append(Seq::empty().push(x), v as int, tail);
                    assert(carry_loop(Seq::empty(), carry, suffix).0 == Seq::empty().push(x)
                        + rec.0);
                    assert(carry_loop(Seq::empty(), carry, suffix).1 == rec.1);
                    assert(Seq::empty().push(x) + rec.0 =~= seq![x] + rec.0);
                    lemma_sim_run_cons(x, rec.0, m_d);
                }
            }
            NodeView::Inc(v, off, mv) => {
                let noff = w32(carry + off);
                let x = NodeView::Inc(v, noff as i32, false);
                assert(in_i32(noff));
                assert(noff as i32 as int == noff);
                lemma_wrap_w32(m_d.pos, carry + off);
                lemma_wrap_twice(m_d.pos, carry, off as int);
                let q = wrap_idx(m_o.pos, off as int);
                assert(wrap_idx(m_d.pos, noff) == q);
                let m_o2 = sim_node(m_o, g[i]);
                let m_d2 = sim_node(m_d, x);
                lemma_sim_node_wf(m_o, g[i]);
                lemma_sim_node_wf(m_d, x);
                let carry2 = if mv {
                    noff
                } else {
                    carry
                };
                assert(m_o2.cells == m_d2.cells);
                assert(m_o2.pos == wrap_idx(m_d2.pos, carry2));
                lemma_carry_fold_effect(g, i + 1, m_o2, m_d2, carry2);
                let rec = carry_loop(Seq::empty(), carry2, tail);
                lemma_carry_loop_append(Seq::empty().push(x), carry2, tail);
                assert(carry_loop(Seq::empty(), carry, suffix).0 == Seq::empty().push(x) + rec.0);
                assert(carry_loop(Seq::empty(), carry, suffix).1 == rec.1);
                assert(Seq::empty().push(x) + rec.0 =~= seq![x] + rec.0);
                lemma_sim_run_cons(x, rec.0, m_d);
            }
            NodeView::Dec(v, off, mv) => {
                let noff = w32(carry + off);
                let x = NodeView::Dec(v, noff as i32, false);
                assert(in_i32(noff));
                assert(noff as i32 as int == noff);
                lemma_wrap_w32(m_d.pos, carry + off);
                lemma_wrap_twice(m_d.pos, carry, off as int);
                let q = wrap_idx(m_o.pos, off as int);
                assert(wrap_idx(m_d.pos, noff) == q);
                let m_o2 = sim_node(m_o, g[i]);
                let m_d2 = sim_node(m_d, x);
                lemma_sim_node_wf(m_o, g[i]);
                lemma_sim_node_wf(m_d, x);
                let carry2 = if mv {
                    noff
                } else {
                    carry
                };
                assert(m_o2.cells == m_d2.cells);
                assert(m_o2.pos == wrap_idx(m_d2.pos, carry2));
                lemma_carry_fold_effect(g, i + 1, m_o2, m_d2, carry2);
                let rec = carry_loop(Seq::empty(), carry2, tail);
                lemma_carry_loop_append(Seq::empty().push(x), carry2, tail);
                assert(carry_loop(Seq::empty(), carry, suffix).0 == Seq::empty().push(x) + rec.0);
                assert(carry_loop(Seq::empty(), carry, suffix).1 == rec.1);
                assert(Seq::empty().push(x) + rec.0 =~= seq![x] + rec.0);
                lemma_sim_run_cons(x, rec.0, m_d);
            }
            NodeView::Assign(v, off, mv) => {
                let noff = w32(carry + off);
                let x = NodeView::Assign(v, noff as i32, false);
                assert(in_i32(noff));
                assert(noff as i32 as int == noff);
                lemma_wrap_w32(m_d.pos, carry + off);
                lemma_wrap_twice(m_d.pos, carry, off as int);
                let q = wrap_idx(m_o.pos, off as int);
                assert(wrap_idx(m_d.pos, noff) == q);
                let m_o2 = sim_node(m_o, g[i]);
                let m_d2 = sim_node(m_d, x);
                lemma_sim_node_wf(m_o, g[i]);
                lemma_sim_node_wf(m_d, x);
                let carry2 = if mv {
                    noff
                } else {
                    carry
                };
                assert(m_o2.cells == m_d2.cells);
                assert(m_o2.pos == wrap_idx(m_d2.pos, carry2));
                lemma_carry_fold_effect(g, i + 1, m_o2, m_d2, carry2);
                let rec = carry_loop(Seq::empty(), carry2, tail);
                lemma_carry_loop_append(Seq::empty().push(x), carry2, tail);
                assert(carry_loop(Seq::empty(), carry, suffix).0 == Seq::empty().push(x) + rec.0);
                assert(carry_loop(Seq::empty(), carry, suffix).1 == rec.1);
                assert(Seq::empty().push(x) + rec.0 =~= seq![x] + rec.0);
                lemma_sim_run_cons(x, rec.0, m_d);
            }
            NodeView::Mul(fac, into, off, mv) => {
                let noff = w32(carry + off);
                let x = NodeView::Mul(fac, into, noff as i32, false);
                assert(in_i32(noff));
                assert(noff as i32 as int == noff);
                lemma_wrap_w32(m_d.pos, carry + off);
                lemma_wrap_twice(m_d.pos, carry, off as int);
                let p2 = wrap_idx(m_o.pos, off as int);
                assert(wrap_idx(m_d.pos, noff) == p2);
                let m_o2 = sim_node(m_o, g[i]);
                let m_d2 = sim_node(m_d, x);
                lemma_sim_node_wf(m_o, g[i]);
                lemma_sim_node_wf(m_d, x);
                let carry2 = if mv {
                    noff
                } else {
                    carry
                };
                assert(m_o2.cells == m_d2.cells);
                assert(m_o2.pos == wrap_idx(m_d2.pos, carry2));
                lemma_carry_fold_effect(g, i + 1, m_o2, m_d2, carry2);
                let rec = carry_loop(Seq::empty(), carry2, tail);
                lemma_carry_loop_append(Seq::empty().push(x), carry2, tail);
                assert(carry_loop(Seq::empty(), carry, suffix).0 == Seq::empty().push(x) + rec.0);
                assert(carry_loop(Seq::empty(), carry, suffix).1 == rec.1);
                assert(Seq::empty().push(x) + rec.0 =~= seq![x] + rec.0);
                lemma_sim_run_cons(x, rec.0, m_d);
            }
            NodeView::Comment(_) => {
                lemma_carry_fold_effect(g, i + 1, m_o, m_d, carry);
                assert(carry_loop(Seq::empty(), carry, suffix) == carry_loop(
                    Seq::empty(),
                    carry,
                    tail,
                ));
            }
            _ => {}
        }
    }
}


/// Running a run with one node appended is running the run and then the
/// node.
proof fn lemma_sim_run_snoc(r: Seq<NodeView>, x: NodeView, m: Machine)
    ensures
        sim_run(m, r.push(x), 0) == sim_node(sim_run(m, r, 0), x),
    decreases r.len(),
{
    if r.len() == 0 {
        assert(r.push(x)[0] == x);
        assert(r.push(x).len() == 1);
        assert(sim_run(m, r.push(x), 0) == sim_run(sim_node(m, x), r.push(x), 1));
        assert(sim_run(sim_node(m, x), r.push(x), 1) == sim_node(m, x));
        assert(sim_run(m, r, 0) == m);
    } else {
        let rest = r.subrange(1, r.len() as int);
        assert(r.push(x) =~= seq![r[0]] + rest.push(x));
        lemma_sim_run_cons(r[0], rest.push(x), m);
        lemma_sim_run_snoc(rest, x, sim_node(m, r[0]));
        assert(r =~= seq![r[0]] + rest);
        lemma_sim_run_cons(r[0], rest, m);
    }
}

/// The movement-deferral rewrite preserves meaning on an I/O-free
/// straight-line run: from every well-formed machine, the run and its
/// deferred form (re-addressed nodes, movement flushed to one trailing
/// shift) complete on the same final machine.
#[verifier::spinoff_prover]
#[verifier::rlimit(100)]
pub proof fn lemma_defer_run_equiv(g: Seq<NodeView>, m: Machine)
    requires
        m.wf(),
        forall|j: int| 0 <= j < g.len() ==> straightline(#[trigger] g[j]),
    ensures
        run_steps(
            Cfg { frames: seq![FrameView { block: g, idx: 0 }], m },
            (g.len() + 1) as nat,
        ) == Outcome::Done(sim_run(m, g, 0)),
        run_steps(
            Cfg { frames: seq![FrameView { block: defer_run(g), idx: 0 }], m },
            (defer_run(g).len() + 1) as nat,
        ) == Outcome::Done(sim_run(m, g, 0)),
{
    lemma_straightline_frame_runs(g, 0, m);
    assert(g.subrange(0, g.len() as int) =~= g);
    let folded = carry_loop(Seq::empty(), 0, g);
    assert(wrap_idx(m.pos, 0) == m.pos) by {
        lemma_small_mod(m.pos as nat, TAPE_LEN as nat);
    }
    lemma_carry_fold_effect(g, 0, m, m, 0);
    assert(sim_run(m, g, 0) == adjusted(sim_run(m, folded.0, 0), folded.1));
    assert forall|j: int| 0 <= j < g.len() implies !(#[trigger] g[j] matches NodeView::In(
        _,
        _,
    )) && !(g[j] matches NodeView::Out(_, _)) by {
        assert(straightline(g[j]));
    }
    lemma_carry_loop_straightline(0, g);
    let base = sim_run(m, folded.0, 0);
    lemma_sim_run_wf(m, folded.0, 0);
    if folded.1 != 0 {
        let x = NodeView::Shift(folded.1 as i32);
        assert(defer_run(g) == folded.0.push(x));
        assert forall|j: int| 0 <= j < defer_run(g).len() implies straightline(
            #[trigger] defer_run(g)[j],
        ) by {
            if j < folded.0.len() {
                assert(defer_run(g)[j] == folded.0[j]);
            } else {
                assert(defer_run(g)[j] == x);
            }
        }
        lemma_straightline_frame_runs(defer_run(g), 0, m);
        lemma_sim_run_snoc(folded.0, x, m);
        assert(folded.1 as i32 as int == folded.1);
        assert(sim_node(base, x) == adjusted(base, folded.1));
    } else {
        assert(defer_run(g) == folded.0);
        lemma_straightline_frame_runs(defer_run(g), 0, m);
        assert(wrap_idx(base.pos, 0) == base.pos) by {
            lemma_small_mod(base.pos as nat, TAPE_LEN as nat);
        }
        assert(adjusted(base, 0) == base);
    }
}

} // verus!
