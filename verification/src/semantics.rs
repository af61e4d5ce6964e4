//! Mathematical model of the instruction tree and of execution.
//!
//! The executable tree (`vm::Node`) owns its loop bodies as `Vec`s, which
//! specifications cannot build.  `NodeView` mirrors it with `Seq` bodies, so
//! contracts can speak about whole trees.  Execution is modelled as a
//! small-step machine over a stack of frames, driven by a step budget; the
//! interpreter in `vm` is proved to agree with `run_steps` exactly, budget
//! included.

use vstd::prelude::*;

use crate::vm::Node;
use crate::vm::TAPE_LEN;

verus! {

/// Ghost mirror of `vm::Node`: the same payloads, but a `Conditional` body is
/// a `Seq`, so a whole tree is a spec-level value.
pub enum NodeView {
    Shift(i32),
    Inc(u8, i32, bool),
    Dec(u8, i32, bool),
    Mul(i16, i32, i32, bool),
    Assign(u8, i32, bool),
    Scan(i32),
    Out(i32, bool),
    In(i32, bool),
    Conditional(Seq<NodeView>),
    Comment(char),
}

/// The spec-level value of one executable node.
pub open spec fn node_view(n: Node) -> NodeView
    decreases n,
{
    match n {
        Node::Shift(d) => NodeView::Shift(d),
        Node::Inc(v, off, mv) => NodeView::Inc(v, off, mv),
        Node::Dec(v, off, mv) => NodeView::Dec(v, off, mv),
        Node::Mul(f, into, off, mv) => NodeView::Mul(f, into, off, mv),
        Node::Assign(v, off, mv) => NodeView::Assign(v, off, mv),
        Node::Scan(iv) => NodeView::Scan(iv),
        Node::Out(off, mv) => NodeView::Out(off, mv),
        Node::In(off, mv) => NodeView::In(off, mv),
        Node::Conditional(body) => NodeView::Conditional(block_view(body@)),
        Node::Comment(c) => NodeView::Comment(c),
    }
}

/// The spec-level value of an executable instruction sequence.
pub open spec fn block_view(b: Seq<Node>) -> Seq<NodeView>
    decreases b,
{
    if b.len() == 0 {
        Seq::empty()
    } else {
        block_view(b.drop_last()).push(node_view(b.last()))
    }
}

pub proof fn lemma_block_view(b: Seq<Node>)
    ensures
        block_view(b).len() == b.len(),
        forall|i: int| 0 <= i < b.len() ==> block_view(b)[i] == node_view(b[i]),
    decreases b.len(),
{
    if b.len() > 0 {
        lemma_block_view(b.drop_last());
    }
}

/// The spec-level value of a stack or list of executable blocks.
pub open spec fn blocks_view(gs: Seq<Vec<Node>>) -> Seq<Seq<NodeView>> {
    gs.map_values(|g: Vec<Node>| block_view(g@))
}

/// Number of nodes in a tree, nested bodies included; the measure that every
/// recursive traversal of a tree decreases.
pub open spec fn size_node(n: NodeView) -> nat
    decreases n,
{
    match n {
        NodeView::Conditional(body) => 1 + size_block(body),
        _ => 1,
    }
}

pub open spec fn size_block(b: Seq<NodeView>) -> nat
    decreases b,
{
    if b.len() == 0 {
        0nat
    } else {
        size_node(b[0]) + size_block(b.subrange(1, b.len() as int))
    }
}

/// One unfolding of `size_block`, packaged for termination proofs.
pub proof fn lemma_size_unfold(code: Seq<NodeView>)
    requires
        code.len() > 0,
    ensures
        size_block(code) == size_node(code[0]) + size_block(code.subrange(1, code.len() as int)),
        size_node(code[0]) >= 1,
        code[0] matches NodeView::Conditional(b) ==> size_node(code[0]) == 1 + size_block(b),
{
    match code[0] {
        NodeView::Conditional(b) => {
            assert(size_node(code[0]) == 1 + size_block(b));
        }
        _ => {
            assert(size_node(code[0]) == 1);
        }
    }
}

pub proof fn lemma_size_block_element(b: Seq<NodeView>, i: int)
    requires
        0 <= i < b.len(),
    ensures
        size_node(b[i]) <= size_block(b),
    decreases b.len(),
{
    if i > 0 {
        lemma_size_block_element(b.subrange(1, b.len() as int), i - 1);
    }
}

/// The machine as specifications see it: the tape, the data pointer, the
/// bytes not yet read, and the bytes written so far.
#[verifier::ext_equal]
pub struct Machine {
    pub cells: Seq<u8>,
    pub pos: int,
    pub input: Seq<u8>,
    pub output: Seq<u8>,
}

impl Machine {
    pub open spec fn wf(self) -> bool {
        &&& self.cells.len() == TAPE_LEN
        &&& 0 <= self.pos < TAPE_LEN
    }
}

/// Effective address of `pos + off` on the circular tape.
pub open spec fn wrap_idx(pos: int, off: int) -> int {
    (pos + off) % (TAPE_LEN as int)
}

/// Byte addition modulo 256.
pub open spec fn add_mod(a: u8, b: u8) -> u8 {
    ((a + b) % 256) as u8
}

/// Byte subtraction modulo 256.
pub open spec fn sub_mod(a: u8, b: u8) -> u8 {
    ((a - b + 256) % 256) as u8
}

/// The factor a `Mul` node applies: the absolute value of the signed factor,
/// truncated to a byte.
pub open spec fn abs_byte(f: i16) -> int {
    (if f >= 0 {
        f as int
    } else {
        -(f as int)
    }) % 256
}

/// The quantity a `Mul` node adds to or subtracts from its destination cell.
pub open spec fn mul_amt(src: u8, f: i16) -> u8 {
    ((src * abs_byte(f)) % 256) as u8
}

/// One run of instructions being walked: the block and the index of the next
/// node in it.
#[verifier::ext_equal]
pub struct FrameView {
    pub block: Seq<NodeView>,
    pub idx: int,
}

/// A configuration of the machine: the stack of frames still to be walked
/// (innermost last) and the machine state.
#[verifier::ext_equal]
pub struct Cfg {
    pub frames: Seq<FrameView>,
    pub m: Machine,
}

pub enum Step {
    Next(Cfg),
    Fail(Machine),
}

pub enum Outcome {
    /// The frame stack emptied: the program ran to completion.
    Done(Machine),
    /// An `In` node found the input exhausted; the machine is as it stood at
    /// that node.
    Failed(Machine),
    /// The step budget ran out first.
    Exhausted(Cfg),
}

/// The configuration `c` with the top frame's index advanced by one and the
/// machine replaced by `m2`.
pub open spec fn bump(c: Cfg, m2: Machine) -> Cfg
    recommends
        c.frames.len() > 0,
{
    let fr = c.frames.last();
    Cfg {
        frames: c.frames.update(
            c.frames.len() - 1,
            FrameView { block: fr.block, idx: fr.idx + 1 },
        ),
        m: m2,
    }
}

/// One step of the machine.  A frame walked past its end pops; a
/// `Conditional` with a live cell pushes its body; a `Scan` over a non-zero
/// cell moves the pointer one stride; every other node acts and advances.
pub open spec fn step(c: Cfg) -> Step
    recommends
        c.frames.len() > 0,
        c.m.wf(),
{
    let fr = c.frames.last();
    let m = c.m;
    if fr.idx < 0 || fr.idx >= fr.block.len() {
        Step::Next(Cfg { frames: c.frames.drop_last(), m })
    } else {
        match fr.block[fr.idx] {
            NodeView::Shift(d) => Step::Next(
                bump(c, Machine { pos: wrap_idx(m.pos, d as int), ..m }),
            ),
            NodeView::Inc(v, off, mv) => {
                let p = wrap_idx(m.pos, off as int);
                Step::Next(bump(c, Machine {
                    cells: m.cells.update(p, add_mod(m.cells[p], v)),
                    pos: if mv { p } else { m.pos },
                    ..m
                }))
            }
            NodeView::Dec(v, off, mv) => {
                let p = wrap_idx(m.pos, off as int);
                Step::Next(bump(c, Machine {
                    cells: m.cells.update(p, sub_mod(m.cells[p], v)),
                    pos: if mv { p } else { m.pos },
                    ..m
                }))
            }
            NodeView::Mul(f, into, off, mv) => {
                let p = wrap_idx(m.pos, off as int);
                let q = wrap_idx(p, into as int);
                let amt = mul_amt(m.cells[p], f);
                let written = if f >= 0 {
                    add_mod(m.cells[q], amt)
                } else {
                    sub_mod(m.cells[q], amt)
                };
                Step::Next(bump(c, Machine {
                    cells: m.cells.update(q, written),
                    pos: if mv { p } else { m.pos },
                    ..m
                }))
            }
            NodeView::Assign(v, off, mv) => {
                let p = wrap_idx(m.pos, off as int);
                Step::Next(bump(c, Machine {
                    cells: m.cells.update(p, v),
                    pos: if mv { p } else { m.pos },
                    ..m
                }))
            }
            NodeView::Scan(iv) => {
                if m.cells[m.pos] == 0 {
                    Step::Next(bump(c, m))
                } else {
                    Step::Next(Cfg {
                        frames: c.frames,
                        m: Machine { pos: wrap_idx(m.pos, iv as int), ..m },
                    })
                }
            }
            NodeView::Out(off, mv) => {
                let p = wrap_idx(m.pos, off as int);
                Step::Next(bump(c, Machine {
                    output: m.output.push(m.cells[p]),
                    pos: if mv { p } else { m.pos },
                    ..m
                }))
            }
            NodeView::In(off, mv) => {
                if m.input.len() == 0 {
                    Step::Fail(m)
                } else {
                    let p = wrap_idx(m.pos, off as int);
                    Step::Next(bump(c, Machine {
                        cells: m.cells.update(p, m.input[0]),
                        input: m.input.subrange(1, m.input.len() as int),
                        pos: if mv { p } else { m.pos },
                        ..m
                    }))
                }
            }
            NodeView::Conditional(body) => {
                if m.cells[m.pos] != 0 {
                    Step::Next(Cfg {
                        frames: c.frames.push(FrameView { block: body, idx: 0 }),
                        m,
                    })
                } else {
                    Step::Next(bump(c, m))
                }
            }
            NodeView::Comment(_) => Step::Next(bump(c, m)),
        }
    }
}

/// Run the machine for at most `fuel` steps.
pub open spec fn run_steps(c: Cfg, fuel: nat) -> Outcome
    decreases fuel,
{
    if c.frames.len() == 0 {
        Outcome::Done(c.m)
    } else if fuel == 0 {
        Outcome::Exhausted(c)
    } else {
        match step(c) {
            Step::Next(c2) => run_steps(c2, (fuel - 1) as nat),
            Step::Fail(m) => Outcome::Failed(m),
        }
    }
}

/// The configuration that starts walking `block` on machine `m`.
pub open spec fn init_cfg(block: Seq<NodeView>, m: Machine) -> Cfg {
    Cfg { frames: seq![FrameView { block, idx: 0 }], m }
}

/// Whatever a run settles on (completion or input exhaustion) it settles on
/// under every larger budget as well.
pub proof fn lemma_run_steps_mono(c: Cfg, f1: nat, f2: nat)
    requires
        f1 <= f2,
        !(run_steps(c, f1) is Exhausted),
    ensures
        run_steps(c, f2) == run_steps(c, f1),
    decreases f1,
{
    if c.frames.len() != 0 && f1 > 0 {
        match step(c) {
            Step::Next(c2) => lemma_run_steps_mono(c2, (f1 - 1) as nat, (f2 - 1) as nat),
            Step::Fail(_) => {}
        }
    }
}

/// Two budgets that both see the run settle see the same settlement: the
/// budget only decides how far the machine may walk, never where it goes.
pub proof fn lemma_outcome_unique(c: Cfg, f1: nat, f2: nat)
    requires
        !(run_steps(c, f1) is Exhausted),
        !(run_steps(c, f2) is Exhausted),
    ensures
        run_steps(c, f1) == run_steps(c, f2),
{
    if f1 <= f2 {
        lemma_run_steps_mono(c, f1, f2);
    } else {
        lemma_run_steps_mono(c, f2, f1);
    }
}

} // verus!
