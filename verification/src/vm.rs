//! The instruction tree, the tape machine, and the interpreter.
//!
//! The interpreter walks the tree iteratively over an explicit stack of
//! frames, so nesting depth costs heap, not call stack, and the whole walk is
//! one loop.  A program of this language may legitimately never halt, and
//! every loop here must terminate, so the caller hands `run_block` a step
//! budget; a run that completes or fails within the budget is pinned exactly
//! by the `run_steps` model, and a budget that runs out reports `None` with
//! the machine exactly where the model says it stands.

use vstd::prelude::*;

use crate::semantics::add_mod;
use crate::semantics::block_view;
use crate::semantics::bump;
use crate::semantics::init_cfg;
use crate::semantics::lemma_block_view;
use crate::semantics::mul_amt;
use crate::semantics::node_view;
use crate::semantics::run_steps;
use crate::semantics::step;
use crate::semantics::sub_mod;
use crate::semantics::wrap_idx;
use crate::semantics::Cfg;
use crate::semantics::FrameView;
use crate::semantics::Machine;
use crate::semantics::Outcome;
use crate::semantics::Step;

verus! {

/// Number of cells on the circular tape.
pub const TAPE_LEN: usize = 65536;

/// One node of the instruction tree.  `offset` fields are relative to the
/// pointer as it stood at the start of the node's straight-line run; a `true`
/// final flag commits the effective address into the pointer afterwards.
#[derive(Debug, PartialEq, Eq, Hash)]
pub enum Node {
    Shift(i32),
    Inc(u8, i32, bool),
    Dec(u8, i32, bool),
    Mul(i16, i32, i32, bool),
    Assign(u8, i32, bool),
    Scan(i32),
    Out(i32, bool),
    In(i32, bool),
    Conditional(Vec<Node>),
    Comment(char),
}

/// The runtime state: the tape and the data pointer.
#[derive(Clone, Debug)]
pub struct State {
    pub pos: usize,
    pub cells: Vec<u8>,
}

impl State {
    pub open spec fn wf(&self) -> bool {
        &&& self.cells@.len() == TAPE_LEN
        &&& self.pos < TAPE_LEN
    }
}

impl Default for State {
    /// A fresh machine: every cell zero, pointer at cell 0.
    fn default() -> (r: Self)
        ensures
            r.wf(),
            r.pos == 0,
            forall|i: int| 0 <= i < TAPE_LEN ==> r.cells@[i] == 0u8,
    {
        let mut cells: Vec<u8> = Vec::new();
        while cells.len() < TAPE_LEN
            invariant
                cells@.len() <= TAPE_LEN,
                forall|i: int| 0 <= i < cells@.len() ==> cells@[i] == 0u8,
            decreases TAPE_LEN - cells@.len(),
        {
            cells.push(0);
        }
        State { pos: 0, cells }
    }
}

#[derive(Debug, PartialEq, Eq, Hash)]
pub enum RuntimeError {
    /// The output sink refused a byte.  The engine's own sink is an
    /// in-memory vector, which cannot fail, so the engine never produces
    /// this; it stands for shells whose sinks can.
    WriteError(String),
    /// The input source was exhausted by an `In` node.
    ReadError(String),
}

/// A byte source the machine reads from: a buffer consumed front to back.
pub struct InputSource {
    data: Vec<u8>,
    cursor: usize,
}

impl InputSource {
    pub closed spec fn wf(&self) -> bool {
        self.cursor <= self.data@.len()
    }

    /// The bytes not yet read.
    pub closed spec fn remaining(&self) -> Seq<u8> {
        self.data@.subrange(self.cursor as int, self.data@.len() as int)
    }

    pub fn new(data: Vec<u8>) -> (r: Self)
        ensures
            r.wf(),
            r.remaining() == data@,
    {
        let r = InputSource { data, cursor: 0 };
        proof {
            assert(r.remaining() =~= r.data@);
        }
        r
    }

    /// Take the next byte, or report exhaustion and stay unchanged.
    pub fn read_byte(&mut self) -> (r: Option<u8>)
        requires
            old(self).wf(),
        ensures
            final(self).wf(),
            old(self).remaining().len() == 0 ==> r is None && *final(self) == *old(self),
            old(self).remaining().len() > 0 ==> {
                &&& r == Some(old(self).remaining()[0])
                &&& final(self).remaining() == old(self).remaining().subrange(
                    1,
                    old(self).remaining().len() as int,
                )
            },
    {
        if self.cursor < self.data.len() {
            let b = self.data[self.cursor];
            self.cursor = self.cursor + 1;
            proof {
                assert(self.remaining() =~= old(self).remaining().subrange(
                    1,
                    old(self).remaining().len() as int,
                ));
            }
            Some(b)
        } else {
            None
        }
    }
}

/// The machine as the model sees it, assembled from the runtime pieces.
pub open spec fn machine_of(s: State, input: Seq<u8>, output: Seq<u8>) -> Machine {
    Machine { cells: s.cells@, pos: s.pos as int, input, output }
}

/// Effective address of `pos + offset` on the circular tape.
#[verifier::loop_isolation(false)]
pub fn offset_index(pos: usize, offset: i32) -> (r: usize)
    requires
        pos < TAPE_LEN,
    ensures
        r < TAPE_LEN,
        r == wrap_idx(pos as int, offset as int),
{
    let off: i64 = offset as i64;
    let modulus: i64 = TAPE_LEN as i64;
    let m: i64 = if off >= 0 {
        off % modulus
    } else {
        let k: i64 = (-off) % modulus;
        if k == 0 {
            0
        } else {
            modulus - k
        }
    };
    proof {
        assert(0 <= m < TAPE_LEN);
        assert(m == (off as int) % (TAPE_LEN as int)) by {
            if off < 0 {
                let d = TAPE_LEN as int;
                let q = (-off) as int / d;
                let k = (-off) as int % d;
                vstd::arithmetic::div_mod::lemma_fundamental_div_mod((-off) as int, d);
                if k == 0 {
                    vstd::arithmetic::div_mod::lemma_mod_multiples_basic(-q, d);
                } else {
                    vstd::arithmetic::div_mod::lemma_fundamental_div_mod_converse(
                        off as int, d, -q - 1, d - k,
                    );
                }
            }
        };
        vstd::arithmetic::div_mod::lemma_small_mod(pos as nat, TAPE_LEN as nat);
        vstd::arithmetic::div_mod::lemma_add_mod_noop(
            pos as int, off as int, TAPE_LEN as int,
        );
    }
    (pos + (m as usize)) % TAPE_LEN
}

/// A verified deep copy: the copy has the same tree value.
#[verifier::loop_isolation(false)]
pub fn copy_node(n: &Node) -> (r: Node)
    ensures
        node_view(r) == node_view(*n),
    decreases *n,
{
    match n {
        Node::Shift(d) => Node::Shift(*d),
        Node::Inc(v, off, mv) => Node::Inc(*v, *off, *mv),
        Node::Dec(v, off, mv) => Node::Dec(*v, *off, *mv),
        Node::Mul(f, into, off, mv) => Node::Mul(*f, *into, *off, *mv),
        Node::Assign(v, off, mv) => Node::Assign(*v, *off, *mv),
        Node::Scan(iv) => Node::Scan(*iv),
        Node::Out(off, mv) => Node::Out(*off, *mv),
        Node::In(off, mv) => Node::In(*off, *mv),
        Node::Conditional(body) => {
            let mut out: Vec<Node> = Vec::new();
            let mut i: usize = 0;
            while i < body.len()
                invariant
                    i <= body.len(),
                    out@.len() == i,
                    block_view(out@) == block_view(body@.take(i as int)),
                decreases body.len() - i,
            {
                proof {
                    assert(decreases_to!(*n => n->Conditional_0));
                    assert(decreases_to!(*body => body@));
                    assert(decreases_to!(body@ => body@[i as int]));
                }
                let c = copy_node(&body[i]);
                let ghost prev = out@;
                out.push(c);
                proof {
                    assert(out@.drop_last() =~= prev);
                    assert(body@.take(i + 1 as int).drop_last() =~= body@.take(i as int));
                    assert(body@.take(i + 1 as int).last() == body@[i as int]);
                }
                i = i + 1;
            }
            proof {
                assert(body@.take(body@.len() as int) =~= body@);
            }
            Node::Conditional(out)
        }
        Node::Comment(c) => Node::Comment(*c),
    }
}

/// A verified deep copy of a block: same sequence of tree values.
#[verifier::loop_isolation(false)]
pub fn copy_block(b: &Vec<Node>) -> (r: Vec<Node>)
    ensures
        block_view(r@) == block_view(b@),
{
    let mut out: Vec<Node> = Vec::new();
    let mut i: usize = 0;
    while i < b.len()
        invariant
            i <= b.len(),
            out@.len() == i,
            block_view(out@) == block_view(b@.take(i as int)),
        decreases b.len() - i,
    {
        let c = copy_node(&b[i]);
        let ghost prev = out@;
        out.push(c);
        proof {
            assert(out@.drop_last() =~= prev);
            assert(b@.take(i + 1 as int).drop_last() =~= b@.take(i as int));
            assert(b@.take(i + 1 as int).last() == b@[i as int]);
        }
        i = i + 1;
    }
    proof {
        assert(b@.take(b@.len() as int) =~= b@);
    }
    out
}

/// One run being walked: the block and the index of the next node in it.
struct Frame {
    block: Vec<Node>,
    idx: usize,
}

spec fn frame_view(f: Frame) -> FrameView {
    FrameView { block: block_view(f.block@), idx: f.idx as int }
}

spec fn frames_view(fs: Seq<Frame>) -> Seq<FrameView> {
    fs.map_values(|f: Frame| frame_view(f))
}

/// The machine loop: walk the frames for at most `budget` steps, mirroring
/// `run_steps` step for step.
#[verifier::loop_isolation(false)]
fn run_frames(
    stdin: &mut InputSource,
    stdout: &mut Vec<u8>,
    first: Vec<Node>,
    s: &mut State,
    budget: u64,
) -> (r: Option<Result<(), RuntimeError>>)
    requires
        old(s).wf(),
        old(stdin).wf(),
    ensures
        final(s).wf(),
        final(stdin).wf(),
        ({
            let o = run_steps(
                init_cfg(
                    block_view(first@),
                    machine_of(*old(s), old(stdin).remaining(), old(stdout)@),
                ),
                budget as nat,
            );
            let fin = machine_of(*final(s), final(stdin).remaining(), final(stdout)@);
            match r {
                Some(res) => match res {
                    Ok(_) => o == Outcome::Done(fin),
                    Err(e) => e is ReadError && o == Outcome::Failed(fin),
                },
                None => o is Exhausted && o->Exhausted_0.m == fin,
            }
        }),
{
    let ghost m0 = machine_of(*old(s), old(stdin).remaining(), old(stdout)@);
    let mut frames: Vec<Frame> = Vec::new();
    frames.push(Frame { block: first, idx: 0 });
    let ghost init = init_cfg(block_view(frames@[0].block@), m0);
    proof {
        assert(frames_view(frames@) =~= init.frames);
    }
    let mut fuel: u64 = budget;
    while frames.len() != 0 && fuel != 0
        invariant
            s.wf(),
            stdin.wf(),
            fuel <= budget,
            run_steps(init, budget as nat) == run_steps(
                Cfg {
                    frames: frames_view(frames@),
                    m: machine_of(*s, stdin.remaining(), stdout@),
                },
                fuel as nat,
            ),
        decreases fuel,
    {
        let ghost pre = Cfg {
            frames: frames_view(frames@),
            m: machine_of(*s, stdin.remaining(), stdout@),
        };
        let top = frames.pop().unwrap();
        let ghost tb = block_view(top.block@);
        let ghost ti = top.idx as int;
        proof {
            assert(pre.frames.last() == frame_view(top));
            lemma_block_view(top.block@);
        }
        if top.idx >= top.block.len() {
            proof {
                assert(frames_view(frames@) =~= pre.frames.drop_last());
                assert(step(pre) == Step::Next(
                    Cfg { frames: frames_view(frames@), m: pre.m },
                ));
            }
        } else {
            let node = copy_node(&top.block[top.idx]);
            proof {
                assert(node_view(node) == tb[ti]);
            }
            match node {
                Node::Shift(d) => {
                    s.pos = offset_index(s.pos, d);
                    frames.push(Frame { block: top.block, idx: top.idx + 1 });
                    proof {
                        assert(frames_view(frames@) =~= bump(pre, pre.m).frames);
                    }
                }
                Node::Inc(v, off, mv) => {
                    let p = offset_index(s.pos, off);
                    let cur = s.cells[p];
                    let written: u8 = (((cur as u16) + (v as u16)) % 256) as u8;
                    s.cells.set(p, written);
                    if mv {
                        s.pos = p;
                    }
                    frames.push(Frame { block: top.block, idx: top.idx + 1 });
                    proof {
                        assert(written == add_mod(cur, v));
                        assert(frames_view(frames@) =~= bump(pre, pre.m).frames);
                    }
                }
                Node::Dec(v, off, mv) => {
                    let p = offset_index(s.pos, off);
                    let cur = s.cells[p];
                    let written: u8 = (((cur as u16) + 256 - (v as u16)) % 256) as u8;
                    s.cells.set(p, written);
                    if mv {
                        s.pos = p;
                    }
                    frames.push(Frame { block: top.block, idx: top.idx + 1 });
                    proof {
                        assert(written == sub_mod(cur, v));
                        assert(frames_view(frames@) =~= bump(pre, pre.m).frames);
                    }
                }
                Node::Mul(f, into, off, mv) => {
                    let p = offset_index(s.pos, off);
                    let q = offset_index(p, into);
                    let src = s.cells[p];
                    let absf: i32 = if f >= 0 {
                        f as i32
                    } else {
                        -(f as i32)
                    };
                    let ab: u32 = (absf % 256) as u32;
                    proof {
                        assert((src as u32) * ab <= 255 * 255) by (nonlinear_arith)
                            requires
                                src <= 255,
                                ab <= 255,
                        ;
                    }
                    let t: u32 = (src as u32) * ab;
                    let amt: u8 = (t % 256) as u8;
                    let dst = s.cells[q];
                    let written: u8 = if f >= 0 {
                        (((dst as u16) + (amt as u16)) % 256) as u8
                    } else {
                        (((dst as u16) + 256 - (amt as u16)) % 256) as u8
                    };
                    s.cells.set(q, written);
                    if mv {
                        s.pos = p;
                    }
                    frames.push(Frame { block: top.block, idx: top.idx + 1 });
                    proof {
                        assert(amt == mul_amt(src, f));
                        assert(frames_view(frames@) =~= bump(pre, pre.m).frames);
                    }
                }
                Node::Assign(v, off, mv) => {
                    let p = offset_index(s.pos, off);
                    s.cells.set(p, v);
                    if mv {
                        s.pos = p;
                    }
                    frames.push(Frame { block: top.block, idx: top.idx + 1 });
                    proof {
                        assert(frames_view(frames@) =~= bump(pre, pre.m).frames);
                    }
                }
                Node::Scan(iv) => {
                    if s.cells[s.pos] != 0 {
                        s.pos = offset_index(s.pos, iv);
                        frames.push(top);
                        proof {
                            assert(frames_view(frames@) =~= pre.frames);
                        }
                    } else {
                        frames.push(Frame { block: top.block, idx: top.idx + 1 });
                        proof {
                            assert(frames_view(frames@) =~= bump(pre, pre.m).frames);
                        }
                    }
                }
                Node::Out(off, mv) => {
                    let p = offset_index(s.pos, off);
                    stdout.push(s.cells[p]);
                    if mv {
                        s.pos = p;
                    }
                    frames.push(Frame { block: top.block, idx: top.idx + 1 });
                    proof {
                        assert(frames_view(frames@) =~= bump(pre, pre.m).frames);
                    }
                }
                Node::In(off, mv) => {
                    let p = offset_index(s.pos, off);
                    match stdin.read_byte() {
                        None => {
                            proof {
                                assert(step(pre) == Step::Fail(pre.m));
                                assert(run_steps(pre, fuel as nat) == Outcome::Failed(pre.m));
                            }
                            return Some(Err(RuntimeError::ReadError(
                                "No data from stdin".to_string(),
                            )));
                        }
                        Some(b) => {
                            s.cells.set(p, b);
                            if mv {
                                s.pos = p;
                            }
                            frames.push(Frame { block: top.block, idx: top.idx + 1 });
                            proof {
                                assert(frames_view(frames@) =~= bump(pre, pre.m).frames);
                            }
                        }
                    }
                }
                Node::Conditional(body) => {
                    if s.cells[s.pos] != 0 {
                        frames.push(top);
                        frames.push(Frame { block: body, idx: 0 });
                        proof {
                            assert(frames_view(frames@) =~= pre.frames.push(
                                FrameView { block: tb[ti]->Conditional_0, idx: 0 },
                            ));
                        }
                    } else {
                        frames.push(Frame { block: top.block, idx: top.idx + 1 });
                        proof {
                            assert(frames_view(frames@) =~= bump(pre, pre.m).frames);
                        }
                    }
                }
                Node::Comment(_) => {
                    frames.push(Frame { block: top.block, idx: top.idx + 1 });
                    proof {
                        assert(frames_view(frames@) =~= bump(pre, pre.m).frames);
                    }
                }
            }
        }
        fuel = fuel - 1;
        proof {
            let cur = Cfg {
                frames: frames_view(frames@),
                m: machine_of(*s, stdin.remaining(), stdout@),
            };
            assert(step(pre) == Step::Next(cur));
            assert(run_steps(pre, (fuel + 1) as nat) == run_steps(cur, fuel as nat));
        }
    }
    if frames.len() == 0 {
        proof {
            let cur = Cfg {
                frames: frames_view(frames@),
                m: machine_of(*s, stdin.remaining(), stdout@),
            };
            assert(cur.frames.len() == 0);
            assert(run_steps(cur, fuel as nat) == Outcome::Done(cur.m));
        }
        Some(Ok(()))
    } else {
        proof {
            let cur = Cfg {
                frames: frames_view(frames@),
                m: machine_of(*s, stdin.remaining(), stdout@),
            };
            assert(run_steps(cur, fuel as nat) == Outcome::Exhausted(cur));
        }
        None
    }
}

/// Execute `block` against `s`, reading from `stdin` and writing to
/// `stdout`, for at most `budget` machine steps.  `Some(res)` reports the
/// machine's own result; `None` means the budget ran out first, with the
/// state exactly as the model leaves it mid-run.
pub fn run_block(
    stdin: &mut InputSource,
    stdout: &mut Vec<u8>,
    block: &Vec<Node>,
    s: &mut State,
    budget: u64,
) -> (r: Option<Result<(), RuntimeError>>)
    requires
        old(s).wf(),
        old(stdin).wf(),
    ensures
        final(s).wf(),
        final(stdin).wf(),
        ({
            let o = run_steps(
                init_cfg(
                    block_view(block@),
                    machine_of(*old(s), old(stdin).remaining(), old(stdout)@),
                ),
                budget as nat,
            );
            let fin = machine_of(*final(s), final(stdin).remaining(), final(stdout)@);
            match r {
                Some(res) => match res {
                    Ok(_) => o == Outcome::Done(fin),
                    Err(e) => e is ReadError && o == Outcome::Failed(fin),
                },
                None => o is Exhausted && o->Exhausted_0.m == fin,
            }
        }),
{
    let owned = copy_block(block);
    run_frames(stdin, stdout, owned, s, budget)
}

impl Node {
    /// Execute this single node, as `run_block` would a one-node block.
    pub fn execute(
        &self,
        stdin: &mut InputSource,
        stdout: &mut Vec<u8>,
        s: &mut State,
        budget: u64,
    ) -> (r: Option<Result<(), RuntimeError>>)
        requires
            old(s).wf(),
            old(stdin).wf(),
        ensures
            final(s).wf(),
            final(stdin).wf(),
            ({
                let o = run_steps(
                    init_cfg(
                        seq![node_view(*self)],
                        machine_of(*old(s), old(stdin).remaining(), old(stdout)@),
                    ),
                    budget as nat,
                );
                let fin = machine_of(*final(s), final(stdin).remaining(), final(stdout)@);
                match r {
                    Some(res) => match res {
                        Ok(_) => o == Outcome::Done(fin),
                        Err(e) => e is ReadError && o == Outcome::Failed(fin),
                    },
                    None => o is Exhausted && o->Exhausted_0.m == fin,
                }
            }),
    {
        let mut b: Vec<Node> = Vec::new();
        let c = copy_node(self);
        b.push(c);
        proof {
            lemma_block_view(b@);
            assert(b@[0] == c);
            assert(block_view(b@) =~= seq![node_view(*self)]);
        }
        run_frames(stdin, stdout, b, s, budget)
    }
}

} // verus!
