//! The optimizer pipeline: an ordered sequence of tree-rewrite passes, each
//! a pure function from instruction sequence to instruction sequence, each
//! proved to return exactly the tree its spec in `rewrites` describes.

use vstd::prelude::*;

use crate::rewrites::assign_fold;
use crate::rewrites::assign_map;
use crate::rewrites::carry_loop;
use crate::rewrites::collapse_loops;
use crate::rewrites::collapse_scans;
use crate::rewrites::collapsible_loop;
use crate::rewrites::loop_muls;
use crate::rewrites::collapse_assigns;
use crate::rewrites::defer_moves;
use crate::rewrites::defer_run;
use crate::rewrites::emit_runs;
use crate::rewrites::runs_loop;
use crate::rewrites::w32;
use crate::rewrites::absorb_shift;
use crate::rewrites::committed_offset;
use crate::rewrites::fold_offsets;
use crate::rewrites::iabs;
use crate::rewrites::is_zero_loop;
use crate::rewrites::offsets_loop;
use crate::rewrites::offsets_step;
use crate::rewrites::sgn;
use crate::rewrites::split_shift;
use crate::rewrites::with_offset;
use crate::rewrites::merge_loop;
use crate::rewrites::merge_ops;
use crate::rewrites::merge_pair;
use crate::rewrites::strip_comments;
use crate::semantics::block_view;
use crate::semantics::blocks_view;
use crate::semantics::lemma_block_view;
use crate::semantics::lemma_size_block_element;
use crate::semantics::node_view;
use crate::semantics::size_block;
use crate::semantics::size_node;
use crate::semantics::sub_mod;
use crate::semantics::NodeView;
use crate::vm::copy_node;
use crate::vm::Node;

verus! {

/// Which optimizations to enable.  Switches are independent; comment
/// stripping always runs.
#[derive(Clone, Copy, Debug, PartialEq, Eq, Structural)]
pub struct OptimizationOptions {
    pub collapsed_operators: bool,
    pub collapsed_assignments: bool,
    pub collapsed_offsets: bool,
    pub collapsed_loops: bool,
    pub collapsed_scan_loops: bool,
}

/// The configuration with every pass enabled.
pub open spec fn default_options() -> OptimizationOptions {
    OptimizationOptions {
        collapsed_operators: true,
        collapsed_assignments: true,
        collapsed_offsets: true,
        collapsed_loops: true,
        collapsed_scan_loops: true,
    }
}

impl Default for OptimizationOptions {
    /// Every pass enabled.
    fn default() -> (r: Self)
        ensures
            r == default_options(),
    {
        OptimizationOptions {
            collapsed_operators: true,
            collapsed_assignments: true,
            collapsed_offsets: true,
            collapsed_loops: true,
            collapsed_scan_loops: true,
        }
    }
}

/// The trait implemented by every optimization step: each names the tree
/// rewrite it performs, and its `apply` is held to it exactly.
pub trait OptimizationStep {
    /// The tree this step rewrites its input to.
    spec fn rewrite(&self, code: Seq<NodeView>) -> Seq<NodeView>;

    fn apply(&self, code: &Vec<Node>) -> (r: Vec<Node>)
        ensures
            block_view(r@) == self.rewrite(block_view(code@)),
    ;
}

/// Remove every `Comment` node, recursing into loop bodies.
#[verifier::loop_isolation(false)]
pub fn filter_comments(code: &Vec<Node>) -> (r: Vec<Node>)
    ensures
        block_view(r@) == strip_comments(block_view(code@)),
    decreases size_block(block_view(code@)),
{
    let ghost cv = block_view(code@);
    proof {
        lemma_block_view(code@);
        assert(cv.subrange(0, cv.len() as int) =~= cv);
    }
    let mut out: Vec<Node> = Vec::new();
    let mut i: usize = 0;
    while i < code.len()
        invariant
            i <= code.len(),
            strip_comments(cv) == block_view(out@) + strip_comments(
                cv.subrange(i as int, cv.len() as int),
            ),
        decreases code.len() - i,
    {
        let ghost suf = cv.subrange(i as int, cv.len() as int);
        let ghost acc = block_view(out@);
        proof {
            assert(suf[0] == cv[i as int]);
            assert(suf.subrange(1, suf.len() as int) =~= cv.subrange(
                i + 1,
                cv.len() as int,
            ));
        }
        match &code[i] {
            Node::Comment(_) => {}
            Node::Conditional(body) => {
                proof {
                    lemma_size_block_element(cv, i as int);
                    assert(size_node(cv[i as int]) == 1 + size_block(block_view(body@)));
                }
                let nb = filter_comments(body);
                let ghost prev = out@;
                out.push(Node::Conditional(nb));
                proof {
                    assert(out@.drop_last() =~= prev);
                    assert(strip_comments(cv) =~= (acc.push(node_view(out@.last())))
                        + strip_comments(suf.subrange(1, suf.len() as int)));
                }
            }
            other => {
                let c = copy_node(other);
                let ghost prev = out@;
                out.push(c);
                proof {
                    assert(out@.drop_last() =~= prev);
                    assert(strip_comments(cv) =~= (acc.push(node_view(out@.last())))
                        + strip_comments(suf.subrange(1, suf.len() as int)));
                }
            }
        }
        i = i + 1;
    }
    proof {
        assert(cv.subrange(cv.len() as int, cv.len() as int) =~= Seq::<NodeView>::empty());
        assert(block_view(out@) + Seq::<NodeView>::empty() =~= block_view(out@));
    }
    out
}

/// The "Filter Comments" optimization.
pub struct FilterComments;

impl OptimizationStep for FilterComments {
    open spec fn rewrite(&self, code: Seq<NodeView>) -> Seq<NodeView> {
        strip_comments(code)
    }

    fn apply(&self, code: &Vec<Node>) -> (r: Vec<Node>) {
        filter_comments(code)
    }
}

/// Fold adjacent `Shift`s, and adjacent non-committing `Inc`/`Inc` or
/// `Dec`/`Dec` pairs at one offset, rejecting a merge that would overflow.
#[verifier::loop_isolation(false)]
pub fn merge_repeated_operators(code: &Vec<Node>) -> (r: Vec<Node>)
    ensures
        block_view(r@) == merge_ops(block_view(code@)),
    decreases size_block(block_view(code@)),
{
    let ghost cv = block_view(code@);
    proof {
        lemma_block_view(code@);
        assert(cv.subrange(0, cv.len() as int) =~= cv);
    }
    let mut out: Vec<Node> = Vec::new();
    let mut i: usize = 0;
    while i < code.len()
        invariant
            i <= code.len(),
            merge_loop(block_view(out@), cv.subrange(i as int, cv.len() as int))
                == merge_ops(cv),
        decreases code.len() - i,
    {
        let ghost suf = cv.subrange(i as int, cv.len() as int);
        let ghost acc = block_view(out@);
        proof {
            lemma_block_view(out@);
            assert(suf[0] == cv[i as int]);
            assert(suf.subrange(1, suf.len() as int) =~= cv.subrange(
                i + 1,
                cv.len() as int,
            ));
        }
        let mut merged: Option<Node> = None;
        if out.len() > 0 {
            let li = out.len() - 1;
            proof {
                assert(acc.last() == node_view(out@[li as int]));
            }
            match (&out[li], &code[i]) {
                (Node::Shift(x), Node::Shift(y)) => {
                    let sum: i64 = (*x as i64) + (*y as i64);
                    if -2147483648 <= sum && sum <= 2147483647 {
                        merged = Some(Node::Shift(sum as i32));
                    }
                }
                (Node::Inc(x, o1, false), Node::Inc(y, o2, false)) => {
                    if (*x as u16) + (*y as u16) <= 255 && *o1 == *o2 {
                        merged = Some(Node::Inc(((*x as u16) + (*y as u16)) as u8, *o1, false));
                    }
                }
                (Node::Dec(x, o1, false), Node::Dec(y, o2, false)) => {
                    if (*x as u16) + (*y as u16) <= 255 && *o1 == *o2 {
                        merged = Some(Node::Dec(((*x as u16) + (*y as u16)) as u8, *o1, false));
                    }
                }
                _ => {}
            }
        }
        match merged {
            Some(mn) => {
                let ghost mnv = node_view(mn);
                proof {
                    assert(merge_pair(acc.last(), suf[0]) == Some(mnv));
                }
                out.pop();
                let ghost popped = out@;
                out.push(mn);
                proof {
                    assert(out@.drop_last() =~= popped);
                    assert(block_view(out@).drop_last() =~= block_view(popped));
                    assert(block_view(popped) =~= acc.drop_last()) by {
                        lemma_block_view(popped);
                    }
                    assert(block_view(out@) =~= acc.drop_last().push(mnv));
                    assert(acc.len() > 0);
                }
            }
            None => {
                proof {
                    assert(i < code.len());
                    assert(out@.len() > 0 ==> merge_pair(acc.last(), suf[0]) is None);
                }
                match &code[i] {
                    Node::Conditional(body) => {
                        proof {
                            lemma_size_block_element(cv, i as int);
                            assert(size_node(cv[i as int]) == 1 + size_block(
                                block_view(body@),
                            ));
                        }
                        let nb = merge_repeated_operators(body);
                        let ghost prev = out@;
                        out.push(Node::Conditional(nb));
                        proof {
                            assert(out@.drop_last() =~= prev);
                            assert(suf[0] matches NodeView::Conditional(bv) && block_view(
                                nb@,
                            ) == merge_ops(bv));
                            assert(block_view(out@) =~= acc.push(node_view(out@.last())));
                            assert(node_view(out@.last()) == NodeView::Conditional(
                                merge_ops(suf[0]->Conditional_0),
                            ));
                        }
                    }
                    other => {
                        let c = copy_node(other);
                        let ghost prev = out@;
                        out.push(c);
                        proof {
                            assert(out@.drop_last() =~= prev);
                            assert(block_view(out@) =~= acc.push(suf[0]));
                        }
                    }
                }
            }
        }
        proof {
            let tail = cv.subrange(i + 1, cv.len() as int);
            assert(suf.len() > 0);
            assert(merge_loop(acc, suf) == merge_loop(block_view(out@), tail));
        }
        i = i + 1;
    }
    proof {
        assert(cv.subrange(cv.len() as int, cv.len() as int) =~= Seq::<NodeView>::empty());
    }
    out
}

/// The "Merge Repeated Operators" optimization.
pub struct MergeRepeatedOperators;

impl OptimizationStep for MergeRepeatedOperators {
    open spec fn rewrite(&self, code: Seq<NodeView>) -> Seq<NodeView> {
        merge_ops(code)
    }

    fn apply(&self, code: &Vec<Node>) -> (r: Vec<Node>) {
        merge_repeated_operators(code)
    }
}


/// Is this body exactly the canonical zero-the-cell loop body?
fn is_zero_loop_body(body: &Vec<Node>) -> (r: bool)
    ensures
        r == is_zero_loop(block_view(body@)),
{
    proof {
        lemma_block_view(body@);
    }
    if body.len() != 1 {
        return false;
    }
    match &body[0] {
        Node::Dec(v, o, mv) => *v == 1 && *o == 0 && !*mv,
        _ => false,
    }
}

/// Rewrite zero-loops to assignments, then fold each `Assign(0)` with the
/// `Inc`/`Dec` that follows it into one constant assignment.
#[verifier::loop_isolation(false)]
pub fn collapse_assignments(code: &Vec<Node>) -> (r: Vec<Node>)
    ensures
        block_view(r@) == collapse_assigns(block_view(code@)),
    decreases size_block(block_view(code@)),
{
    let ghost cv = block_view(code@);
    proof {
        lemma_block_view(code@);
        assert(cv.subrange(0, cv.len() as int) =~= cv);
    }
    let mut mapped: Vec<Node> = Vec::new();
    let mut i: usize = 0;
    while i < code.len()
        invariant
            i <= code.len(),
            block_view(mapped@) + assign_map(cv.subrange(i as int, cv.len() as int))
                == assign_map(cv),
        decreases code.len() - i,
    {
        let ghost suf = cv.subrange(i as int, cv.len() as int);
        let ghost acc = block_view(mapped@);
        proof {
            assert(suf[0] == cv[i as int]);
            assert(suf.subrange(1, suf.len() as int) =~= cv.subrange(
                i + 1,
                cv.len() as int,
            ));
        }
        match &code[i] {
            Node::Conditional(body) => {
                if is_zero_loop_body(body) {
                    let ghost prev = mapped@;
                    mapped.push(Node::Assign(0, 0, false));
                    proof {
                        assert(mapped@.drop_last() =~= prev);
                        assert(mapped@.last() == Node::Assign(0u8, 0i32, false));
                        assert(block_view(mapped@) == block_view(prev).push(
                            node_view(mapped@.last()),
                        ));
                        assert(block_view(mapped@) == acc.push(NodeView::Assign(0, 0, false)));
                    }
                } else {
                    proof {
                        lemma_size_block_element(cv, i as int);
                        assert(size_node(cv[i as int]) == 1 + size_block(block_view(body@)));
                    }
                    let nb = collapse_assignments(body);
                    let ghost prev = mapped@;
                    mapped.push(Node::Conditional(nb));
                    proof {
                        assert(mapped@.drop_last() =~= prev);
                        assert(block_view(mapped@) == block_view(prev).push(
                            node_view(mapped@.last()),
                        ));
                        assert(node_view(mapped@.last()) == NodeView::Conditional(
                            collapse_assigns(suf[0]->Conditional_0),
                        ));
                    }
                }
            }
            other => {
                let c = copy_node(other);
                let ghost prev = mapped@;
                mapped.push(c);
                proof {
                    assert(mapped@.drop_last() =~= prev);
                    assert(block_view(mapped@) =~= acc.push(suf[0]));
                }
            }
        }
        proof {
            let tail = cv.subrange(i + 1, cv.len() as int);
            assert(acc + assign_map(suf) =~= block_view(mapped@) + assign_map(tail));
        }
        i = i + 1;
    }
    let ghost mseq = assign_map(cv);
    proof {
        assert(cv.subrange(cv.len() as int, cv.len() as int) =~= Seq::<NodeView>::empty());
        assert(block_view(mapped@) + Seq::<NodeView>::empty() =~= block_view(mapped@));
        assert(block_view(mapped@) == mseq);
        assert(mseq.subrange(0, mseq.len() as int) =~= mseq);
        lemma_block_view(mapped@);
    }
    let mut out: Vec<Node> = Vec::new();
    let mut j: usize = 0;
    while j < mapped.len()
        invariant
            j <= mapped.len(),
            assign_fold(block_view(out@), mseq.subrange(j as int, mseq.len() as int))
                == assign_fold(Seq::empty(), mseq),
        decreases mapped.len() - j,
    {
        let ghost suf = mseq.subrange(j as int, mseq.len() as int);
        let ghost acc = block_view(out@);
        proof {
            lemma_block_view(out@);
            assert(suf[0] == mseq[j as int]);
            assert(suf.subrange(1, suf.len() as int) =~= mseq.subrange(
                j + 1,
                mseq.len() as int,
            ));
        }
        let mut fused: Option<Node> = None;
        if out.len() > 0 {
            let li = out.len() - 1;
            proof {
                assert(acc.last() == node_view(out@[li as int]));
            }
            match (&out[li], &mapped[j]) {
                (Node::Assign(a, o1, false), Node::Inc(v, o2, false)) => {
                    if *a == 0 && *o1 == *o2 {
                        fused = Some(Node::Assign(*v, *o1, false));
                    }
                }
                (Node::Assign(a, o1, false), Node::Dec(v, o2, false)) => {
                    if *a == 0 && *o1 == *o2 {
                        fused = Some(Node::Assign(((256 - (*v as u16)) % 256) as u8, *o1, false));
                    }
                }
                _ => {}
            }
        }
        match fused {
            Some(x) => {
                let ghost xv = node_view(x);
                proof {
                    assert(xv == NodeView::Assign(sub_mod(0, suf[0]->Inc_0), suf[0]->Inc_1, false)
                        || xv == NodeView::Assign(suf[0]->Inc_0, suf[0]->Inc_1, false)
                        || xv == NodeView::Assign(sub_mod(0, suf[0]->Dec_0), suf[0]->Dec_1, false));
                }
                out.pop();
                let ghost popped = out@;
                out.push(x);
                proof {
                    assert(out@.drop_last() =~= popped);
                    assert(block_view(out@).drop_last() =~= block_view(popped));
                    assert(block_view(popped) =~= acc.drop_last()) by {
                        lemma_block_view(popped);
                    }
                    assert(block_view(out@) =~= acc.drop_last().push(xv));
                }
            }
            None => {
                let c = copy_node(&mapped[j]);
                let ghost prev = out@;
                out.push(c);
                proof {
                    assert(out@.drop_last() =~= prev);
                    assert(block_view(out@) =~= acc.push(suf[0]));
                }
            }
        }
        proof {
            let tail = mseq.subrange(j + 1, mseq.len() as int);
            assert(suf.len() > 0);
            assert(assign_fold(acc, suf) == assign_fold(block_view(out@), tail));
        }
        j = j + 1;
    }
    proof {
        assert(mseq.subrange(mseq.len() as int, mseq.len() as int) =~= Seq::<NodeView>::empty());
    }
    out
}

/// The "Collapse Assignments" optimization.
pub struct CollapseAssignments;

impl OptimizationStep for CollapseAssignments {
    open spec fn rewrite(&self, code: Seq<NodeView>) -> Seq<NodeView> {
        collapse_assigns(code)
    }

    fn apply(&self, code: &Vec<Node>) -> (r: Vec<Node>) {
        collapse_assignments(code)
    }
}


/// `n` with its offset and commit flag replaced, for the five
/// offset-carrying kinds; anything else is returned unchanged.
fn with_offset_node(n: Node, off: i32, mv: bool) -> (r: Node)
    ensures
        node_view(r) == with_offset(node_view(n), off, mv),
{
    match n {
        Node::Inc(v, _, _) => Node::Inc(v, off, mv),
        Node::Dec(v, _, _) => Node::Dec(v, off, mv),
        Node::Assign(v, _, _) => Node::Assign(v, off, mv),
        Node::In(_, _) => Node::In(off, mv),
        Node::Out(_, _) => Node::Out(off, mv),
        other => other,
    }
}

/// Fold explicit `Shift`s into the offset fields of their neighbours: a
/// shift before a zero-offset instruction becomes a committing offset, and a
/// committing instruction followed by an opposite-signed shift is reduced by
/// sign and magnitude alone.
#[verifier::loop_isolation(false)]
#[verifier::rlimit(100)]
pub fn collapse_offsets(code: &Vec<Node>) -> (r: Vec<Node>)
    ensures
        block_view(r@) == fold_offsets(block_view(code@)),
    decreases size_block(block_view(code@)),
{
    let ghost cv = block_view(code@);
    proof {
        lemma_block_view(code@);
        assert(cv.subrange(0, cv.len() as int) =~= cv);
    }
    let mut out: Vec<Node> = Vec::new();
    let mut i: usize = 0;
    while i < code.len()
        invariant
            i <= code.len(),
            offsets_loop(block_view(out@), cv.subrange(i as int, cv.len() as int))
                == fold_offsets(cv),
        decreases code.len() - i,
    {
        let ghost suf = cv.subrange(i as int, cv.len() as int);
        let ghost acc = block_view(out@);
        proof {
            lemma_block_view(out@);
            assert(suf[0] == cv[i as int]);
            assert(suf.subrange(1, suf.len() as int) =~= cv.subrange(
                i + 1,
                cv.len() as int,
            ));
        }
        let nn: Node = match &code[i] {
            Node::Conditional(body) => {
                proof {
                    lemma_size_block_element(cv, i as int);
                    assert(size_node(cv[i as int]) == 1 + size_block(block_view(body@)));
                }
                Node::Conditional(collapse_offsets(body))
            }
            other => copy_node(other),
        };
        let ghost nnv = node_view(nn);
        proof {
            assert(nnv == (match suf[0] {
                NodeView::Conditional(body) => NodeView::Conditional(fold_offsets(body)),
                n => n,
            }));
        }
        let mut handled = false;
        if out.len() > 0 {
            let li = out.len() - 1;
            proof {
                assert(acc.last() == node_view(out@[li as int]));
            }
            let mut shift_off: Option<i32> = None;
            match &out[li] {
                Node::Shift(x) => shift_off = Some(*x),
                _ => {}
            }
            match shift_off {
                Some(off) => {
                    let mut absorbed: Option<Node> = None;
                    match &nn {
                        Node::Inc(v, o, mv) => if *o == 0 && !*mv {
                            absorbed = Some(Node::Inc(*v, off, true));
                        },
                        Node::Dec(v, o, mv) => if *o == 0 && !*mv {
                            absorbed = Some(Node::Dec(*v, off, true));
                        },
                        Node::Assign(v, o, mv) => if *o == 0 && !*mv {
                            absorbed = Some(Node::Assign(*v, off, true));
                        },
                        Node::Out(o, mv) => if *o == 0 && !*mv {
                            absorbed = Some(Node::Out(off, true));
                        },
                        Node::In(o, mv) => if *o == 0 && !*mv {
                            absorbed = Some(Node::In(off, true));
                        },
                        _ => {}
                    }
                    match absorbed {
                        Some(a) => {
                            let ghost av = node_view(a);
                            proof {
                                assert(absorb_shift(off, nnv) == Some(av));
                            }
                            out.pop();
                            let ghost popped = out@;
                            out.push(a);
                            proof {
                                assert(out@.drop_last() =~= popped);
                                assert(block_view(popped) =~= acc.drop_last()) by {
                                    lemma_block_view(popped);
                                }
                                assert(block_view(out@) == block_view(popped).push(
                                    node_view(out@.last()),
                                ));
                                assert(block_view(out@) == offsets_step(acc, nnv));
                            }
                            handled = true;
                        }
                        None => {
                            proof {
                                assert(absorb_shift(off, nnv) is None);
                            }
                        }
                    }
                }
                None => {
                    let mut sh_val: Option<i32> = None;
                    match &nn {
                        Node::Shift(x) => sh_val = Some(*x),
                        _ => {}
                    }
                    match sh_val {
                        Some(sh) => {
                            let mut co: Option<i32> = None;
                            match &out[li] {
                                Node::Inc(_, o, true) => co = Some(*o),
                                Node::Dec(_, o, true) => co = Some(*o),
                                Node::Assign(_, o, true) => co = Some(*o),
                                Node::In(o, true) => co = Some(*o),
                                Node::Out(o, true) => co = Some(*o),
                                _ => {}
                            }
                            match co {
                                Some(o) => {
                                    proof {
                                        assert(committed_offset(acc.last()) == Some(o));
                                    }
                                    let o64: i64 = o as i64;
                                    let sh64: i64 = sh as i64;
                                    let sgn_o: i64 = if o64 > 0 {
                                        1
                                    } else if o64 < 0 {
                                        -1
                                    } else {
                                        0
                                    };
                                    let sgn_sh: i64 = if sh64 > 0 {
                                        1
                                    } else if sh64 < 0 {
                                        -1
                                    } else {
                                        0
                                    };
                                    if sgn_o != sgn_sh {
                                        let ao: i64 = if o64 < 0 {
                                            -o64
                                        } else {
                                            o64
                                        };
                                        let ash: i64 = if sh64 < 0 {
                                            -sh64
                                        } else {
                                            sh64
                                        };
                                        let diff: i64 = ao - ash;
                                        proof {
                                            assert(diff == iabs(o as int) - iabs(sh as int));
                                        }
                                        let last_owned = out.pop().unwrap();
                                        let ghost popped = out@;
                                        let ghost lastv = node_view(last_owned);
                                        proof {
                                            assert(lastv == acc.last());
                                            assert(block_view(popped) =~= acc.drop_last()) by {
                                                lemma_block_view(popped);
                                            }
                                        }
                                        if diff == 0 {
                                            let rb = with_offset_node(last_owned, o, false);
                                            out.push(rb);
                                            proof {
                                                assert(out@.drop_last() =~= popped);
                                                assert(block_view(out@) == block_view(popped).push(
                                                    node_view(out@.last()),
                                                ));
                                                assert(block_view(out@) =~= acc.drop_last()
                                                    + split_shift(lastv, o as int, sh as int));
                                            }
                                        } else if diff > 0 {
                                            let w: i64 = if sgn_o == 1 {
                                                diff
                                            } else {
                                                -diff
                                            };
                                            proof {
                                                assert(sgn_o != 0);
                                                assert(sgn_o == sgn(o as int));
                                                if sgn_o == 1 {
                                                    assert(w == sgn(o as int) * diff)
                                                        by (nonlinear_arith)
                                                        requires
                                                            sgn(o as int) == 1,
                                                            w == diff,
                                                    ;
                                                } else {
                                                    assert(w == sgn(o as int) * diff)
                                                        by (nonlinear_arith)
                                                        requires
                                                            sgn(o as int) == -1,
                                                            w == -diff,
                                                    ;
                                                }
                                                assert(-0x8000_0000 <= w <= 0x7fff_ffff);
                                                assert(-0x8000_0000 <= o64 - w <= 0x7fff_ffff);
                                            }
                                            out.push(Node::Shift(w as i32));
                                            let ghost mid = out@;
                                            proof {
                                                assert(mid.drop_last() =~= popped);
                                                assert(block_view(mid) == block_view(popped).push(
                                                    node_view(mid.last()),
                                                ));
                                            }
                                            let rb = with_offset_node(
                                                last_owned,
                                                (o64 - w) as i32,
                                                false,
                                            );
                                            out.push(rb);
                                            proof {
                                                assert(out@.drop_last() =~= mid);
                                                assert(block_view(out@) == block_view(mid).push(
                                                    node_view(out@.last()),
                                                ));
                                                assert(block_view(out@) =~= acc.drop_last()
                                                    + split_shift(lastv, o as int, sh as int));
                                            }
                                        } else {
                                            let w: i64 = if sgn_sh == 1 {
                                                -diff
                                            } else {
                                                diff
                                            };
                                            proof {
                                                assert(sgn_sh != 0);
                                                assert(sgn_sh == sgn(sh as int));
                                                if sgn_sh == 1 {
                                                    assert(w == sgn(sh as int) * (-diff))
                                                        by (nonlinear_arith)
                                                        requires
                                                            sgn(sh as int) == 1,
                                                            w == -diff,
                                                    ;
                                                } else {
                                                    assert(w == sgn(sh as int) * (-diff))
                                                        by (nonlinear_arith)
                                                        requires
                                                            sgn(sh as int) == -1,
                                                            w == diff,
                                                    ;
                                                }
                                                assert(-0x8000_0000 <= w <= 0x7fff_ffff);
                                            }
                                            let rb = with_offset_node(last_owned, o, false);
                                            out.push(rb);
                                            let ghost mid = out@;
                                            proof {
                                                assert(mid.drop_last() =~= popped);
                                                assert(block_view(mid) == block_view(popped).push(
                                                    node_view(mid.last()),
                                                ));
                                            }
                                            out.push(Node::Shift(w as i32));
                                            proof {
                                                assert(out@.drop_last() =~= mid);
                                                assert(block_view(out@) == block_view(mid).push(
                                                    node_view(out@.last()),
                                                ));
                                                assert(block_view(out@) =~= acc.drop_last()
                                                    + split_shift(lastv, o as int, sh as int));
                                            }
                                        }
                                        proof {
                                            assert(block_view(out@) == offsets_step(acc, nnv));
                                        }
                                        handled = true;
                                    } else {
                                        proof {
                                            assert(sgn(o as int) == sgn(node_view(nn)->Shift_0 as int));
                                        }
                                    }
                                }
                                None => {
                                    proof {
                                        assert(committed_offset(acc.last()) is None);
                                    }
                                }
                            }
                        }
                        None => {}
                    }
                }
            }
        }
        if !handled {
            let ghost prev = out@;
            out.push(nn);
            proof {
                assert(out@.drop_last() =~= prev);
                assert(block_view(out@) == block_view(prev).push(node_view(out@.last())));
                assert(block_view(out@) == offsets_step(acc, nnv));
            }
        }
        proof {
            let tail = cv.subrange(i + 1, cv.len() as int);
            assert(suf.len() > 0);
            assert(offsets_loop(acc, suf) == offsets_loop(block_view(out@), tail));
        }
        i = i + 1;
    }
    proof {
        assert(cv.subrange(cv.len() as int, cv.len() as int) =~= Seq::<NodeView>::empty());
    }
    out
}

/// The "Collapse Offsets" optimization.
pub struct CollapseOffsets;

impl OptimizationStep for CollapseOffsets {
    open spec fn rewrite(&self, code: Seq<NodeView>) -> Seq<NodeView> {
        fold_offsets(code)
    }

    fn apply(&self, code: &Vec<Node>) -> (r: Vec<Node>) {
        collapse_offsets(code)
    }
}


/// Append a copy of every node of `src` to `dst`.
#[verifier::loop_isolation(false)]
fn append_block(dst: &mut Vec<Node>, src: &Vec<Node>)
    ensures
        block_view(final(dst)@) == block_view(old(dst)@) + block_view(src@),
{
    let ghost base = block_view(old(dst)@);
    let mut k: usize = 0;
    while k < src.len()
        invariant
            k <= src.len(),
            block_view(dst@) == base + block_view(src@.take(k as int)),
        decreases src.len() - k,
    {
        let c = copy_node(&src[k]);
        let ghost prev = dst@;
        dst.push(c);
        proof {
            assert(dst@.drop_last() =~= prev);
            assert(src@.take(k + 1 as int).drop_last() =~= src@.take(k as int));
            assert(src@.take(k + 1 as int).last() == src@[k as int]);
            assert(block_view(src@.take(k + 1 as int)) == block_view(src@.take(k as int)).push(
                node_view(src@[k as int]),
            ));
            assert(base + block_view(src@.take(k + 1 as int)) =~= (base + block_view(
                src@.take(k as int),
            )).push(node_view(src@[k as int])));
        }
        k = k + 1;
    }
    proof {
        assert(src@.take(src@.len() as int) =~= src@);
    }
}

/// Rewrite one straight-line run: the carry swallows the shifts, each
/// instruction is re-addressed, and the carry flushes as one trailing shift.
#[verifier::loop_isolation(false)]
fn defer_run_block(group: &Vec<Node>) -> (r: Vec<Node>)
    ensures
        block_view(r@) == defer_run(block_view(group@)),
{
    let ghost gv = block_view(group@);
    proof {
        lemma_block_view(group@);
        assert(gv.subrange(0, gv.len() as int) =~= gv);
    }
    let mut out: Vec<Node> = Vec::new();
    let mut carry: i32 = 0;
    let mut k: usize = 0;
    while k < group.len()
        invariant
            k <= group.len(),
            carry_loop(block_view(out@), carry as int, gv.subrange(k as int, gv.len() as int))
                == carry_loop(Seq::empty(), 0, gv),
        decreases group.len() - k,
    {
        let ghost suf = gv.subrange(k as int, gv.len() as int);
        let ghost acc = block_view(out@);
        let ghost carry0 = carry as int;
        proof {
            assert(suf[0] == gv[k as int]);
            assert(suf.subrange(1, suf.len() as int) =~= gv.subrange(
                k + 1,
                gv.len() as int,
            ));
        }
        match &group[k] {
            Node::Shift(v) => {
                let sum: i64 = (carry as i64) + (*v as i64);
                if -2147483648 <= sum && sum <= 2147483647 {
                    carry = sum as i32;
                } else {
                    let ghost prev = out@;
                    out.push(Node::Shift(carry));
                    carry = *v;
                    proof {
                        assert(out@.drop_last() =~= prev);
                        assert(block_view(out@) == block_view(prev).push(
                            node_view(out@.last()),
                        ));
                    }
                }
            }
            Node::Inc(v, off, mv) => {
                let noff = wrap_add_i32(carry, *off);
                let ghost prev = out@;
                out.push(Node::Inc(*v, noff, false));
                if *mv {
                    carry = noff;
                }
                proof {
                    assert(out@.drop_last() =~= prev);
                    assert(block_view(out@) == block_view(prev).push(node_view(out@.last())));
                }
            }
            Node::Dec(v, off, mv) => {
                let noff = wrap_add_i32(carry, *off);
                let ghost prev = out@;
                out.push(Node::Dec(*v, noff, false));
                if *mv {
                    carry = noff;
                }
                proof {
                    assert(out@.drop_last() =~= prev);
                    assert(block_view(out@) == block_view(prev).push(node_view(out@.last())));
                }
            }
            Node::Assign(v, off, mv) => {
                let noff = wrap_add_i32(carry, *off);
                let ghost prev = out@;
                out.push(Node::Assign(*v, noff, false));
                if *mv {
                    carry = noff;
                }
                proof {
                    assert(out@.drop_last() =~= prev);
                    assert(block_view(out@) == block_view(prev).push(node_view(out@.last())));
                }
            }
            Node::Mul(val, into, off, mv) => {
                let noff = wrap_add_i32(carry, *off);
                let ghost prev = out@;
                out.push(Node::Mul(*val, *into, noff, false));
                if *mv {
                    carry = noff;
                }
                proof {
                    assert(out@.drop_last() =~= prev);
                    assert(block_view(out@) == block_view(prev).push(node_view(out@.last())));
                }
            }
            Node::In(off, mv) => {
                let noff = wrap_add_i32(carry, *off);
                let ghost prev = out@;
                out.push(Node::In(noff, false));
                if *mv {
                    carry = noff;
                }
                proof {
                    assert(out@.drop_last() =~= prev);
                    assert(block_view(out@) == block_view(prev).push(node_view(out@.last())));
                }
            }
            Node::Out(off, mv) => {
                let noff = wrap_add_i32(carry, *off);
                let ghost prev = out@;
                out.push(Node::Out(noff, false));
                if *mv {
                    carry = noff;
                }
                proof {
                    assert(out@.drop_last() =~= prev);
                    assert(block_view(out@) == block_view(prev).push(node_view(out@.last())));
                }
            }
            _ => {}
        }
        proof {
            let tail = gv.subrange(k + 1, gv.len() as int);
            assert(suf.len() > 0);
            assert(carry_loop(acc, carry0, suf) == carry_loop(
                block_view(out@),
                carry as int,
                tail,
            ));
        }
        k = k + 1;
    }
    proof {
        assert(gv.subrange(gv.len() as int, gv.len() as int) =~= Seq::<NodeView>::empty());
    }
    if carry != 0 {
        let ghost prev = out@;
        out.push(Node::Shift(carry));
        proof {
            assert(out@.drop_last() =~= prev);
            assert(block_view(out@) == block_view(prev).push(node_view(out@.last())));
        }
    }
    out
}

/// `a + b` with two's-complement wraparound.
fn wrap_add_i32(a: i32, b: i32) -> (r: i32)
    ensures
        r as int == w32(a + b),
{
    let sum: i64 = (a as i64) + (b as i64);
    if sum > 2147483647 {
        (sum - 4294967296) as i32
    } else if sum < -2147483648 {
        (sum + 4294967296) as i32
    } else {
        sum as i32
    }
}

/// Defer pointer movements to the end of each maximal straight-line run; a
/// `Conditional` or `Scan` ends a run and stands alone, recursively deferred.
#[verifier::loop_isolation(false)]
#[verifier::rlimit(30)]
pub fn defer_movements(code: &Vec<Node>) -> (r: Vec<Node>)
    ensures
        block_view(r@) == defer_moves(block_view(code@)),
    decreases size_block(block_view(code@)),
{
    let ghost cv = block_view(code@);
    proof {
        lemma_block_view(code@);
        assert(cv.subrange(0, cv.len() as int) =~= cv);
    }
    let mut memo: Vec<Vec<Node>> = Vec::new();
    let mut current: Vec<Node> = Vec::new();
    proof {
        assert(blocks_view(memo@) =~= Seq::<Seq<NodeView>>::empty());
        assert(block_view(current@) =~= Seq::<NodeView>::empty());
    }
    let mut i: usize = 0;
    while i < code.len()
        invariant
            i <= code.len(),
            runs_loop(
                blocks_view(memo@),
                block_view(current@),
                cv.subrange(i as int, cv.len() as int),
            ) == runs_loop(Seq::empty(), Seq::empty(), cv),
        decreases code.len() - i,
    {
        let ghost suf = cv.subrange(i as int, cv.len() as int);
        let ghost gacc = blocks_view(memo@);
        let ghost curv = block_view(current@);
        proof {
            assert(suf[0] == cv[i as int]);
            assert(suf.subrange(1, suf.len() as int) =~= cv.subrange(
                i + 1,
                cv.len() as int,
            ));
        }
        match &code[i] {
            Node::Scan(iv) => {
                memo.push(current);
                let ghost mid = memo@;
                let mut single: Vec<Node> = Vec::new();
                single.push(Node::Scan(*iv));
                proof {
                    assert(blocks_view(mid) =~= gacc.push(curv));
                    assert(block_view(single@.drop_last()) =~= Seq::<NodeView>::empty())
                        by {
                        assert(single@.drop_last() =~= Seq::<Node>::empty());
                    }
                    assert(block_view(single@) =~= seq![NodeView::Scan(*iv)]);
                }
                memo.push(single);
                proof {
                    assert(blocks_view(memo@) =~= gacc.push(curv).push(
                        seq![NodeView::Scan(suf[0]->Scan_0)],
                    ));
                }
                current = Vec::new();
            }
            Node::Conditional(body) => {
                proof {
                    lemma_size_block_element(cv, i as int);
                    assert(size_node(cv[i as int]) == 1 + size_block(block_view(body@)));
                }
                let nb = defer_movements(body);
                memo.push(current);
                let ghost mid = memo@;
                let mut single: Vec<Node> = Vec::new();
                single.push(Node::Conditional(nb));
                proof {
                    assert(blocks_view(mid) =~= gacc.push(curv));
                    assert(block_view(single@.drop_last()) =~= Seq::<NodeView>::empty())
                        by {
                        assert(single@.drop_last() =~= Seq::<Node>::empty());
                    }
                    assert(suf[0] == NodeView::Conditional(block_view(body@)));
                    assert(single@.last() == Node::Conditional(nb));
                    assert(node_view(single@.last()) == NodeView::Conditional(
                        defer_moves(suf[0]->Conditional_0),
                    ));
                    assert(block_view(single@) =~= seq![
                        NodeView::Conditional(defer_moves(suf[0]->Conditional_0)),
                    ]);
                }
                memo.push(single);
                proof {
                    assert(blocks_view(memo@) =~= gacc.push(curv).push(
                        seq![NodeView::Conditional(defer_moves(suf[0]->Conditional_0))],
                    ));
                }
                current = Vec::new();
            }
            other => {
                let c = copy_node(other);
                let ghost prev = current@;
                current.push(c);
                proof {
                    assert(current@.drop_last() =~= prev);
                    assert(block_view(current@) == block_view(prev).push(
                        node_view(current@.last()),
                    ));
                }
            }
        }
        proof {
            let tail = cv.subrange(i + 1, cv.len() as int);
            assert(suf.len() > 0);
            assert(runs_loop(gacc, curv, suf) == runs_loop(
                blocks_view(memo@),
                block_view(current@),
                tail,
            ));
        }
        i = i + 1;
    }
    let ghost groups = runs_loop(Seq::empty(), Seq::empty(), cv);
    memo.push(current);
    proof {
        assert(cv.subrange(cv.len() as int, cv.len() as int) =~= Seq::<NodeView>::empty());
        assert(blocks_view(memo@) =~= groups);
    }
    emit_all_runs(&memo)
}

/// Phase two of movement deferral: boundary runs (a lone `Conditional` or
/// `Scan`) pass through; every ordinary run is rewritten, however short.
#[verifier::loop_isolation(false)]
fn emit_all_runs(memo: &Vec<Vec<Node>>) -> (r: Vec<Node>)
    ensures
        block_view(r@) == emit_runs(blocks_view(memo@)),
{
    let ghost groups = blocks_view(memo@);
    proof {
        assert(groups.subrange(0, groups.len() as int) =~= groups);
    }
    let mut out: Vec<Node> = Vec::new();
    let mut j: usize = 0;
    while j < memo.len()
        invariant
            j <= memo.len(),
            memo@.len() == groups.len(),
            emit_runs(groups) == block_view(out@) + emit_runs(
                groups.subrange(j as int, groups.len() as int),
            ),
        decreases memo.len() - j,
    {
        let ghost sufg = groups.subrange(j as int, groups.len() as int);
        let ghost acc = block_view(out@);
        proof {
            assert(sufg[0] == groups[j as int]);
            assert(groups[j as int] == block_view(memo@[j as int]@));
            assert(sufg.subrange(1, sufg.len() as int) =~= groups.subrange(
                j + 1,
                groups.len() as int,
            ));
        }
        let g = &memo[j];
        proof {
            lemma_block_view(g@);
        }
        let mut boundary = false;
        if g.len() == 1 {
            match &g[0] {
                Node::Conditional(_) => boundary = true,
                Node::Scan(_) => boundary = true,
                _ => {}
            }
        }
        if boundary {
            let c = copy_node(&g[0]);
            let ghost prev = out@;
            out.push(c);
            proof {
                assert(out@.drop_last() =~= prev);
                assert(block_view(out@) == block_view(prev).push(node_view(out@.last())));
                assert(node_view(out@.last()) == sufg[0][0]);
                assert(emit_runs(groups) =~= (acc.push(sufg[0][0])) + emit_runs(
                    sufg.subrange(1, sufg.len() as int),
                ));
            }
        } else {
            let chunk = defer_run_block(g);
            append_block(&mut out, &chunk);
            proof {
                assert(emit_runs(groups) =~= (acc + defer_run(sufg[0])) + emit_runs(
                    sufg.subrange(1, sufg.len() as int),
                ));
            }
        }
        j = j + 1;
    }
    proof {
        assert(groups.subrange(groups.len() as int, groups.len() as int)
            =~= Seq::<Seq<NodeView>>::empty());
        assert(block_view(out@) + Seq::<NodeView>::empty() =~= block_view(out@));
    }
    out
}

/// The "Defer Movements" optimization.
pub struct DeferMovements;

impl OptimizationStep for DeferMovements {
    open spec fn rewrite(&self, code: Seq<NodeView>) -> Seq<NodeView> {
        defer_moves(code)
    }

    fn apply(&self, code: &Vec<Node>) -> (r: Vec<Node>) {
        defer_movements(code)
    }
}


/// The "Collapse Simple Loops" optimization: multiplication loops become
/// `Mul` nodes and the `Assign` that zeroes the counter.
pub struct CollapseSimpleLoops;

impl CollapseSimpleLoops {
    /// Does this body fit the multiplication-loop shape: nothing but
    /// non-committing `Inc`/`Dec`, with at least one unit decrement of the
    /// current cell?
    #[verifier::loop_isolation(false)]
    pub fn is_collapsible_loop(body: &Vec<Node>) -> (r: bool)
        ensures
            r == collapsible_loop(block_view(body@)),
    {
        let ghost bv = block_view(body@);
        proof {
            lemma_block_view(body@);
        }
        let mut all_ok = true;
        let mut has_dec = false;
        let mut k: usize = 0;
        while k < body.len()
            invariant
                k <= body.len(),
                all_ok == (forall|t: int|
                    0 <= t < k ==> (#[trigger] bv[t] matches NodeView::Inc(_, _, false)
                        || bv[t] matches NodeView::Dec(_, _, false))),
                has_dec == (exists|t: int|
                    0 <= t < k && #[trigger] bv[t] == NodeView::Dec(1, 0, false)),
            decreases body.len() - k,
        {
            match &body[k] {
                Node::Inc(_, _, mv) => {
                    if *mv {
                        all_ok = false;
                    }
                }
                Node::Dec(v, o, mv) => {
                    if *mv {
                        all_ok = false;
                    } else if *v == 1 && *o == 0 {
                        proof {
                            assert(bv[k as int] == NodeView::Dec(1, 0, false));
                        }
                        has_dec = true;
                    }
                }
                _ => {
                    all_ok = false;
                }
            }
            k = k + 1;
        }
        body.len() > 0 && all_ok && has_dec
    }
}

/// Collapse every multiplication loop into its `Mul` nodes followed by the
/// `Assign` that zeroes the counter cell; other loops recurse.
#[verifier::loop_isolation(false)]
pub fn collapse_simple_loops(code: &Vec<Node>) -> (r: Vec<Node>)
    ensures
        block_view(r@) == collapse_loops(block_view(code@)),
    decreases size_block(block_view(code@)),
{
    let ghost cv = block_view(code@);
    proof {
        lemma_block_view(code@);
        assert(cv.subrange(0, cv.len() as int) =~= cv);
    }
    let mut out: Vec<Node> = Vec::new();
    let mut i: usize = 0;
    while i < code.len()
        invariant
            i <= code.len(),
            collapse_loops(cv) == block_view(out@) + collapse_loops(
                cv.subrange(i as int, cv.len() as int),
            ),
        decreases code.len() - i,
    {
        let ghost suf = cv.subrange(i as int, cv.len() as int);
        let ghost acc = block_view(out@);
        proof {
            assert(suf[0] == cv[i as int]);
            assert(suf.subrange(1, suf.len() as int) =~= cv.subrange(
                i + 1,
                cv.len() as int,
            ));
        }
        match &code[i] {
            Node::Conditional(body) => {
                let ghost bodyv = block_view(body@);
                proof {
                    lemma_block_view(body@);
                    assert(bodyv.subrange(0, bodyv.len() as int) =~= bodyv);
                }
                if CollapseSimpleLoops::is_collapsible_loop(body) {
                    let mut k: usize = 0;
                    while k < body.len()
                        invariant
                            k <= body.len(),
                            acc + loop_muls(bodyv) == block_view(out@) + loop_muls(
                                bodyv.subrange(k as int, bodyv.len() as int),
                            ),
                        decreases body.len() - k,
                    {
                        let ghost bsuf = bodyv.subrange(k as int, bodyv.len() as int);
                        let ghost bacc = block_view(out@);
                        proof {
                            assert(bsuf[0] == bodyv[k as int]);
                            assert(bsuf.subrange(1, bsuf.len() as int) =~= bodyv.subrange(
                                k + 1,
                                bodyv.len() as int,
                            ));
                        }
                        match &body[k] {
                            Node::Inc(v, o, mv) => {
                                if !*mv {
                                    let ghost prev = out@;
                                    out.push(Node::Mul(*v as i16, *o, 0, false));
                                    proof {
                                        assert(out@.drop_last() =~= prev);
                                        assert(block_view(out@) == block_view(prev).push(
                                            node_view(out@.last()),
                                        ));
                                        assert(bacc + (seq![
                                            NodeView::Mul(*v as i16, *o, 0, false),
                                        ] + loop_muls(bsuf.subrange(1, bsuf.len() as int)))
                                            =~= block_view(out@) + loop_muls(
                                            bsuf.subrange(1, bsuf.len() as int),
                                        ));
                                    }
                                }
                            }
                            Node::Dec(v, o, mv) => {
                                if !*mv && !(*v == 1 && *o == 0) {
                                    let neg: i16 = -(*v as i16);
                                    let ghost prev = out@;
                                    out.push(Node::Mul(neg, *o, 0, false));
                                    proof {
                                        assert(out@.drop_last() =~= prev);
                                        assert(block_view(out@) == block_view(prev).push(
                                            node_view(out@.last()),
                                        ));
                                        assert(bacc + (seq![NodeView::Mul(neg, *o, 0, false)]
                                            + loop_muls(bsuf.subrange(1, bsuf.len() as int)))
                                            =~= block_view(out@) + loop_muls(
                                            bsuf.subrange(1, bsuf.len() as int),
                                        ));
                                    }
                                }
                            }
                            _ => {}
                        }
                        k = k + 1;
                    }
                    proof {
                        assert(bodyv.subrange(bodyv.len() as int, bodyv.len() as int)
                            =~= Seq::<NodeView>::empty());
                        assert(block_view(out@) + Seq::<NodeView>::empty() =~= block_view(out@));
                        assert(block_view(out@) == acc + loop_muls(bodyv));
                    }
                    let ghost prev = out@;
                    out.push(Node::Assign(0, 0, false));
                    proof {
                        assert(out@.drop_last() =~= prev);
                        assert(block_view(out@) == block_view(prev).push(node_view(out@.last())));
                        assert(collapse_loops(cv) =~= block_view(out@) + collapse_loops(
                            suf.subrange(1, suf.len() as int),
                        ));
                    }
                } else {
                    proof {
                        lemma_size_block_element(cv, i as int);
                        assert(size_node(cv[i as int]) == 1 + size_block(bodyv));
                    }
                    let nb = collapse_simple_loops(body);
                    let ghost prev = out@;
                    out.push(Node::Conditional(nb));
                    proof {
                        assert(out@.drop_last() =~= prev);
                        assert(block_view(out@) == block_view(prev).push(node_view(out@.last())));
                        assert(collapse_loops(cv) =~= block_view(out@) + collapse_loops(
                            suf.subrange(1, suf.len() as int),
                        ));
                    }
                }
            }
            other => {
                let c = copy_node(other);
                let ghost prev = out@;
                out.push(c);
                proof {
                    assert(out@.drop_last() =~= prev);
                    assert(block_view(out@) == block_view(prev).push(node_view(out@.last())));
                    assert(collapse_loops(cv) =~= block_view(out@) + collapse_loops(
                        suf.subrange(1, suf.len() as int),
                    ));
                }
            }
        }
        i = i + 1;
    }
    proof {
        assert(cv.subrange(cv.len() as int, cv.len() as int) =~= Seq::<NodeView>::empty());
        assert(block_view(out@) + Seq::<NodeView>::empty() =~= block_view(out@));
    }
    out
}

impl OptimizationStep for CollapseSimpleLoops {
    open spec fn rewrite(&self, code: Seq<NodeView>) -> Seq<NodeView> {
        collapse_loops(code)
    }

    fn apply(&self, code: &Vec<Node>) -> (r: Vec<Node>) {
        collapse_simple_loops(code)
    }
}

/// Rewrite every loop whose whole body is one `Shift` into a `Scan`.
#[verifier::loop_isolation(false)]
pub fn collapse_scan_loops(code: &Vec<Node>) -> (r: Vec<Node>)
    ensures
        block_view(r@) == collapse_scans(block_view(code@)),
    decreases size_block(block_view(code@)),
{
    let ghost cv = block_view(code@);
    proof {
        lemma_block_view(code@);
        assert(cv.subrange(0, cv.len() as int) =~= cv);
    }
    let mut out: Vec<Node> = Vec::new();
    let mut i: usize = 0;
    while i < code.len()
        invariant
            i <= code.len(),
            collapse_scans(cv) == block_view(out@) + collapse_scans(
                cv.subrange(i as int, cv.len() as int),
            ),
        decreases code.len() - i,
    {
        let ghost suf = cv.subrange(i as int, cv.len() as int);
        let ghost acc = block_view(out@);
        proof {
            assert(suf[0] == cv[i as int]);
            assert(suf.subrange(1, suf.len() as int) =~= cv.subrange(
                i + 1,
                cv.len() as int,
            ));
        }
        match &code[i] {
            Node::Conditional(body) => {
                proof {
                    lemma_block_view(body@);
                }
                let mut iv: Option<i32> = None;
                if body.len() == 1 {
                    match &body[0] {
                        Node::Shift(x) => iv = Some(*x),
                        _ => {}
                    }
                }
                match iv {
                    Some(x) => {
                        let ghost prev = out@;
                        out.push(Node::Scan(x));
                        proof {
                            assert(out@.drop_last() =~= prev);
                            assert(block_view(out@) == block_view(prev).push(
                                node_view(out@.last()),
                            ));
                            assert(collapse_scans(cv) =~= block_view(out@) + collapse_scans(
                                suf.subrange(1, suf.len() as int),
                            ));
                        }
                    }
                    None => {
                        proof {
                            lemma_size_block_element(cv, i as int);
                            assert(size_node(cv[i as int]) == 1 + size_block(block_view(body@)));
                            assert(!(block_view(body@).len() == 1 && block_view(body@)[0]
                                matches NodeView::Shift(_)));
                        }
                        let nb = collapse_scan_loops(body);
                        let ghost prev = out@;
                        out.push(Node::Conditional(nb));
                        proof {
                            assert(out@.drop_last() =~= prev);
                            assert(block_view(out@) == block_view(prev).push(
                                node_view(out@.last()),
                            ));
                            assert(collapse_scans(cv) =~= block_view(out@) + collapse_scans(
                                suf.subrange(1, suf.len() as int),
                            ));
                        }
                    }
                }
            }
            other => {
                let c = copy_node(other);
                let ghost prev = out@;
                out.push(c);
                proof {
                    assert(out@.drop_last() =~= prev);
                    assert(block_view(out@) == block_view(prev).push(node_view(out@.last())));
                    assert(collapse_scans(cv) =~= block_view(out@) + collapse_scans(
                        suf.subrange(1, suf.len() as int),
                    ));
                }
            }
        }
        i = i + 1;
    }
    proof {
        assert(cv.subrange(cv.len() as int, cv.len() as int) =~= Seq::<NodeView>::empty());
        assert(block_view(out@) + Seq::<NodeView>::empty() =~= block_view(out@));
    }
    out
}

/// The "Collapse Scan Loops" optimization.
pub struct CollapseScanLoops;

impl OptimizationStep for CollapseScanLoops {
    open spec fn rewrite(&self, code: Seq<NodeView>) -> Seq<NodeView> {
        collapse_scans(code)
    }

    fn apply(&self, code: &Vec<Node>) -> (r: Vec<Node>) {
        collapse_scan_loops(code)
    }
}

/// The whole pipeline as one function on trees: comment stripping always,
/// then each enabled pass in its fixed order.  Enabling loop collapsing
/// re-runs offset collapsing and movement deferral once to re-normalize the
/// offsets the rewrite introduced.
pub open spec fn spec_optimize(code: Seq<NodeView>, o: OptimizationOptions) -> Seq<NodeView> {
    let c1 = strip_comments(code);
    let c2 = if o.collapsed_operators {
        merge_ops(c1)
    } else {
        c1
    };
    let c3 = if o.collapsed_assignments {
        collapse_assigns(c2)
    } else {
        c2
    };
    let c4 = if o.collapsed_offsets {
        fold_offsets(c3)
    } else {
        c3
    };
    let c5 = if o.collapsed_loops {
        let d1 = collapse_loops(defer_moves(c4));
        let d2 = if o.collapsed_offsets {
            fold_offsets(d1)
        } else {
            d1
        };
        defer_moves(d2)
    } else {
        c4
    };
    if o.collapsed_scan_loops {
        collapse_scans(c5)
    } else {
        c5
    }
}

/// Run the enabled passes over `code` in the pipeline's fixed order.
pub fn optimize_code(code: &Vec<Node>, options: &OptimizationOptions) -> (r: Vec<Node>)
    ensures
        block_view(r@) == spec_optimize(block_view(code@), *options),
{
    let mut c = filter_comments(code);
    if options.collapsed_operators {
        c = merge_repeated_operators(&c);
    }
    if options.collapsed_assignments {
        c = collapse_assignments(&c);
    }
    if options.collapsed_offsets {
        c = collapse_offsets(&c);
    }
    if options.collapsed_loops {
        c = defer_movements(&c);
        c = collapse_simple_loops(&c);
        if options.collapsed_offsets {
            c = collapse_offsets(&c);
        }
        c = defer_movements(&c);
    }
    if options.collapsed_scan_loops {
        c = collapse_scan_loops(&c);
    }
    c
}

/// Pass-locality: with every switch off, the pipeline is comment removal and
/// nothing else — disabling a later switch never re-enables an earlier pass.
pub proof fn lemma_strip_comments_only(code: Seq<NodeView>)
    ensures
        spec_optimize(
            code,
            OptimizationOptions {
                collapsed_operators: false,
                collapsed_assignments: false,
                collapsed_offsets: false,
                collapsed_loops: false,
                collapsed_scan_loops: false,
            },
        ) == strip_comments(code),
{
}

} // verus!
