//! A read-only frequency analyzer over the instruction tree: how many nodes
//! in all, and how many of each kind, nested loop bodies included.

use vstd::prelude::*;

use crate::semantics::block_view;
use crate::semantics::lemma_block_view;
use crate::semantics::lemma_size_block_element;
use crate::semantics::size_block;
use crate::semantics::size_node;
use crate::semantics::NodeView;
use crate::vm::Node;

verus! {

/// Spec-level node counts: the total and one counter per instruction kind.
pub struct NodeCounts {
    pub total: nat,
    pub shift: nat,
    pub inc: nat,
    pub dec: nat,
    pub mul: nat,
    pub assign: nat,
    pub scan: nat,
    pub out: nat,
    pub input: nat,
    pub conditional: nat,
    pub comment: nat,
}

pub open spec fn counts_zero() -> NodeCounts {
    NodeCounts {
        total: 0,
        shift: 0,
        inc: 0,
        dec: 0,
        mul: 0,
        assign: 0,
        scan: 0,
        out: 0,
        input: 0,
        conditional: 0,
        comment: 0,
    }
}

pub open spec fn counts_add(a: NodeCounts, b: NodeCounts) -> NodeCounts {
    NodeCounts {
        total: a.total + b.total,
        shift: a.shift + b.shift,
        inc: a.inc + b.inc,
        dec: a.dec + b.dec,
        mul: a.mul + b.mul,
        assign: a.assign + b.assign,
        scan: a.scan + b.scan,
        out: a.out + b.out,
        input: a.input + b.input,
        conditional: a.conditional + b.conditional,
        comment: a.comment + b.comment,
    }
}

/// The counts one node contributes: itself, and its body if it has one.
pub open spec fn counts_node(n: NodeView) -> NodeCounts
    decreases n,
{
    match n {
        NodeView::Shift(_) => NodeCounts { total: 1, shift: 1, ..counts_zero() },
        NodeView::Inc(_, _, _) => NodeCounts { total: 1, inc: 1, ..counts_zero() },
        NodeView::Dec(_, _, _) => NodeCounts { total: 1, dec: 1, ..counts_zero() },
        NodeView::Mul(_, _, _, _) => NodeCounts { total: 1, mul: 1, ..counts_zero() },
        NodeView::Assign(_, _, _) => NodeCounts { total: 1, assign: 1, ..counts_zero() },
        NodeView::Scan(_) => NodeCounts { total: 1, scan: 1, ..counts_zero() },
        NodeView::Out(_, _) => NodeCounts { total: 1, out: 1, ..counts_zero() },
        NodeView::In(_, _) => NodeCounts { total: 1, input: 1, ..counts_zero() },
        NodeView::Comment(_) => NodeCounts { total: 1, comment: 1, ..counts_zero() },
        NodeView::Conditional(body) => counts_add(
            NodeCounts { total: 1, conditional: 1, ..counts_zero() },
            counts_block(body),
        ),
    }
}

pub open spec fn counts_block(b: Seq<NodeView>) -> NodeCounts
    decreases b,
{
    if b.len() == 0 {
        counts_zero()
    } else {
        counts_add(counts_node(b[0]), counts_block(b.subrange(1, b.len() as int)))
    }
}

/// Every count is bounded by the node count of the tree.
pub proof fn lemma_counts_le_size(b: Seq<NodeView>)
    ensures
        counts_block(b).total <= size_block(b),
        counts_block(b).shift <= size_block(b),
        counts_block(b).inc <= size_block(b),
        counts_block(b).dec <= size_block(b),
        counts_block(b).mul <= size_block(b),
        counts_block(b).assign <= size_block(b),
        counts_block(b).scan <= size_block(b),
        counts_block(b).out <= size_block(b),
        counts_block(b).input <= size_block(b),
        counts_block(b).conditional <= size_block(b),
        counts_block(b).comment <= size_block(b),
    decreases b, 1nat,
{
    if b.len() > 0 {
        lemma_counts_node_le_size(b[0]);
        lemma_counts_le_size(b.subrange(1, b.len() as int));
    }
}

pub proof fn lemma_counts_node_le_size(n: NodeView)
    ensures
        counts_node(n).total <= size_node(n),
        counts_node(n).shift <= size_node(n),
        counts_node(n).inc <= size_node(n),
        counts_node(n).dec <= size_node(n),
        counts_node(n).mul <= size_node(n),
        counts_node(n).assign <= size_node(n),
        counts_node(n).scan <= size_node(n),
        counts_node(n).out <= size_node(n),
        counts_node(n).input <= size_node(n),
        counts_node(n).conditional <= size_node(n),
        counts_node(n).comment <= size_node(n),
    decreases n, 0nat,
{
    match n {
        NodeView::Conditional(body) => {
            lemma_counts_le_size(body);
        }
        _ => {}
    }
}

/// How often each node kind occurs in a tree, and how many nodes there are
/// in all.
#[derive(Clone, Copy, Debug, PartialEq, Eq, Structural)]
pub struct AnalysisResults {
    pub total: u32,
    pub shift: u32,
    pub inc: u32,
    pub dec: u32,
    pub mul: u32,
    pub assign: u32,
    pub scan: u32,
    pub out: u32,
    pub input: u32,
    pub conditional: u32,
    pub comment: u32,
}

impl View for AnalysisResults {
    type V = NodeCounts;

    open spec fn view(&self) -> NodeCounts {
        NodeCounts {
            total: self.total as nat,
            shift: self.shift as nat,
            inc: self.inc as nat,
            dec: self.dec as nat,
            mul: self.mul as nat,
            assign: self.assign as nat,
            scan: self.scan as nat,
            out: self.out as nat,
            input: self.input as nat,
            conditional: self.conditional as nat,
            comment: self.comment as nat,
        }
    }
}

/// Do these counts still fit the 32-bit counters?
pub open spec fn counts_fit(c: NodeCounts) -> bool {
    &&& c.total < 0x1_0000_0000
    &&& c.shift < 0x1_0000_0000
    &&& c.inc < 0x1_0000_0000
    &&& c.dec < 0x1_0000_0000
    &&& c.mul < 0x1_0000_0000
    &&& c.assign < 0x1_0000_0000
    &&& c.scan < 0x1_0000_0000
    &&& c.out < 0x1_0000_0000
    &&& c.input < 0x1_0000_0000
    &&& c.conditional < 0x1_0000_0000
    &&& c.comment < 0x1_0000_0000
}

impl AnalysisResults {
    /// Fold another set of counts into this one.
    pub fn merge(&mut self, nested: &AnalysisResults)
        requires
            counts_fit(counts_add(old(self)@, nested@)),
        ensures
            final(self)@ == counts_add(old(self)@, nested@),
    {
        self.total = self.total + nested.total;
        self.shift = self.shift + nested.shift;
        self.inc = self.inc + nested.inc;
        self.dec = self.dec + nested.dec;
        self.mul = self.mul + nested.mul;
        self.assign = self.assign + nested.assign;
        self.scan = self.scan + nested.scan;
        self.out = self.out + nested.out;
        self.input = self.input + nested.input;
        self.conditional = self.conditional + nested.conditional;
        self.comment = self.comment + nested.comment;
    }
}

impl Default for AnalysisResults {
    /// No nodes counted yet.
    fn default() -> (r: Self)
        ensures
            r@ == counts_zero(),
    {
        AnalysisResults {
            total: 0,
            shift: 0,
            inc: 0,
            dec: 0,
            mul: 0,
            assign: 0,
            scan: 0,
            out: 0,
            input: 0,
            conditional: 0,
            comment: 0,
        }
    }
}

/// A read-only analysis over an instruction tree.
pub trait Analyzer {
    fn analyze(&self, code: &Vec<Node>) -> (r: AnalysisResults)
        requires
            size_block(block_view(code@)) < 0x1_0000_0000,
        ensures
            r@ == counts_block(block_view(code@)),
    ;
}

/// Count nodes by walking the tree once.
#[verifier::loop_isolation(false)]
fn analyze_block(code: &Vec<Node>) -> (r: AnalysisResults)
    requires
        size_block(block_view(code@)) < 0x1_0000_0000,
    ensures
        r@ == counts_block(block_view(code@)),
    decreases size_block(block_view(code@)),
{
    let ghost cv = block_view(code@);
    proof {
        lemma_block_view(code@);
        lemma_counts_le_size(cv);
        assert(cv.subrange(0, cv.len() as int) =~= cv);
    }
    let mut memo = AnalysisResults::default();
    let mut i: usize = 0;
    while i < code.len()
        invariant
            i <= code.len(),
            counts_add(memo@, counts_block(cv.subrange(i as int, cv.len() as int)))
                == counts_block(cv),
        decreases code.len() - i,
    {
        let ghost suf = cv.subrange(i as int, cv.len() as int);
        let ghost before = memo@;
        proof {
            assert(suf[0] == cv[i as int]);
            assert(suf.subrange(1, suf.len() as int) =~= cv.subrange(
                i + 1,
                cv.len() as int,
            ));
            lemma_counts_node_le_size(suf[0]);
        }
        match &code[i] {
            Node::Shift(_) => {
                memo.total = memo.total + 1;
                memo.shift = memo.shift + 1;
            }
            Node::Inc(_, _, _) => {
                memo.total = memo.total + 1;
                memo.inc = memo.inc + 1;
            }
            Node::Dec(_, _, _) => {
                memo.total = memo.total + 1;
                memo.dec = memo.dec + 1;
            }
            Node::Mul(_, _, _, _) => {
                memo.total = memo.total + 1;
                memo.mul = memo.mul + 1;
            }
            Node::Assign(_, _, _) => {
                memo.total = memo.total + 1;
                memo.assign = memo.assign + 1;
            }
            Node::Scan(_) => {
                memo.total = memo.total + 1;
                memo.scan = memo.scan + 1;
            }
            Node::Out(_, _) => {
                memo.total = memo.total + 1;
                memo.out = memo.out + 1;
            }
            Node::In(_, _) => {
                memo.total = memo.total + 1;
                memo.input = memo.input + 1;
            }
            Node::Comment(_) => {
                memo.total = memo.total + 1;
                memo.comment = memo.comment + 1;
            }
            Node::Conditional(body) => {
                memo.total = memo.total + 1;
                memo.conditional = memo.conditional + 1;
                proof {
                    lemma_size_block_element(cv, i as int);
                    assert(size_node(cv[i as int]) == 1 + size_block(block_view(body@)));
                }
                let nested = analyze_block(body);
                memo.merge(&nested);
            }
        }
        proof {
            assert(memo@ == counts_add(before, counts_node(suf[0])));
        }
        i = i + 1;
    }
    proof {
        assert(cv.subrange(cv.len() as int, cv.len() as int) =~= Seq::<NodeView>::empty());
    }
    memo
}

/// The one analyzer this crate ships: a plain recursive counter.
pub struct SimpleAnalyzer {}

impl Analyzer for SimpleAnalyzer {
    fn analyze(&self, code: &Vec<Node>) -> (r: AnalysisResults) {
        analyze_block(code)
    }
}

} // verus!
