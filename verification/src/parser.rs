//! The bracket parser: source bytes to the raw instruction tree.
//!
//! Matching uses an explicit stack of pending body sequences, not native
//! recursion, so nesting depth is bounded by memory, not the call stack.
//! The whole parse, errors included, is pinned by `spec_parse`.

use vstd::prelude::*;

use crate::semantics::block_view;
use crate::semantics::blocks_view;
use crate::semantics::node_view;
use crate::semantics::NodeView;
use crate::vm::Node;

verus! {

#[derive(Debug, PartialEq)]
pub enum ParserError {
    /// A closing bracket with no matching open bracket.
    UnmatchedDelimiter,
    /// The input ended with open brackets still pending.
    MissingDelimiter,
    /// The source could not be read.
    Io(String),
    /// The matching stack broke its own invariant.
    Internal,
}

/// The node one non-bracket source byte parses to; anything that is not an
/// operator is kept as a comment.
pub open spec fn sym_view(c: u8) -> NodeView {
    if c == 62 {
        NodeView::Shift(1)
    } else if c == 60 {
        NodeView::Shift(-1i32)
    } else if c == 43 {
        NodeView::Inc(1, 0, false)
    } else if c == 45 {
        NodeView::Dec(1, 0, false)
    } else if c == 46 {
        NodeView::Out(0, false)
    } else if c == 44 {
        NodeView::In(0, false)
    } else {
        NodeView::Comment(c as char)
    }
}

/// One step per byte over a stack of pending bodies: `[` opens a body, `]`
/// closes the innermost one into a `Conditional`, anything else appends to
/// the innermost body.
pub open spec fn parse_loop(stack: Seq<Seq<NodeView>>, rest: Seq<u8>) -> Result<
    Seq<NodeView>,
    ParserError,
>
    decreases rest.len(),
{
    if rest.len() == 0 {
        if stack.len() > 1 {
            Err(ParserError::MissingDelimiter)
        } else if stack.len() != 1 {
            Err(ParserError::Internal)
        } else {
            Ok(stack[0])
        }
    } else {
        let c = rest[0];
        let tail = rest.subrange(1, rest.len() as int);
        if c == 91 {
            parse_loop(stack.push(Seq::empty()), tail)
        } else if c == 93 {
            if stack.len() < 2 {
                Err(ParserError::UnmatchedDelimiter)
            } else {
                let body = stack.last();
                let popped = stack.drop_last();
                parse_loop(
                    popped.update(
                        popped.len() - 1,
                        popped.last().push(NodeView::Conditional(body)),
                    ),
                    tail,
                )
            }
        } else {
            parse_loop(
                stack.update(stack.len() - 1, stack.last().push(sym_view(c))),
                tail,
            )
        }
    }
}

/// What parsing a byte sequence yields: the raw tree, or the first error.
pub open spec fn spec_parse(code: Seq<u8>) -> Result<Seq<NodeView>, ParserError> {
    parse_loop(seq![Seq::empty()], code)
}

impl Node {
    /// The node one non-bracket source byte parses to.
    pub fn from_symbol(c: u8) -> (r: Node)
        requires
            c != 91,
            c != 93,
        ensures
            node_view(r) == sym_view(c),
    {
        if c == 62 {
            Node::Shift(1)
        } else if c == 60 {
            Node::Shift(-1)
        } else if c == 43 {
            Node::Inc(1, 0, false)
        } else if c == 45 {
            Node::Dec(1, 0, false)
        } else if c == 46 {
            Node::Out(0, false)
        } else if c == 44 {
            Node::In(0, false)
        } else {
            Node::Comment(c as char)
        }
    }
}

/// Parse source bytes into the raw instruction tree, or report the first
/// bracket that fails to match.
#[verifier::loop_isolation(false)]
pub fn parse_code(code: &Vec<u8>) -> (r: Result<Vec<Node>, ParserError>)
    ensures
        ({
            match r {
                Ok(v) => spec_parse(code@) == Ok::<Seq<NodeView>, ParserError>(block_view(v@)),
                Err(e) => spec_parse(code@) == Err::<Seq<NodeView>, ParserError>(e) && (
                e is UnmatchedDelimiter || e is MissingDelimiter),
            }
        }),
{
    let ghost whole = code@;
    let mut nested: Vec<Vec<Node>> = Vec::new();
    nested.push(Vec::new());
    proof {
        assert(blocks_view(nested@) =~= seq![Seq::<NodeView>::empty()]) by {
            assert(block_view(nested@[0]@) =~= Seq::<NodeView>::empty());
        }
        assert(whole.subrange(0, whole.len() as int) =~= whole);
    }
    let mut i: usize = 0;
    while i < code.len()
        invariant
            i <= code.len(),
            nested@.len() >= 1,
            parse_loop(blocks_view(nested@), whole.subrange(i as int, whole.len() as int))
                == spec_parse(whole),
        decreases code.len() - i,
    {
        let ghost suf = whole.subrange(i as int, whole.len() as int);
        let ghost sv = blocks_view(nested@);
        proof {
            assert(suf[0] == whole[i as int]);
            assert(suf.subrange(1, suf.len() as int) =~= whole.subrange(
                i + 1,
                whole.len() as int,
            ));
        }
        let c = code[i];
        if c == 91 {
            nested.push(Vec::new());
            proof {
                assert(block_view(nested@.last()@) =~= Seq::<NodeView>::empty());
                assert(blocks_view(nested@) =~= sv.push(Seq::empty()));
            }
        } else if c == 93 {
            if nested.len() < 2 {
                proof {
                    assert(parse_loop(sv, suf) == Err::<Seq<NodeView>, ParserError>(
                        ParserError::UnmatchedDelimiter,
                    ));
                }
                return Err(ParserError::UnmatchedDelimiter);
            }
            let body = nested.pop().unwrap();
            let ghost bodyv = block_view(body@);
            let mut parent = nested.pop().unwrap();
            let ghost parentv = block_view(parent@);
            proof {
                assert(bodyv == sv.last());
                assert(parentv == sv.drop_last().last());
            }
            let ghost prev = parent@;
            parent.push(Node::Conditional(body));
            proof {
                assert(parent@.drop_last() =~= prev);
                assert(block_view(parent@) == block_view(prev).push(
                    node_view(parent@.last()),
                ));
            }
            nested.push(parent);
            proof {
                let popped = sv.drop_last();
                assert(blocks_view(nested@) =~= popped.update(
                    popped.len() - 1,
                    popped.last().push(NodeView::Conditional(bodyv)),
                ));
            }
        } else {
            let n = Node::from_symbol(c);
            let mut top = nested.pop().unwrap();
            let ghost prev = top@;
            top.push(n);
            proof {
                assert(top@.drop_last() =~= prev);
                assert(block_view(top@) == block_view(prev).push(node_view(top@.last())));
            }
            nested.push(top);
            proof {
                assert(blocks_view(nested@) =~= sv.update(
                    sv.len() - 1,
                    sv.last().push(sym_view(suf[0])),
                ));
            }
        }
        proof {
            let tail = whole.subrange(i + 1, whole.len() as int);
            assert(suf.len() > 0);
            assert(parse_loop(sv, suf) == parse_loop(blocks_view(nested@), tail));
        }
        i = i + 1;
    }
    proof {
        assert(whole.subrange(whole.len() as int, whole.len() as int) =~= Seq::<u8>::empty());
    }
    if nested.len() > 1 {
        return Err(ParserError::MissingDelimiter);
    }
    let ghost svf = blocks_view(nested@);
    proof {
        assert(svf.len() == 1);
        assert(svf[0] == block_view(nested@[0]@));
    }
    let res = nested.pop().unwrap();
    Ok(res)
}

} // verus!
