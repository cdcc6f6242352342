//! Assembly of a token sequence into a nested syntax tree.
use vstd::prelude::*;

use crate::err::{Fault, StoikError};
use crate::formula::tokenstream::{lexemes, Lexeme, Token, TokenLoc};

verus! {

/// The mathematical content of a [`SyntaxNode`].
pub enum Tree {
    Sub(Seq<Tree>),
    Mul(Box<Tree>, int),
    Mole(Box<Tree>, int),
    Atom(Seq<char>),
    Empty,
}

/// A node in the syntax tree of a formula
#[derive(Debug, PartialEq, Eq)]
pub enum SyntaxNode {
    /// A subcompound, like the `(SO4)` in `Rh2(SO4)3`
    Subcompound(Vec<SyntaxNode>),
    /// A node that has a multiplier, e.g. `O2` is `{ node: Atom("O"), mul: 2 }`
    Multiplier {
        /// The contained syntax node
        node: Box<SyntaxNode>,
        /// The multiplier for the node
        mul: i64,
    },
    /// A whole molecule with its mole count, e.g. `2Fe` is `{ node: Atom("Fe"), mul: 2 }`
    Mole {
        /// The contained syntax node
        node: Box<SyntaxNode>,
        /// The mole count
        mul: i64,
    },
    /// An atom in a compound, like the `Rh` in `Rh2(SO4)3`
    Atom(String),
    /// Nothing
    Empty,
}

impl SyntaxNode {
    pub open spec fn tree(&self) -> Tree
        decreases self,
    {
        match self {
            SyntaxNode::Subcompound(v) => Tree::Sub(trees(v@)),
            SyntaxNode::Multiplier { node, mul } => Tree::Mul(Box::new(node.tree()), *mul as int),
            SyntaxNode::Mole { node, mul } => Tree::Mole(Box::new(node.tree()), *mul as int),
            SyntaxNode::Atom(s) => Tree::Atom(s@),
            SyntaxNode::Empty => Tree::Empty,
        }
    }
}

pub open spec fn trees(s: Seq<SyntaxNode>) -> Seq<Tree>
    decreases s,
{
    if s.len() == 0 {
        Seq::empty()
    } else {
        trees(s.subrange(0, s.len() - 1)).push(s[s.len() - 1].tree())
    }
}

pub proof fn lemma_trees(s: Seq<SyntaxNode>)
    ensures
        trees(s).len() == s.len(),
        forall|i: int| 0 <= i < s.len() ==> #[trigger] trees(s)[i] == s[i].tree(),
    decreases s.len(),
{
    if s.len() > 0 {
        let t = s.subrange(0, s.len() - 1);
        lemma_trees(t);
        assert forall|i: int| 0 <= i < s.len() implies #[trigger] trees(s)[i] == s[i].tree() by {
            if i < s.len() - 1 {
                assert(t[i] == s[i]);
            }
        }
    }
}

/// The view of an assembly outcome.
pub open spec fn outcome(r: Result<SyntaxNode, StoikError>) -> Result<Tree, Fault> {
    match r {
        Ok(n) => Ok(n.tree()),
        Err(e) => Err(e@),
    }
}

/// The node that a scope with these sibling nodes stands for.
pub open spec fn collapse(nodes: Seq<Tree>) -> Tree {
    if nodes.len() == 0 {
        Tree::Empty
    } else if nodes.len() == 1 {
        nodes[0]
    } else {
        Tree::Sub(nodes)
    }
}

pub open spec fn level_step(t: Lexeme, paren: int, bracket: int) -> (int, int) {
    match t {
        Lexeme::OpenBracket(_) => (paren, bracket + 1),
        Lexeme::CloseBracket(_) => (paren, bracket - 1),
        Lexeme::OpenParen(_) => (paren + 1, bracket),
        Lexeme::CloseParen(_) => (paren - 1, bracket),
        _ => (paren, bracket),
    }
}

/// Assembly of one scope, from token `i` on: `paren` and `bracket` are the
/// nesting levels, `start` the location of the opener of the group being
/// buffered and `open` its index, `nodes` the siblings built so far.
pub open spec fn scan(
    toks: Seq<Lexeme>,
    i: int,
    paren: int,
    bracket: int,
    start: TokenLoc,
    open: int,
    nodes: Seq<Tree>,
) -> Result<Tree, Fault>
    decreases toks.len(), toks.len() - i,
{
    if i < 0 || i >= toks.len() {
        if paren != 0 || bracket != 0 {
            Err(Fault::UnpairedParenthesis(start))
        } else {
            Ok(collapse(nodes))
        }
    } else if paren == 0 && bracket == 0 {
        match toks[i] {
            Lexeme::OpenBracket(loc) => scan(toks, i + 1, paren, bracket + 1, loc, i, nodes),
            Lexeme::OpenParen(loc) => scan(toks, i + 1, paren + 1, bracket, loc, i, nodes),
            Lexeme::CloseBracket(loc) => Err(Fault::UnpairedBracket(loc)),
            Lexeme::CloseParen(loc) => Err(Fault::UnpairedParenthesis(loc)),
            Lexeme::Number(n, loc) => if nodes.len() == 0 {
                Err(Fault::NumberFirst(loc))
            } else {
                let last = Tree::Mul(Box::new(nodes.last()), n as int);
                scan(toks, i + 1, paren, bracket, start, open, nodes.drop_last().push(last))
            },
            Lexeme::Atom(name, _) => scan(
                toks,
                i + 1,
                paren,
                bracket,
                start,
                open,
                nodes.push(Tree::Atom(name)),
            ),
            Lexeme::Other(_, loc) => Err(Fault::InvalidToken(loc)),
        }
    } else {
        let (p, b) = level_step(toks[i], paren, bracket);
        if p == 0 && b == 0 {
            if 0 <= open < i {
                match scan(toks.subrange(open + 1, i), 0, 0, 0, TokenLoc { start: 0, len: 0 }, 0, Seq::empty()) {
                    Ok(t) => scan(toks, i + 1, 0, 0, start, open, nodes.push(t)),
                    Err(e) => Err(e),
                }
            } else {
                Err(Fault::UnpairedParenthesis(start))
            }
        } else {
            scan(toks, i + 1, p, b, start, open, nodes)
        }
    }
}

/// Assembly of one scope: no leading number is taken as a mole count.
pub open spec fn inner(toks: Seq<Lexeme>) -> Result<Tree, Fault> {
    scan(toks, 0, 0, 0, TokenLoc { start: 0, len: 0 }, 0, Seq::empty())
}

/// Assembly of a whole formula: a leading number is its mole count.
pub open spec fn assemble(toks: Seq<Lexeme>) -> Result<Tree, Fault> {
    if toks.len() == 0 {
        Err(Fault::InvalidInput)
    } else {
        match toks[0] {
            Lexeme::Number(n, _) => match inner(toks.subrange(1, toks.len() as int)) {
                Ok(t) => Ok(Tree::Mole(Box::new(t), n as int)),
                Err(e) => Err(e),
            },
            _ => inner(toks),
        }
    }
}

/// Assembles the syntax tree of a formula from its tokens.
pub fn assemble_tree(tokens: Vec<Token>) -> (r: Result<SyntaxNode, StoikError>)
    ensures
        outcome(r) == assemble(lexemes(tokens@)),
{
    let n = tokens.len();
    if n == 0 {
        return Err(StoikError::InvalidInput(String::from_str("Empty iter cannot build a valid tree")));
    }
    let ghost toks = lexemes(tokens@);
    assert(toks.subrange(0, n as int) =~= toks);
    match &tokens[0] {
        Token::Number(mul, _) => match internal_tree(&tokens, 1, n) {
            Ok(node) => Ok(SyntaxNode::Mole { node: Box::new(node), mul: *mul }),
            Err(e) => Err(e),
        },
        _ => internal_tree(&tokens, 0, n),
    }
}

fn internal_tree(tokens: &Vec<Token>, lo: usize, hi: usize) -> (r: Result<SyntaxNode, StoikError>)
    requires
        lo <= hi <= tokens.len(),
    ensures
        outcome(r) == inner(lexemes(tokens@).subrange(lo as int, hi as int)),
    decreases hi - lo,
{
    let ghost all = lexemes(tokens@);
    let ghost toks = all.subrange(lo as int, hi as int);
    // wide enough that no run of tokens can push a level out of range
    let mut paren: i128 = 0;
    let mut bracket: i128 = 0;
    let mut nested_start = TokenLoc::new(0, 0);
    let mut open: usize = lo;
    let mut tree: Vec<SyntaxNode> = Vec::new();
    let mut i = lo;
    while i < hi
        invariant
            lo <= i <= hi <= tokens.len(),
            lo <= open,
            (paren != 0 || bracket != 0) ==> open < i,
            -(i - lo) <= paren <= i - lo,
            -(i - lo) <= bracket <= i - lo,
            all == lexemes(tokens@),
            toks == all.subrange(lo as int, hi as int),
            inner(toks) == scan(
                toks,
                i - lo,
                paren as int,
                bracket as int,
                nested_start,
                open - lo,
                trees(tree@),
            ),
        decreases hi - i,
    {
        proof {
            lemma_trees(tree@);
            assert(toks[i - lo] == tokens@[i as int]@);
        }
        let ghost before = trees(tree@);
        let tok = &tokens[i];
        if paren == 0 && bracket == 0 {
            match tok {
                Token::OpenBracket(loc) => {
                    bracket = 1;
                    nested_start = *loc;
                    open = i;
                },
                Token::OpenParen(loc) => {
                    paren = 1;
                    nested_start = *loc;
                    open = i;
                },
                Token::CloseBracket(loc) => {
                    return Err(StoikError::UnpairedBracket(*loc));
                },
                Token::CloseParen(loc) => {
                    return Err(StoikError::UnpairedParenthesis(*loc));
                },
                Token::Number(mul, loc) => {
                    match tree.pop() {
                        Some(last) => {
                            tree.push(SyntaxNode::Multiplier { node: Box::new(last), mul: *mul });
                            proof {
                                lemma_trees(tree@);
                                assert(trees(tree@) =~= before.drop_last().push(
                                    Tree::Mul(Box::new(before.last()), *mul as int),
                                ));
                            }
                        },
                        None => {
                            return Err(StoikError::NumberFirst(*loc));
                        },
                    }
                },
                Token::Atom(name, _) => {
                    tree.push(SyntaxNode::Atom(name.clone()));
                    proof {
                        lemma_trees(tree@);
                        assert(trees(tree@) =~= before.push(Tree::Atom(name@)));
                    }
                },
                Token::Other(_, loc) => {
                    return Err(StoikError::InvalidToken(*loc));
                },
            }
        } else {
            match tok {
                Token::OpenBracket(_) => {
                    bracket = bracket + 1;
                },
                Token::CloseBracket(_) => {
                    bracket = bracket - 1;
                },
                Token::OpenParen(_) => {
                    paren = paren + 1;
                },
                Token::CloseParen(_) => {
                    paren = paren - 1;
                },
                _ => {},
            }
            if paren == 0 && bracket == 0 {
                proof {
                    assert(toks.subrange(open - lo + 1, i - lo) =~= all.subrange(open + 1, i as int));
                }
                match internal_tree(tokens, open + 1, i) {
                    Ok(node) => {
                        let ghost t = node.tree();
                        tree.push(node);
                        proof {
                            lemma_trees(tree@);
                            assert(trees(tree@) =~= before.push(t));
                        }
                    },
                    Err(e) => {
                        return Err(e);
                    },
                }
            }
        }
        i = i + 1;
    }
    if paren != 0 || bracket != 0 {
        return Err(StoikError::UnpairedParenthesis(nested_start));
    }
    proof {
        lemma_trees(tree@);
    }
    if tree.len() == 0 {
        Ok(SyntaxNode::Empty)
    } else if tree.len() == 1 {
        Ok(tree.pop().unwrap())
    } else {
        Ok(SyntaxNode::Subcompound(tree))
    }
}

} // verus!
