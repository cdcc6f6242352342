//! Well-formed formulas, spelled out as token sequences, and the proof that
//! they read back into the tree they describe.
use vstd::prelude::*;

use crate::err::StoikError;
use crate::formula::molecule::{
    body, fits, has_mole, has_mole_seq, moles_of, parsed, tree_counts, Molecule,
};
use crate::formula::tokenstream::{lex, Lexeme, TokenLoc};
use crate::formula::tree::{assemble, collapse, inner, level_step, scan, Tree};

verus! {

/// A well-formed piece of a formula: an atom, a group in parentheses or
/// square brackets, or a piece followed by a multiplier.
pub enum Shape {
    Atom(Seq<char>),
    Group(Seq<Shape>, bool),
    Times(Box<Shape>, i64),
}

pub open spec fn no_loc() -> TokenLoc {
    TokenLoc { start: 0, len: 0 }
}

pub open spec fn opener(square: bool) -> Lexeme {
    if square {
        Lexeme::OpenBracket(no_loc())
    } else {
        Lexeme::OpenParen(no_loc())
    }
}

pub open spec fn closer(square: bool) -> Lexeme {
    if square {
        Lexeme::CloseBracket(no_loc())
    } else {
        Lexeme::CloseParen(no_loc())
    }
}

/// The tokens that spell out a piece.
pub open spec fn emit(s: Shape) -> Seq<Lexeme>
    decreases s,
{
    match s {
        Shape::Atom(n) => seq![Lexeme::Atom(n, no_loc())],
        Shape::Group(items, square) => seq![opener(square)] + emit_seq(items) + seq![closer(square)],
        Shape::Times(x, n) => emit(*x) + seq![Lexeme::Number(n, no_loc())],
    }
}

pub open spec fn emit_seq(items: Seq<Shape>) -> Seq<Lexeme>
    decreases items,
{
    if items.len() == 0 {
        Seq::empty()
    } else {
        emit_seq(items.subrange(0, items.len() - 1)) + emit(items[items.len() - 1])
    }
}

/// The tree that a piece stands for.
pub open spec fn shape_tree(s: Shape) -> Tree
    decreases s,
{
    match s {
        Shape::Atom(n) => Tree::Atom(n),
        Shape::Group(items, _) => collapse(shape_trees(items)),
        Shape::Times(x, n) => Tree::Mul(Box::new(shape_tree(*x)), n as int),
    }
}

pub open spec fn shape_trees(items: Seq<Shape>) -> Seq<Tree>
    decreases items,
{
    if items.len() == 0 {
        Seq::empty()
    } else {
        shape_trees(items.subrange(0, items.len() - 1)).push(shape_tree(items[items.len() - 1]))
    }
}

/// The tokens of a formula: an optional mole count, then its pieces.
pub open spec fn formula_tokens(lead: Option<i64>, items: Seq<Shape>) -> Seq<Lexeme> {
    match lead {
        Some(n) => seq![Lexeme::Number(n, no_loc())] + emit_seq(items),
        None => emit_seq(items),
    }
}

/// The tree of a formula: its pieces, under its mole count if it has one.
pub open spec fn formula_tree(lead: Option<i64>, items: Seq<Shape>) -> Tree {
    match lead {
        Some(n) => Tree::Mole(Box::new(collapse(shape_trees(items))), n as int),
        None => collapse(shape_trees(items)),
    }
}

/// From offset `i` on, `toks` holds the tokens of `pat`, whatever their
/// locations.
pub open spec fn conforms(toks: Seq<Lexeme>, i: int, pat: Seq<Lexeme>) -> bool {
    &&& 0 <= i
    &&& i + pat.len() <= toks.len()
    &&& forall|k: int| 0 <= k < pat.len() ==> #[trigger] toks[i + k].same_payload(pat[k])
}

/// The nesting levels after the tokens from `j` to `m`, starting at `p`, `b`.
pub open spec fn levels(toks: Seq<Lexeme>, j: int, m: int, p: int, b: int) -> (int, int)
    decreases m - j,
{
    if j >= m || j < 0 || j >= toks.len() {
        (p, b)
    } else {
        let (np, nb) = level_step(toks[j], p, b);
        levels(toks, j + 1, m, np, nb)
    }
}

/// Every prefix of `pat` opens at least as many groups of each kind as it
/// closes, and the whole closes all it opens.
pub open spec fn balanced(pat: Seq<Lexeme>) -> bool {
    &&& forall|k: int|
        0 <= k <= pat.len() ==> #[trigger] levels(pat, 0, k, 0, 0).0 >= 0 && levels(
            pat,
            0,
            k,
            0,
            0,
        ).1 >= 0
    &&& levels(pat, 0, pat.len() as int, 0, 0) == (0int, 0int)
}

proof fn lemma_levels_shift(toks: Seq<Lexeme>, j: int, m: int, p: int, b: int)
    ensures
        levels(toks, j, m, p, b) == (p + levels(toks, j, m, 0, 0).0, b + levels(toks, j, m, 0, 0).1),
    decreases m - j,
{
    if !(j >= m || j < 0 || j >= toks.len()) {
        let (np, nb) = level_step(toks[j], p, b);
        let (q2, c2) = level_step(toks[j], 0, 0);
        lemma_levels_shift(toks, j + 1, m, np, nb);
        lemma_levels_shift(toks, j + 1, m, q2, c2);
    }
}

proof fn lemma_levels_split(toks: Seq<Lexeme>, j: int, l: int, m: int, p: int, b: int)
    requires
        0 <= j <= l <= m <= toks.len(),
    ensures
        levels(toks, j, m, p, b) == levels(toks, l, m, levels(toks, j, l, p, b).0, levels(toks, j, l, p, b).1),
    decreases l - j,
{
    if j < l {
        let (np, nb) = level_step(toks[j], p, b);
        lemma_levels_split(toks, j + 1, l, m, np, nb);
    }
}

proof fn lemma_levels_conform(toks: Seq<Lexeme>, i: int, pat: Seq<Lexeme>, a: int, k: int, p: int, b: int)
    requires
        conforms(toks, i, pat),
        0 <= a <= k <= pat.len(),
    ensures
        levels(toks, i + a, i + k, p, b) == levels(pat, a, k, p, b),
    decreases k - a,
{
    if a < k {
        assert(toks[i + a].same_payload(pat[a]));
        assert(level_step(toks[i + a], p, b) == level_step(pat[a], p, b));
        let (np, nb) = level_step(pat[a], p, b);
        lemma_levels_conform(toks, i, pat, a + 1, k, np, nb);
    }
}

proof fn lemma_conforms_self(s: Seq<Lexeme>, i: int, pat: Seq<Lexeme>)
    requires
        0 <= i,
        i + pat.len() <= s.len(),
        forall|k: int| 0 <= k < pat.len() ==> s[i + k] == pat[k],
    ensures
        conforms(s, i, pat),
{
    assert forall|k: int| 0 <= k < pat.len() implies #[trigger] s[i + k].same_payload(pat[k]) by {
        assert(s[i + k] == pat[k]);
    }
}

proof fn lemma_balanced_concat(x: Seq<Lexeme>, y: Seq<Lexeme>)
    requires
        balanced(x),
        balanced(y),
    ensures
        balanced(x + y),
{
    let s = x + y;
    lemma_conforms_self(s, 0, x);
    lemma_conforms_self(s, x.len() as int, y);
    assert forall|k: int| 0 <= k <= s.len() implies #[trigger] levels(s, 0, k, 0, 0).0 >= 0 && levels(
        s,
        0,
        k,
        0,
        0,
    ).1 >= 0 by {
        if k <= x.len() {
            lemma_levels_conform(s, 0, x, 0, k, 0, 0);
        } else {
            lemma_levels_split(s, 0, x.len() as int, k, 0, 0);
            lemma_levels_conform(s, 0, x, 0, x.len() as int, 0, 0);
            lemma_levels_conform(s, x.len() as int, y, 0, k - x.len(), 0, 0);
            assert(levels(y, 0, k - x.len(), 0, 0).0 >= 0);
        }
    }
    lemma_levels_split(s, 0, x.len() as int, s.len() as int, 0, 0);
    lemma_levels_conform(s, 0, x, 0, x.len() as int, 0, 0);
    lemma_levels_conform(s, x.len() as int, y, 0, y.len() as int, 0, 0);
}

proof fn lemma_balanced_plain(t: Lexeme)
    requires
        level_step(t, 0, 0) == (0int, 0int),
    ensures
        balanced(seq![t]),
{
    let s = seq![t];
    assert forall|k: int| 0 <= k <= s.len() implies #[trigger] levels(s, 0, k, 0, 0).0 >= 0 && levels(
        s,
        0,
        k,
        0,
        0,
    ).1 >= 0 by {
        if k == 1 {
            assert(levels(s, 1, 1, 0, 0) == (0int, 0int));
        }
    }
    assert(levels(s, 1, 1, 0, 0) == (0int, 0int));
}

proof fn lemma_group_levels(items: Seq<Shape>, square: bool, k: int)
    requires
        balanced(emit_seq(items)),
        1 <= k <= emit_seq(items).len() + 1,
    ensures
        ({
            let g = emit(Shape::Group(items, square));
            let inside = levels(emit_seq(items), 0, k - 1, 0, 0);
            levels(g, 0, k, 0, 0) == if square {
                (inside.0, inside.1 + 1)
            } else {
                (inside.0 + 1, inside.1)
            }
        }),
{
    let e = emit_seq(items);
    let g = emit(Shape::Group(items, square));
    assert(g == seq![opener(square)] + e + seq![closer(square)]);
    assert forall|q: int| 0 <= q < e.len() implies g[1 + q] == e[q] by {}
    lemma_conforms_self(g, 1, e);
    lemma_levels_split(g, 0, 1, k, 0, 0);
    assert(levels(g, 1, 1, level_step(g[0], 0, 0).0, level_step(g[0], 0, 0).1) == level_step(g[0], 0, 0));
    let (op, ob) = levels(g, 0, 1, 0, 0);
    lemma_levels_shift(g, 1, k, op, ob);
    lemma_levels_conform(g, 1, e, 0, k - 1, 0, 0);
}

proof fn lemma_group_closes(items: Seq<Shape>, square: bool)
    requires
        balanced(emit_seq(items)),
    ensures
        levels(emit(Shape::Group(items, square)), 0, emit(Shape::Group(items, square)).len() as int, 0, 0)
            == (0int, 0int),
{
    let e = emit_seq(items);
    let g = emit(Shape::Group(items, square));
    let n = e.len() + 1int;
    assert(g == seq![opener(square)] + e + seq![closer(square)]);
    assert(g.len() == n + 1);
    assert(g[n] == closer(square));
    lemma_group_levels(items, square, n);
    assert(levels(e, 0, e.len() as int, 0, 0) == (0int, 0int));
    lemma_levels_split(g, 0, n, n + 1, 0, 0);
    let (p, b) = levels(g, 0, n, 0, 0);
    let (np, nb) = level_step(g[n], p, b);
    assert(levels(g, n, n + 1, p, b) == levels(g, n + 1, n + 1, np, nb));
}

proof fn lemma_emit_balanced(s: Shape)
    ensures
        balanced(emit(s)),
        emit(s).len() > 0,
    decreases s,
{
    match s {
        Shape::Atom(n) => {
            lemma_balanced_plain(Lexeme::Atom(n, no_loc()));
            assert(emit(s) == seq![Lexeme::Atom(n, no_loc())]);
        },
        Shape::Times(x, n) => {
            lemma_emit_balanced(*x);
            lemma_balanced_plain(Lexeme::Number(n, no_loc()));
            lemma_balanced_concat(emit(*x), seq![Lexeme::Number(n, no_loc())]);
        },
        Shape::Group(items, square) => {
            lemma_emit_seq_balanced(items);
            let e = emit_seq(items);
            let g = emit(s);
            assert forall|k: int| 0 <= k <= g.len() implies #[trigger] levels(g, 0, k, 0, 0).0 >= 0
                && levels(g, 0, k, 0, 0).1 >= 0 by {
                if 1 <= k <= e.len() + 1 {
                    lemma_group_levels(items, square, k);
                    assert(levels(e, 0, k - 1, 0, 0).0 >= 0 && levels(e, 0, k - 1, 0, 0).1 >= 0);
                } else if k == g.len() {
                    lemma_group_closes(items, square);
                }
            }
            lemma_group_closes(items, square);
        },
    }
}

proof fn lemma_emit_seq_balanced(items: Seq<Shape>)
    ensures
        balanced(emit_seq(items)),
    decreases items,
{
    if items.len() == 0 {
        let e = emit_seq(items);
        assert(e.len() == 0);
        assert forall|k: int| 0 <= k <= e.len() implies #[trigger] levels(e, 0, k, 0, 0).0 >= 0
            && levels(e, 0, k, 0, 0).1 >= 0 by {}
    } else {
        lemma_emit_seq_balanced(items.subrange(0, items.len() - 1));
        lemma_emit_balanced(items[items.len() - 1]);
        lemma_balanced_concat(emit_seq(items.subrange(0, items.len() - 1)), emit(items[items.len() - 1]));
    }
}

/// At level zero, where the last group opened is forgotten.
proof fn lemma_scan_start_irrelevant(
    toks: Seq<Lexeme>,
    i: int,
    st: TokenLoc,
    o: int,
    st2: TokenLoc,
    o2: int,
    nodes: Seq<Tree>,
)
    requires
        0 <= i,
    ensures
        scan(toks, i, 0, 0, st, o, nodes) == scan(toks, i, 0, 0, st2, o2, nodes),
    decreases toks.len() - i,
{
    if i < toks.len() {
        match toks[i] {
            Lexeme::Number(n, _) => {
                if nodes.len() > 0 {
                    lemma_scan_start_irrelevant(
                        toks,
                        i + 1,
                        st,
                        o,
                        st2,
                        o2,
                        nodes.drop_last().push(Tree::Mul(Box::new(nodes.last()), n as int)),
                    );
                }
            },
            Lexeme::Atom(name, _) => {
                lemma_scan_start_irrelevant(toks, i + 1, st, o, st2, o2, nodes.push(Tree::Atom(name)));
            },
            _ => {},
        }
    }
}

/// Inside a group, the tokens are only counted until the levels return to
/// zero.
proof fn lemma_scan_buffered(
    toks: Seq<Lexeme>,
    j: int,
    e: int,
    p: int,
    b: int,
    st: TokenLoc,
    o: int,
    nodes: Seq<Tree>,
)
    requires
        0 <= j <= e <= toks.len(),
        p != 0 || b != 0,
        forall|m: int| j < m <= e ==> #[trigger] levels(toks, j, m, p, b) != (0int, 0int),
    ensures
        scan(toks, j, p, b, st, o, nodes) == scan(
            toks,
            e,
            levels(toks, j, e, p, b).0,
            levels(toks, j, e, p, b).1,
            st,
            o,
            nodes,
        ),
    decreases e - j,
{
    if j < e {
        let (np, nb) = level_step(toks[j], p, b);
        assert(levels(toks, j, j + 1, p, b) == levels(toks, j + 1, j + 1, np, nb));
        assert(levels(toks, j, j + 1, p, b) != (0int, 0int));
        assert forall|m: int| j + 1 < m <= e implies #[trigger] levels(toks, j + 1, m, np, nb) != (
            0int,
            0int,
        ) by {
            assert(levels(toks, j, m, p, b) != (0int, 0int));
        }
        lemma_scan_buffered(toks, j + 1, e, np, nb, st, o, nodes);
    }
}

/// A piece, read at level zero, adds its tree to the siblings.
proof fn lemma_read_shape(toks: Seq<Lexeme>, i: int, s: Shape, st: TokenLoc, o: int, nodes: Seq<Tree>)
    requires
        conforms(toks, i, emit(s)),
    ensures
        scan(toks, i, 0, 0, st, o, nodes) == scan(
            toks,
            i + emit(s).len(),
            0,
            0,
            st,
            o,
            nodes.push(shape_tree(s)),
        ),
    decreases s, 0int,
{
    lemma_emit_balanced(s);
    let pat = emit(s);
    assert(toks[i + 0].same_payload(pat[0]));
    match s {
        Shape::Atom(n) => {
            assert(toks[i] matches Lexeme::Atom(x, _) && x == n);
        },
        Shape::Times(x, n) => {
            let ex = emit(*x);
            assert(pat == ex + seq![Lexeme::Number(n, no_loc())]);
            assert forall|k: int| 0 <= k < ex.len() implies #[trigger] toks[i + k].same_payload(ex[k]) by {
                assert(toks[i + k].same_payload(pat[k]));
            }
            lemma_read_shape(toks, i, *x, st, o, nodes);
            let c = i + ex.len();
            assert(toks[i + ex.len()].same_payload(pat[ex.len() as int]));
            assert(toks[c] matches Lexeme::Number(m, _) && m == n);
            let pushed = nodes.push(shape_tree(*x));
            assert(pushed.drop_last().push(Tree::Mul(Box::new(pushed.last()), n as int)) =~= nodes.push(
                shape_tree(s),
            ));
        },
        Shape::Group(items, square) => {
            let e = emit_seq(items);
            lemma_emit_seq_balanced(items);
            assert(pat == seq![opener(square)] + e + seq![closer(square)]);
            let c = i + 1 + e.len();
            assert(toks[i + (e.len() + 1)].same_payload(pat[e.len() + 1int]));
            let loc = toks[i].loc();
            let (op, ob) = if square {
                (0int, 1int)
            } else {
                (1int, 0int)
            };
            assert(scan(toks, i, 0, 0, st, o, nodes) == scan(toks, i + 1, op, ob, loc, i, nodes));
            assert forall|k: int| 0 <= k < e.len() implies #[trigger] toks[i + 1 + k].same_payload(e[k]) by {
                assert(toks[i + (1 + k)].same_payload(pat[1 + k]));
                assert(pat[1 + k] == e[k]);
            }
            assert(conforms(toks, i + 1, e));
            assert forall|m: int| i + 1 < m <= c implies #[trigger] levels(toks, i + 1, m, op, ob) != (
                0int,
                0int,
            ) by {
                lemma_levels_shift(toks, i + 1, m, op, ob);
                lemma_levels_conform(toks, i + 1, e, 0, m - i - 1, 0, 0);
                assert(levels(e, 0, m - i - 1, 0, 0).0 >= 0);
            }
            lemma_scan_buffered(toks, i + 1, c, op, ob, loc, i, nodes);
            lemma_levels_shift(toks, i + 1, c, op, ob);
            lemma_levels_conform(toks, i + 1, e, 0, e.len() as int, 0, 0);
            assert(levels(toks, i + 1, c, op, ob) == (op, ob));
            let sub = toks.subrange(i + 1, c);
            assert forall|k: int| 0 <= k < e.len() implies #[trigger] sub[0 + k].same_payload(e[k]) by {
                assert(toks[i + 1 + k].same_payload(e[k]));
            }
            lemma_inner_reads(sub, items);
            lemma_scan_start_irrelevant(toks, c + 1, loc, i, st, o, nodes.push(shape_tree(s)));
        },
    }
}

/// A run of pieces, read at level zero, adds their trees to the siblings.
proof fn lemma_read_shapes(toks: Seq<Lexeme>, i: int, items: Seq<Shape>, st: TokenLoc, o: int, nodes: Seq<Tree>)
    requires
        conforms(toks, i, emit_seq(items)),
    ensures
        scan(toks, i, 0, 0, st, o, nodes) == scan(
            toks,
            i + emit_seq(items).len(),
            0,
            0,
            st,
            o,
            nodes + shape_trees(items),
        ),
    decreases items, 0int,
{
    if items.len() == 0 {
        assert(nodes + shape_trees(items) =~= nodes);
    } else {
        let init = items.subrange(0, items.len() - 1);
        let last = items[items.len() - 1];
        let a = emit_seq(init);
        let z = emit(last);
        assert(emit_seq(items) == a + z);
        assert forall|k: int| 0 <= k < a.len() implies #[trigger] toks[i + k].same_payload(a[k]) by {
            assert(toks[i + k].same_payload(emit_seq(items)[k]));
        }
        lemma_read_shapes(toks, i, init, st, o, nodes);
        assert forall|k: int| 0 <= k < z.len() implies #[trigger] toks[(i + a.len()) + k].same_payload(
            z[k],
        ) by {
            assert(toks[i + (a.len() + k)].same_payload(emit_seq(items)[a.len() + k]));
        }
        lemma_read_shape(toks, i + a.len(), last, st, o, nodes + shape_trees(init));
        assert((nodes + shape_trees(init)).push(shape_tree(last)) =~= nodes + shape_trees(items));
    }
}

proof fn lemma_inner_reads(toks: Seq<Lexeme>, items: Seq<Shape>)
    requires
        toks.len() == emit_seq(items).len(),
        conforms(toks, 0, emit_seq(items)),
    ensures
        inner(toks) == Ok::<Tree, crate::err::Fault>(collapse(shape_trees(items))),
    decreases items, 1int,
{
    lemma_read_shapes(toks, 0, items, TokenLoc { start: 0, len: 0 }, 0, Seq::empty());
    assert(Seq::<Tree>::empty() + shape_trees(items) =~= shape_trees(items));
}

proof fn lemma_no_mole(s: Shape)
    ensures
        !has_mole(shape_tree(s)),
    decreases s,
{
    match s {
        Shape::Atom(_) => {},
        Shape::Group(items, _) => {
            lemma_no_mole_seq(items);
            let ts = shape_trees(items);
            if ts.len() == 1 {
                assert(!has_mole(ts[0]));
            }
        },
        Shape::Times(x, _) => {
            lemma_no_mole(*x);
        },
    }
}

proof fn lemma_no_mole_seq(items: Seq<Shape>)
    ensures
        !has_mole_seq(shape_trees(items)),
        shape_trees(items).len() == items.len(),
        forall|i: int| 0 <= i < items.len() ==> !has_mole(#[trigger] shape_trees(items)[i]),
    decreases items,
{
    if items.len() > 0 {
        let init = items.subrange(0, items.len() - 1);
        lemma_no_mole_seq(init);
        lemma_no_mole(items[items.len() - 1]);
        let ts = shape_trees(items);
        assert(ts.subrange(0, ts.len() - 1) =~= shape_trees(init));
        assert forall|i: int| 0 <= i < items.len() implies !has_mole(#[trigger] shape_trees(items)[i]) by {
            if i < items.len() - 1 {
                assert(ts[i] == shape_trees(init)[i]);
            }
        }
    }
}

proof fn lemma_first_not_number(s: Shape)
    ensures
        emit(s).len() > 0,
        !(emit(s)[0] is Number),
    decreases s,
{
    lemma_emit_balanced(s);
    match s {
        Shape::Times(x, n) => {
            lemma_first_not_number(*x);
            assert(emit(s)[0] == emit(*x)[0]);
        },
        _ => {},
    }
}

proof fn lemma_first_not_number_seq(items: Seq<Shape>)
    requires
        items.len() > 0,
    ensures
        emit_seq(items).len() > 0,
        !(emit_seq(items)[0] is Number),
    decreases items.len(),
{
    let init = items.subrange(0, items.len() - 1);
    let last = items[items.len() - 1];
    lemma_first_not_number(last);
    if init.len() == 0 {
        assert(emit_seq(init).len() == 0);
        assert(emit_seq(items)[0] == emit(last)[0]);
    } else {
        lemma_first_not_number_seq(init);
        assert(emit_seq(items)[0] == emit_seq(init)[0]);
    }
}

/// Reading back a formula: the tokens of a well-formed formula, whatever
/// their locations, assemble into the tree that the formula describes, which
/// holds no mole count below its top. Reading the formula then succeeds,
/// wherever that tree is not empty and its counts fit in 64 bits, with the
/// molecule whose count of each atom is the sum over its occurrences of the
/// product of the multipliers around them, whatever the order of the work.
pub proof fn lemma_round_trip(
    f: Seq<char>,
    lead: Option<i64>,
    items: Seq<Shape>,
    r: Result<Molecule, StoikError>,
)
    requires
        lex(f).len() > 0,
        lex(f).len() == formula_tokens(lead, items).len(),
        conforms(lex(f), 0, formula_tokens(lead, items)),
        parsed(f, r),
    ensures
        assemble(lex(f)) == Ok::<Tree, crate::err::Fault>(formula_tree(lead, items)),
        !has_mole(body(formula_tree(lead, items))),
        formula_tree(lead, items) != Tree::Empty && fits(formula_tree(lead, items)) ==> (r matches Ok(
            m,
        ) && m.counts() == tree_counts(body(formula_tree(lead, items))) && m.mole_count() == moles_of(
            formula_tree(lead, items),
        )),
{
    let toks = lex(f);
    let pat = formula_tokens(lead, items);
    let t = formula_tree(lead, items);
    lemma_no_mole_seq(items);
    let ts = shape_trees(items);
    if ts.len() == 1 {
        assert(!has_mole(ts[0]));
    }
    assert(toks[0int + 0int].same_payload(pat[0int]));
    match lead {
        Some(n) => {
            let sub = toks.subrange(1, toks.len() as int);
            let e = emit_seq(items);
            assert(pat == seq![Lexeme::Number(n, no_loc())] + e);
            assert forall|k: int| 0 <= k < e.len() implies #[trigger] sub[0 + k].same_payload(e[k]) by {
                assert(toks[0 + (1 + k)].same_payload(pat[1 + k]));
            }
            lemma_inner_reads(sub, items);
            assert(toks[0] matches Lexeme::Number(m, _) && m == n);
        },
        None => {
            lemma_first_not_number_seq(items);
            lemma_inner_reads(toks, items);
        },
    }
}

} // verus!
