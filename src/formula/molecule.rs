//! Molecules: atom counts reduced from a syntax tree.
use vstd::prelude::*;

use core::cmp::Ordering;

use std::collections::VecDeque;

use crate::err::{Fault, StoikError};
use crate::formula::tokenstream::lex;
use crate::formula::tree::{assemble, lemma_trees, outcome, trees, SyntaxNode, Tree};
use crate::formula::{assemble_tree, tokenize};
use crate::text::{int_text, int_to_text};
use crate::names::{compare_names, lemma_name_lt_irreflexive, lemma_name_lt_transitive, name_lt};

verus! {

/// Atom names paired with counts, as plain values.
pub type Entries = Seq<(Seq<char>, int)>;

/// The names of `es` stand in strictly increasing order.
pub open spec fn sorted(es: Entries) -> bool {
    forall|i: int, j: int| 0 <= i < j < es.len() ==> name_lt(#[trigger] es[i].0, #[trigger] es[j].0)
}

pub open spec fn has_name(es: Entries, a: Seq<char>) -> bool {
    exists|i: int| 0 <= i < es.len() && es[i].0 == a
}

/// The map from each name of `es` to its count.
pub open spec fn table(es: Entries) -> Map<Seq<char>, int> {
    Map::new(
        |a: Seq<char>| has_name(es, a),
        |a: Seq<char>| es[choose|i: int| 0 <= i < es.len() && es[i].0 == a].1,
    )
}

/// The count of `a` in `m`, zero where `a` is absent.
pub open spec fn get_or_zero(m: Map<Seq<char>, int>, a: Seq<char>) -> int {
    if m.contains_key(a) {
        m[a]
    } else {
        0
    }
}

pub open spec fn pairs_view(v: Seq<(String, i64)>) -> Entries {
    v.map_values(|e: (String, i64)| (e.0@, e.1 as int))
}

pub open spec fn in_i64(x: int) -> bool {
    i64::MIN <= x <= i64::MAX
}

pub proof fn lemma_table(es: Entries)
    requires
        sorted(es),
    ensures
        forall|i: int| 0 <= i < es.len() ==> #[trigger] table(es)[es[i].0] == es[i].1,
        forall|i: int| 0 <= i < es.len() ==> #[trigger] table(es).contains_key(es[i].0),
{
    assert forall|i: int| 0 <= i < es.len() implies #[trigger] table(es)[es[i].0] == es[i].1 by {
        assert(has_name(es, es[i].0));
        let j = choose|j: int| 0 <= j < es.len() && es[j].0 == es[i].0;
        if j != i {
            lemma_name_lt_irreflexive(es[i].0);
        }
    }
    assert forall|i: int| 0 <= i < es.len() implies #[trigger] table(es).contains_key(es[i].0) by {
        assert(has_name(es, es[i].0));
    }
}

/// How many of atom `a` one copy of `t` holds: each occurrence counts the
/// product of the multipliers around it.
pub open spec fn count_in(t: Tree, a: Seq<char>) -> int
    decreases t,
{
    match t {
        Tree::Sub(cs) => count_in_seq(cs, a),
        Tree::Mul(n, k) => k * count_in(*n, a),
        Tree::Atom(x) => if x == a {
            1
        } else {
            0
        },
        _ => 0,
    }
}

pub open spec fn count_in_seq(cs: Seq<Tree>, a: Seq<char>) -> int
    decreases cs,
{
    if cs.len() == 0 {
        0
    } else {
        count_in_seq(cs.subrange(0, cs.len() - 1), a) + count_in(cs[cs.len() - 1], a)
    }
}

/// The atom names that occur in `t`.
pub open spec fn atoms_in(t: Tree) -> Set<Seq<char>>
    decreases t,
{
    match t {
        Tree::Sub(cs) => atoms_in_seq(cs),
        Tree::Mul(n, _) => atoms_in(*n),
        Tree::Atom(x) => set![x],
        _ => Set::empty(),
    }
}

pub open spec fn atoms_in_seq(cs: Seq<Tree>) -> Set<Seq<char>>
    decreases cs,
{
    if cs.len() == 0 {
        Set::empty()
    } else {
        atoms_in_seq(cs.subrange(0, cs.len() - 1)).union(atoms_in(cs[cs.len() - 1]))
    }
}

/// `t` is or holds a mole count.
pub open spec fn has_mole(t: Tree) -> bool
    decreases t,
{
    match t {
        Tree::Sub(cs) => has_mole_seq(cs),
        Tree::Mul(n, _) => has_mole(*n),
        Tree::Mole(_, _) => true,
        _ => false,
    }
}

pub open spec fn has_mole_seq(cs: Seq<Tree>) -> bool
    decreases cs,
{
    if cs.len() == 0 {
        false
    } else {
        has_mole_seq(cs.subrange(0, cs.len() - 1)) || has_mole(cs[cs.len() - 1])
    }
}

pub open spec fn abs(x: int) -> int {
    if x < 0 {
        -x
    } else {
        x
    }
}

/// A bound on every number that reducing `t` under multiplier `m` computes:
/// the sum over all nodes of the product of the multipliers around them.
pub open spec fn weight(t: Tree, m: int) -> int
    decreases t,
{
    match t {
        Tree::Sub(cs) => m + weight_seq(cs, m),
        Tree::Mul(n, k) => m + weight(*n, abs(k) * m),
        _ => m,
    }
}

pub open spec fn weight_seq(cs: Seq<Tree>, m: int) -> int
    decreases cs,
{
    if cs.len() == 0 {
        0
    } else {
        weight_seq(cs.subrange(0, cs.len() - 1), m) + weight(cs[cs.len() - 1], m)
    }
}

/// The part of a tree below its mole count, if it has one.
pub open spec fn body(t: Tree) -> Tree {
    match t {
        Tree::Mole(n, _) => *n,
        _ => t,
    }
}

/// The mole count of a tree: 1 where it has none.
pub open spec fn moles_of(t: Tree) -> int {
    match t {
        Tree::Mole(_, m) => m,
        _ => 1,
    }
}

/// The count of each atom that occurs in `t`.
pub open spec fn tree_counts(t: Tree) -> Map<Seq<char>, int> {
    Map::new(|a: Seq<char>| atoms_in(t).contains(a), |a: Seq<char>| count_in(t, a))
}

/// A bound under which reducing `t` overflows nowhere: the sum over all nodes
/// of the product of the multipliers around them fits in 64 bits, and so does
/// that sum times the mole count. It is sufficient, not necessary; `reduction`
/// says exactly where an overflow comes.
pub open spec fn fits(t: Tree) -> bool {
    &&& weight(body(t), 1) <= i64::MAX
    &&& weight(body(t), 1) * abs(moles_of(t)) <= i64::MAX
}

/// Where the reduction's walk over its queue ends: with the counts when the
/// work runs out, at the first mole count met (with the counts up to it), or
/// at the first product or sum that does not fit in 64 bits.
pub enum Walk {
    Done(Map<Seq<char>, int>),
    Stopped(Tree, Map<Seq<char>, int>),
    Overflow,
}

/// Each tree of `cs` paired with the multiplier `m`.
pub open spec fn with_mul(cs: Seq<Tree>, m: int) -> Seq<(Tree, int)> {
    cs.map_values(|c: Tree| (c, m))
}

/// The reduction step by step, for at most `fuel` steps: the queue holds
/// pending trees with the product of the multipliers around them; a group
/// queues its children at the back, a multiplier its node at the front, an
/// atom adds its multiplier to its count.
pub open spec fn walk(q: Seq<(Tree, int)>, acc: Map<Seq<char>, int>, fuel: nat) -> Walk
    decreases fuel,
{
    if q.len() == 0 || fuel == 0 {
        Walk::Done(acc)
    } else {
        let (t, m) = q[0];
        let rest = q.drop_first();
        match t {
            Tree::Sub(cs) => walk(rest + with_mul(cs, m), acc, (fuel - 1) as nat),
            Tree::Mul(n, k) => if in_i64(k * m) {
                walk(seq![(*n, k * m)] + rest, acc, (fuel - 1) as nat)
            } else {
                Walk::Overflow
            },
            Tree::Atom(x) => if in_i64(get_or_zero(acc, x) + m) {
                walk(rest, acc.insert(x, get_or_zero(acc, x) + m), (fuel - 1) as nat)
            } else {
                Walk::Overflow
            },
            Tree::Empty => walk(rest, acc, (fuel - 1) as nat),
            Tree::Mole(_, _) => Walk::Stopped(t, acc),
        }
    }
}

/// The walk of the reduction of `t`, starting from its body under multiplier
/// 1 with no counts; each step consumes a node, so `size` steps suffice.
pub open spec fn reduction(t: Tree) -> Walk {
    walk(seq![(body(t), 1int)], Map::empty(), size(body(t)))
}

/// Every count of `acc` times `k` fits in 64 bits.
pub open spec fn scaled_fit(acc: Map<Seq<char>, int>, k: int) -> bool {
    forall|a: Seq<char>| #[trigger] acc.contains_key(a) ==> in_i64(acc[a] * k)
}

/// What reducing the tree `t` returns: the molecule whose counts are those of
/// the tree, or the error that the tree calls for.
pub open spec fn reduced(t: Tree, r: Result<Molecule, StoikError>) -> bool {
    &&& match r {
        Ok(m) => {
            &&& m.wf()
            &&& t != Tree::Empty
            &&& !has_mole(body(t))
            &&& m.mole_count() == moles_of(t)
            &&& m.counts() == tree_counts(body(t))
        },
        Err(e) => match e@ {
            Fault::EmptyMolecule => t == Tree::Empty,
            Fault::InvalidNode => has_mole(body(t)),
            Fault::InvalidInput => !fits(t),
            _ => false,
        },
    }
    &&& r matches Err(StoikError::InvalidNode(n, _)) ==> n.tree() is Mole
    &&& t != Tree::Empty ==> match reduction(t) {
        Walk::Done(acc) => if scaled_fit(acc, moles_of(t)) {
            r matches Ok(m) && m.counts() == acc
        } else {
            r matches Err(e) && e@ == Fault::InvalidInput
        },
        Walk::Stopped(n, acc) => (r matches Err(StoikError::InvalidNode(node, m)) && node.tree() == n
            && m.counts() == acc && sorted(m.entries()) && m.mole_count() == moles_of(t)),
        Walk::Overflow => (r matches Err(e) && e@ == Fault::InvalidInput),
    }
    &&& t == Tree::Empty ==> (r matches Err(e) && e@ == Fault::EmptyMolecule)
    &&& fits(t) && t != Tree::Empty ==> (r is Ok <==> !has_mole(body(t)))
}

pub proof fn lemma_abs_mul(x: int, y: int)
    ensures
        abs(x * y) == abs(x) * abs(y),
        abs(x) * abs(y) >= 0,
{
    assert(abs(x) * abs(y) >= 0) by (nonlinear_arith)
        requires
            abs(x) >= 0,
            abs(y) >= 0,
    ;
    if x >= 0 && y >= 0 {
        assert(x * y >= 0) by (nonlinear_arith)
            requires
                x >= 0,
                y >= 0,
        ;
    } else if x >= 0 && y < 0 {
        assert(x * y <= 0) by (nonlinear_arith)
            requires
                x >= 0,
                y < 0,
        ;
        assert(-(x * y) == x * (-y)) by (nonlinear_arith);
    } else if x < 0 && y >= 0 {
        assert(x * y <= 0) by (nonlinear_arith)
            requires
                x < 0,
                y >= 0,
        ;
        assert(-(x * y) == (-x) * y) by (nonlinear_arith);
    } else {
        assert(x * y > 0) by (nonlinear_arith)
            requires
                x < 0,
                y < 0,
        ;
        assert(x * y == (-x) * (-y)) by (nonlinear_arith);
    }
}

pub proof fn lemma_weight_lower(t: Tree, m: int)
    requires
        m >= 0,
    ensures
        weight(t, m) >= m,
    decreases t,
{
    match t {
        Tree::Sub(cs) => lemma_weight_seq_lower(cs, m),
        Tree::Mul(n, k) => {
            assert(abs(k) * m >= 0) by (nonlinear_arith)
                requires
                    m >= 0,
            ;
            lemma_weight_lower(*n, abs(k) * m);
        },
        _ => {},
    }
}

pub proof fn lemma_weight_seq_lower(cs: Seq<Tree>, m: int)
    requires
        m >= 0,
    ensures
        weight_seq(cs, m) >= 0,
    decreases cs,
{
    if cs.len() > 0 {
        lemma_weight_seq_lower(cs.subrange(0, cs.len() - 1), m);
        lemma_weight_lower(cs[cs.len() - 1], m);
    }
}

/// One piece of pending work: a node and the product of the multipliers
/// around it.
pub struct MoleculeStackItem {
    pub node: SyntaxNode,
    pub mul: i64,
}

impl MoleculeStackItem {
    pub fn new(node: SyntaxNode, mul: i64) -> (r: Self)
        ensures
            r.node == node,
            r.mul == mul,
    {
        Self { node, mul }
    }
}

spec fn item_tree(it: MoleculeStackItem) -> Tree {
    Tree::Mul(Box::new(it.node.tree()), it.mul as int)
}

spec fn queue_trees(q: Seq<MoleculeStackItem>) -> Seq<Tree> {
    q.map_values(|it: MoleculeStackItem| item_tree(it))
}

spec fn queue_view(q: Seq<MoleculeStackItem>) -> Seq<(Tree, int)> {
    q.map_values(|it: MoleculeStackItem| (it.node.tree(), it.mul as int))
}

spec fn queue_weight(q: Seq<MoleculeStackItem>) -> int
    decreases q.len(),
{
    if q.len() == 0 {
        0
    } else {
        queue_weight(q.drop_last()) + weight(q.last().node.tree(), abs(q.last().mul as int))
    }
}

pub open spec fn size(t: Tree) -> nat
    decreases t,
{
    match t {
        Tree::Sub(cs) => 1 + size_seq(cs),
        Tree::Mul(n, _) => 1 + size(*n),
        _ => 1,
    }
}

pub open spec fn size_seq(cs: Seq<Tree>) -> nat
    decreases cs,
{
    if cs.len() == 0 {
        0
    } else {
        size_seq(cs.subrange(0, cs.len() - 1)) + size(cs[cs.len() - 1])
    }
}

spec fn queue_size(q: Seq<MoleculeStackItem>) -> nat
    decreases q.len(),
{
    if q.len() == 0 {
        0
    } else {
        queue_size(q.drop_last()) + size(q.last().node.tree())
    }
}

proof fn lemma_queue_weight_nonneg(q: Seq<MoleculeStackItem>)
    ensures
        queue_weight(q) >= 0,
    decreases q.len(),
{
    if q.len() > 0 {
        lemma_queue_weight_nonneg(q.drop_last());
        lemma_weight_lower(q.last().node.tree(), abs(q.last().mul as int));
    }
}

spec fn children(ns: Seq<SyntaxNode>, m: i64) -> Seq<MoleculeStackItem> {
    ns.map_values(|n: SyntaxNode| MoleculeStackItem { node: n, mul: m })
}

proof fn lemma_concat(s1: Seq<Tree>, s2: Seq<Tree>)
    ensures
        forall|a: Seq<char>| #[trigger]
            count_in_seq(s1 + s2, a) == count_in_seq(s1, a) + count_in_seq(s2, a),
        atoms_in_seq(s1 + s2) == atoms_in_seq(s1).union(atoms_in_seq(s2)),
        has_mole_seq(s1 + s2) == (has_mole_seq(s1) || has_mole_seq(s2)),
    decreases s2.len(),
{
    if s2.len() == 0 {
        assert(s1 + s2 =~= s1);
        assert(atoms_in_seq(s1).union(atoms_in_seq(s2)) =~= atoms_in_seq(s1));
        assert forall|a: Seq<char>| #[trigger]
            count_in_seq(s1 + s2, a) == count_in_seq(s1, a) + count_in_seq(s2, a) by {
            assert(count_in_seq(s2, a) == 0);
        }
    } else {
        let t2 = s2.subrange(0, s2.len() - 1);
        let s = s1 + s2;
        lemma_concat(s1, t2);
        assert(s.subrange(0, s.len() - 1) =~= s1 + t2);
        assert(s[s.len() - 1] == s2[s2.len() - 1]);
        assert forall|a: Seq<char>| #[trigger]
            count_in_seq(s1 + s2, a) == count_in_seq(s1, a) + count_in_seq(s2, a) by {
            assert(count_in_seq(s, a) == count_in_seq(s1 + t2, a) + count_in(s2[s2.len() - 1], a));
            assert(count_in_seq(s2, a) == count_in_seq(t2, a) + count_in(s2[s2.len() - 1], a));
        }
        assert(atoms_in_seq(s) == atoms_in_seq(s1 + t2).union(atoms_in(s2[s2.len() - 1])));
        assert(atoms_in_seq(s) =~= atoms_in_seq(s1).union(atoms_in_seq(s2)));
        assert(has_mole_seq(s) == (has_mole_seq(s1 + t2) || has_mole(s2[s2.len() - 1])));
    }
}

proof fn lemma_queue_concat(q1: Seq<MoleculeStackItem>, q2: Seq<MoleculeStackItem>)
    ensures
        queue_weight(q1 + q2) == queue_weight(q1) + queue_weight(q2),
        queue_size(q1 + q2) == queue_size(q1) + queue_size(q2),
        queue_trees(q1 + q2) == queue_trees(q1) + queue_trees(q2),
    decreases q2.len(),
{
    assert(queue_trees(q1 + q2) =~= queue_trees(q1) + queue_trees(q2));
    if q2.len() == 0 {
        assert(q1 + q2 =~= q1);
    } else {
        lemma_queue_concat(q1, q2.drop_last());
        assert((q1 + q2).drop_last() =~= q1 + q2.drop_last());
    }
}

proof fn lemma_single(x: Tree)
    ensures
        forall|a: Seq<char>| #[trigger] count_in_seq(seq![x], a) == count_in(x, a),
        atoms_in_seq(seq![x]) == atoms_in(x),
        has_mole_seq(seq![x]) == has_mole(x),
{
    let s = seq![x];
    let e = Seq::<Tree>::empty();
    assert(s.subrange(0, 0) =~= e);
    assert(s[0] == x);
    assert forall|a: Seq<char>| #[trigger] count_in_seq(seq![x], a) == count_in(x, a) by {
        assert(count_in_seq(e, a) == 0);
        assert(count_in_seq(s, a) == count_in_seq(e, a) + count_in(x, a));
    }
    assert(atoms_in_seq(e) == Set::<Seq<char>>::empty());
    assert(atoms_in_seq(s) == atoms_in_seq(e).union(atoms_in(x)));
    assert(atoms_in_seq(s) =~= atoms_in(x));
    assert(has_mole_seq(s) == (has_mole_seq(e) || has_mole(x)));
}

proof fn lemma_children(ns: Seq<SyntaxNode>, m: i64)
    ensures
        forall|a: Seq<char>| #[trigger]
            count_in_seq(queue_trees(children(ns, m)), a) == m * count_in_seq(trees(ns), a),
        atoms_in_seq(queue_trees(children(ns, m))) == atoms_in_seq(trees(ns)),
        has_mole_seq(queue_trees(children(ns, m))) == has_mole_seq(trees(ns)),
        queue_weight(children(ns, m)) == weight_seq(trees(ns), abs(m as int)),
        queue_size(children(ns, m)) == size_seq(trees(ns)),
    decreases ns.len(),
{
    lemma_trees(ns);
    let q = queue_trees(children(ns, m));
    let ts = trees(ns);
    if ns.len() > 0 {
        let init = ns.subrange(0, ns.len() - 1);
        lemma_children(init, m);
        lemma_trees(init);
        let last = ns[ns.len() - 1];
        assert(q.subrange(0, q.len() - 1) =~= queue_trees(children(init, m)));
        assert(ts.subrange(0, ts.len() - 1) =~= trees(init));
        assert(children(ns, m).drop_last() =~= children(init, m));
        assert(q[q.len() - 1] == Tree::Mul(Box::new(last.tree()), m as int));
        assert(ts[ts.len() - 1] == last.tree());
        assert(children(ns, m).last() == MoleculeStackItem { node: last, mul: m });
        assert forall|a: Seq<char>| #[trigger]
            count_in_seq(queue_trees(children(ns, m)), a) == m * count_in_seq(trees(ns), a) by {
            let x = count_in_seq(trees(init), a);
            let y = count_in(last.tree(), a);
            assert(count_in(q[q.len() - 1], a) == m * y);
            assert(count_in_seq(q, a) == count_in_seq(queue_trees(children(init, m)), a) + m * y);
            assert(count_in_seq(ts, a) == x + y);
            assert(m * (x + y) == m * x + m * y) by (nonlinear_arith);
        }
        assert(atoms_in(q[q.len() - 1]) == atoms_in(last.tree()));
        assert(has_mole(q[q.len() - 1]) == has_mole(last.tree()));
        assert(atoms_in_seq(q) == atoms_in_seq(queue_trees(children(init, m))).union(
            atoms_in(last.tree()),
        ));
        assert(atoms_in_seq(ts) == atoms_in_seq(trees(init)).union(atoms_in(last.tree())));
        assert(has_mole_seq(q) == (has_mole_seq(queue_trees(children(init, m))) || has_mole(
            last.tree(),
        )));
        assert(has_mole_seq(ts) == (has_mole_seq(trees(init)) || has_mole(last.tree())));
    } else {
        assert(q =~= Seq::<Tree>::empty());
        assert(ts =~= Seq::<Tree>::empty());
        assert forall|a: Seq<char>| #[trigger]
            count_in_seq(queue_trees(children(ns, m)), a) == m * count_in_seq(trees(ns), a) by {
            assert(count_in_seq(q, a) == 0);
            assert(count_in_seq(ts, a) == 0);
        }
    }
}

/// Two sorted entry sequences with the same table are the same sequence.
pub proof fn lemma_sorted_unique(e1: Entries, e2: Entries)
    requires
        sorted(e1),
        sorted(e2),
        table(e1) == table(e2),
    ensures
        e1 == e2,
    decreases e1.len(),
{
    lemma_table(e1);
    lemma_table(e2);
    if e1.len() == 0 {
        if e2.len() > 0 {
            assert(table(e2).contains_key(e2[0].0));
        }
        assert(e1 =~= e2);
    } else if e2.len() == 0 {
        assert(table(e1).contains_key(e1[0].0));
    } else {
        let x = e1[0].0;
        let y = e2[0].0;
        assert(table(e2).contains_key(x));
        assert(table(e1).contains_key(y));
        let j = choose|j: int| 0 <= j < e2.len() && e2[j].0 == x;
        let k = choose|k: int| 0 <= k < e1.len() && e1[k].0 == y;
        if j > 0 {
            assert(name_lt(y, x));
            if k > 0 {
                assert(name_lt(x, y));
                lemma_name_lt_transitive(x, y, x);
            }
            lemma_name_lt_irreflexive(x);
        }
        assert(x == y);
        assert(e1[0].1 == table(e1)[x]);
        assert(e2[0].1 == table(e2)[x]);
        let r1 = e1.drop_first();
        let r2 = e2.drop_first();
        assert(sorted(r1)) by {
            assert forall|a: int, b: int| 0 <= a < b < r1.len() implies name_lt(
                #[trigger] r1[a].0,
                #[trigger] r1[b].0,
            ) by {
                assert(r1[a] == e1[a + 1] && r1[b] == e1[b + 1]);
            }
        }
        assert(sorted(r2)) by {
            assert forall|a: int, b: int| 0 <= a < b < r2.len() implies name_lt(
                #[trigger] r2[a].0,
                #[trigger] r2[b].0,
            ) by {
                assert(r2[a] == e2[a + 1] && r2[b] == e2[b + 1]);
            }
        }
        lemma_table_drop_first(e1);
        lemma_table_drop_first(e2);
        lemma_sorted_unique(r1, r2);
        assert(e1 =~= seq![e1[0]] + r1);
        assert(e2 =~= seq![e2[0]] + r2);
    }
}

proof fn lemma_table_drop_first(es: Entries)
    requires
        sorted(es),
        es.len() > 0,
    ensures
        table(es.drop_first()) == table(es).remove(es[0].0),
{
    let r = es.drop_first();
    lemma_table(es);
    assert(sorted(r)) by {
        assert forall|a: int, b: int| 0 <= a < b < r.len() implies name_lt(
            #[trigger] r[a].0,
            #[trigger] r[b].0,
        ) by {
            assert(r[a] == es[a + 1] && r[b] == es[b + 1]);
        }
    }
    lemma_table(r);
    assert forall|a: Seq<char>| #[trigger] table(r).contains_key(a) == table(es).remove(es[0].0).contains_key(a) by {
        if table(r).contains_key(a) {
            let j = choose|j: int| 0 <= j < r.len() && r[j].0 == a;
            assert(es[j + 1].0 == a);
            assert(name_lt(es[0].0, es[j + 1].0));
            if a == es[0].0 {
                lemma_name_lt_irreflexive(a);
            }
        }
        if table(es).contains_key(a) && a != es[0].0 {
            let j = choose|j: int| 0 <= j < es.len() && es[j].0 == a;
            assert(j > 0);
            assert(r[j - 1].0 == a);
        }
    }
    assert forall|a: Seq<char>| #[trigger] table(r).contains_key(a) implies table(r)[a] == table(es)[a] by {
        let j = choose|j: int| 0 <= j < r.len() && r[j].0 == a;
        assert(r[j] == es[j + 1]);
        assert(table(r)[r[j].0] == r[j].1);
        assert(table(es)[es[j + 1].0] == es[j + 1].1);
    }
    assert(table(r) =~= table(es).remove(es[0].0));
}

/// The same entries with each count multiplied by `k`.
pub open spec fn scale(es: Entries, k: int) -> Entries {
    es.map_values(|e: (Seq<char>, int)| (e.0, e.1 * k))
}

/// A molecule: how many of it there are, and how many of each atom one of
/// them holds.
#[derive(Debug)]
pub struct Molecule {
    /// The mole count of the molecule
    pub moles: i64,
    map: Vec<(String, i64)>,
}

impl Molecule {
    /// The mole count.
    pub closed spec fn mole_count(&self) -> int {
        self.moles as int
    }

    /// The atom counts of one molecule, in order of name.
    pub closed spec fn entries(&self) -> Entries {
        pairs_view(self.map@)
    }

    /// How many of each atom one molecule holds, before the mole count.
    pub open spec fn counts(&self) -> Map<Seq<char>, int> {
        table(self.entries())
    }

    /// How many of atom `a` all the moles together hold.
    pub open spec fn count_of(&self, a: Seq<char>) -> int {
        get_or_zero(self.counts(), a) * self.mole_count()
    }

    /// Names in order, and every count times the mole count fits in 64 bits.
    pub open spec fn wf(&self) -> bool {
        &&& sorted(self.entries())
        &&& forall|a: Seq<char>| #[trigger]
            self.counts().contains_key(a) ==> in_i64(self.counts()[a] * self.mole_count())
    }

    /// The atom counts of all the moles together, in order of name.
    pub open spec fn scaled(&self) -> Entries {
        scale(self.entries(), self.mole_count())
    }

    /// The mole count, as `moles` holds it.
    pub fn get_moles(&self) -> (r: i64)
        ensures
            r == self.mole_count(),
    {
        self.moles
    }

    /// Two well-formed molecules with the same mole count and the same counts
    /// are equal, entry for entry.
    pub proof fn lemma_same_counts(&self, other: &Molecule)
        requires
            self.wf(),
            other.wf(),
            self.counts() == other.counts(),
        ensures
            self.entries() == other.entries(),
    {
        lemma_sorted_unique(self.entries(), other.entries());
    }

    /// What `get_map` returns, read as a map: the atoms of `counts`, each
    /// with its count times the mole count, in order of name.
    pub proof fn lemma_scaled_in_i64(&self)
        requires
            self.wf(),
        ensures
            sorted(self.scaled()),
            forall|i: int| 0 <= i < self.scaled().len() ==> #[trigger] in_i64(self.scaled()[i].1),
            forall|a: Seq<char>| #[trigger]
                table(self.scaled()).contains_key(a) == self.counts().contains_key(a),
            forall|a: Seq<char>| #[trigger] get_or_zero(table(self.scaled()), a) == self.count_of(a),
    {
        self.lemma_scaled_sorted();
        assert forall|a: Seq<char>| #[trigger]
            table(self.scaled()).contains_key(a) == self.counts().contains_key(a) by {
            lemma_count_matches_map(*self, a);
        }
        assert forall|a: Seq<char>| #[trigger]
            get_or_zero(table(self.scaled()), a) == self.count_of(a) by {
            lemma_count_matches_map(*self, a);
        }
    }

    proof fn lemma_scaled_sorted(&self)
        requires
            self.wf(),
        ensures
            sorted(self.scaled()),
            forall|i: int| 0 <= i < self.scaled().len() ==> #[trigger] in_i64(self.scaled()[i].1),
    {
        let es = self.entries();
        lemma_table(es);
        assert forall|i: int| 0 <= i < self.scaled().len() implies #[trigger] in_i64(
            self.scaled()[i].1,
        ) by {
            assert(self.counts().contains_key(es[i].0));
        }
        assert forall|x: int, y: int| 0 <= x < y < self.scaled().len() implies name_lt(
            #[trigger] self.scaled()[x].0,
            #[trigger] self.scaled()[y].0,
        ) by {
            assert(self.scaled()[x].0 == es[x].0 && self.scaled()[y].0 == es[y].0);
        }
    }

    /// A molecule with no atoms and a mole count of 1.
    pub fn empty() -> (r: Self)
        ensures
            r.wf(),
            r.mole_count() == 1,
            r.counts() == Map::<Seq<char>, int>::empty(),
    {
        let r = Molecule { moles: 1, map: Vec::new() };
        assert(r.counts() =~= Map::<Seq<char>, int>::empty());
        r
    }

    /// Where `atom` stands in the entries, or where it would be inserted.
    fn find(&self, atom: &str) -> (r: Result<usize, usize>)
        requires
            sorted(self.entries()),
        ensures
            r matches Ok(i) ==> i < self.entries().len() && self.entries()[i as int].0 == atom@,
            r matches Err(i) ==> {
                &&& i <= self.entries().len()
                &&& forall|j: int| 0 <= j < i ==> name_lt(#[trigger] self.entries()[j].0, atom@)
                &&& forall|j: int|
                    i <= j < self.entries().len() ==> name_lt(atom@, #[trigger] self.entries()[j].0)
            },
    {
        let ghost es = self.entries();
        let n = self.map.len();
        let mut i: usize = 0;
        while i < n
            invariant
                n == es.len(),
                es == self.entries(),
                sorted(es),
                i <= n,
                forall|j: int| 0 <= j < i ==> name_lt(#[trigger] es[j].0, atom@),
            decreases n - i,
        {
            assert(es[i as int].0 == self.map@[i as int].0@);
            match compare_names(self.map[i].0.as_str(), atom) {
                Ordering::Less => {},
                Ordering::Equal => {
                    return Ok(i);
                },
                Ordering::Greater => {
                    assert forall|j: int| i <= j < es.len() implies name_lt(atom@, #[trigger] es[j].0) by {
                        if j > i {
                            lemma_name_lt_transitive(atom@, es[i as int].0, es[j].0);
                        }
                    }
                    return Err(i);
                },
            }
            i = i + 1;
        }
        Err(i)
    }

    /// Adds `n` to the count of `atom`, unless the sum does not fit in 64 bits.
    fn bump(&mut self, atom: &str, n: i64) -> (ok: bool)
        requires
            sorted(old(self).entries()),
        ensures
            sorted(final(self).entries()),
            final(self).mole_count() == old(self).mole_count(),
            ok == in_i64(get_or_zero(old(self).counts(), atom@) + n),
            ok ==> final(self).counts() == old(self).counts().insert(
                atom@,
                get_or_zero(old(self).counts(), atom@) + n,
            ),
            !ok ==> final(self).counts() == old(self).counts(),
            forall|b: Seq<char>| #[trigger]
                final(self).counts().contains_key(b) && b != atom@ ==> old(self).counts().contains_key(b)
                    && final(self).counts()[b] == old(self).counts()[b],
    {
        let ghost es = self.entries();
        proof {
            lemma_table(es);
        }
        match self.find(atom) {
            Ok(i) => {
                let c = self.map[i].1;
                assert(get_or_zero(self.counts(), atom@) == c);
                let sum = c as i128 + n as i128;
                if sum < i64::MIN as i128 || sum > i64::MAX as i128 {
                    return false;
                }
                let name = self.map[i].0.clone();
                self.map.set(i, (name, sum as i64));
                proof {
                    let es2 = self.entries();
                    assert(es2 =~= es.update(i as int, (atom@, sum as int)));
                    assert(sorted(es2)) by {
                        assert forall|x: int, y: int| 0 <= x < y < es2.len() implies name_lt(
                            #[trigger] es2[x].0,
                            #[trigger] es2[y].0,
                        ) by {
                            assert(es2[x].0 == es[x].0 && es2[y].0 == es[y].0);
                        }
                    }
                    lemma_table(es2);
                    lemma_table_update(es, es2, i as int);
                }
                true
            },
            Err(i) => {
                assert(!self.counts().contains_key(atom@)) by {
                    if has_name(es, atom@) {
                        let j = choose|j: int| 0 <= j < es.len() && es[j].0 == atom@;
                        lemma_name_lt_irreflexive(atom@);
                    }
                }
                self.map.insert(i, (String::from_str(atom), n));
                proof {
                    let es2 = self.entries();
                    assert(es2 =~= es.insert(i as int, (atom@, n as int)));
                    assert(sorted(es2)) by {
                        assert forall|x: int, y: int| 0 <= x < y < es2.len() implies name_lt(
                            #[trigger] es2[x].0,
                            #[trigger] es2[y].0,
                        ) by {
                            if x < i && y > i {
                                lemma_name_lt_transitive(es[x].0, atom@, es[y - 1].0);
                            }
                        }
                    }
                    lemma_table(es2);
                    lemma_table_insert(es, es2, i as int);
                }
                true
            },
        }
    }

    /// Increases the count of an atom in one molecule, adding the atom where
    /// it is absent. The mole count does not scale `n`.
    pub fn increase_atom(&mut self, atom: &str, n: i64)
        requires
            old(self).wf(),
            in_i64(get_or_zero(old(self).counts(), atom@) + n),
            in_i64((get_or_zero(old(self).counts(), atom@) + n) * old(self).mole_count()),
        ensures
            final(self).wf(),
            final(self).mole_count() == old(self).mole_count(),
            final(self).counts() == old(self).counts().insert(
                atom@,
                get_or_zero(old(self).counts(), atom@) + n,
            ),
    {
        let ok = self.bump(atom, n);
        assert(ok);
    }

    /// Gets the count of an atom over all the moles.
    pub fn get_count(&self, atom: &str) -> (r: i64)
        requires
            self.wf(),
        ensures
            r == get_or_zero(self.counts(), atom@) * self.mole_count(),
    {
        let ghost es = self.entries();
        proof {
            lemma_table(es);
        }
        match self.find(atom) {
            Ok(i) => {
                let c = self.map[i].1;
                assert(self.counts().contains_key(atom@));
                assert(get_or_zero(self.counts(), atom@) == c);
                c * self.moles
            },
            Err(_) => {
                assert(!self.counts().contains_key(atom@)) by {
                    if has_name(es, atom@) {
                        let j = choose|j: int| 0 <= j < es.len() && es[j].0 == atom@;
                        lemma_name_lt_irreflexive(atom@);
                    }
                }
                0
            },
        }
    }

    /// Gets each atom of the molecule, in order of name, with its count over
    /// all the moles.
    pub fn get_map(&self) -> (r: Vec<(String, i64)>)
        requires
            self.wf(),
        ensures
            pairs_view(r@) == self.scaled(),
            sorted(pairs_view(r@)),
            forall|a: Seq<char>| #[trigger]
                table(pairs_view(r@)).contains_key(a) == self.counts().contains_key(a),
            forall|a: Seq<char>| #[trigger] get_or_zero(table(pairs_view(r@)), a) == get_or_zero(
                self.counts(),
                a,
            ) * self.mole_count(),
    {
        proof {
            self.lemma_scaled_in_i64();
        }
        let ghost es = self.entries();
        proof {
            lemma_table(es);
        }
        let mut out: Vec<(String, i64)> = Vec::new();
        let n = self.map.len();
        let mut i: usize = 0;
        while i < n
            invariant
                n == es.len(),
                es == self.entries(),
                self.wf(),
                i <= n,
                pairs_view(out@) =~= scale(es, self.moles as int).subrange(0, i as int),
                forall|k: int| 0 <= k < es.len() ==> #[trigger] table(es)[es[k].0] == es[k].1,
                forall|k: int| 0 <= k < es.len() ==> #[trigger] table(es).contains_key(es[k].0),
            decreases n - i,
        {
            assert(es[i as int] == (self.map@[i as int].0@, self.map@[i as int].1 as int));
            assert(self.counts().contains_key(es[i as int].0));
            let v = self.map[i].1 * self.moles;
            let ghost before = pairs_view(out@);
            out.push((self.map[i].0.clone(), v));
            proof {
                let sc = scale(es, self.moles as int);
                assert(pairs_view(out@) =~= before.push((es[i as int].0, es[i as int].1 * self.moles)));
                assert(sc.subrange(0, i + 1) =~= sc.subrange(0, i as int).push(sc[i as int]));
            }
            i = i + 1;
        }
        out
    }

    /// Reduces a syntax tree to a molecule: a `Mole` root gives the mole
    /// count, and every atom counts the product of the multipliers around it.
    /// The work runs off a queue rather than the call stack, so that deep
    /// nesting needs no deep recursion.
    pub fn construct_from_tree(root: SyntaxNode) -> (r: Result<Self, StoikError>)
        ensures
            reduced(root.tree(), r),
    {
        let ghost t = root.tree();
        let mut new = Molecule { moles: 1, map: Vec::new() };
        let start = match root {
            SyntaxNode::Mole { node, mul } => {
                new.moles = mul;
                *node
            },
            SyntaxNode::Empty => {
                return Err(StoikError::EmptyMolecule);
            },
            other => other,
        };
        let ghost b = start.tree();
        let ghost w = weight(b, 1);
        let mut stack: VecDeque<MoleculeStackItem> = VecDeque::new();
        stack.push_back(MoleculeStackItem::new(start, 1));
        let ghost mut spent: int = 0;
        proof {
            assert(b == body(t));
            assert(t != Tree::Empty);
            assert(new.counts() =~= Map::<Seq<char>, int>::empty());
            let x = item_tree(stack@[0]);
            lemma_single(x);
            assert(queue_trees(stack@) =~= seq![x]);
            assert(stack@.drop_last() =~= Seq::<MoleculeStackItem>::empty());
            assert(stack@.last().node.tree() == b);
            assert(queue_weight(stack@) == queue_weight(stack@.drop_last()) + weight(b, abs(1)));
            assert forall|a: Seq<char>| #[trigger]
                count_in(b, a) == get_or_zero(new.counts(), a) + count_in_seq(
                    queue_trees(stack@),
                    a,
                ) by {
                assert(count_in(x, a) == 1 * count_in(b, a));
            }
            assert(atoms_in(b) =~= new.counts().dom().union(atoms_in_seq(queue_trees(stack@))));
        }
        let ghost mut fuel: nat = size(b);
        proof {
            assert(queue_view(stack@) =~= seq![(b, 1int)]);
            assert(queue_size(stack@) == queue_size(stack@.drop_last()) + size(b));
        }
        while stack.len() > 0
            invariant
                sorted(new.entries()),
                new.mole_count() == moles_of(t),
                t == root.tree(),
                t != Tree::Empty,
                b == body(t),
                w == weight(b, 1),
                forall|a: Seq<char>| #[trigger]
                    count_in(b, a) == get_or_zero(new.counts(), a) + count_in_seq(
                        queue_trees(stack@),
                        a,
                    ),
                atoms_in(b) == new.counts().dom().union(atoms_in_seq(queue_trees(stack@))),
                has_mole(b) == has_mole_seq(queue_trees(stack@)),
                0 <= spent,
                spent + queue_weight(stack@) <= w,
                forall|a: Seq<char>| #[trigger]
                    new.counts().contains_key(a) ==> abs(new.counts()[a]) <= spent,
                queue_size(stack@) <= fuel,
                walk(queue_view(stack@), new.counts(), fuel) == reduction(t),
            decreases queue_size(stack@),
        {
            let ghost q0 = stack@;
            let item = stack.pop_front().unwrap();
            let ghost rest = stack@;
            let ghost x = item_tree(item);
            let ghost rt = queue_trees(rest);
            let ghost c0 = new.counts();
            proof {
                assert(q0 =~= seq![item] + rest);
                lemma_queue_concat(seq![item], rest);
                assert(seq![item].drop_last() =~= Seq::<MoleculeStackItem>::empty());
                assert(queue_trees(seq![item]) =~= seq![x]);
                lemma_single(x);
                lemma_concat(seq![x], rt);
                lemma_queue_weight_nonneg(rest);
                lemma_weight_lower(item.node.tree(), abs(item.mul as int));
                assert(queue_weight(seq![item]) == queue_weight(Seq::<MoleculeStackItem>::empty())
                    + weight(item.node.tree(), abs(item.mul as int)));
                assert(queue_size(seq![item]) == queue_size(Seq::<MoleculeStackItem>::empty()) + size(
                    item.node.tree(),
                ));
            }
            let ghost tt = item.node.tree();
            let ghost m0 = item.mul as int;
            let ghost f0 = fuel;
            proof {
                assert(size(tt) >= 1);
                assert(queue_view(q0) =~= seq![(tt, m0)] + queue_view(rest));
                assert(queue_view(q0).drop_first() =~= queue_view(rest));
                assert(queue_view(q0)[0] == (tt, m0));
                assert(f0 > 0);
            }
            let MoleculeStackItem { node, mul } = item;
            match node {
                SyntaxNode::Subcompound(nodes) => {
                    let ghost ns = nodes@;
                    for child in it: nodes
                        invariant
                            it.seq() == ns,
                            stack@ == rest + children(ns.subrange(0, it.index() as int), mul),
                    {
                        let ghost before = stack@;
                        stack.push_back(MoleculeStackItem::new(child, mul));
                        proof {
                            assert(children(ns.subrange(0, it.index() + 1), mul) =~= children(
                                ns.subrange(0, it.index() as int),
                                mul,
                            ).push(MoleculeStackItem { node: child, mul }));
                        }
                    }
                    proof {
                        assert(ns.subrange(0, ns.len() as int) =~= ns);
                        let ch = children(ns, mul);
                        lemma_children(ns, mul);
                        lemma_queue_concat(rest, ch);
                        lemma_concat(rt, queue_trees(ch));
                        assert(x == Tree::Mul(Box::new(Tree::Sub(trees(ns))), mul as int));
                        assert forall|a: Seq<char>| #[trigger]
                            count_in(b, a) == get_or_zero(new.counts(), a) + count_in_seq(
                                queue_trees(stack@),
                                a,
                            ) by {
                            assert(count_in(Tree::Sub(trees(ns)), a) == count_in_seq(trees(ns), a));
                            assert(count_in(x, a) == mul * count_in_seq(trees(ns), a));
                        }
                        assert(atoms_in(Tree::Sub(trees(ns))) == atoms_in_seq(trees(ns)));
                        assert(atoms_in(x) == atoms_in_seq(trees(ns)));
                        assert(has_mole(Tree::Sub(trees(ns))) == has_mole_seq(trees(ns)));
                        assert(has_mole(x) == has_mole_seq(trees(ns)));
                        assert(new.counts().dom().union(atoms_in_seq(queue_trees(stack@))) =~= c0.dom().union(
                            atoms_in_seq(seq![x] + rt),
                        ));
                        lemma_weight_seq_lower(trees(ns), abs(mul as int));
                        assert(weight(Tree::Sub(trees(ns)), abs(mul as int)) == abs(mul as int)
                            + weight_seq(trees(ns), abs(mul as int)));
                        assert(size(Tree::Sub(trees(ns))) == 1 + size_seq(trees(ns)));
                        lemma_trees(ns);
                        assert(tt == Tree::Sub(trees(ns)));
                        assert(queue_view(stack@) =~= queue_view(rest) + with_mul(trees(ns), m0));
                        assert(walk(queue_view(q0), c0, f0) == walk(
                            queue_view(rest) + with_mul(trees(ns), m0),
                            c0,
                            (f0 - 1) as nat,
                        ));
                        fuel = (f0 - 1) as nat;
                    }
                },
                SyntaxNode::Multiplier { node: inner, mul: k } => {
                    proof {
                        lemma_i64_product(k, mul);
                    }
                    let p = (k as i128) * (mul as i128);
                    let ghost it = inner.tree();
                    proof {
                        lemma_abs_mul(k as int, mul as int);
                        lemma_weight_lower(it, abs(k as int) * abs(mul as int));
                    }
                    proof {
                        assert(item.node.tree() == Tree::Mul(Box::new(it), k as int));
                        assert(weight(item.node.tree(), abs(mul as int)) == abs(mul as int) + weight(
                            it,
                            abs(k as int) * abs(mul as int),
                        ));
                        assert(queue_weight(seq![item]) == queue_weight(
                            Seq::<MoleculeStackItem>::empty(),
                        ) + weight(item.node.tree(), abs(mul as int)));
                    }
                    if p < i64::MIN as i128 || p > i64::MAX as i128 {
                        proof {
                            assert(tt == Tree::Mul(Box::new(it), k as int));
                            assert(!in_i64(k * m0));
                            assert(walk(queue_view(q0), c0, f0) == Walk::Overflow);
                            assert(abs(p as int) > i64::MAX);
                            assert(w > i64::MAX);
                            assert(!fits(t));
                        }
                        return Err(overflow());
                    }
                    stack.push_front(MoleculeStackItem::new(*inner, p as i64));
                    proof {
                        let y = Tree::Mul(Box::new(it), p as int);
                        assert(stack@ =~= seq![MoleculeStackItem { node: *inner, mul: p as i64 }] + rest);
                        let one = seq![MoleculeStackItem { node: *inner, mul: p as i64 }];
                        lemma_queue_concat(one, rest);
                        assert(one.drop_last() =~= Seq::<MoleculeStackItem>::empty());
                        assert(queue_trees(one) =~= seq![y]);
                        lemma_single(y);
                        lemma_concat(seq![y], rt);
                        assert forall|a: Seq<char>| #[trigger]
                            count_in(b, a) == get_or_zero(new.counts(), a) + count_in_seq(
                                queue_trees(stack@),
                                a,
                            ) by {
                            let v = count_in(it, a);
                            assert(count_in(Tree::Mul(Box::new(it), k as int), a) == k * v);
                            assert(count_in(x, a) == mul * (k * v));
                            assert(count_in(y, a) == p * v);
                            assert(mul * (k * v) == (k * mul) * v) by (nonlinear_arith);
                            assert(count_in_seq(seq![y] + rt, a) == count_in(y, a) + count_in_seq(rt, a));
                            assert(count_in_seq(seq![x] + rt, a) == count_in(x, a) + count_in_seq(rt, a));
                        }
                        assert(atoms_in(item.node.tree()) == atoms_in(it));
                        assert(has_mole(item.node.tree()) == has_mole(it));
                        assert(atoms_in(x) == atoms_in(it));
                        assert(atoms_in(y) == atoms_in(it));
                        assert(has_mole(x) == has_mole(it));
                        assert(has_mole(y) == has_mole(it));
                        assert(new.counts().dom().union(atoms_in_seq(queue_trees(stack@))) =~= c0.dom().union(
                            atoms_in_seq(seq![x] + rt),
                        ));
                        assert(tt == Tree::Mul(Box::new(it), k as int));
                        assert(queue_view(stack@) =~= seq![(it, p as int)] + queue_view(rest));
                        assert(walk(queue_view(q0), c0, f0) == walk(
                            seq![(it, k * m0)] + queue_view(rest),
                            c0,
                            (f0 - 1) as nat,
                        ));
                        fuel = (f0 - 1) as nat;
                    }
                },
                SyntaxNode::Atom(name) => {
                    let ok = new.bump(name.as_str(), mul);
                    if !ok {
                        proof {
                            let g = get_or_zero(c0, name@);
                            assert(abs(g) <= spent);
                            assert(item.node.tree() == Tree::Atom(name@));
                            assert(queue_weight(seq![item]) == queue_weight(
                                Seq::<MoleculeStackItem>::empty(),
                            ) + weight(item.node.tree(), abs(mul as int)));
                            assert(w > i64::MAX);
                            assert(tt == Tree::Atom(name@));
                            assert(walk(queue_view(q0), c0, f0) == Walk::Overflow);
                        }
                        return Err(overflow());
                    }
                    proof {
                        assert(tt == Tree::Atom(name@));
                        assert(queue_view(stack@) == queue_view(rest));
                        assert(walk(queue_view(q0), c0, f0) == walk(
                            queue_view(rest),
                            c0.insert(name@, get_or_zero(c0, name@) + m0),
                            (f0 - 1) as nat,
                        ));
                        fuel = (f0 - 1) as nat;
                        let g = get_or_zero(c0, name@);
                        assert(abs(g + mul) <= spent + abs(mul as int));
                        spent = spent + abs(mul as int);
                        assert forall|a: Seq<char>| #[trigger]
                            count_in(b, a) == get_or_zero(new.counts(), a) + count_in_seq(
                                queue_trees(stack@),
                                a,
                            ) by {
                            assert(item.node.tree() == Tree::Atom(name@));
                            assert(count_in(Tree::Atom(name@), a) == (if name@ == a { 1int } else { 0int }));
                            assert(count_in(x, a) == mul * (if name@ == a { 1int } else { 0int }));
                        }
                        assert(item.node.tree() == Tree::Atom(name@));
                        assert(atoms_in(Tree::Atom(name@)) == set![name@]);
                        assert(atoms_in(x) =~= set![name@]);
                        assert(!has_mole(Tree::Atom(name@)));
                        assert(!has_mole(x));
                        assert(new.counts().dom() =~= c0.dom().insert(name@));
                        assert(new.counts().dom().union(atoms_in_seq(queue_trees(stack@))) =~= c0.dom().union(
                            atoms_in_seq(seq![x] + rt),
                        ));
                        assert forall|a: Seq<char>| #[trigger]
                            new.counts().contains_key(a) implies abs(new.counts()[a]) <= spent by {
                            if a != name@ {
                                assert(c0.contains_key(a));
                            }
                        }
                    }
                },
                SyntaxNode::Empty => {
                    proof {
                        assert forall|a: Seq<char>| #[trigger]
                            count_in(b, a) == get_or_zero(new.counts(), a) + count_in_seq(
                                queue_trees(stack@),
                                a,
                            ) by {
                            assert(item.node.tree() == Tree::Empty);
                            assert(count_in(Tree::Empty, a) == 0);
                            assert(count_in(x, a) == mul * 0);
                        }
                        assert(atoms_in(Tree::Empty) == Set::<Seq<char>>::empty());
                        assert(atoms_in(x) =~= Set::<Seq<char>>::empty());
                        assert(!has_mole(Tree::Empty));
                        assert(!has_mole(x));
                        assert(new.counts().dom().union(atoms_in_seq(queue_trees(stack@))) =~= c0.dom().union(
                            atoms_in_seq(seq![x] + rt),
                        ));
                        assert(tt == Tree::Empty);
                        assert(queue_view(stack@) == queue_view(rest));
                        assert(walk(queue_view(q0), c0, f0) == walk(queue_view(rest), c0, (f0 - 1) as nat));
                        fuel = (f0 - 1) as nat;
                    }
                },
                SyntaxNode::Mole { node: inner, mul: k } => {
                    proof {
                        assert(item.node.tree() == Tree::Mole(Box::new(inner.tree()), k as int));
                        assert(has_mole(item.node.tree()));
                        assert(has_mole(x));
                        assert(walk(queue_view(q0), c0, f0) == Walk::Stopped(tt, c0));
                        assert(SyntaxNode::Mole { node: inner, mul: k }.tree() == tt);
                    }
                    return Err(StoikError::InvalidNode(SyntaxNode::Mole { node: inner, mul: k }, new));
                },
            }
        }
        let ghost es = new.entries();
        let n = new.map.len();
        let mut i: usize = 0;
        proof {
            lemma_table(es);
            lemma_queue_weight_nonneg(stack@);
            assert(queue_view(stack@) =~= Seq::<(Tree, int)>::empty());
            assert(reduction(t) == Walk::Done(new.counts()));
        }
        while i < n
            invariant
                n == es.len(),
                es == new.entries(),
                sorted(es),
                i <= n,
                new.mole_count() == moles_of(t),
                t == root.tree(),
                b == body(t),
                w == weight(b, 1),
                t != Tree::Empty,
                0 <= spent <= w,
                forall|a: Seq<char>| #[trigger]
                    new.counts().contains_key(a) ==> abs(new.counts()[a]) <= spent,
                forall|j: int| 0 <= j < i ==> #[trigger] in_i64(es[j].1 * new.moles),
                reduction(t) == Walk::Done(new.counts()),
            decreases n - i,
        {
            let v = new.map[i].1;
            proof {
                lemma_i64_product(v, new.moles);
            }
            let scaled = (v as i128) * (new.moles as i128);
            assert(es[i as int].1 == v);
            if scaled < i64::MIN as i128 || scaled > i64::MAX as i128 {
                proof {
                    lemma_table(es);
                    assert(new.counts().contains_key(es[i as int].0));
                    assert(abs(v as int) <= w);
                    let mm = abs(new.moles as int);
                    lemma_abs_mul(v as int, new.moles as int);
                    assert(abs(v as int) * mm <= w * mm) by (nonlinear_arith)
                        requires
                            abs(v as int) <= w,
                            mm >= 0,
                    ;
                    assert(abs(scaled as int) > i64::MAX);
                    assert(mm == abs(moles_of(t)));
                    assert(w * abs(moles_of(t)) > i64::MAX);
                    assert(new.counts()[es[i as int].0] == v);
                    assert(!in_i64(new.counts()[es[i as int].0] * moles_of(t)));
                    assert(!scaled_fit(new.counts(), moles_of(t)));
                }
                return Err(overflow());
            }
            i = i + 1;
        }
        proof {
            assert(queue_trees(stack@) =~= Seq::<Tree>::empty());
            assert(atoms_in(b) =~= new.counts().dom());
            assert(new.counts() =~= tree_counts(b));
            assert forall|a: Seq<char>| #[trigger]
                new.counts().contains_key(a) implies in_i64(new.counts()[a] * new.moles) by {
                let j = choose|j: int| 0 <= j < es.len() && es[j].0 == a;
                assert(in_i64(es[j].1 * new.moles));
            }
            assert(scaled_fit(new.counts(), moles_of(t)));
        }
        Ok(new)
    }
}

proof fn lemma_i64_product(x: i64, y: i64)
    ensures
        i128::MIN <= x * y <= i128::MAX,
{
    assert(-0x4000_0000_0000_0000_0000_0000_0000_0000 <= x * y <= 0x4000_0000_0000_0000_0000_0000_0000_0000)
        by (nonlinear_arith)
        requires
            -0x8000_0000_0000_0000 <= x <= 0x7fff_ffff_ffff_ffff,
            -0x8000_0000_0000_0000 <= y <= 0x7fff_ffff_ffff_ffff,
    ;
}

/// Each name of `es` in order, followed by its count unless that is 1.
pub open spec fn entries_text(es: Entries) -> Seq<char>
    decreases es.len(),
{
    if es.len() == 0 {
        Seq::empty()
    } else {
        entries_text(es.drop_last()) + es.last().0 + if es.last().1 == 1 {
            Seq::empty()
        } else {
            int_text(es.last().1)
        }
    }
}

/// The text of a molecule: its mole count and a space unless that is 1, then
/// its atoms.
pub open spec fn molecule_text(moles: int, es: Entries) -> Seq<char> {
    if moles != 1 {
        int_text(moles) + seq![' '] + entries_text(es)
    } else {
        entries_text(es)
    }
}

impl Molecule {
    /// The molecule as text, e.g. `2 H2O` for two waters.
    pub fn to_string(&self) -> (r: String)
        ensures
            r@ == molecule_text(self.mole_count(), self.entries()),
    {
        let mut out = String::new();
        if self.moles != 1 {
            proof {
                reveal_strlit(" ");
            }
            out = int_to_text(self.moles);
            out.append(" ");
        }
        let ghost head = out@;
        let ghost es = self.entries();
        let n = self.map.len();
        let mut i: usize = 0;
        while i < n
            invariant
                n == es.len(),
                es == self.entries(),
                i <= n,
                out@ == head + entries_text(es.subrange(0, i as int)),
            decreases n - i,
        {
            let ghost before = out@;
            out.append(self.map[i].0.as_str());
            if self.map[i].1 != 1 {
                out.append(int_to_text(self.map[i].1).as_str());
            }
            proof {
                let sub = es.subrange(0, i + 1);
                assert(sub.drop_last() =~= es.subrange(0, i as int));
                assert(sub.last() == es[i as int]);
                assert(out@ =~= head + entries_text(sub));
            }
            i = i + 1;
        }
        proof {
            assert(es.subrange(0, n as int) =~= es);
            assert(entries_text(Seq::<(Seq<char>, int)>::empty()) == Seq::<char>::empty());
            assert(head =~= if self.moles != 1 {
                int_text(self.moles as int) + seq![' ']
            } else {
                Seq::<char>::empty()
            });
        }
        out
    }
}

/// What reading the formula `f` returns: the first error of assembly, or the
/// outcome of reducing its tree.
pub open spec fn parsed(f: Seq<char>, r: Result<Molecule, StoikError>) -> bool {
    match assemble(lex(f)) {
        Ok(t) => reduced(t, r),
        Err(fault) => r matches Err(e) && e@ == fault,
    }
}

impl Molecule {
    /// Tokenises, assembles and reduces a formula in one call.
    pub fn from_formula(formula: &str) -> (r: Result<Self, StoikError>)
        ensures
            parsed(formula@, r),
    {
        match assemble_tree(tokenize(formula)) {
            Ok(tree) => Self::construct_from_tree(tree),
            Err(e) => Err(e),
        }
    }
}

impl PartialEq for Molecule {
    fn eq(&self, other: &Self) -> (r: bool) {
        if self.moles != other.moles || self.map.len() != other.map.len() {
            proof {
                assert(self.entries().len() == self.map.len());
                assert(other.entries().len() == other.map.len());
            }
            return false;
        }
        let n = self.map.len();
        let mut i: usize = 0;
        while i < n
            invariant
                n == self.map.len(),
                n == other.map.len(),
                self.moles == other.moles,
                i <= n,
                self.entries().subrange(0, i as int) == other.entries().subrange(0, i as int),
            decreases n - i,
        {
            if self.map[i].0 != other.map[i].0 || self.map[i].1 != other.map[i].1 {
                proof {
                    if self.entries() == other.entries() {
                        assert(self.entries()[i as int] == other.entries()[i as int]);
                    }
                }
                return false;
            }
            proof {
                assert(self.entries().subrange(0, i + 1) =~= self.entries().subrange(0, i as int).push(
                    self.entries()[i as int],
                ));
                assert(other.entries().subrange(0, i + 1) =~= other.entries().subrange(
                    0,
                    i as int,
                ).push(other.entries()[i as int]));
            }
            i = i + 1;
        }
        proof {
            assert(self.entries() =~= self.entries().subrange(0, n as int));
            assert(other.entries() =~= other.entries().subrange(0, n as int));
        }
        true
    }
}

impl vstd::std_specs::cmp::PartialEqSpecImpl for Molecule {
    open spec fn obeys_eq_spec() -> bool {
        true
    }

    open spec fn eq_spec(&self, o: &Molecule) -> bool {
        self.mole_count() == o.mole_count() && self.entries() == o.entries()
    }
}

impl Eq for Molecule {

}

/// For every well-formed molecule and every atom name, what `get_count`
/// returns is the atom's entry in what `get_map` returns, or zero where that
/// holds no entry for it.
pub proof fn lemma_count_matches_map(m: Molecule, a: Seq<char>)
    requires
        m.wf(),
    ensures
        m.count_of(a) == get_or_zero(table(m.scaled()), a),
        table(m.scaled()).contains_key(a) == m.counts().contains_key(a),
{
    let es = m.entries();
    let sc = m.scaled();
    m.lemma_scaled_sorted();
    lemma_table(es);
    lemma_table(sc);
    if m.counts().contains_key(a) {
        let i = choose|i: int| 0 <= i < es.len() && es[i].0 == a;
        assert(sc[i] == (a, es[i].1 * m.moles));
        assert(table(sc).contains_key(sc[i].0));
        assert(table(sc)[sc[i].0] == sc[i].1);
        assert(table(es)[es[i].0] == es[i].1);
        assert(m.count_of(a) == es[i].1 * m.moles);
    } else {
        assert(m.count_of(a) == 0 * m.moles);
        if table(sc).contains_key(a) {
            let i = choose|i: int| 0 <= i < sc.len() && sc[i].0 == a;
            assert(es[i].0 == a);
            assert(m.counts().contains_key(es[i].0));
        }
    }
}

fn overflow() -> (e: StoikError)
    ensures
        e@ == Fault::InvalidInput,
{
    StoikError::InvalidInput(String::from_str("an atom count does not fit in 64 bits"))
}

pub proof fn lemma_table_update(es: Entries, es2: Entries, i: int)
    requires
        sorted(es),
        sorted(es2),
        0 <= i < es.len(),
        es2.len() == es.len(),
        forall|j: int| 0 <= j < es.len() && j != i ==> es2[j] == es[j],
        es2[i].0 == es[i].0,
    ensures
        table(es2) == table(es).insert(es[i].0, es2[i].1),
{
    lemma_table(es);
    lemma_table(es2);
    assert forall|a: Seq<char>| has_name(es2, a) <==> has_name(es, a) by {
        if has_name(es2, a) {
            let j = choose|j: int| 0 <= j < es2.len() && es2[j].0 == a;
            assert(es[j].0 == a);
        }
        if has_name(es, a) {
            let j = choose|j: int| 0 <= j < es.len() && es[j].0 == a;
            assert(es2[j].0 == a);
        }
    }
    assert forall|a: Seq<char>| #[trigger] table(es2).contains_key(a) implies table(es2)[a] == table(
        es,
    ).insert(es[i].0, es2[i].1)[a] by {
        let j = choose|j: int| 0 <= j < es2.len() && es2[j].0 == a;
        assert(table(es2)[es2[j].0] == es2[j].1);
        if j != i {
            assert(table(es)[es[j].0] == es[j].1);
            if a == es[i].0 {
                lemma_name_lt_irreflexive(a);
            }
        }
    }
    assert(table(es2) =~= table(es).insert(es[i].0, es2[i].1));
}

pub proof fn lemma_table_insert(es: Entries, es2: Entries, i: int)
    requires
        sorted(es),
        sorted(es2),
        0 <= i <= es.len(),
        es2 == es.insert(i, es2[i]),
    ensures
        table(es2) == table(es).insert(es2[i].0, es2[i].1),
{
    lemma_table(es);
    lemma_table(es2);
    let a0 = es2[i].0;
    assert forall|a: Seq<char>| has_name(es2, a) <==> (has_name(es, a) || a == a0) by {
        if has_name(es2, a) {
            let j = choose|j: int| 0 <= j < es2.len() && es2[j].0 == a;
            if j < i {
                assert(es[j].0 == a);
            } else if j > i {
                assert(es[j - 1].0 == a);
            }
        }
        if has_name(es, a) {
            let j = choose|j: int| 0 <= j < es.len() && es[j].0 == a;
            if j < i {
                assert(es2[j].0 == a);
            } else {
                assert(es2[j + 1].0 == a);
            }
        }
        if a == a0 {
            assert(es2[i].0 == a);
        }
    }
    assert forall|a: Seq<char>| #[trigger] table(es2).contains_key(a) implies table(es2)[a] == table(
        es,
    ).insert(a0, es2[i].1)[a] by {
        let j = choose|j: int| 0 <= j < es2.len() && es2[j].0 == a;
        assert(table(es2)[es2[j].0] == es2[j].1);
        if j != i {
            let k = if j < i { j } else { j - 1 };
            assert(es[k] == es2[j]);
            assert(table(es)[es[k].0] == es[k].1);
            if a == a0 {
                lemma_name_lt_irreflexive(a);
            }
        }
    }
    assert(table(es2) =~= table(es).insert(a0, es2[i].1));
}

} // verus!
