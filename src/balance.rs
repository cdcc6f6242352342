//! Whether a chemical equation is balanced: the atom totals of the reactants
//! against those of the products.
use vstd::prelude::*;

use core::cmp::Ordering;

use crate::formula::molecule::{
    get_or_zero, in_i64, lemma_table, lemma_table_insert, lemma_table_update, pairs_view, sorted, table,
    Entries,
};
use crate::formula::Molecule;
use crate::names::{compare_names, lemma_name_lt_irreflexive, lemma_name_lt_transitive, name_lt};

verus! {

/// One atom of an equation: its total on each side and whether they agree.
#[derive(Debug)]
pub struct AtomBalance {
    pub atom: String,
    pub reactants: i128,
    pub products: i128,
    pub balanced: bool,
}

pub open spec fn react_view(rows: Seq<AtomBalance>) -> Entries {
    rows.map_values(|r: AtomBalance| (r.atom@, r.reactants as int))
}

pub open spec fn prod_view(rows: Seq<AtomBalance>) -> Entries {
    rows.map_values(|r: AtomBalance| (r.atom@, r.products as int))
}

/// The total of each atom over all the moles of `m`.
pub open spec fn mol_table(m: Molecule) -> Map<Seq<char>, int> {
    table(m.scaled())
}

/// The total of atom `a` over all the molecules of one side.
pub open spec fn side_total(ms: Seq<Molecule>, a: Seq<char>) -> int
    decreases ms.len(),
{
    if ms.len() == 0 {
        0
    } else {
        side_total(ms.drop_last(), a) + get_or_zero(mol_table(ms.last()), a)
    }
}

/// The atoms that occur on one side.
pub open spec fn side_atoms(ms: Seq<Molecule>) -> Set<Seq<char>>
    decreases ms.len(),
{
    if ms.len() == 0 {
        Set::empty()
    } else {
        side_atoms(ms.drop_last()).union(mol_table(ms.last()).dom())
    }
}

pub open spec fn in_i128(x: int) -> bool {
    i128::MIN <= x <= i128::MAX
}

/// What [`balance`] returns for these two sides: one row per atom of either
/// side, in order of name, with both totals and whether they agree.
pub open spec fn balance_rows(
    rows: Seq<AtomBalance>,
    reactants: Seq<Molecule>,
    products: Seq<Molecule>,
) -> bool {
    &&& sorted(react_view(rows))
    &&& forall|a: Seq<char>| #[trigger]
        table(react_view(rows)).contains_key(a) <==> side_atoms(reactants).union(
            side_atoms(products),
        ).contains(a)
    &&& forall|i: int|
        0 <= i < rows.len() ==> {
            &&& #[trigger] rows[i].reactants == side_total(reactants, rows[i].atom@)
            &&& rows[i].products == side_total(products, rows[i].atom@)
            &&& rows[i].balanced == (rows[i].reactants == rows[i].products)
        }
}

pub proof fn lemma_side_total_bound(ms: Seq<Molecule>, a: Seq<char>)
    requires
        forall|k: int| 0 <= k < ms.len() ==> #[trigger] ms[k].wf(),
    ensures
        -0x8000_0000_0000_0000 * ms.len() <= side_total(ms, a) <= 0x8000_0000_0000_0000
            * ms.len(),
    decreases ms.len(),
{
    if ms.len() > 0 {
        let init = ms.drop_last();
        assert forall|k: int| 0 <= k < init.len() implies #[trigger] init[k].wf() by {
            assert(init[k] == ms[k]);
        }
        lemma_side_total_bound(init, a);
        let m = ms.last();
        assert(ms[ms.len() - 1].wf());
        m.lemma_scaled_in_i64();
        lemma_table(m.scaled());
        if mol_table(m).contains_key(a) {
            let j = choose|j: int| 0 <= j < m.scaled().len() && m.scaled()[j].0 == a;
            assert(mol_table(m)[a] == m.scaled()[j].1);
            assert(in_i64(m.scaled()[j].1));
        }
        assert(side_total(ms, a) == side_total(init, a) + get_or_zero(mol_table(m), a));
    }
}

fn find_row(rows: &Vec<AtomBalance>, atom: &str) -> (r: Result<usize, usize>)
    requires
        sorted(react_view(rows@)),
    ensures
        r matches Ok(i) ==> i < rows.len() && rows@[i as int].atom@ == atom@,
        r matches Err(i) ==> {
            &&& i <= rows.len()
            &&& forall|j: int| 0 <= j < i ==> name_lt(#[trigger] rows@[j].atom@, atom@)
            &&& forall|j: int| i <= j < rows.len() ==> name_lt(atom@, #[trigger] rows@[j].atom@)
        },
{
    let ghost es = react_view(rows@);
    let n = rows.len();
    let mut i: usize = 0;
    while i < n
        invariant
            n == rows.len(),
            es == react_view(rows@),
            sorted(es),
            i <= n,
            forall|j: int| 0 <= j < i ==> name_lt(#[trigger] rows@[j].atom@, atom@),
        decreases n - i,
    {
        match compare_names(rows[i].atom.as_str(), atom) {
            Ordering::Less => {},
            Ordering::Equal => {
                return Ok(i);
            },
            Ordering::Greater => {
                assert forall|j: int| i <= j < rows.len() implies name_lt(
                    atom@,
                    #[trigger] rows@[j].atom@,
                ) by {
                    if j > i {
                        assert(es[i as int].0 == rows@[i as int].atom@);
                        assert(es[j].0 == rows@[j].atom@);
                        lemma_name_lt_transitive(atom@, rows@[i as int].atom@, rows@[j].atom@);
                    }
                }
                return Err(i);
            },
        }
        proof {
            assert(es[i as int].0 == rows@[i as int].atom@);
        }
        i = i + 1;
    }
    Err(i)
}

/// Adds `v` to the total of `atom` on one side, adding a row with zero
/// totals first where the atom has none.
fn tally(rows: &mut Vec<AtomBalance>, atom: &str, v: i64, product_side: bool)
    requires
        sorted(react_view(old(rows)@)),
        in_i128(
            get_or_zero(
                table(
                    if product_side {
                        prod_view(old(rows)@)
                    } else {
                        react_view(old(rows)@)
                    },
                ),
                atom@,
            ) + v,
        ),
    ensures
        sorted(react_view(final(rows)@)),
        ({
            let (s0, s1) = if product_side {
                (prod_view(old(rows)@), prod_view(final(rows)@))
            } else {
                (react_view(old(rows)@), react_view(final(rows)@))
            };
            let (o0, o1) = if product_side {
                (react_view(old(rows)@), react_view(final(rows)@))
            } else {
                (prod_view(old(rows)@), prod_view(final(rows)@))
            };
            &&& table(s1) == table(s0).insert(atom@, get_or_zero(table(s0), atom@) + v)
            &&& table(o1) == table(o0).insert(atom@, get_or_zero(table(o0), atom@))
        }),
{
    let ghost r0 = react_view(rows@);
    let ghost ps0 = prod_view(rows@);
    proof {
        assert(sorted(ps0)) by {
            assert forall|x: int, y: int| 0 <= x < y < ps0.len() implies name_lt(
                #[trigger] ps0[x].0,
                #[trigger] ps0[y].0,
            ) by {
                assert(ps0[x].0 == r0[x].0 && ps0[y].0 == r0[y].0);
            }
        }
        lemma_table(r0);
        lemma_table(ps0);
    }
    match find_row(rows, atom) {
        Ok(i) => {
            proof {
                assert(r0[i as int].0 == atom@ && ps0[i as int].0 == atom@);
            }
            let atom_name = rows[i].atom.clone();
            let reactants = rows[i].reactants;
            let products = rows[i].products;
            let row = if product_side {
                AtomBalance { atom: atom_name, reactants, products: products + v as i128, balanced: false }
            } else {
                AtomBalance { atom: atom_name, reactants: reactants + v as i128, products, balanced: false }
            };
            rows.set(i, row);
            proof {
                let r1 = react_view(rows@);
                let ps1 = prod_view(rows@);
                assert(r1 =~= r0.update(i as int, r1[i as int]));
                assert(ps1 =~= ps0.update(i as int, ps1[i as int]));
                assert(sorted(r1)) by {
                    assert forall|x: int, y: int| 0 <= x < y < r1.len() implies name_lt(
                        #[trigger] r1[x].0,
                        #[trigger] r1[y].0,
                    ) by {
                        assert(r1[x].0 == r0[x].0 && r1[y].0 == r0[y].0);
                    }
                }
                assert(sorted(ps1)) by {
                    assert forall|x: int, y: int| 0 <= x < y < ps1.len() implies name_lt(
                        #[trigger] ps1[x].0,
                        #[trigger] ps1[y].0,
                    ) by {
                        assert(ps1[x].0 == r0[x].0 && ps1[y].0 == r0[y].0);
                    }
                }
                lemma_table_update(r0, r1, i as int);
                lemma_table_update(ps0, ps1, i as int);
                assert(table(r0).insert(atom@, table(r0)[atom@]) =~= table(r0));
                assert(table(ps0).insert(atom@, table(ps0)[atom@]) =~= table(ps0));
            }
        },
        Err(i) => {
            proof {
                assert(!table(r0).contains_key(atom@) && !table(ps0).contains_key(atom@)) by {
                    if exists|j: int| 0 <= j < r0.len() && r0[j].0 == atom@ {
                        let j = choose|j: int| 0 <= j < r0.len() && r0[j].0 == atom@;
                        assert(rows@[j].atom@ == atom@);
                        lemma_name_lt_irreflexive(atom@);
                    }
                    if exists|j: int| 0 <= j < ps0.len() && ps0[j].0 == atom@ {
                        let j = choose|j: int| 0 <= j < ps0.len() && ps0[j].0 == atom@;
                        assert(rows@[j].atom@ == atom@);
                        lemma_name_lt_irreflexive(atom@);
                    }
                }
            }
            let row = if product_side {
                AtomBalance { atom: String::from_str(atom), reactants: 0, products: v as i128, balanced: false }
            } else {
                AtomBalance { atom: String::from_str(atom), reactants: v as i128, products: 0, balanced: false }
            };
            rows.insert(i, row);
            proof {
                let r1 = react_view(rows@);
                let ps1 = prod_view(rows@);
                assert(r1 =~= r0.insert(i as int, r1[i as int]));
                assert(ps1 =~= ps0.insert(i as int, ps1[i as int]));
                assert forall|x: int, y: int| 0 <= x < y < r1.len() implies name_lt(
                    #[trigger] r1[x].0,
                    #[trigger] r1[y].0,
                ) by {
                    if x < i && y > i {
                        lemma_name_lt_transitive(r0[x].0, atom@, r0[y - 1].0);
                    }
                    if x < i && y == i {
                        assert(r0[x].0 == rows@[x].atom@);
                    }
                    if x == i && y > i {
                        assert(r0[y - 1].0 == old(rows)@[y - 1].atom@);
                    }
                }
                assert forall|x: int, y: int| 0 <= x < y < ps1.len() implies name_lt(
                    #[trigger] ps1[x].0,
                    #[trigger] ps1[y].0,
                ) by {
                    assert(ps1[x].0 == r1[x].0 && ps1[y].0 == r1[y].0);
                }
                lemma_table_insert(r0, r1, i as int);
                lemma_table_insert(ps0, ps1, i as int);
            }
        },
    }
}

/// Adds the atom totals of one molecule, as `get_map` gives them, to one side
/// of the rows.
pub fn extend_mol_map(rows: &mut Vec<AtomBalance>, mol: &Vec<(String, i64)>, product_side: bool)
    requires
        sorted(react_view(old(rows)@)),
        sorted(pairs_view(mol@)),
        forall|a: Seq<char>| #[trigger]
            table(pairs_view(mol@)).contains_key(a) ==> in_i128(
                get_or_zero(
                    table(
                        if product_side {
                            prod_view(old(rows)@)
                        } else {
                            react_view(old(rows)@)
                        },
                    ),
                    a,
                ) + table(pairs_view(mol@))[a],
            ),
    ensures
        sorted(react_view(final(rows)@)),
        forall|a: Seq<char>| #[trigger]
            table(react_view(final(rows)@)).contains_key(a) <==> (table(
                react_view(old(rows)@),
            ).contains_key(a) || table(pairs_view(mol@)).contains_key(a)),
        forall|a: Seq<char>| #[trigger]
            get_or_zero(table(react_view(final(rows)@)), a) == get_or_zero(
                table(react_view(old(rows)@)),
                a,
            ) + if product_side {
                0
            } else {
                get_or_zero(table(pairs_view(mol@)), a)
            },
        forall|a: Seq<char>| #[trigger]
            get_or_zero(table(prod_view(final(rows)@)), a) == get_or_zero(
                table(prod_view(old(rows)@)),
                a,
            ) + if product_side {
                get_or_zero(table(pairs_view(mol@)), a)
            } else {
                0
            },
{
    let ghost es = pairs_view(mol@);
    let ghost r0 = react_view(rows@);
    let ghost ps0 = prod_view(rows@);
    proof {
        lemma_table(es);
    }
    let n = mol.len();
    let mut j: usize = 0;
    while j < n
        invariant
            n == mol.len(),
            es == pairs_view(mol@),
            sorted(es),
            j <= n,
            sorted(react_view(rows@)),
            forall|k: int| 0 <= k < es.len() ==> #[trigger] table(es)[es[k].0] == es[k].1,
            forall|k: int| 0 <= k < es.len() ==> #[trigger] table(es).contains_key(es[k].0),
            forall|a: Seq<char>| #[trigger]
                table(es).contains_key(a) ==> in_i128(
                    get_or_zero(
                        table(
                            if product_side {
                                ps0
                            } else {
                                r0
                            },
                        ),
                        a,
                    ) + table(es)[a],
                ),
            forall|a: Seq<char>| #[trigger]
                table(react_view(rows@)).contains_key(a) <==> (table(r0).contains_key(a) || table(
                    es.subrange(0, j as int),
                ).contains_key(a)),
            forall|a: Seq<char>| #[trigger]
                get_or_zero(table(react_view(rows@)), a) == get_or_zero(table(r0), a)
                    + if product_side {
                    0
                } else {
                    get_or_zero(table(es.subrange(0, j as int)), a)
                },
            forall|a: Seq<char>| #[trigger]
                get_or_zero(table(prod_view(rows@)), a) == get_or_zero(table(ps0), a)
                    + if product_side {
                    get_or_zero(table(es.subrange(0, j as int)), a)
                } else {
                    0
                },
        decreases n - j,
    {
        let ghost pre = es.subrange(0, j as int);
        let ghost post = es.subrange(0, j + 1);
        let ghost a0 = es[j as int].0;
        proof {
            assert(sorted(pre));
            assert(sorted(post));
            assert(post =~= pre.insert(j as int, es[j as int]));
            lemma_table_insert(pre, post, j as int);
            lemma_table(pre);
            assert(!table(pre).contains_key(a0)) by {
                if table(pre).contains_key(a0) {
                    let k = choose|k: int| 0 <= k < pre.len() && pre[k].0 == a0;
                    lemma_name_lt_irreflexive(a0);
                }
            }
            assert(table(es).contains_key(a0));
        }
        let v = mol[j].1;
        assert(es[j as int] == (mol@[j as int].0@, v as int));
        let ghost rb = react_view(rows@);
        let ghost pb = prod_view(rows@);
        tally(rows, mol[j].0.as_str(), v, product_side);
        proof {
            let tr = table(react_view(rows@));
            let tp = table(prod_view(rows@));
            if product_side {
                assert(tp == table(pb).insert(a0, get_or_zero(table(pb), a0) + v));
                assert(tr == table(rb).insert(a0, get_or_zero(table(rb), a0)));
            } else {
                assert(tr == table(rb).insert(a0, get_or_zero(table(rb), a0) + v));
                assert(tp == table(pb).insert(a0, get_or_zero(table(pb), a0)));
            }
            assert(table(post) == table(pre).insert(a0, v as int));
            assert forall|a: Seq<char>| #[trigger]
                get_or_zero(table(react_view(rows@)), a) == get_or_zero(table(r0), a)
                    + if product_side {
                    0
                } else {
                    get_or_zero(table(post), a)
                } by {
                assert(get_or_zero(table(rb), a) == get_or_zero(table(r0), a) + if product_side {
                    0
                } else {
                    get_or_zero(table(pre), a)
                });
                if a != a0 {
                    assert(get_or_zero(table(post), a) == get_or_zero(table(pre), a));
                }
            }
            assert forall|a: Seq<char>| #[trigger]
                get_or_zero(table(prod_view(rows@)), a) == get_or_zero(table(ps0), a)
                    + if product_side {
                    get_or_zero(table(post), a)
                } else {
                    0
                } by {
                assert(get_or_zero(table(pb), a) == get_or_zero(table(ps0), a) + if product_side {
                    get_or_zero(table(pre), a)
                } else {
                    0
                });
                if a != a0 {
                    assert(get_or_zero(table(post), a) == get_or_zero(table(pre), a));
                }
            }
        }
        j = j + 1;
    }
    proof {
        assert(es.subrange(0, n as int) =~= es);
    }
}

/// The atom totals of both sides of an equation, one row per atom of either
/// side, in order of name.
pub fn balance(reactants: &Vec<Molecule>, products: &Vec<Molecule>) -> (rows: Vec<AtomBalance>)
    requires
        forall|k: int| 0 <= k < reactants.len() ==> #[trigger] reactants@[k].wf(),
        forall|k: int| 0 <= k < products.len() ==> #[trigger] products@[k].wf(),
    ensures
        balance_rows(rows@, reactants@, products@),
{
    let mut rows: Vec<AtomBalance> = Vec::new();
    proof {
        assert(table(react_view(rows@)) =~= Map::<Seq<char>, int>::empty());
        assert(table(prod_view(rows@)) =~= Map::<Seq<char>, int>::empty());
    }
    let mut side: usize = 0;
    while side < 2
        invariant
            side <= 2,
            forall|k: int| 0 <= k < reactants.len() ==> #[trigger] reactants@[k].wf(),
            forall|k: int| 0 <= k < products.len() ==> #[trigger] products@[k].wf(),
            sorted(react_view(rows@)),
            forall|a: Seq<char>| #[trigger]
                table(react_view(rows@)).contains_key(a) <==> (side >= 1 && side_atoms(
                    reactants@,
                ).contains(a)) || (side >= 2 && side_atoms(products@).contains(a)),
            forall|a: Seq<char>| #[trigger]
                get_or_zero(table(react_view(rows@)), a) == if side >= 1 {
                    side_total(reactants@, a)
                } else {
                    0
                },
            forall|a: Seq<char>| #[trigger]
                get_or_zero(table(prod_view(rows@)), a) == if side >= 2 {
                    side_total(products@, a)
                } else {
                    0
                },
        decreases 2 - side,
    {
        let product_side = side == 1;
        let mols = if product_side {
            products
        } else {
            reactants
        };
        let ghost r0 = react_view(rows@);
        let ghost ps0 = prod_view(rows@);
        let n = mols.len();
        let mut k: usize = 0;
        while k < n
            invariant
                n == mols.len(),
                product_side == (side == 1),
                side < 2,
                mols@ == if product_side {
                    products@
                } else {
                    reactants@
                },
                forall|q: int| 0 <= q < mols.len() ==> #[trigger] mols@[q].wf(),
                k <= n,
                sorted(react_view(rows@)),
                forall|a: Seq<char>| #[trigger]
                    table(react_view(rows@)).contains_key(a) <==> (table(r0).contains_key(a)
                        || side_atoms(mols@.subrange(0, k as int)).contains(a)),
                forall|a: Seq<char>| #[trigger]
                    get_or_zero(table(react_view(rows@)), a) == get_or_zero(table(r0), a)
                        + if product_side {
                        0
                    } else {
                        side_total(mols@.subrange(0, k as int), a)
                    },
                forall|a: Seq<char>| #[trigger]
                    get_or_zero(table(prod_view(rows@)), a) == get_or_zero(table(ps0), a)
                        + if product_side {
                        side_total(mols@.subrange(0, k as int), a)
                    } else {
                        0
                    },
                product_side ==> forall|a: Seq<char>| #[trigger] get_or_zero(table(ps0), a) == 0,
                !product_side ==> forall|a: Seq<char>| #[trigger] get_or_zero(table(r0), a) == 0,
            decreases n - k,
        {
            let ghost pre = mols@.subrange(0, k as int);
            let ghost post = mols@.subrange(0, k + 1);
            let ghost m = mols@[k as int];
            let map = mols[k].get_map();
            proof {
                assert(post.drop_last() =~= pre);
                assert(post.last() == m);
                assert forall|q: int| 0 <= q < post.len() implies #[trigger] post[q].wf() by {
                    assert(post[q] == mols@[q]);
                }
                assert forall|q: int| 0 <= q < pre.len() implies #[trigger] pre[q].wf() by {
                    assert(pre[q] == mols@[q]);
                }
                assert forall|a: Seq<char>| #[trigger]
                    table(pairs_view(map@)).contains_key(a) implies in_i128(
                    get_or_zero(
                        table(
                            if product_side {
                                prod_view(rows@)
                            } else {
                                react_view(rows@)
                            },
                        ),
                        a,
                    ) + table(pairs_view(map@))[a],
                ) by {
                    lemma_side_total_bound(post, a);
                    assert(side_total(post, a) == side_total(pre, a) + table(pairs_view(map@))[a]);
                    assert(k + 1 <= usize::MAX);
                }
            }
            extend_mol_map(&mut rows, &map, product_side);
            proof {
                assert(side_atoms(post) == side_atoms(pre).union(mol_table(m).dom()));
                assert forall|a: Seq<char>| #[trigger]
                    table(react_view(rows@)).contains_key(a) <==> (table(r0).contains_key(a)
                        || side_atoms(post).contains(a)) by {}
            }
            k = k + 1;
        }
        proof {
            assert(mols@.subrange(0, n as int) =~= mols@);
        }
        side = side + 1;
    }
    let ghost rt = react_view(rows@);
    let ghost pt = prod_view(rows@);
    let n = rows.len();
    let mut i: usize = 0;
    while i < n
        invariant
            n == rows.len(),
            i <= n,
            react_view(rows@) == rt,
            prod_view(rows@) == pt,
            forall|j: int| 0 <= j < i ==> #[trigger] rows@[j].balanced == (rows@[j].reactants == rows@[j].products),
        decreases n - i,
    {
        let atom = rows[i].atom.clone();
        let reactants_total = rows[i].reactants;
        let products_total = rows[i].products;
        rows.set(
            i,
            AtomBalance {
                atom,
                reactants: reactants_total,
                products: products_total,
                balanced: reactants_total == products_total,
            },
        );
        proof {
            assert(react_view(rows@) =~= rt);
            assert(prod_view(rows@) =~= pt);
        }
        i = i + 1;
    }
    proof {
        lemma_table(rt);
        assert(sorted(pt)) by {
            assert forall|x: int, y: int| 0 <= x < y < pt.len() implies name_lt(
                #[trigger] pt[x].0,
                #[trigger] pt[y].0,
            ) by {
                assert(pt[x].0 == rt[x].0 && pt[y].0 == rt[y].0);
            }
        }
        lemma_table(pt);
        assert forall|j: int| 0 <= j < rows.len() implies {
            &&& #[trigger] rows@[j].reactants == side_total(reactants@, rows@[j].atom@)
            &&& rows@[j].products == side_total(products@, rows@[j].atom@)
            &&& rows@[j].balanced == (rows@[j].reactants == rows@[j].products)
        } by {
            let a = rows@[j].atom@;
            assert(rt[j] == (a, rows@[j].reactants as int));
            assert(pt[j] == (a, rows@[j].products as int));
            assert(table(rt).contains_key(rt[j].0) && table(rt)[rt[j].0] == rt[j].1);
            assert(table(pt).contains_key(pt[j].0) && table(pt)[pt[j].0] == pt[j].1);
            assert(get_or_zero(table(rt), a) == rows@[j].reactants);
            assert(get_or_zero(table(pt), a) == rows@[j].products);
        }
    }
    rows
}

/// Whether every atom has the same total on both sides.
pub fn is_balanced(rows: &Vec<AtomBalance>) -> (r: bool)
    ensures
        r == forall|i: int| 0 <= i < rows.len() ==> #[trigger] rows@[i].balanced,
{
    let n = rows.len();
    let mut i: usize = 0;
    while i < n
        invariant
            n == rows.len(),
            i <= n,
            forall|j: int| 0 <= j < i ==> #[trigger] rows@[j].balanced,
        decreases n - i,
    {
        if !rows[i].balanced {
            return false;
        }
        i = i + 1;
    }
    true
}

} // verus!
