use crate::alias::{AliasedAtom, apply_redirections, compatible, duplicate_scan, listing, rename_bodies, rename_in, renamed_map, swap_for, expand_n, expand_once, fully_expanded, lookup_in, settles_at};
use crate::atom::{
    contains, flatten, fold_nums, folded_numbers, list_contains, make_product, make_sum, non_nums, norm, norm_list,
    num_atoms, replace, replace_list, seq_of, list_of, lemma_seq_of_list_of, lemma_list_of_seq_of, kind_of, Atom, AtomKind, AtomList,
};
use crate::fuse::{acyclic, dep_rule, fused_body, fused_into, key_uses, key_uses_list, ranked, settled};
use crate::normal::{
    all_normal, is_normal, lemma_flatten_props, lemma_list_normal_seq, lemma_no_nums_split, lemma_norm_normal, lemma_normal_fixed,
    lemma_norm_idempotent, lemma_nums_parts, lemma_replace_list_seq, no_nums, none_of_kind,
};
use vstd::prelude::*;

verus! {

/// Some atom of `s` is `x` or holds it.
pub open spec fn seq_holds(s: Seq<Atom>, x: Atom) -> bool {
    exists|i: int| 0 <= i < s.len() && contains(#[trigger] s[i], x)
}

proof fn lemma_list_holds(l: AtomList, x: Atom)
    ensures
        list_contains(l, x) == seq_holds(seq_of(l), x),
    decreases l,
{
    match l {
        AtomList::Nil => {},
        AtomList::Cons(h, t) => {
            lemma_list_holds(*t, x);
            let s = seq_of(l);
            assert(s[0] == *h);
            assert(s.drop_first() =~= seq_of(*t));
            if contains(*h, x) {
                assert(contains(s[0], x));
            }
            if seq_holds(seq_of(*t), x) {
                let i = choose|i: int| 0 <= i < seq_of(*t).len() && contains(#[trigger] seq_of(*t)[i], x);
                assert(s[i + 1] == seq_of(*t)[i]);
            }
            if seq_holds(s, x) {
                let i = choose|i: int| 0 <= i < s.len() && contains(#[trigger] s[i], x);
                if i > 0 {
                    assert(seq_of(*t)[i - 1] == s[i]);
                }
            }
        },
    }
}

proof fn lemma_flatten_holds(s: Seq<Atom>, k: AtomKind, x: Atom)
    requires
        seq_holds(flatten(s, k), x),
    ensures
        seq_holds(s, x),
    decreases s.len(),
{
    let f = flatten(s, k);
    let i = choose|i: int| 0 <= i < f.len() && contains(#[trigger] f[i], x);
    let head = match s[0] {
        Atom::Add(l) if k == AtomKind::Add => seq_of(l),
        Atom::Mul(l) if k == AtomKind::Mul => seq_of(l),
        _ => seq![s[0]],
    };
    let rest = flatten(s.drop_first(), k);
    assert(f == head + rest);
    if i < head.len() {
        assert(contains(head[i], x));
        match s[0] {
            Atom::Add(l) if k == AtomKind::Add => {
                lemma_list_holds(l, x);
                assert(list_contains(l, x));
            },
            Atom::Mul(l) if k == AtomKind::Mul => {
                lemma_list_holds(l, x);
                assert(list_contains(l, x));
            },
            _ => {},
        }
        assert(contains(s[0], x));
    } else {
        assert(contains(rest[i - head.len()], x));
        lemma_flatten_holds(s.drop_first(), k, x);
        let j = choose|j: int| 0 <= j < s.drop_first().len() && contains(#[trigger] s.drop_first()[j], x);
        assert(s[j + 1] == s.drop_first()[j]);
    }
}

proof fn lemma_make_sum_holds(s: Seq<Atom>, x: Atom)
    requires
        x is Var || x is Fun,
        contains(make_sum(s), x),
    ensures
        seq_holds(s, x),
{
    lemma_nums_parts(s);
    let nn = non_nums(s);
    let fnum = folded_numbers(num_atoms(s));
    let terms = nn + fnum;
    assert forall|i: int| 0 <= i < fnum.len() implies (#[trigger] fnum[i]) is Num by {
        match fold_nums(0, num_atoms(s)) {
            Some(t) => {},
            None => {
                assert(fnum[i] == num_atoms(s)[i]);
            },
        }
    }
    assert(terms.len() != 0);
    let i: int = if terms.len() == 1 {
        0
    } else {
        lemma_seq_of_list_of(terms);
        lemma_list_holds(list_of(terms), x);
        choose|i: int| 0 <= i < terms.len() && contains(#[trigger] terms[i], x)
    };
    assert(contains(terms[i], x));
    if i >= nn.len() {
        assert(terms[i] == fnum[i - nn.len()]);
        assert(terms[i] is Num);
        assert(false);
    }
    assert(terms[i] == nn[i]);
    assert(s.contains(nn[i]));
    let j = choose|j: int| 0 <= j < s.len() && s[j] == nn[i];
    assert(contains(s[j], x));
}

proof fn lemma_make_product_holds(s: Seq<Atom>, x: Atom)
    requires
        x is Var || x is Fun,
        contains(make_product(s), x),
    ensures
        seq_holds(s, x),
{
    if s.len() == 0 {
    } else if s.len() == 1 {
        assert(contains(s[0], x));
    } else {
        lemma_seq_of_list_of(s);
        lemma_list_holds(list_of(s), x);
    }
}

/// Normalizing brings in no variable, nor a handle into an anchored atom.
pub proof fn lemma_norm_holds(a: Atom, x: Atom)
    requires
        x is Var || (is_handle(x) && (a is Num || anchored(a))),
        contains(norm(a), x),
    ensures
        contains(a, x),
    decreases a,
{
    match a {
        Atom::Fun(_, l) => {
            if norm(a) == x {
                lemma_norm_to_numbers_anchored(l);
            } else {
                lemma_norm_list_holds(l, x);
            }
        },
        Atom::Add(l) => {
            let s = flatten(seq_of(norm_list(l)), AtomKind::Add);
            lemma_make_sum_holds(s, x);
            lemma_flatten_holds(seq_of(norm_list(l)), AtomKind::Add, x);
            lemma_list_holds(norm_list(l), x);
            lemma_norm_list_holds(l, x);
        },
        Atom::Mul(l) => {
            let s = flatten(seq_of(norm_list(l)), AtomKind::Mul);
            lemma_make_product_holds(s, x);
            lemma_flatten_holds(seq_of(norm_list(l)), AtomKind::Mul, x);
            lemma_list_holds(norm_list(l), x);
            lemma_norm_list_holds(l, x);
        },
        Atom::Pow(b, e) => {
            if contains(norm(*b), x) {
                lemma_norm_holds(*b, x);
            } else {
                lemma_norm_holds(*e, x);
            }
        },
        _ => {},
    }
}

proof fn lemma_norm_list_holds(l: AtomList, x: Atom)
    requires
        x is Var || (is_handle(x) && anchored_args(l)),
        list_contains(norm_list(l), x),
    ensures
        list_contains(l, x),
    decreases l,
{
    match l {
        AtomList::Nil => {},
        AtomList::Cons(h, t) => {
            if contains(norm(*h), x) {
                lemma_norm_holds(*h, x);
            } else {
                lemma_norm_list_holds(*t, x);
            }
        },
    }
}

/// Every alias of `m` is a variable.
pub open spec fn variable_aliases(m: Map<Atom, Atom>) -> bool {
    forall|k: Atom| #[trigger] m.dom().contains(k) ==> k is Var
}

/// A variable in the result of replacing the aliases of `m` was there and is no alias, or
/// comes from the definition of an alias that was there.
proof fn lemma_replace_holds(a: Atom, ctx: Option<AtomKind>, m: Map<Atom, Atom>, x: Atom)
    requires
        x is Var || (is_handle(x) && handle_aliases(m) && nonnum_definitions(m)),
        contains(replace(a, ctx, lookup_in(m)), x),
    ensures
        (contains(a, x) && !m.dom().contains(x)) || exists|k: Atom|
            m.dom().contains(k) && #[trigger] contains(a, k) && contains(m[k], x),
    decreases a,
{
    if m.dom().contains(a) {
        assert(contains(a, a));
    } else {
        match a {
            Atom::Fun(_, l) => {
                if replace(a, ctx, lookup_in(m)) == x {
                    lemma_replace_to_numbers(l, m);
                    assert(contains(a, x));
                    return;
                }
                lemma_replace_list_holds(l, AtomKind::Fun, m, x);
                if !(list_contains(l, x) && !m.dom().contains(x)) {
                    let k = choose|k: Atom| m.dom().contains(k) && #[trigger] list_contains(l, k) && contains(m[k], x);
                    assert(contains(a, k));
                }
            },
            Atom::Add(l) => {
                lemma_replace_list_holds(l, AtomKind::Add, m, x);
                if !(list_contains(l, x) && !m.dom().contains(x)) {
                    let k = choose|k: Atom| m.dom().contains(k) && #[trigger] list_contains(l, k) && contains(m[k], x);
                    assert(contains(a, k));
                }
            },
            Atom::Mul(l) => {
                lemma_replace_list_holds(l, AtomKind::Mul, m, x);
                if !(list_contains(l, x) && !m.dom().contains(x)) {
                    let k = choose|k: Atom| m.dom().contains(k) && #[trigger] list_contains(l, k) && contains(m[k], x);
                    assert(contains(a, k));
                }
            },
            Atom::Pow(b, e) => {
                let rb = replace(*b, Some(AtomKind::Pow), lookup_in(m));
                if contains(rb, x) {
                    lemma_replace_holds(*b, Some(AtomKind::Pow), m, x);
                    if !(contains(*b, x) && !m.dom().contains(x)) {
                        let k = choose|k: Atom| m.dom().contains(k) && #[trigger] contains(*b, k) && contains(m[k], x);
                        assert(contains(a, k));
                    }
                } else {
                    lemma_replace_holds(*e, Some(AtomKind::Pow), m, x);
                    if !(contains(*e, x) && !m.dom().contains(x)) {
                        let k = choose|k: Atom| m.dom().contains(k) && #[trigger] contains(*e, k) && contains(m[k], x);
                        assert(contains(a, k));
                    }
                }
            },
            _ => {},
        }
    }
}

proof fn lemma_replace_list_holds(l: AtomList, p: AtomKind, m: Map<Atom, Atom>, x: Atom)
    requires
        x is Var || (is_handle(x) && handle_aliases(m) && nonnum_definitions(m)),
        list_contains(replace_list(l, p, lookup_in(m)), x),
    ensures
        (list_contains(l, x) && !m.dom().contains(x)) || exists|k: Atom|
            m.dom().contains(k) && #[trigger] list_contains(l, k) && contains(m[k], x),
    decreases l,
{
    match l {
        AtomList::Nil => {},
        AtomList::Cons(h, t) => {
            if contains(replace(*h, Some(p), lookup_in(m)), x) {
                lemma_replace_holds(*h, Some(p), m, x);
                if !(contains(*h, x) && !m.dom().contains(x)) {
                    let k = choose|k: Atom| m.dom().contains(k) && #[trigger] contains(*h, k) && contains(m[k], x);
                    assert(list_contains(l, k));
                }
            } else {
                lemma_replace_list_holds(*t, p, m, x);
                if !(list_contains(*t, x) && !m.dom().contains(x)) {
                    let k = choose|k: Atom| m.dom().contains(k) && #[trigger] list_contains(*t, k) && contains(m[k], x);
                    assert(list_contains(l, k));
                }
            }
        },
    }
}

/// Arguments that replacing aliases by plain definitions turns into numbers were numbers.
proof fn lemma_replace_to_numbers(l: AtomList, m: Map<Atom, Atom>)
    requires
        handle_aliases(m),
        nonnum_definitions(m),
        number_args(replace_list(l, AtomKind::Fun, lookup_in(m))),
    ensures
        replace_list(l, AtomKind::Fun, lookup_in(m)) == l,
    decreases l,
{
    match l {
        AtomList::Nil => {},
        AtomList::Cons(h, t) => {
            let lk = lookup_in(m);
            assert(replace_list(l, AtomKind::Fun, lk) == AtomList::Cons(
                Box::new(replace(*h, Some(AtomKind::Fun), lk)),
                Box::new(replace_list(*t, AtomKind::Fun, lk)),
            ));
            assert(replace(*h, Some(AtomKind::Fun), lk) is Num);
            lemma_replace_to_numbers(*t, m);
            if m.dom().contains(*h) {
                assert(!(m[*h] is Num));
            } else {
                assert(lk(*h, Some(AtomKind::Fun)) is None);
                assert(*h is Num);
            }
        },
    }
}

/// Where the aliases are handles, every alias an atom holds is one of its outermost uses.
proof fn lemma_use_of_handle(a: Atom, keys: Set<Atom>, d: Atom)
    requires
        forall|k: Atom| #[trigger] keys.contains(k) ==> is_handle(k),
        keys.contains(d),
        contains(a, d),
    ensures
        key_uses(a, keys).contains(d),
    decreases a,
{
    if keys.contains(a) {
        if a != d {
            if let Atom::Fun(_, l) = a {
                lemma_number_args_hold(l, d);
            }
        }
    } else {
        match a {
            Atom::Fun(_, l) => lemma_list_use_of_variable(l, keys, d),
            Atom::Add(l) => lemma_list_use_of_variable(l, keys, d),
            Atom::Mul(l) => lemma_list_use_of_variable(l, keys, d),
            Atom::Pow(b, e) => {
                if contains(*b, d) {
                    lemma_use_of_handle(*b, keys, d);
                } else {
                    lemma_use_of_handle(*e, keys, d);
                }
            },
            _ => {},
        }
    }
}

proof fn lemma_list_use_of_variable(l: AtomList, keys: Set<Atom>, d: Atom)
    requires
        forall|k: Atom| #[trigger] keys.contains(k) ==> is_handle(k),
        keys.contains(d),
        list_contains(l, d),
    ensures
        key_uses_list(l, keys).contains(d),
    decreases l,
{
    match l {
        AtomList::Nil => {},
        AtomList::Cons(h, t) => {
            if contains(*h, d) {
                lemma_use_of_handle(*h, keys, d);
            } else {
                lemma_list_use_of_variable(*t, keys, d);
            }
        },
    }
}

/// Replacing the aliases of `m` changes nothing in an atom that holds none of them.
proof fn lemma_replace_without_aliases(a: Atom, ctx: Option<AtomKind>, m: Map<Atom, Atom>)
    requires
        forall|k: Atom| m.dom().contains(k) ==> !#[trigger] contains(a, k),
    ensures
        replace(a, ctx, lookup_in(m)) == a,
    decreases a,
{
    assert(!m.dom().contains(a)) by {
        if m.dom().contains(a) {
            assert(contains(a, a));
        }
    }
    match a {
        Atom::Fun(_, l) => {
            assert forall|k: Atom| m.dom().contains(k) implies !#[trigger] list_contains(l, k) by {
                assert(!contains(a, k));
            }
            lemma_replace_list_without_aliases(l, AtomKind::Fun, m);
        },
        Atom::Add(l) => {
            assert forall|k: Atom| m.dom().contains(k) implies !#[trigger] list_contains(l, k) by {
                assert(!contains(a, k));
            }
            lemma_replace_list_without_aliases(l, AtomKind::Add, m);
        },
        Atom::Mul(l) => {
            assert forall|k: Atom| m.dom().contains(k) implies !#[trigger] list_contains(l, k) by {
                assert(!contains(a, k));
            }
            lemma_replace_list_without_aliases(l, AtomKind::Mul, m);
        },
        Atom::Pow(b, e) => {
            assert forall|k: Atom| m.dom().contains(k) implies !#[trigger] contains(*b, k) by {
                assert(!contains(a, k));
            }
            assert forall|k: Atom| m.dom().contains(k) implies !#[trigger] contains(*e, k) by {
                assert(!contains(a, k));
            }
            lemma_replace_without_aliases(*b, Some(AtomKind::Pow), m);
            lemma_replace_without_aliases(*e, Some(AtomKind::Pow), m);
        },
        _ => {},
    }
}

proof fn lemma_replace_list_without_aliases(l: AtomList, p: AtomKind, m: Map<Atom, Atom>)
    requires
        forall|k: Atom| m.dom().contains(k) ==> !#[trigger] list_contains(l, k),
    ensures
        replace_list(l, p, lookup_in(m)) == l,
    decreases l,
{
    match l {
        AtomList::Nil => {},
        AtomList::Cons(h, t) => {
            assert forall|k: Atom| m.dom().contains(k) implies !#[trigger] contains(*h, k) by {
                assert(!list_contains(l, k));
            }
            assert forall|k: Atom| m.dom().contains(k) implies !#[trigger] list_contains(*t, k) by {
                assert(!list_contains(l, k));
            }
            lemma_replace_without_aliases(*h, Some(p), m);
            lemma_replace_list_without_aliases(*t, p, m);
        },
    }
}

/// Every alias of `m` that `a` holds has a rank below `n`.
pub open spec fn aliases_below(a: Atom, m: Map<Atom, Atom>, rank: spec_fn(Atom) -> nat, n: nat) -> bool {
    forall|k: Atom| m.dom().contains(k) && #[trigger] contains(a, k) ==> rank(k) < n
}

/// The aliases of `m` are variables, or they are handles and `a` and the definitions are
/// plain.
pub open spec fn expandable(a: Atom, m: Map<Atom, Atom>) -> bool {
    variable_aliases(m) || (handle_aliases(m) && anchored(a) && anchored_definitions(m))
}

/// A round of expansion lowers the ranks of the aliases an atom holds.
proof fn lemma_round_lowers(a: Atom, m: Map<Atom, Atom>, rank: spec_fn(Atom) -> nat, n: nat)
    requires
        expandable(a, m),
        ranked(m, rank),
        aliases_below(a, m, rank, n + 1),
    ensures
        aliases_below(expand_once(a, m), m, rank, n),
        expandable(expand_once(a, m), m),
{
    if !variable_aliases(m) {
        lemma_replace_anchored(a, None, m);
        lemma_norm_anchored(replace(a, None, lookup_in(m)));
        assert(nonnum_definitions(m));
    }
    assert forall|k: Atom| m.dom().contains(k) && #[trigger] contains(expand_once(a, m), k) implies rank(k) < n by {
        let ra = replace(a, None, lookup_in(m));
        lemma_norm_holds(ra, k);
        lemma_replace_holds(a, None, m, k);
        let j = choose|j: Atom| m.dom().contains(j) && #[trigger] contains(a, j) && contains(m[j], k);
        lemma_use_of_handle(m[j], m.dom(), k);
        assert(key_uses(m[j], m.dom()).contains(k));
    }
}

proof fn lemma_rounds_lower(a: Atom, m: Map<Atom, Atom>, rank: spec_fn(Atom) -> nat, n: nat, j: nat)
    requires
        expandable(a, m),
        ranked(m, rank),
        aliases_below(a, m, rank, n),
        j <= n,
    ensures
        aliases_below(expand_n(a, m, j), m, rank, (n - j) as nat),
        expandable(expand_n(a, m, j), m),
    decreases j,
{
    if j > 0 {
        lemma_rounds_lower(a, m, rank, n, (j - 1) as nat);
        lemma_round_lowers(expand_n(a, m, (j - 1) as nat), m, rank, (n - j) as nat);
    }
}

/// A finite set of atoms has a bound on its ranks.
proof fn lemma_rank_bound(keys: Set<Atom>, rank: spec_fn(Atom) -> nat) -> (b: nat)
    requires
        keys.finite(),
    ensures
        forall|k: Atom| #[trigger] keys.contains(k) ==> rank(k) < b,
    decreases keys.len(),
{
    if keys.len() == 0 {
        assert(keys =~= Set::<Atom>::empty());
        0
    } else {
        let x = keys.choose();
        let b0 = lemma_rank_bound(keys.remove(x), rank);
        let b = if b0 > rank(x) { b0 } else { rank(x) + 1 };
        assert forall|k: Atom| #[trigger] keys.contains(k) implies rank(k) < b by {
            if k != x {
                assert(keys.remove(x).contains(k));
            }
        }
        b
    }
}

/// Once settled, expansion stays where it is.
proof fn lemma_settled_stays(a: Atom, m: Map<Atom, Atom>, n: nat, j: nat)
    requires
        settles_at(a, m, n),
        n <= j,
    ensures
        expand_n(a, m, j) == expand_n(a, m, n),
    decreases j,
{
    if j > n {
        lemma_settled_stays(a, m, n, (j - 1) as nat);
    }
}

/// The first round that settles, where one does.
proof fn lemma_first_settled(a: Atom, m: Map<Atom, Atom>, n: nat) -> (k: nat)
    requires
        settles_at(a, m, n),
    ensures
        k <= n,
        settles_at(a, m, k),
        forall|j: nat| j < k ==> !settles_at(a, m, j),
    decreases n,
{
    if exists|j: nat| j < n && settles_at(a, m, j) {
        let j = choose|j: nat| j < n && settles_at(a, m, j);
        lemma_first_settled(a, m, j)
    } else {
        n
    }
}

/// An alias map whose definitions use one another without a cycle settles: expanding its
/// aliases ends, and leaves no alias in the result, in any atom where the aliases are
/// variables, and in any plain atom where they are handles with plain definitions.
pub proof fn lemma_acyclic_settles(a: Atom, m: Map<Atom, Atom>)
    requires
        m.dom().finite(),
        acyclic(m),
        expandable(a, m),
    ensures
        exists|n: nat| settles_at(a, m, n),
        exists|r: Atom| fully_expanded(a, m, r) && forall|k: Atom| #[trigger] m.dom().contains(k) ==> !contains(r, k),
{
    let rank = choose|rank: spec_fn(Atom) -> nat| ranked(m, rank);
    let b = lemma_rank_bound(m.dom(), rank);
    let n = b + 1;
    assert(aliases_below(a, m, rank, n));
    lemma_rounds_lower(a, m, rank, n, n);
    let e = expand_n(a, m, n);
    assert(aliases_below(e, m, rank, 0));
    assert forall|k: Atom| m.dom().contains(k) implies !#[trigger] contains(e, k) by {
        if contains(e, k) {
            assert(rank(k) < 0);
        }
    }
    lemma_replace_without_aliases(e, None, m);
    let p = expand_n(a, m, (n - 1) as nat);
    assert(e == norm(replace(p, None, lookup_in(m))));
    lemma_norm_normal(replace(p, None, lookup_in(m)));
    lemma_normal_fixed(e);
    assert(settles_at(a, m, n));
    let k = lemma_first_settled(a, m, n);
    lemma_settled_stays(a, m, k, n);
    let r = expand_n(a, m, k);
    assert(fully_expanded(a, m, r));
}

/// `a` is no number, numbers stand in it only as arguments of functions and as bases or
/// exponents, and none of its sums or products is empty.
pub open spec fn plain(a: Atom) -> bool
    decreases a,
{
    match a {
        Atom::Num(_) => false,
        Atom::Var(_) => true,
        Atom::Fun(_, l) => plain_args(l),
        Atom::Add(l) => l is Cons && plain_list(l),
        Atom::Mul(l) => l is Cons && plain_list(l),
        Atom::Pow(b, e) => (*b is Num || plain(*b)) && (*e is Num || plain(*e)),
    }
}

/// Each argument is a number or plain.
pub open spec fn plain_args(l: AtomList) -> bool
    decreases l,
{
    match l {
        AtomList::Nil => true,
        AtomList::Cons(h, t) => (*h is Num || plain(*h)) && plain_args(*t),
    }
}

/// Every argument is a number.
pub open spec fn number_args(l: AtomList) -> bool
    decreases l,
{
    match l {
        AtomList::Nil => true,
        AtomList::Cons(h, t) => *h is Num && number_args(*t),
    }
}

/// An alias handle: a variable, or a function of numbers such as `s(1)`.
pub open spec fn is_handle(k: Atom) -> bool {
    match k {
        Atom::Var(_) => true,
        Atom::Fun(_, l) => number_args(l),
        _ => false,
    }
}

/// Every alias of `m` is a handle.
pub open spec fn handle_aliases(m: Map<Atom, Atom>) -> bool {
    forall|k: Atom| #[trigger] m.dom().contains(k) ==> is_handle(k)
}

proof fn lemma_number_args_fixed(l: AtomList)
    requires
        number_args(l),
    ensures
        norm_list(l) == l,
    decreases l,
{
    match l {
        AtomList::Nil => {},
        AtomList::Cons(h, t) => {
            lemma_number_args_fixed(*t);
            assert(*h is Num);
            assert(norm(*h) == *h);
        },
    }
}

/// Plain arguments that normalize to numbers were numbers.
proof fn lemma_norm_to_numbers(l: AtomList)
    requires
        plain_args(l),
        number_args(norm_list(l)),
    ensures
        norm_list(l) == l,
    decreases l,
{
    match l {
        AtomList::Nil => {},
        AtomList::Cons(h, t) => {
            if !(*h is Num) {
                lemma_norm_plain(*h);
            }
            lemma_norm_to_numbers(*t);
        },
    }
}

proof fn lemma_number_args_hold(l: AtomList, d: Atom)
    requires
        number_args(l),
        !(d is Num),
    ensures
        !list_contains(l, d),
    decreases l,
{
    match l {
        AtomList::Nil => {},
        AtomList::Cons(h, t) => {
            lemma_number_args_hold(*t, d);
            assert(*h is Num);
            assert(!contains(*h, d));
        },
    }
}

pub open spec fn plain_list(l: AtomList) -> bool
    decreases l,
{
    match l {
        AtomList::Nil => true,
        AtomList::Cons(h, t) => plain(*h) && plain_list(*t),
    }
}

pub open spec fn all_plain(s: Seq<Atom>) -> bool {
    forall|i: int| 0 <= i < s.len() ==> plain(#[trigger] s[i])
}

/// Every definition of `m` is plain.
pub open spec fn plain_definitions(m: Map<Atom, Atom>) -> bool {
    forall|k: Atom| #[trigger] m.dom().contains(k) ==> plain(m[k])
}

proof fn lemma_plain_list_seq(l: AtomList)
    ensures
        plain_list(l) == all_plain(seq_of(l)),
        (l is Cons) == (seq_of(l).len() > 0),
    decreases l,
{
    match l {
        AtomList::Nil => {},
        AtomList::Cons(h, t) => {
            lemma_plain_list_seq(*t);
            let s = seq_of(l);
            assert(s.drop_first() =~= seq_of(*t));
            assert(s[0] == *h);
            if all_plain(s) {
                assert forall|i: int| 0 <= i < seq_of(*t).len() implies plain(#[trigger] seq_of(*t)[i]) by {
                    assert(s[i + 1] == seq_of(*t)[i]);
                }
            }
            if plain_list(l) {
                assert forall|i: int| 0 <= i < s.len() implies plain(#[trigger] s[i]) by {
                    if i > 0 {
                        assert(s[i] == seq_of(*t)[i - 1]);
                    }
                }
            }
        },
    }
}

/// The terms that a sum (or product, by `k`) contributes when spliced into its parent.
pub open spec fn parts(x: Atom, k: AtomKind) -> Seq<Atom> {
    match x {
        Atom::Add(l) if k == AtomKind::Add => seq_of(l),
        Atom::Mul(l) if k == AtomKind::Mul => seq_of(l),
        _ => seq![x],
    }
}

proof fn lemma_parts_plain(x: Atom, k: AtomKind)
    requires
        plain(x),
    ensures
        all_plain(parts(x, k)),
        parts(x, k).len() > 0,
{
    match x {
        Atom::Add(l) if k == AtomKind::Add => lemma_plain_list_seq(l),
        Atom::Mul(l) if k == AtomKind::Mul => lemma_plain_list_seq(l),
        _ => {},
    }
}

proof fn lemma_flatten_plain(s: Seq<Atom>, k: AtomKind)
    requires
        all_plain(s),
    ensures
        all_plain(flatten(s, k)),
        s.len() > 0 ==> flatten(s, k).len() > 0,
    decreases s.len(),
{
    if s.len() > 0 {
        let t = s.drop_first();
        assert forall|i: int| 0 <= i < t.len() implies plain(#[trigger] t[i]) by {
            assert(t[i] == s[i + 1]);
        }
        lemma_flatten_plain(t, k);
        lemma_parts_plain(s[0], k);
        let h = parts(s[0], k);
        assert(flatten(s, k) == h + flatten(t, k));
        assert forall|i: int| 0 <= i < flatten(s, k).len() implies plain(#[trigger] flatten(s, k)[i]) by {
            if i < h.len() {
                assert(flatten(s, k)[i] == h[i]);
            } else {
                assert(flatten(s, k)[i] == flatten(t, k)[i - h.len()]);
            }
        }
    }
}

/// On plain terms, a sum is formed without combining numbers.
proof fn lemma_make_sum_plain(s: Seq<Atom>)
    requires
        all_plain(s),
        s.len() > 0,
    ensures
        make_sum(s) == (if s.len() == 1 { s[0] } else { Atom::Add(list_of(s)) }),
{
    assert(no_nums(s)) by {
        assert forall|i: int| 0 <= i < s.len() implies !((#[trigger] s[i]) is Num) by {
            assert(plain(s[i]));
        }
    }
    lemma_no_nums_split(s);
    assert(fold_nums(0, Seq::<Atom>::empty()) == Some(0i64));
    assert(folded_numbers(num_atoms(s)) =~= Seq::<Atom>::empty());
    assert(non_nums(s) + folded_numbers(num_atoms(s)) =~= s);
}

proof fn lemma_made_plain(s: Seq<Atom>, k: AtomKind)
    requires
        all_plain(s),
        s.len() > 0,
    ensures
        plain(Atom::Add(list_of(s))),
        plain(Atom::Mul(list_of(s))),
{
    lemma_seq_of_list_of(s);
    lemma_plain_list_seq(list_of(s));
}

/// Normalizing keeps an atom plain.
pub proof fn lemma_norm_plain(a: Atom)
    requires
        plain(a),
    ensures
        plain(norm(a)),
    decreases a,
{
    match a {
        Atom::Fun(_, l) => lemma_norm_args_plain(l),
        Atom::Add(l) => {
            lemma_norm_list_plain(l);
            let s = seq_of(norm_list(l));
            lemma_plain_list_seq(norm_list(l));
            lemma_flatten_plain(s, AtomKind::Add);
            let f = flatten(s, AtomKind::Add);
            lemma_make_sum_plain(f);
            lemma_made_plain(f, AtomKind::Add);
        },
        Atom::Mul(l) => {
            lemma_norm_list_plain(l);
            let s = seq_of(norm_list(l));
            lemma_plain_list_seq(norm_list(l));
            lemma_flatten_plain(s, AtomKind::Mul);
            let f = flatten(s, AtomKind::Mul);
            lemma_made_plain(f, AtomKind::Mul);
        },
        Atom::Pow(b, e) => {
            if !(*b is Num) {
                lemma_norm_plain(*b);
            }
            if !(*e is Num) {
                lemma_norm_plain(*e);
            }
        },
        _ => {},
    }
}

proof fn lemma_norm_args_plain(l: AtomList)
    requires
        plain_args(l),
    ensures
        plain_args(norm_list(l)),
    decreases l,
{
    match l {
        AtomList::Nil => {},
        AtomList::Cons(h, t) => {
            if !(*h is Num) {
                lemma_norm_plain(*h);
            }
            lemma_norm_args_plain(*t);
        },
    }
}

proof fn lemma_norm_list_plain(l: AtomList)
    requires
        plain_list(l),
    ensures
        plain_list(norm_list(l)),
        (l is Cons) == (norm_list(l) is Cons),
    decreases l,
{
    match l {
        AtomList::Nil => {},
        AtomList::Cons(h, t) => {
            lemma_norm_plain(*h);
            lemma_norm_list_plain(*t);
        },
    }
}

/// Replacing aliases by plain definitions keeps an atom plain.
pub proof fn lemma_replace_plain(a: Atom, c: Option<AtomKind>, m: Map<Atom, Atom>)
    requires
        a is Num || plain(a),
        handle_aliases(m),
        plain_definitions(m),
    ensures
        a is Num ==> replace(a, c, lookup_in(m)) == a,
        plain(a) ==> plain(replace(a, c, lookup_in(m))),
    decreases a,
{
    if !m.dom().contains(a) {
        match a {
            Atom::Fun(_, l) => lemma_replace_args_plain(l, m),
            Atom::Add(l) => lemma_replace_list_plain(l, AtomKind::Add, m),
            Atom::Mul(l) => lemma_replace_list_plain(l, AtomKind::Mul, m),
            Atom::Pow(b, e) => {
                lemma_replace_plain(*b, Some(AtomKind::Pow), m);
                lemma_replace_plain(*e, Some(AtomKind::Pow), m);
            },
            _ => {},
        }
    } else {
        assert(is_handle(a));
    }
}

proof fn lemma_replace_args_plain(l: AtomList, m: Map<Atom, Atom>)
    requires
        plain_args(l),
        handle_aliases(m),
        plain_definitions(m),
    ensures
        plain_args(replace_list(l, AtomKind::Fun, lookup_in(m))),
    decreases l,
{
    match l {
        AtomList::Nil => {},
        AtomList::Cons(h, t) => {
            lemma_replace_plain(*h, Some(AtomKind::Fun), m);
            lemma_replace_args_plain(*t, m);
        },
    }
}

proof fn lemma_replace_list_plain(l: AtomList, p: AtomKind, m: Map<Atom, Atom>)
    requires
        plain_list(l),
        handle_aliases(m),
        plain_definitions(m),
    ensures
        plain_list(replace_list(l, p, lookup_in(m))),
        (l is Cons) == (replace_list(l, p, lookup_in(m)) is Cons),
    decreases l,
{
    match l {
        AtomList::Nil => {},
        AtomList::Cons(h, t) => {
            lemma_replace_plain(*h, Some(p), m);
            lemma_replace_list_plain(*t, p, m);
        },
    }
}

/// Replacing the aliases of `m` below a parent of kind `k`, then normalizing.
pub open spec fn nr(x: Atom, k: AtomKind, m: Map<Atom, Atom>) -> Atom {
    norm(replace(x, Some(k), lookup_in(m)))
}

proof fn lemma_flatten_concat(a: Seq<Atom>, b: Seq<Atom>, k: AtomKind)
    ensures
        flatten(a + b, k) == flatten(a, k) + flatten(b, k),
    decreases a.len(),
{
    if a.len() == 0 {
        assert(a + b =~= b);
        assert(flatten(a, k) + flatten(b, k) =~= flatten(b, k));
    } else {
        lemma_flatten_concat(a.drop_first(), b, k);
        assert((a + b).drop_first() =~= a.drop_first() + b);
        assert((a + b)[0] == a[0]);
        assert(flatten(a + b, k) == parts(a[0], k) + flatten(a.drop_first() + b, k));
        assert(flatten(a, k) == parts(a[0], k) + flatten(a.drop_first(), k));
        assert(flatten(a + b, k) =~= flatten(a, k) + flatten(b, k));
    }
}

proof fn lemma_flatten_one(x: Atom, k: AtomKind)
    ensures
        flatten(seq![x], k) == parts(x, k),
{
    let s = seq![x];
    assert(s.drop_first() =~= Seq::<Atom>::empty());
    assert(flatten(s, k) == parts(x, k) + flatten(s.drop_first(), k));
    assert(parts(x, k) + Seq::<Atom>::empty() =~= parts(x, k));
}

proof fn lemma_norm_list_seq(l: AtomList)
    ensures
        seq_of(norm_list(l)) == seq_of(l).map_values(|x: Atom| norm(x)),
    decreases l,
{
    match l {
        AtomList::Nil => {
            assert(seq_of(l).map_values(|x: Atom| norm(x)) =~= Seq::<Atom>::empty());
        },
        AtomList::Cons(h, t) => {
            lemma_norm_list_seq(*t);
            assert(seq_of(norm_list(l)) =~= seq_of(l).map_values(|x: Atom| norm(x)));
        },
    }
}

proof fn lemma_nr_list(l: AtomList, k: AtomKind, m: Map<Atom, Atom>)
    ensures
        seq_of(norm_list(replace_list(l, k, lookup_in(m)))) == seq_of(l).map_values(|x: Atom| nr(x, k, m)),
{
    let l2 = replace_list(l, k, lookup_in(m));
    lemma_norm_list_seq(l2);
    lemma_replace_list_seq(l, k, lookup_in(m));
    assert(seq_of(norm_list(l2)) =~= seq_of(l).map_values(|x: Atom| nr(x, k, m)));
}

proof fn lemma_replace_ctx(a: Atom, c1: Option<AtomKind>, c2: Option<AtomKind>, m: Map<Atom, Atom>)
    ensures
        replace(a, c1, lookup_in(m)) == replace(a, c2, lookup_in(m)),
{
    assert(lookup_in(m)(a, c1) == lookup_in(m)(a, c2));
}

/// The normal results of `nr` on a plain sequence, spliced, are plain, normal and none of
/// kind `k`.
proof fn lemma_nr_flat_props(s: Seq<Atom>, k: AtomKind, m: Map<Atom, Atom>)
    requires
        all_plain(s),
        handle_aliases(m),
        plain_definitions(m),
        k == AtomKind::Add || k == AtomKind::Mul,
    ensures
        all_plain(flatten(s.map_values(|x: Atom| nr(x, k, m)), k)),
        all_normal(flatten(s.map_values(|x: Atom| nr(x, k, m)), k)),
        none_of_kind(flatten(s.map_values(|x: Atom| nr(x, k, m)), k), k),
        s.len() > 0 ==> flatten(s.map_values(|x: Atom| nr(x, k, m)), k).len() > 0,
{
    let t = s.map_values(|x: Atom| nr(x, k, m));
    assert forall|i: int| 0 <= i < t.len() implies plain(#[trigger] t[i]) && is_normal(t[i]) by {
        assert(plain(s[i]));
        lemma_replace_plain(s[i], Some(k), m);
        lemma_norm_plain(replace(s[i], Some(k), lookup_in(m)));
        lemma_norm_normal(replace(s[i], Some(k), lookup_in(m)));
    }
    lemma_flatten_plain(t, k);
    lemma_flatten_props(t, k);
}

/// Splicing a sequence of normal plain atoms, none of kind `k`, into a sum (or product) and
/// taking its parts gives the sequence back.
proof fn lemma_made_parts(x: Seq<Atom>, k: AtomKind)
    requires
        all_plain(x),
        all_normal(x),
        none_of_kind(x, k),
        x.len() > 0,
        k == AtomKind::Add || k == AtomKind::Mul,
    ensures
        k == AtomKind::Add ==> parts(make_sum(x), k) == x,
        k == AtomKind::Mul ==> parts(make_product(x), k) == x,
{
    lemma_make_sum_plain(x);
    lemma_seq_of_list_of(x);
    if x.len() == 1 {
        assert(kind_of(x[0]) != k);
        assert(seq![x[0]] =~= x);
    }
}

/// A normal plain atom is the sum (or product) of its parts.
proof fn lemma_parts_made(y: Atom, k: AtomKind)
    requires
        plain(y),
        is_normal(y),
        k == AtomKind::Add || k == AtomKind::Mul,
    ensures
        k == AtomKind::Add ==> make_sum(parts(y, k)) == y,
        k == AtomKind::Mul ==> make_product(parts(y, k)) == y,
{
    lemma_parts_plain(y, k);
    lemma_make_sum_plain(parts(y, k));
    match y {
        Atom::Add(l) if k == AtomKind::Add => {
            lemma_list_of_seq_of(l);
            lemma_list_normal_seq(l);
        },
        Atom::Mul(l) if k == AtomKind::Mul => {
            lemma_list_of_seq_of(l);
            lemma_list_normal_seq(l);
        },
        _ => {},
    }
}

/// Normalizing first changes nothing in the normal form of a replacement of alias handles by
/// plain definitions, on a plain atom (or a number).
pub proof fn lemma_norm_then_replace(z: Atom, c: Option<AtomKind>, m: Map<Atom, Atom>)
    requires
        z is Num || plain(z),
        handle_aliases(m),
        plain_definitions(m),
    ensures
        norm(replace(norm(z), c, lookup_in(m))) == norm(replace(z, c, lookup_in(m))),
    decreases z, 2nat,
{
    match z {
        Atom::Fun(_, l) => {
            if m.dom().contains(z) {
                assert(is_handle(z));
                lemma_number_args_fixed(l);
                assert(norm(z) == z);
            } else {
                if m.dom().contains(norm(z)) {
                    assert(is_handle(norm(z)));
                    lemma_norm_to_numbers(l);
                    assert(norm(z) == z);
                }
                lemma_norm_then_replace_args(l, m);
            }
        },
        Atom::Num(_) => {
            assert(!m.dom().contains(z)) by {
                if m.dom().contains(z) {
                    assert(is_handle(z));
                }
            }
        },
        Atom::Pow(b, e) => {
            assert(!m.dom().contains(norm(z)));
            assert(!m.dom().contains(z));
            lemma_norm_then_replace(*b, Some(AtomKind::Pow), m);
            lemma_norm_then_replace(*e, Some(AtomKind::Pow), m);
        },
        Atom::Add(l) => {
            lemma_norm_then_replace_kind(z, l, AtomKind::Add, c, m);
        },
        Atom::Mul(l) => {
            lemma_norm_then_replace_kind(z, l, AtomKind::Mul, c, m);
        },
        _ => {},
    }
}

proof fn lemma_norm_then_replace_kind(z: Atom, l: AtomList, k: AtomKind, c: Option<AtomKind>, m: Map<Atom, Atom>)
    requires
        plain(z),
        handle_aliases(m),
        plain_definitions(m),
        (k == AtomKind::Add && z == Atom::Add(l)) || (k == AtomKind::Mul && z == Atom::Mul(l)),
    ensures
        norm(replace(norm(z), c, lookup_in(m))) == norm(replace(z, c, lookup_in(m))),
    decreases z, 1nat,
{
    let lk = lookup_in(m);
    let g = |x: Atom| nr(x, k, m);
    assert(!m.dom().contains(z));
    lemma_plain_list_seq(l);
    lemma_norm_list_plain(l);
    lemma_plain_list_seq(norm_list(l));
    let f = flatten(seq_of(norm_list(l)), k);
    lemma_flatten_plain(seq_of(norm_list(l)), k);
    lemma_norm_then_replace_flat(l, k, m);
    assert(flatten(f.map_values(g), k) == flatten(seq_of(l).map_values(g), k));
    lemma_nr_list(l, k, m);
    let rhs = flatten(seq_of(l).map_values(g), k);
    assert(norm(replace(z, c, lk)) == (if k == AtomKind::Add { make_sum(rhs) } else { make_product(rhs) }));
    lemma_make_sum_plain(f);
    if f.len() == 1 {
        assert(norm(z) == f[0]);
        lemma_replace_ctx(f[0], c, Some(k), m);
        assert(f.map_values(g) =~= seq![g(f[0])]);
        lemma_flatten_one(g(f[0]), k);
        assert(plain(f[0]));
        lemma_replace_plain(f[0], Some(k), m);
        lemma_norm_plain(replace(f[0], Some(k), lk));
        lemma_norm_normal(replace(f[0], Some(k), lk));
        lemma_parts_made(g(f[0]), k);
    } else {
        assert(norm(z) == (if k == AtomKind::Add { Atom::Add(list_of(f)) } else { Atom::Mul(list_of(f)) }));
        assert(!m.dom().contains(norm(z)));
        lemma_nr_list(list_of(f), k, m);
        lemma_seq_of_list_of(f);
    }
}

proof fn lemma_norm_then_replace_args(l: AtomList, m: Map<Atom, Atom>)
    requires
        plain_args(l),
        handle_aliases(m),
        plain_definitions(m),
    ensures
        norm_list(replace_list(norm_list(l), AtomKind::Fun, lookup_in(m))) == norm_list(
            replace_list(l, AtomKind::Fun, lookup_in(m)),
        ),
    decreases l, 0nat,
{
    match l {
        AtomList::Nil => {},
        AtomList::Cons(h, t) => {
            lemma_norm_then_replace(*h, Some(AtomKind::Fun), m);
            lemma_norm_then_replace_args(*t, m);
        },
    }
}

/// The spliced normal forms of a plain argument list, replaced and normalized one by one and
/// spliced again, are the arguments replaced and normalized and spliced.
proof fn lemma_norm_then_replace_flat(l: AtomList, k: AtomKind, m: Map<Atom, Atom>)
    requires
        plain_list(l),
        handle_aliases(m),
        plain_definitions(m),
        k == AtomKind::Add || k == AtomKind::Mul,
    ensures
        flatten(flatten(seq_of(norm_list(l)), k).map_values(|x: Atom| nr(x, k, m)), k) == flatten(
            seq_of(l).map_values(|x: Atom| nr(x, k, m)),
            k,
        ),
    decreases l, 0nat,
{
    let g = |x: Atom| nr(x, k, m);
    match l {
        AtomList::Nil => {
            assert(seq_of(l).map_values(g) =~= Seq::<Atom>::empty());
            assert(flatten(seq_of(norm_list(l)), k).map_values(g) =~= Seq::<Atom>::empty());
        },
        AtomList::Cons(h, t) => {
            lemma_norm_then_replace_flat(*t, k, m);
            let nh = norm(*h);
            let rest = seq_of(norm_list(*t));
            assert(seq_of(norm_list(l)) == seq![nh] + rest);
            assert((seq![nh] + rest).drop_first() =~= rest);
            assert(flatten(seq_of(norm_list(l)), k) == parts(nh, k) + flatten(rest, k));
            assert((parts(nh, k) + flatten(rest, k)).map_values(g) =~= parts(nh, k).map_values(g) + flatten(rest, k).map_values(g));
            lemma_flatten_concat(parts(nh, k).map_values(g), flatten(rest, k).map_values(g), k);
            assert(seq_of(l).map_values(g) =~= seq![g(*h)] + seq_of(*t).map_values(g));
            lemma_flatten_concat(seq![g(*h)], seq_of(*t).map_values(g), k);
            lemma_flatten_one(g(*h), k);
            lemma_parts_nr(*h, k, m);
        },
    }
}

/// The parts of the normal form of a plain atom, replaced and normalized one by one and
/// spliced, are the parts of the atom replaced and normalized.
proof fn lemma_parts_nr(h: Atom, k: AtomKind, m: Map<Atom, Atom>)
    requires
        plain(h),
        handle_aliases(m),
        plain_definitions(m),
        k == AtomKind::Add || k == AtomKind::Mul,
    ensures
        flatten(parts(norm(h), k).map_values(|x: Atom| nr(x, k, m)), k) == parts(nr(h, k, m), k),
    decreases h, 3nat,
{
    let g = |x: Atom| nr(x, k, m);
    let nh = norm(h);
    lemma_norm_then_replace(h, Some(k), m);
    assert(g(nh) == g(h));
    lemma_norm_plain(h);
    lemma_norm_normal(h);
    match nh {
        Atom::Add(l1) if k == AtomKind::Add => {
            assert(!m.dom().contains(nh));
            lemma_plain_list_seq(l1);
            lemma_nr_list(l1, k, m);
            let x = flatten(seq_of(l1).map_values(g), k);
            assert(g(nh) == make_sum(x));
            lemma_nr_flat_props(seq_of(l1), k, m);
            lemma_made_parts(x, k);
        },
        Atom::Mul(l1) if k == AtomKind::Mul => {
            assert(!m.dom().contains(nh));
            lemma_plain_list_seq(l1);
            lemma_nr_list(l1, k, m);
            let x = flatten(seq_of(l1).map_values(g), k);
            assert(g(nh) == make_product(x));
            lemma_nr_flat_props(seq_of(l1), k, m);
            lemma_made_parts(x, k);
        },
        _ => {
            assert(parts(nh, k) == seq![nh]);
            assert(seq![nh].map_values(g) =~= seq![g(nh)]);
            lemma_flatten_one(g(nh), k);
        },
    }
}

/// The aliases of `m2` that `m1` lacks occur neither in `root` nor in the definitions of `m1`.
pub open spec fn keeps_to_own(root: Atom, m1: Map<Atom, Atom>, m2: Map<Atom, Atom>) -> bool {
    &&& forall|k: Atom| #[trigger] m2.dom().contains(k) && !m1.dom().contains(k) ==> !contains(root, k)
    &&& forall|j: Atom, k: Atom|
        m1.dom().contains(j) && #[trigger] m2.dom().contains(k) && !m1.dom().contains(k) ==> !#[trigger] contains(
            m1[j],
            k,
        )
}

/// Replacing the aliases of a larger map changes nothing more in an atom whose aliases all
/// belong to the smaller one.
proof fn lemma_replace_agree(x: Atom, c: Option<AtomKind>, m1: Map<Atom, Atom>, m: Map<Atom, Atom>)
    requires
        m1.submap_of(m),
        forall|k: Atom| #[trigger] m.dom().contains(k) && contains(x, k) ==> m1.dom().contains(k),
    ensures
        replace(x, c, lookup_in(m)) == replace(x, c, lookup_in(m1)),
    decreases x,
{
    if m.dom().contains(x) {
        assert(contains(x, x));
        assert(m1.dom().contains(x));
    } else {
        assert(!m1.dom().contains(x));
        match x {
            Atom::Fun(_, l) => {
                assert forall|k: Atom| #[trigger] m.dom().contains(k) && list_contains(l, k) implies m1.dom().contains(k) by {
                    assert(contains(x, k));
                }
                lemma_replace_list_agree(l, AtomKind::Fun, m1, m);
            },
            Atom::Add(l) => {
                assert forall|k: Atom| #[trigger] m.dom().contains(k) && list_contains(l, k) implies m1.dom().contains(k) by {
                    assert(contains(x, k));
                }
                lemma_replace_list_agree(l, AtomKind::Add, m1, m);
            },
            Atom::Mul(l) => {
                assert forall|k: Atom| #[trigger] m.dom().contains(k) && list_contains(l, k) implies m1.dom().contains(k) by {
                    assert(contains(x, k));
                }
                lemma_replace_list_agree(l, AtomKind::Mul, m1, m);
            },
            Atom::Pow(b, e) => {
                assert forall|k: Atom| #[trigger] m.dom().contains(k) && contains(*b, k) implies m1.dom().contains(k) by {
                    assert(contains(x, k));
                }
                assert forall|k: Atom| #[trigger] m.dom().contains(k) && contains(*e, k) implies m1.dom().contains(k) by {
                    assert(contains(x, k));
                }
                lemma_replace_agree(*b, Some(AtomKind::Pow), m1, m);
                lemma_replace_agree(*e, Some(AtomKind::Pow), m1, m);
            },
            _ => {},
        }
    }
}

proof fn lemma_replace_list_agree(l: AtomList, p: AtomKind, m1: Map<Atom, Atom>, m: Map<Atom, Atom>)
    requires
        m1.submap_of(m),
        forall|k: Atom| #[trigger] m.dom().contains(k) && list_contains(l, k) ==> m1.dom().contains(k),
    ensures
        replace_list(l, p, lookup_in(m)) == replace_list(l, p, lookup_in(m1)),
    decreases l,
{
    match l {
        AtomList::Nil => {},
        AtomList::Cons(h, t) => {
            assert forall|k: Atom| #[trigger] m.dom().contains(k) && contains(*h, k) implies m1.dom().contains(k) by {
                assert(list_contains(l, k));
            }
            assert forall|k: Atom| #[trigger] m.dom().contains(k) && list_contains(*t, k) implies m1.dom().contains(k) by {
                assert(list_contains(l, k));
            }
            lemma_replace_agree(*h, Some(p), m1, m);
            lemma_replace_list_agree(*t, p, m1, m);
        },
    }
}

/// Expanding in a larger map agrees with expanding in the smaller one, round by round, for
/// an atom that keeps to the aliases of the smaller one.
proof fn lemma_expand_agree(root: Atom, m1: Map<Atom, Atom>, m: Map<Atom, Atom>, j: nat)
    requires
        m1.submap_of(m),
        handle_aliases(m),
        plain_definitions(m1),
        plain(root),
        keeps_to_own(root, m1, m),
    ensures
        expand_n(root, m, j) == expand_n(root, m1, j),
        forall|k: Atom| #[trigger] m.dom().contains(k) && contains(expand_n(root, m1, j), k) ==> m1.dom().contains(k),
    decreases j,
{
    if j > 0 {
        lemma_expand_agree(root, m1, m, (j - 1) as nat);
        let x = expand_n(root, m1, (j - 1) as nat);
        assert(handle_aliases(m1)) by {
            assert forall|k: Atom| #[trigger] m1.dom().contains(k) implies is_handle(k) by {
                assert(m.dom().contains(k));
            }
        }
        lemma_expand_plain(root, m1, (j - 1) as nat);
        lemma_replace_plain(x, None, m1);
        lemma_replace_agree(x, None, m1, m);
        assert forall|k: Atom| #[trigger] m.dom().contains(k) && contains(expand_n(root, m1, j), k) implies m1.dom().contains(k) by {
            let rx = replace(x, None, lookup_in(m1));
            lemma_plain_anchored(rx);
            lemma_plain_expandable(root, m1);
            lemma_norm_holds(rx, k);
            lemma_replace_holds(x, None, m1, k);
            if !(contains(x, k) && !m1.dom().contains(k)) {
                let i = choose|i: Atom| m1.dom().contains(i) && #[trigger] contains(x, i) && contains(m1[i], k);
            }
        }
    } else {
        assert forall|k: Atom| #[trigger] m.dom().contains(k) && contains(expand_n(root, m1, j), k) implies m1.dom().contains(k) by {}
    }
}

/// Expansion keeps an atom plain.
proof fn lemma_expand_plain(root: Atom, m: Map<Atom, Atom>, j: nat)
    requires
        plain(root),
        handle_aliases(m),
        plain_definitions(m),
    ensures
        plain(expand_n(root, m, j)),
    decreases j,
{
    if j > 0 {
        lemma_expand_plain(root, m, (j - 1) as nat);
        let x = expand_n(root, m, (j - 1) as nat);
        lemma_replace_plain(x, None, m);
        lemma_norm_plain(replace(x, None, lookup_in(m)));
    }
}

/// The sum (`Add`), product (`Mul`) or power (`Pow`) of `x` and `y`, not normalized.
pub open spec fn combined(k: AtomKind, x: Atom, y: Atom) -> Atom {
    match k {
        AtomKind::Add => Atom::Add(list_of(seq![x, y])),
        AtomKind::Mul => Atom::Mul(list_of(seq![x, y])),
        _ => Atom::Pow(Box::new(x), Box::new(y)),
    }
}

proof fn lemma_pair_list(x: Atom, y: Atom)
    ensures
        list_of(seq![x, y]) == AtomList::Cons(Box::new(x), Box::new(AtomList::Cons(Box::new(y), Box::new(AtomList::Nil)))),
{
    assert(seq![x, y].drop_first() =~= seq![y]);
    assert(seq![y].drop_first() =~= Seq::<Atom>::empty());
    assert(list_of(Seq::<Atom>::empty()) == AtomList::Nil);
    assert(seq![y][0] == y);
    assert(list_of(seq![y]) == AtomList::Cons(Box::new(y), Box::new(AtomList::Nil)));
    assert(seq![x, y][0] == x);
}

/// One round of expansion of the normal form of a combination is the normal form of the
/// combination of one round of expansion of each side.
proof fn lemma_round_combined(k: AtomKind, x: Atom, y: Atom, m: Map<Atom, Atom>)
    requires
        k == AtomKind::Add || k == AtomKind::Mul || k == AtomKind::Pow,
        plain(x),
        plain(y),
        handle_aliases(m),
        plain_definitions(m),
    ensures
        expand_once(norm(combined(k, x, y)), m) == norm(combined(k, expand_once(x, m), expand_once(y, m))),
{
    let lk = lookup_in(m);
    let z = combined(k, x, y);
    lemma_pair_list(x, y);
    let l1 = AtomList::Cons(Box::new(y), Box::new(AtomList::Nil));
    let l2 = AtomList::Cons(Box::new(x), Box::new(l1));
    assert(plain_list(AtomList::Nil));
    assert(plain_list(l1)) by {
        assert(plain(y));
        assert(l1 matches AtomList::Cons(h, t) && *h == y && *t == AtomList::Nil);
    }
    assert(plain_list(l2));
    assert(plain(z));
    lemma_norm_then_replace(z, None, m);
    assert(!m.dom().contains(z));
    let ex = expand_once(x, m);
    let ey = expand_once(y, m);
    lemma_norm_idempotent(replace(x, None, lk));
    lemma_norm_idempotent(replace(y, None, lk));
    lemma_pair_list(ex, ey);
    if k == AtomKind::Pow {
        lemma_replace_ctx(x, Some(AtomKind::Pow), None, m);
        lemma_replace_ctx(y, Some(AtomKind::Pow), None, m);
    } else {
        lemma_replace_ctx(x, Some(k), None, m);
        lemma_replace_ctx(y, Some(k), None, m);
        let rl1 = replace_list(l1, k, lk);
        let rl = replace_list(l2, k, lk);
        assert(replace_list(AtomList::Nil, k, lk) == AtomList::Nil);
        assert(rl1 == AtomList::Cons(Box::new(replace(y, Some(k), lk)), Box::new(AtomList::Nil)));
        assert(rl == AtomList::Cons(Box::new(replace(x, Some(k), lk)), Box::new(rl1)));
        let e1 = AtomList::Cons(Box::new(ey), Box::new(AtomList::Nil));
        let e2 = AtomList::Cons(Box::new(ex), Box::new(e1));
        assert(norm_list(rl1) == norm_list(e1));
        assert(norm_list(rl) == norm_list(e2));
    }
}

proof fn lemma_rounds_combined(k: AtomKind, x: Atom, y: Atom, m: Map<Atom, Atom>, j: nat)
    requires
        k == AtomKind::Add || k == AtomKind::Mul || k == AtomKind::Pow,
        plain(x),
        plain(y),
        handle_aliases(m),
        plain_definitions(m),
    ensures
        expand_n(norm(combined(k, x, y)), m, j) == norm(combined(k, expand_n(x, m, j), expand_n(y, m, j))),
    decreases j,
{
    if j > 0 {
        lemma_rounds_combined(k, x, y, m, (j - 1) as nat);
        let j1 = (j - 1) as nat;
        lemma_expand_plain(x, m, j1);
        lemma_expand_plain(y, m, j1);
        lemma_round_combined(k, expand_n(x, m, j1), expand_n(y, m, j1), m);
    }
}

/// The expansion of a combination, in the union of two compatible alias maps each side keeps
/// to, is the normal form of the combination of the expansions.
proof fn lemma_combined_expands(k: AtomKind, ra: Atom, ma: Map<Atom, Atom>, rb: Atom, mb: Map<Atom, Atom>, ea: Atom, eb: Atom)
    requires
        k == AtomKind::Add || k == AtomKind::Mul || k == AtomKind::Pow,
        compatible(ma, mb),
        handle_aliases(ma),
        handle_aliases(mb),
        plain_definitions(ma),
        plain_definitions(mb),
        plain(ra),
        plain(rb),
        keeps_to_own(ra, ma, mb),
        keeps_to_own(rb, mb, ma),
        fully_expanded(ra, ma, ea),
        fully_expanded(rb, mb, eb),
    ensures
        fully_expanded(norm(combined(k, ra, rb)), ma.union_prefer_right(mb), norm(combined(k, ea, eb))),
{
    let m = ma.union_prefer_right(mb);
    assert(ma.submap_of(m)) by {
        assert forall|j: Atom| #[trigger] ma.dom().contains(j) implies m.dom().contains(j) && m[j] == ma[j] by {
            if mb.dom().contains(j) {
                assert(ma[j] == mb[j]);
            }
        }
    }
    assert(mb.submap_of(m));
    assert(handle_aliases(m));
    assert(plain_definitions(m));
    assert(keeps_to_own(ra, ma, m));
    assert(keeps_to_own(rb, mb, m));
    let na = choose|n: nat| ea == expand_n(ra, ma, n) && settles_at(ra, ma, n) && forall|j: nat| j < n ==> !settles_at(ra, ma, j);
    let nb = choose|n: nat| eb == expand_n(rb, mb, n) && settles_at(rb, mb, n) && forall|j: nat| j < n ==> !settles_at(rb, mb, j);
    let n = if na > nb { na } else { nb };
    lemma_settled_stays(ra, ma, na, n);
    lemma_settled_stays(ra, ma, na, n + 1);
    lemma_settled_stays(rb, mb, nb, n);
    lemma_settled_stays(rb, mb, nb, n + 1);
    lemma_expand_agree(ra, ma, m, n);
    lemma_expand_agree(ra, ma, m, n + 1);
    lemma_expand_agree(rb, mb, m, n);
    lemma_expand_agree(rb, mb, m, n + 1);
    let z = norm(combined(k, ra, rb));
    lemma_rounds_combined(k, ra, rb, m, n);
    lemma_rounds_combined(k, ra, rb, m, n + 1);
    assert(expand_n(z, m, n) == norm(combined(k, ea, eb)));
    assert(expand_n(z, m, n + 1) == norm(combined(k, ea, eb)));
    assert(settles_at(z, m, n));
    let first = lemma_first_settled(z, m, n);
    lemma_settled_stays(z, m, first, n);
}

/// `a` and `b` use variables as aliases, hold no numbers and no empty sums or products, keep
/// each to its own aliases where the maps differ, and expand fully to `ea` and `eb`.
pub open spec fn expansion_pair(a: AliasedAtom, b: AliasedAtom, ea: Atom, eb: Atom) -> bool {
    &&& handle_aliases(a.aliases_of())
    &&& handle_aliases(b.aliases_of())
    &&& plain(a.root_of())
    &&& plain(b.root_of())
    &&& plain_definitions(a.aliases_of())
    &&& plain_definitions(b.aliases_of())
    &&& keeps_to_own(a.root_of(), a.aliases_of(), b.aliases_of())
    &&& keeps_to_own(b.root_of(), b.aliases_of(), a.aliases_of())
    &&& fully_expanded(a.root_of(), a.aliases_of(), ea)
    &&& fully_expanded(b.root_of(), b.aliases_of(), eb)
}

/// Expanding the aliases of what `try_add` gives is adding the expansions of its operands.
pub proof fn lemma_try_add_expands(a: AliasedAtom, b: AliasedAtom, s: AliasedAtom, ea: Atom, eb: Atom)
    requires
        compatible(a.aliases_of(), b.aliases_of()),
        s.aliases_of() == a.aliases_of().union_prefer_right(b.aliases_of()),
        s.root_of() == norm(Atom::Add(list_of(seq![a.root_of(), b.root_of()]))),
        expansion_pair(a, b, ea, eb),
    ensures
        fully_expanded(s.root_of(), s.aliases_of(), norm(Atom::Add(list_of(seq![ea, eb])))),
{
    lemma_combined_expands(AtomKind::Add, a.root_of(), a.aliases_of(), b.root_of(), b.aliases_of(), ea, eb);
}

/// Expanding the aliases of what `try_mul` gives is multiplying the expansions of its
/// operands.
pub proof fn lemma_try_mul_expands(a: AliasedAtom, b: AliasedAtom, s: AliasedAtom, ea: Atom, eb: Atom)
    requires
        compatible(a.aliases_of(), b.aliases_of()),
        s.aliases_of() == a.aliases_of().union_prefer_right(b.aliases_of()),
        s.root_of() == norm(Atom::Mul(list_of(seq![a.root_of(), b.root_of()]))),
        expansion_pair(a, b, ea, eb),
    ensures
        fully_expanded(s.root_of(), s.aliases_of(), norm(Atom::Mul(list_of(seq![ea, eb])))),
{
    lemma_combined_expands(AtomKind::Mul, a.root_of(), a.aliases_of(), b.root_of(), b.aliases_of(), ea, eb);
}

/// Expanding the aliases of what `try_pow` gives is raising the expansion of the base to that
/// of the exponent.
pub proof fn lemma_try_pow_expands(a: AliasedAtom, b: AliasedAtom, s: AliasedAtom, ea: Atom, eb: Atom)
    requires
        compatible(a.aliases_of(), b.aliases_of()),
        s.aliases_of() == a.aliases_of().union_prefer_right(b.aliases_of()),
        s.root_of() == norm(Atom::Pow(Box::new(a.root_of()), Box::new(b.root_of()))),
        expansion_pair(a, b, ea, eb),
    ensures
        fully_expanded(s.root_of(), s.aliases_of(), norm(Atom::Pow(Box::new(ea), Box::new(eb)))),
{
    lemma_combined_expands(AtomKind::Pow, a.root_of(), a.aliases_of(), b.root_of(), b.aliases_of(), ea, eb);
}

/// Normalizing the right side first does not change the normal form of a combination.
proof fn lemma_norm_pair(k: AtomKind, x: Atom, y: Atom)
    ensures
        norm(combined(k, x, norm(y))) == norm(combined(k, x, y)),
{
    lemma_norm_idempotent(y);
    lemma_pair_list(x, y);
    lemma_pair_list(x, norm(y));
    let n1 = AtomList::Cons(Box::new(y), Box::new(AtomList::Nil));
    let n2 = AtomList::Cons(Box::new(norm(y)), Box::new(AtomList::Nil));
    assert(norm_list(AtomList::Nil) == AtomList::Nil);
    assert(norm_list(n1) == norm_list(n2));
    let p1 = AtomList::Cons(Box::new(x), Box::new(n1));
    let p2 = AtomList::Cons(Box::new(x), Box::new(n2));
    assert(norm_list(p1) == norm_list(p2));
    if k == AtomKind::Add {
        assert(combined(k, x, y) == Atom::Add(p1));
        assert(combined(k, x, norm(y)) == Atom::Add(p2));
    } else if k == AtomKind::Mul {
        assert(combined(k, x, y) == Atom::Mul(p1));
        assert(combined(k, x, norm(y)) == Atom::Mul(p2));
    }
}

/// Replacing by definitions with equal normal forms gives equal normal forms.
proof fn lemma_replace_congruent(x: Atom, c: Option<AtomKind>, m1: Map<Atom, Atom>, m2: Map<Atom, Atom>)
    requires
        m1.dom() == m2.dom(),
        forall|k: Atom| #[trigger] m1.dom().contains(k) ==> norm(m1[k]) == norm(m2[k]),
    ensures
        norm(replace(x, c, lookup_in(m1))) == norm(replace(x, c, lookup_in(m2))),
    decreases x,
{
    if !m1.dom().contains(x) {
        match x {
            Atom::Fun(_, l) => lemma_replace_list_congruent(l, AtomKind::Fun, m1, m2),
            Atom::Add(l) => lemma_replace_list_congruent(l, AtomKind::Add, m1, m2),
            Atom::Mul(l) => lemma_replace_list_congruent(l, AtomKind::Mul, m1, m2),
            Atom::Pow(b, e) => {
                lemma_replace_congruent(*b, Some(AtomKind::Pow), m1, m2);
                lemma_replace_congruent(*e, Some(AtomKind::Pow), m1, m2);
            },
            _ => {},
        }
    }
}

proof fn lemma_replace_list_congruent(l: AtomList, p: AtomKind, m1: Map<Atom, Atom>, m2: Map<Atom, Atom>)
    requires
        m1.dom() == m2.dom(),
        forall|k: Atom| #[trigger] m1.dom().contains(k) ==> norm(m1[k]) == norm(m2[k]),
    ensures
        norm_list(replace_list(l, p, lookup_in(m1))) == norm_list(replace_list(l, p, lookup_in(m2))),
    decreases l,
{
    match l {
        AtomList::Nil => {},
        AtomList::Cons(h, t) => {
            lemma_replace_congruent(*h, Some(p), m1, m2);
            lemma_replace_list_congruent(*t, p, m1, m2);
        },
    }
}

/// The replacement that does `a` and then `b`.
pub open spec fn then_map(a: Map<Atom, Atom>, b: Map<Atom, Atom>) -> Map<Atom, Atom> {
    Map::new(
        |k: Atom| a.dom().contains(k) || b.dom().contains(k),
        |k: Atom| if a.dom().contains(k) { replace(a[k], None, lookup_in(b)) } else { b[k] },
    )
}

/// Replacing handles by plain definitions and then handles again is one replacement.
proof fn lemma_replace_then(x: Atom, c: Option<AtomKind>, a: Map<Atom, Atom>, b: Map<Atom, Atom>)
    requires
        handle_aliases(a),
        plain_definitions(a),
        handle_aliases(b),
    ensures
        replace(replace(x, c, lookup_in(a)), c, lookup_in(b)) == replace(x, c, lookup_in(then_map(a, b))),
    decreases x,
{
    let ab = then_map(a, b);
    if a.dom().contains(x) {
        lemma_replace_ctx(a[x], c, None, b);
    } else if b.dom().contains(x) {
        assert(is_handle(x));
        if let Atom::Fun(_, l) = x {
            lemma_number_args_unreplaced(l, a);
        }
    } else {
        match x {
            Atom::Fun(s, l) => {
                lemma_replace_list_then(l, AtomKind::Fun, a, b);
                let y = replace(x, c, lookup_in(a));
                if b.dom().contains(y) {
                    assert(is_handle(y));
                    lemma_replace_to_numbers(l, a);
                }
            },
            Atom::Add(l) => lemma_replace_list_then(l, AtomKind::Add, a, b),
            Atom::Mul(l) => lemma_replace_list_then(l, AtomKind::Mul, a, b),
            Atom::Pow(bb, e) => {
                lemma_replace_then(*bb, Some(AtomKind::Pow), a, b);
                lemma_replace_then(*e, Some(AtomKind::Pow), a, b);
            },
            Atom::Num(_) => {
                assert(!b.dom().contains(x)) by {
                    if b.dom().contains(x) {
                        assert(is_handle(x));
                    }
                }
            },
            _ => {},
        }
    }
}

proof fn lemma_replace_list_then(l: AtomList, p: AtomKind, a: Map<Atom, Atom>, b: Map<Atom, Atom>)
    requires
        handle_aliases(a),
        plain_definitions(a),
        handle_aliases(b),
    ensures
        replace_list(replace_list(l, p, lookup_in(a)), p, lookup_in(b)) == replace_list(l, p, lookup_in(then_map(a, b))),
    decreases l,
{
    match l {
        AtomList::Nil => {},
        AtomList::Cons(h, t) => {
            lemma_replace_then(*h, Some(p), a, b);
            lemma_replace_list_then(*t, p, a, b);
        },
    }
}

/// Numbers are no handles, so replacing handles leaves arguments that are numbers alone.
proof fn lemma_number_args_unreplaced(l: AtomList, a: Map<Atom, Atom>)
    requires
        number_args(l),
        handle_aliases(a),
    ensures
        replace_list(l, AtomKind::Fun, lookup_in(a)) == l,
    decreases l,
{
    match l {
        AtomList::Nil => {},
        AtomList::Cons(h, t) => {
            lemma_number_args_unreplaced(*t, a);
            assert(!a.dom().contains(*h)) by {
                if a.dom().contains(*h) {
                    assert(is_handle(*h));
                }
            }
            assert(lookup_in(a)(*h, Some(AtomKind::Fun)) is None);
            assert(replace(*h, Some(AtomKind::Fun), lookup_in(a)) == *h);
        },
    }
}

/// Where every alias of `rho` that `y` holds is in `d`, the replacement of those in `d` is
/// the replacement of all.
proof fn lemma_dep_rule_lookup(y: Atom, c: Option<AtomKind>, d: Set<Atom>, rho: Map<Atom, Atom>)
    requires
        forall|x: Atom| #[trigger] rho.dom().contains(x) && contains(y, x) ==> d.contains(x),
    ensures
        replace(y, c, dep_rule(d, rho)) == replace(y, c, lookup_in(rho)),
    decreases y,
{
    if rho.dom().contains(y) {
        assert(contains(y, y));
    } else {
        match y {
            Atom::Fun(_, l) => {
                assert forall|x: Atom| #[trigger] rho.dom().contains(x) && list_contains(l, x) implies d.contains(x) by {
                    assert(contains(y, x));
                }
                lemma_dep_rule_lookup_list(l, AtomKind::Fun, d, rho);
            },
            Atom::Add(l) => {
                assert forall|x: Atom| #[trigger] rho.dom().contains(x) && list_contains(l, x) implies d.contains(x) by {
                    assert(contains(y, x));
                }
                lemma_dep_rule_lookup_list(l, AtomKind::Add, d, rho);
            },
            Atom::Mul(l) => {
                assert forall|x: Atom| #[trigger] rho.dom().contains(x) && list_contains(l, x) implies d.contains(x) by {
                    assert(contains(y, x));
                }
                lemma_dep_rule_lookup_list(l, AtomKind::Mul, d, rho);
            },
            Atom::Pow(b, e) => {
                assert forall|x: Atom| #[trigger] rho.dom().contains(x) && contains(*b, x) implies d.contains(x) by {
                    assert(contains(y, x));
                }
                assert forall|x: Atom| #[trigger] rho.dom().contains(x) && contains(*e, x) implies d.contains(x) by {
                    assert(contains(y, x));
                }
                lemma_dep_rule_lookup(*b, Some(AtomKind::Pow), d, rho);
                lemma_dep_rule_lookup(*e, Some(AtomKind::Pow), d, rho);
            },
            _ => {},
        }
    }
}

proof fn lemma_dep_rule_lookup_list(l: AtomList, p: AtomKind, d: Set<Atom>, rho: Map<Atom, Atom>)
    requires
        forall|x: Atom| #[trigger] rho.dom().contains(x) && list_contains(l, x) ==> d.contains(x),
    ensures
        replace_list(l, p, dep_rule(d, rho)) == replace_list(l, p, lookup_in(rho)),
    decreases l,
{
    match l {
        AtomList::Nil => {},
        AtomList::Cons(h, t) => {
            assert forall|x: Atom| #[trigger] rho.dom().contains(x) && contains(*h, x) implies d.contains(x) by {
                assert(list_contains(l, x));
            }
            assert forall|x: Atom| #[trigger] rho.dom().contains(x) && list_contains(*t, x) implies d.contains(x) by {
                assert(list_contains(l, x));
            }
            lemma_dep_rule_lookup(*h, Some(p), d, rho);
            lemma_dep_rule_lookup_list(*t, p, d, rho);
        },
    }
}

/// A definition taken over in fusing has the normal form of the definition with every
/// renamed alias replaced by its new name.
proof fn lemma_fused_is_renamed(body: Atom, keys: Set<Atom>, rho: Map<Atom, Atom>)
    requires
        forall|k: Atom| #[trigger] keys.contains(k) ==> is_handle(k),
        rho.dom().subset_of(keys),
    ensures
        norm(fused_body(body, keys, rho)) == norm(replace(body, None, lookup_in(rho))),
        fused_body(body, keys, rho) == body || fused_body(body, keys, rho) == norm(replace(body, None, lookup_in(rho))),
{
    let d = key_uses(body, keys);
    assert forall|x: Atom| #[trigger] rho.dom().contains(x) && contains(body, x) implies d.contains(x) by {
        lemma_use_of_handle(body, keys, x);
    }
    if forall|x: Atom| d.contains(x) ==> !rho.dom().contains(x) {
        assert forall|k: Atom| rho.dom().contains(k) implies !#[trigger] contains(body, k) by {
            if contains(body, k) {
                assert(d.contains(k));
            }
        }
        lemma_replace_without_aliases(body, None, rho);
    } else {
        lemma_dep_rule_lookup(body, None, d, rho);
        lemma_norm_idempotent(replace(body, None, lookup_in(rho)));
    }
}

proof fn lemma_handle_plain(k: Atom)
    requires
        is_handle(k),
    ensures
        plain(k),
{
    if let Atom::Fun(_, l) = k {
        lemma_number_args_plain(l);
    }
}

proof fn lemma_number_args_plain(l: AtomList)
    requires
        number_args(l),
    ensures
        plain_args(l),
    decreases l,
{
    match l {
        AtomList::Nil => {},
        AtomList::Cons(h, t) => lemma_number_args_plain(*t),
    }
}

/// Every alias of `l1` that `x` holds is one of `r`.
pub open spec fn uses_only(x: Atom, r: Map<Atom, Atom>, l1: Map<Atom, Atom>) -> bool {
    forall|k: Atom| #[trigger] l1.dom().contains(k) && contains(x, k) ==> r.dom().contains(k)
}

/// Where each alias of `r` stands in `l1` with its definition taken over (under its new name
/// where `rho` renamed it).
pub open spec fn taken_over(l1: Map<Atom, Atom>, r: Map<Atom, Atom>, rho: Map<Atom, Atom>) -> bool {
    &&& rho.dom().subset_of(r.dom())
    &&& forall|k: Atom|
        #[trigger] r.dom().contains(k) ==> if rho.dom().contains(k) {
            l1.dom().contains(rho[k]) && l1[rho[k]] == fused_body(r[k], r.dom(), rho)
        } else {
            l1.dom().contains(k) && l1[k] == fused_body(r[k], r.dom(), rho)
        }
}

/// The conditions under which expansion in the fused map follows the renaming: handles,
/// plain definitions, the right-hand definitions taken over, and the renames to handles.
pub open spec fn renaming_fits(l1: Map<Atom, Atom>, r: Map<Atom, Atom>, rho: Map<Atom, Atom>) -> bool {
    &&& handle_aliases(l1)
    &&& plain_definitions(l1)
    &&& handle_aliases(r)
    &&& plain_definitions(r)
    &&& taken_over(l1, r, rho)
}

proof fn lemma_renames_plain(l1: Map<Atom, Atom>, r: Map<Atom, Atom>, rho: Map<Atom, Atom>)
    requires
        renaming_fits(l1, r, rho),
    ensures
        handle_aliases(rho),
        plain_definitions(rho),
{
    assert forall|k: Atom| #[trigger] rho.dom().contains(k) implies is_handle(k) && plain(rho[k]) by {
        assert(r.dom().contains(k));
        assert(l1.dom().contains(rho[k]));
        lemma_handle_plain(rho[k]);
    }
}

/// One round of expansion in the fused map of a renamed right-hand atom is the renamed round
/// of expansion in the right-hand map.
proof fn lemma_renamed_round(x: Atom, r: Map<Atom, Atom>, l1: Map<Atom, Atom>, rho: Map<Atom, Atom>)
    requires
        plain(x),
        renaming_fits(l1, r, rho),
        uses_only(x, r, l1),
        r.dom().subset_of(l1.dom()),
    ensures
        expand_once(expand_once(x, rho), l1) == expand_once(expand_once(x, r), rho),
{
    lemma_renames_plain(l1, r, rho);
    let y = replace(x, None, lookup_in(rho));
    lemma_replace_plain(x, None, rho);
    lemma_norm_then_replace(y, None, l1);
    lemma_replace_then(x, None, rho, l1);
    let z = replace(x, None, lookup_in(r));
    lemma_replace_plain(x, None, r);
    lemma_norm_then_replace(z, None, rho);
    lemma_replace_then(x, None, r, rho);
    let c1 = then_map(rho, l1);
    let c2 = then_map(r, rho);
    let c1r = c1.restrict(r.dom());
    assert(c1r.submap_of(c1));
    assert forall|k: Atom| #[trigger] c1.dom().contains(k) && contains(x, k) implies c1r.dom().contains(k) by {
        if !rho.dom().contains(k) {
            assert(l1.dom().contains(k));
        }
    }
    lemma_replace_agree(x, None, c1r, c1);
    assert(c1r.dom() =~= c2.dom());
    assert forall|k: Atom| #[trigger] c1r.dom().contains(k) implies norm(c1r[k]) == norm(c2[k]) by {
        assert(r.dom().contains(k));
        lemma_fused_is_renamed(r[k], r.dom(), rho);
        if rho.dom().contains(k) {
            assert(l1.dom().contains(rho[k]));
            assert(replace(rho[k], None, lookup_in(l1)) == l1[rho[k]]);
        }
    }
    lemma_replace_congruent(x, None, c1r, c2);
}

/// Round after round, expansion in the fused map of the renamed right-hand atom is the
/// renamed expansion in the right-hand map.
proof fn lemma_renamed_rounds(x: Atom, r: Map<Atom, Atom>, l1: Map<Atom, Atom>, rho: Map<Atom, Atom>, j: nat)
    requires
        plain(x),
        renaming_fits(l1, r, rho),
        keeps_to_own(x, r, l1),
        r.dom().subset_of(l1.dom()),
    ensures
        expand_n(expand_once(x, rho), l1, j) == expand_once(expand_n(x, r, j), rho),
        uses_only(expand_n(x, r, j), r, l1),
    decreases j,
{
    if j == 0 {
        assert(uses_only(x, r, l1));
    } else {
        let j1 = (j - 1) as nat;
        lemma_renamed_rounds(x, r, l1, rho, j1);
        let e = expand_n(x, r, j1);
        lemma_expand_plain(x, r, j1);
        lemma_renamed_round(e, r, l1, rho);
        assert forall|k: Atom| #[trigger] l1.dom().contains(k) && contains(expand_n(x, r, j), k) implies r.dom().contains(k) by {
            let re = replace(e, None, lookup_in(r));
            lemma_replace_plain(e, None, r);
            lemma_plain_anchored(re);
            lemma_plain_nonnum(r);
            lemma_norm_holds(re, k);
            lemma_replace_holds(e, None, r, k);
            if !(contains(e, k) && !r.dom().contains(k)) {
                let i = choose|i: Atom| r.dom().contains(i) && #[trigger] contains(e, i) && contains(r[i], k);
            }
        }
    }
}

proof fn lemma_fully_expanded_unique(a: Atom, m: Map<Atom, Atom>, r1: Atom, r2: Atom)
    requires
        fully_expanded(a, m, r1),
        fully_expanded(a, m, r2),
    ensures
        r1 == r2,
{
    let k1 = choose|k: nat| r1 == expand_n(a, m, k) && settles_at(a, m, k) && forall|j: nat| j < k ==> !settles_at(a, m, j);
    let k2 = choose|k: nat| r2 == expand_n(a, m, k) && settles_at(a, m, k) && forall|j: nat| j < k ==> !settles_at(a, m, j);
    if k1 < k2 {
        assert(!settles_at(a, m, k1));
    } else if k2 < k1 {
        assert(!settles_at(a, m, k2));
    }
}

/// Fusing an acyclic map with no alias left out takes each right-hand alias over, under its
/// new name where it was renamed, and keeps the definitions plain.
proof fn lemma_fused_fits<F: Fn(&Atom) -> Atom>(l0: Map<Atom, Atom>, l1: Map<Atom, Atom>, r: Map<Atom, Atom>, rho: Map<Atom, Atom>, f: F)
    requires
        fused_into(l0, l1, r, rho, Set::empty(), f),
        acyclic(r),
        handle_aliases(l1),
        plain_definitions(l0),
        plain_definitions(r),
    ensures
        renaming_fits(l1, r, rho),
        r.dom().subset_of(l1.dom()),
{
    let gave = Set::<Atom>::empty();
    assert forall|k: Atom| #[trigger] r.dom().contains(k) implies settled(l1, r, rho, gave, k) by {}
    assert(r.dom().subset_of(l1.dom())) by {
        assert forall|k: Atom| r.dom().contains(k) implies l1.dom().contains(k) by {
            assert(settled(l1, r, rho, gave, k));
        }
    }
    assert(handle_aliases(r)) by {
        assert forall|k: Atom| #[trigger] r.dom().contains(k) implies is_handle(k) by {
            assert(l1.dom().contains(k));
        }
    }
    assert forall|k: Atom| #[trigger] rho.dom().contains(k) implies is_handle(k) && plain(rho[k]) by {
        assert(r.dom().contains(k));
        assert(settled(l1, r, rho, gave, k));
        assert(l1.dom().contains(rho[k]));
        lemma_handle_plain(rho[k]);
    }
    assert forall|k: Atom| #[trigger] r.dom().contains(k) implies plain(fused_body(r[k], r.dom(), rho)) by {
        lemma_fused_is_renamed(r[k], r.dom(), rho);
        lemma_replace_plain(r[k], None, rho);
        lemma_norm_plain(replace(r[k], None, lookup_in(rho)));
    }
    assert(plain_definitions(l1)) by {
        assert forall|k: Atom| #[trigger] l1.dom().contains(k) implies plain(l1[k]) by {
            if l0.dom().contains(k) {
                assert(l1[k] == l0[k]);
            } else if r.dom().contains(k) && !rho.dom().contains(k) && !gave.contains(k) {
                assert(settled(l1, r, rho, gave, k));
            } else {
                let j = choose|j: Atom| rho.dom().contains(j) && rho[j] == k;
                assert(settled(l1, r, rho, gave, j));
            }
        }
    }
    assert(taken_over(l1, r, rho)) by {
        assert forall|k: Atom| #[trigger] r.dom().contains(k) implies if rho.dom().contains(k) {
            l1.dom().contains(rho[k]) && l1[rho[k]] == fused_body(r[k], r.dom(), rho)
        } else {
            l1.dom().contains(k) && l1[k] == fused_body(r[k], r.dom(), rho)
        } by {
            assert(settled(l1, r, rho, gave, k));
        }
    }
}

/// The expansion, in the fused map, of a combination of the left-hand root and the renamed
/// right-hand root is the normal form of the combination of their expansions.
#[verifier::rlimit(40)]
proof fn lemma_fused_expands<F: Fn(&Atom) -> Atom>(
    k: AtomKind,
    ra: Atom,
    ma: Map<Atom, Atom>,
    rb: Atom,
    mb: Map<Atom, Atom>,
    l1: Map<Atom, Atom>,
    rho: Map<Atom, Atom>,
    f: F,
    ea: Atom,
    eb: Atom,
)
    requires
        k == AtomKind::Add || k == AtomKind::Mul || k == AtomKind::Pow,
        mb.dom().finite(),
        acyclic(mb),
        fused_into(ma, l1, mb, rho, Set::empty(), f),
        handle_aliases(l1),
        plain_definitions(ma),
        plain_definitions(mb),
        plain(ra),
        plain(rb),
        keeps_to_own(ra, ma, l1),
        keeps_to_own(rb, mb, l1),
        fully_expanded(ra, ma, ea),
        fully_expanded(rb, mb, eb),
    ensures
        fully_expanded(norm(combined(k, ra, expand_once(rb, rho))), l1, norm(combined(k, ea, eb))),
{
    lemma_fused_fits(ma, l1, mb, rho, f);
    lemma_renames_plain(l1, mb, rho);
    let srb = expand_once(rb, rho);
    lemma_replace_plain(rb, None, rho);
    lemma_norm_plain(replace(rb, None, lookup_in(rho)));
    let na = choose|n: nat| ea == expand_n(ra, ma, n) && settles_at(ra, ma, n) && forall|j: nat| j < n ==> !settles_at(ra, ma, j);
    let nb = choose|n: nat| eb == expand_n(rb, mb, n) && settles_at(rb, mb, n) && forall|j: nat| j < n ==> !settles_at(rb, mb, j);
    let n = if na > nb { na } else { nb };
    lemma_settled_stays(ra, ma, na, n);
    lemma_settled_stays(ra, ma, na, n + 1);
    lemma_settled_stays(rb, mb, nb, n);
    lemma_settled_stays(rb, mb, nb, n + 1);
    lemma_expand_agree(ra, ma, l1, n);
    lemma_expand_agree(ra, ma, l1, n + 1);
    lemma_renamed_rounds(rb, mb, l1, rho, n);
    lemma_renamed_rounds(rb, mb, l1, rho, n + 1);
    assert(handle_aliases(mb));
    lemma_plain_expandable(rb, mb);
    lemma_acyclic_settles(rb, mb);
    let clean = choose|r: Atom| fully_expanded(rb, mb, r) && forall|x: Atom| #[trigger] mb.dom().contains(x) ==> !contains(r, x);
    lemma_fully_expanded_unique(rb, mb, eb, clean);
    assert forall|x: Atom| rho.dom().contains(x) implies !#[trigger] contains(eb, x) by {
        assert(mb.dom().contains(x));
    }
    lemma_replace_without_aliases(eb, None, rho);
    assert(expand_once(eb, rho) == norm(eb));
    lemma_norm_pair(k, ea, eb);
    let z = norm(combined(k, ra, srb));
    lemma_rounds_combined(k, ra, srb, l1, n);
    lemma_rounds_combined(k, ra, srb, l1, n + 1);
    assert(expand_n(z, l1, n) == norm(combined(k, ea, eb)));
    assert(expand_n(z, l1, n + 1) == norm(combined(k, ea, eb)));
    assert(settles_at(z, l1, n));
    let first = lemma_first_settled(z, l1, n);
    lemma_settled_stays(z, l1, first, n);
}

/// The fused map and both operands meet what the expansion laws of the operations with a
/// resolver ask: handles as aliases, plain roots and definitions, each operand keeping to
/// its own aliases in the fused map, and `ea`, `eb` the operands' full expansions.
pub open spec fn fused_expansion_pair(a: AliasedAtom, b: AliasedAtom, s: AliasedAtom, ea: Atom, eb: Atom) -> bool {
    &&& handle_aliases(s.aliases_of())
    &&& plain(a.root_of())
    &&& plain(b.root_of())
    &&& plain_definitions(a.aliases_of())
    &&& plain_definitions(b.aliases_of())
    &&& keeps_to_own(a.root_of(), a.aliases_of(), s.aliases_of())
    &&& keeps_to_own(b.root_of(), b.aliases_of(), s.aliases_of())
    &&& fully_expanded(a.root_of(), a.aliases_of(), ea)
    &&& fully_expanded(b.root_of(), b.aliases_of(), eb)
}

/// Expanding the aliases of what `add` gives, where the right-hand aliases use one another
/// without a cycle and none was left out, is adding the expansions of its operands: the
/// renames of conflicting aliases do not change what the sum stands for.
pub proof fn lemma_add_expands<F: Fn(&Atom) -> Atom>(a: AliasedAtom, b: AliasedAtom, s: AliasedAtom, rho: Map<Atom, Atom>, f: F, ea: Atom, eb: Atom)
    requires
        b.aliases_of().dom().finite(),
        acyclic(b.aliases_of()),
        fused_into(a.aliases_of(), s.aliases_of(), b.aliases_of(), rho, Set::empty(), f),
        s.root_of() == norm(Atom::Add(list_of(seq![a.root_of(), expand_once(b.root_of(), rho)]))),
        fused_expansion_pair(a, b, s, ea, eb),
    ensures
        fully_expanded(s.root_of(), s.aliases_of(), norm(Atom::Add(list_of(seq![ea, eb])))),
{
    lemma_fused_expands(AtomKind::Add, a.root_of(), a.aliases_of(), b.root_of(), b.aliases_of(), s.aliases_of(), rho, f, ea, eb);
}

/// Expanding the aliases of what `mul` gives, where the right-hand aliases use one another
/// without a cycle and none was left out, is multiplying the expansions of its operands.
pub proof fn lemma_mul_expands<F: Fn(&Atom) -> Atom>(a: AliasedAtom, b: AliasedAtom, s: AliasedAtom, rho: Map<Atom, Atom>, f: F, ea: Atom, eb: Atom)
    requires
        b.aliases_of().dom().finite(),
        acyclic(b.aliases_of()),
        fused_into(a.aliases_of(), s.aliases_of(), b.aliases_of(), rho, Set::empty(), f),
        s.root_of() == norm(Atom::Mul(list_of(seq![a.root_of(), expand_once(b.root_of(), rho)]))),
        fused_expansion_pair(a, b, s, ea, eb),
    ensures
        fully_expanded(s.root_of(), s.aliases_of(), norm(Atom::Mul(list_of(seq![ea, eb])))),
{
    lemma_fused_expands(AtomKind::Mul, a.root_of(), a.aliases_of(), b.root_of(), b.aliases_of(), s.aliases_of(), rho, f, ea, eb);
}

/// Expanding the aliases of what `pow` gives, where the right-hand aliases use one another
/// without a cycle and none was left out, is raising the expansion of the base to that of the
/// exponent.
pub proof fn lemma_pow_expands<F: Fn(&Atom) -> Atom>(a: AliasedAtom, b: AliasedAtom, s: AliasedAtom, rho: Map<Atom, Atom>, f: F, ea: Atom, eb: Atom)
    requires
        b.aliases_of().dom().finite(),
        acyclic(b.aliases_of()),
        fused_into(a.aliases_of(), s.aliases_of(), b.aliases_of(), rho, Set::empty(), f),
        s.root_of() == norm(Atom::Pow(Box::new(a.root_of()), Box::new(expand_once(b.root_of(), rho)))),
        fused_expansion_pair(a, b, s, ea, eb),
    ensures
        fully_expanded(s.root_of(), s.aliases_of(), norm(Atom::Pow(Box::new(ea), Box::new(eb)))),
{
    lemma_fused_expands(AtomKind::Pow, a.root_of(), a.aliases_of(), b.root_of(), b.aliases_of(), s.aliases_of(), rho, f, ea, eb);
}

/// Replacing one alias by another, as a map.
pub open spec fn swap_map(a: Atom, t: Atom) -> Map<Atom, Atom> {
    Map::<Atom, Atom>::empty().insert(a, t)
}

proof fn lemma_swap_is_lookup(a: Atom, t: Atom)
    ensures
        swap_for(a, t) == lookup_in(swap_map(a, t)),
{
    assert(swap_for(a, t) =~= lookup_in(swap_map(a, t)));
}

/// One round of expansion after redirecting `a` to `t`, where both stand for the same
/// definition, is the redirected round of expansion.
proof fn lemma_redirected_round(x: Atom, m: Map<Atom, Atom>, a: Atom, t: Atom)
    requires
        plain(x),
        handle_aliases(m),
        plain_definitions(m),
        m.dom().contains(a),
        m.dom().contains(t),
        a != t,
        m[a] == m[t],
    ensures
        handle_aliases(rename_bodies(m.remove(a), a, t)),
        plain_definitions(rename_bodies(m.remove(a), a, t)),
        expand_once(rename_in(x, a, t), rename_bodies(m.remove(a), a, t)) == rename_in(expand_once(x, m), a, t),
{
    let sw = swap_map(a, t);
    let m2 = rename_bodies(m.remove(a), a, t);
    lemma_swap_is_lookup(a, t);
    assert(handle_aliases(sw)) by {
        assert(is_handle(a));
    }
    assert(plain_definitions(sw)) by {
        assert(is_handle(t));
        lemma_handle_plain(t);
    }
    assert forall|k: Atom| #[trigger] m2.dom().contains(k) implies is_handle(k) && plain(m2[k]) by {
        assert(m.dom().contains(k));
        lemma_replace_plain(m[k], None, sw);
        lemma_norm_plain(replace(m[k], None, lookup_in(sw)));
    }
    let y = replace(x, None, lookup_in(sw));
    lemma_replace_plain(x, None, sw);
    lemma_norm_then_replace(y, None, m2);
    lemma_replace_then(x, None, sw, m2);
    let z = replace(x, None, lookup_in(m));
    lemma_replace_plain(x, None, m);
    lemma_norm_then_replace(z, None, sw);
    lemma_replace_then(x, None, m, sw);
    let c1 = then_map(sw, m2);
    let c2 = then_map(m, sw);
    assert(c1.dom() =~= c2.dom());
    assert forall|k: Atom| #[trigger] c1.dom().contains(k) implies norm(c1[k]) == norm(c2[k]) by {
        if k == a {
            assert(replace(t, None, lookup_in(m2)) == m2[t]);
            lemma_norm_idempotent(replace(m[t], None, lookup_in(sw)));
        } else {
            lemma_norm_idempotent(replace(m[k], None, lookup_in(sw)));
        }
    }
    lemma_replace_congruent(x, None, c1, c2);
}

proof fn lemma_redirected_rounds(x: Atom, m: Map<Atom, Atom>, a: Atom, t: Atom, j: nat)
    requires
        plain(x),
        handle_aliases(m),
        plain_definitions(m),
        m.dom().contains(a),
        m.dom().contains(t),
        a != t,
        m[a] == m[t],
    ensures
        expand_n(rename_in(x, a, t), rename_bodies(m.remove(a), a, t), j) == rename_in(expand_n(x, m, j), a, t),
    decreases j,
{
    if j > 0 {
        let j1 = (j - 1) as nat;
        lemma_redirected_rounds(x, m, a, t, j1);
        lemma_expand_plain(x, m, j1);
        lemma_redirected_round(expand_n(x, m, j1), m, a, t);
    }
}

/// Redirecting an alias to another alias with the same definition, in the root and in the
/// other definitions, and dropping it, keeps the full expansion (in normal form).
pub proof fn lemma_redirect_keeps_expansion(root: Atom, m: Map<Atom, Atom>, a: Atom, t: Atom, e: Atom)
    requires
        m.dom().finite(),
        acyclic(m),
        handle_aliases(m),
        plain_definitions(m),
        plain(root),
        m.dom().contains(a),
        m.dom().contains(t),
        a != t,
        m[a] == m[t],
        fully_expanded(root, m, e),
    ensures
        fully_expanded(rename_in(root, a, t), rename_bodies(m.remove(a), a, t), norm(e)),
{
    let m2 = rename_bodies(m.remove(a), a, t);
    let r2 = rename_in(root, a, t);
    let k = choose|k: nat| e == expand_n(root, m, k) && settles_at(root, m, k) && forall|j: nat| j < k ==> !settles_at(root, m, j);
    lemma_settled_stays(root, m, k, k + 1);
    lemma_redirected_rounds(root, m, a, t, k);
    lemma_redirected_rounds(root, m, a, t, k + 1);
    lemma_plain_expandable(root, m);
    lemma_acyclic_settles(root, m);
    let clean = choose|r: Atom| fully_expanded(root, m, r) && forall|x: Atom| #[trigger] m.dom().contains(x) ==> !contains(r, x);
    lemma_fully_expanded_unique(root, m, e, clean);
    let sw = swap_map(a, t);
    lemma_swap_is_lookup(a, t);
    assert forall|x: Atom| sw.dom().contains(x) implies !#[trigger] contains(e, x) by {
        assert(m.dom().contains(x));
    }
    lemma_replace_without_aliases(e, None, sw);
    assert(rename_in(e, a, t) == norm(e));
    assert(settles_at(r2, m2, k));
    let first = lemma_first_settled(r2, m2, k);
    lemma_settled_stays(r2, m2, first, k);
}

/// One round of expansion after renaming `a` to a fresh handle `t` is the renamed round of
/// expansion, for an atom without `t`.
proof fn lemma_fresh_renamed_round(x: Atom, m: Map<Atom, Atom>, a: Atom, t: Atom)
    requires
        plain(x),
        handle_aliases(m),
        plain_definitions(m),
        is_handle(t),
        m.dom().contains(a),
        !m.dom().contains(t),
        !contains(m[a], a),
        !contains(x, t),
    ensures
        handle_aliases(renamed_map(m, a, t)),
        plain_definitions(renamed_map(m, a, t)),
        expand_once(rename_in(x, a, t), renamed_map(m, a, t)) == rename_in(expand_once(x, m), a, t),
{
    let sw = swap_map(a, t);
    let m2 = renamed_map(m, a, t);
    lemma_swap_is_lookup(a, t);
    assert(handle_aliases(sw)) by {
        assert(is_handle(a));
    }
    assert(plain_definitions(sw)) by {
        lemma_handle_plain(t);
    }
    assert forall|k: Atom| #[trigger] m2.dom().contains(k) implies is_handle(k) && plain(m2[k]) by {
        if k != t {
            assert(m.dom().contains(k));
            lemma_replace_plain(m[k], None, sw);
            lemma_norm_plain(replace(m[k], None, lookup_in(sw)));
        }
    }
    let y = replace(x, None, lookup_in(sw));
    lemma_replace_plain(x, None, sw);
    lemma_norm_then_replace(y, None, m2);
    lemma_replace_then(x, None, sw, m2);
    let z = replace(x, None, lookup_in(m));
    lemma_replace_plain(x, None, m);
    lemma_norm_then_replace(z, None, sw);
    lemma_replace_then(x, None, m, sw);
    let c1 = then_map(sw, m2);
    let c2 = then_map(m, sw);
    let c1r = c1.restrict(m.dom());
    assert(c1r.submap_of(c1));
    assert forall|k: Atom| #[trigger] c1.dom().contains(k) && contains(x, k) implies c1r.dom().contains(k) by {}
    lemma_replace_agree(x, None, c1r, c1);
    assert(c1r.dom() =~= c2.dom());
    assert forall|k: Atom| #[trigger] c1r.dom().contains(k) implies norm(c1r[k]) == norm(c2[k]) by {
        if k == a {
            assert(replace(t, None, lookup_in(m2)) == m2[t]);
            assert forall|j: Atom| sw.dom().contains(j) implies !#[trigger] contains(m[a], j) by {}
            lemma_replace_without_aliases(m[a], None, sw);
        } else {
            lemma_norm_idempotent(replace(m[k], None, lookup_in(sw)));
        }
    }
    lemma_replace_congruent(x, None, c1r, c2);
}

proof fn lemma_fresh_renamed_rounds(x: Atom, m: Map<Atom, Atom>, a: Atom, t: Atom, j: nat)
    requires
        plain(x),
        handle_aliases(m),
        plain_definitions(m),
        is_handle(t),
        m.dom().contains(a),
        !m.dom().contains(t),
        !contains(m[a], a),
        !contains(x, t),
        forall|k: Atom| #[trigger] m.dom().contains(k) ==> !contains(m[k], t),
    ensures
        expand_n(rename_in(x, a, t), renamed_map(m, a, t), j) == rename_in(expand_n(x, m, j), a, t),
        !contains(expand_n(x, m, j), t),
    decreases j,
{
    if j > 0 {
        let j1 = (j - 1) as nat;
        lemma_fresh_renamed_rounds(x, m, a, t, j1);
        let e = expand_n(x, m, j1);
        lemma_expand_plain(x, m, j1);
        lemma_fresh_renamed_round(e, m, a, t);
        let re = replace(e, None, lookup_in(m));
        lemma_replace_plain(e, None, m);
        if contains(expand_n(x, m, j), t) {
            lemma_plain_anchored(re);
            lemma_plain_nonnum(m);
            lemma_norm_holds(re, t);
            lemma_replace_holds(e, None, m, t);
            let i = choose|i: Atom| m.dom().contains(i) && #[trigger] contains(e, i) && contains(m[i], t);
        }
    }
}

/// Renaming an alias, in the root and in the definitions, to a handle that is either fresh
/// (no alias, and nowhere in the root or the definitions) or an alias with the same
/// definition keeps the full expansion (in normal form).
pub proof fn lemma_rename_keeps_expansion(root: Atom, m: Map<Atom, Atom>, a: Atom, t: Atom, e: Atom)
    requires
        m.dom().finite(),
        acyclic(m),
        handle_aliases(m),
        plain_definitions(m),
        plain(root),
        is_handle(t),
        m.dom().contains(a),
        a != t,
        m.dom().contains(t) ==> m[t] == m[a],
        !m.dom().contains(t) ==> !contains(root, t) && forall|k: Atom| #[trigger] m.dom().contains(k) ==> !contains(m[k], t),
        fully_expanded(root, m, e),
    ensures
        fully_expanded(rename_in(root, a, t), renamed_map(m, a, t), norm(e)),
{
    if m.dom().contains(t) {
        assert(renamed_map(m, a, t) =~= rename_bodies(m.remove(a), a, t));
        lemma_redirect_keeps_expansion(root, m, a, t, e);
    } else {
        let m2 = renamed_map(m, a, t);
        let r2 = rename_in(root, a, t);
        let rank = choose|rank: spec_fn(Atom) -> nat| ranked(m, rank);
        assert(!contains(m[a], a)) by {
            if contains(m[a], a) {
                lemma_use_of_handle(m[a], m.dom(), a);
                assert(key_uses(m[a], m.dom()).contains(a));
            }
        }
        let k = choose|k: nat| e == expand_n(root, m, k) && settles_at(root, m, k) && forall|j: nat| j < k ==> !settles_at(root, m, j);
        lemma_settled_stays(root, m, k, k + 1);
        lemma_fresh_renamed_rounds(root, m, a, t, k);
        lemma_fresh_renamed_rounds(root, m, a, t, k + 1);
        lemma_plain_expandable(root, m);
        lemma_acyclic_settles(root, m);
        let clean = choose|r: Atom| fully_expanded(root, m, r) && forall|x: Atom| #[trigger] m.dom().contains(x) ==> !contains(r, x);
        lemma_fully_expanded_unique(root, m, e, clean);
        let sw = swap_map(a, t);
        lemma_swap_is_lookup(a, t);
        assert forall|x: Atom| sw.dom().contains(x) implies !#[trigger] contains(e, x) by {
            assert(m.dom().contains(x));
        }
        lemma_replace_without_aliases(e, None, sw);
        assert(rename_in(e, a, t) == norm(e));
        assert(settles_at(r2, m2, k));
        let first = lemma_first_settled(r2, m2, k);
        lemma_settled_stays(r2, m2, first, k);
    }
}

/// Where the aliases are handles, the outermost uses of aliases are aliases the atom holds.
proof fn lemma_uses_held(a: Atom, keys: Set<Atom>, d: Atom)
    requires
        key_uses(a, keys).contains(d),
    ensures
        contains(a, d),
        keys.contains(d),
    decreases a,
{
    if !keys.contains(a) {
        match a {
            Atom::Fun(_, l) => lemma_list_uses_held(l, keys, d),
            Atom::Add(l) => lemma_list_uses_held(l, keys, d),
            Atom::Mul(l) => lemma_list_uses_held(l, keys, d),
            Atom::Pow(b, e) => {
                if key_uses(*b, keys).contains(d) {
                    lemma_uses_held(*b, keys, d);
                } else {
                    lemma_uses_held(*e, keys, d);
                }
            },
            _ => {},
        }
    }
}

proof fn lemma_list_uses_held(l: AtomList, keys: Set<Atom>, d: Atom)
    requires
        key_uses_list(l, keys).contains(d),
    ensures
        list_contains(l, d),
        keys.contains(d),
    decreases l,
{
    match l {
        AtomList::Nil => {},
        AtomList::Cons(h, t) => {
            if key_uses(*h, keys).contains(d) {
                lemma_uses_held(*h, keys, d);
            } else {
                lemma_list_uses_held(*t, keys, d);
            }
        },
    }
}

/// Redirecting `a` to an alias `t` with the same definition keeps the definitions free of
/// cycles.
proof fn lemma_redirect_acyclic(m: Map<Atom, Atom>, a: Atom, t: Atom)
    requires
        acyclic(m),
        handle_aliases(m),
        plain_definitions(m),
        m.dom().contains(a),
        m.dom().contains(t),
        a != t,
        m[a] == m[t],
    ensures
        acyclic(rename_bodies(m.remove(a), a, t)),
{
    let m2 = rename_bodies(m.remove(a), a, t);
    let rank = choose|rank: spec_fn(Atom) -> nat| ranked(m, rank);
    let r2 = |k: Atom| if k == t { if rank(a) < rank(t) { rank(a) } else { rank(t) } } else { rank(k) };
    let sw = swap_map(a, t);
    lemma_swap_is_lookup(a, t);
    assert(handle_aliases(sw)) by {
        assert(is_handle(a));
    }
    assert(plain_definitions(sw)) by {
        assert(is_handle(t));
        lemma_handle_plain(t);
    }
    assert forall|k: Atom, d: Atom| m2.dom().contains(k) && #[trigger] key_uses(m2[k], m2.dom()).contains(d) implies r2(d) < r2(k) by {
        lemma_uses_held(m2[k], m2.dom(), d);
        assert(m.dom().contains(d));
        assert(is_handle(d));
        let y = replace(m[k], None, lookup_in(sw));
        lemma_replace_plain(m[k], None, sw);
        lemma_plain_anchored(y);
        lemma_plain_nonnum(sw);
        lemma_norm_holds(y, d);
        lemma_replace_holds(m[k], None, sw, d);
        if contains(m[k], d) && !sw.dom().contains(d) {
            lemma_use_of_handle(m[k], m.dom(), d);
            if k == t {
                lemma_use_of_handle(m[a], m.dom(), d);
            }
        } else {
            let i = choose|i: Atom| sw.dom().contains(i) && #[trigger] contains(m[k], i) && contains(sw[i], d);
            assert(i == a);
            assert(contains(t, d));
            if d != t {
                if let Atom::Fun(_, l) = t {
                    lemma_number_args_hold(l, d);
                }
            }
            assert(contains(m[k], a) && d == t);
            lemma_use_of_handle(m[k], m.dom(), a);
            if k == t {
                lemma_use_of_handle(m[a], m.dom(), a);
            }
        }
    }
    assert(ranked(m2, r2));
}

/// Each redirection in `r` sends an alias of `m` to another alias of `m` with the same
/// definition; no alias is redirected twice, and none is redirected to a redirected one.
pub open spec fn redirections_ok(m: Map<Atom, Atom>, r: Seq<(Atom, Atom)>) -> bool {
    &&& forall|i: int|
        0 <= i < r.len() ==> m.dom().contains(#[trigger] r[i].0) && m.dom().contains(r[i].1) && r[i].0 != r[i].1
            && m[r[i].0] == m[r[i].1]
    &&& forall|i: int, j: int| 0 <= i < j < r.len() ==> r[i].0 != r[j].0
    &&& forall|i: int, j: int| 0 <= i < r.len() && 0 <= j < r.len() ==> r[i].1 != r[j].0
}

proof fn lemma_redirections_ok_prefix(m: Map<Atom, Atom>, r: Seq<(Atom, Atom)>)
    requires
        redirections_ok(m, r),
        r.len() > 0,
    ensures
        redirections_ok(m, r.drop_last()),
{
    let p = r.drop_last();
    assert forall|i: int| 0 <= i < p.len() implies m.dom().contains(#[trigger] p[i].0) && m.dom().contains(p[i].1) && p[i].0
        != p[i].1 && m[p[i].0] == m[p[i].1] by {
        assert(p[i] == r[i]);
    }
    assert forall|i: int, j: int| 0 <= i < j < p.len() implies p[i].0 != p[j].0 by {
        assert(p[i] == r[i] && p[j] == r[j]);
    }
    assert forall|i: int, j: int| 0 <= i < p.len() && 0 <= j < p.len() implies p[i].1 != p[j].0 by {
        assert(p[i] == r[i] && p[j] == r[j]);
    }
}

/// Applying redirections that `redirections_ok` admits keeps the full expansion, and the map
/// free of cycles.
proof fn lemma_redirections_keep(root: Atom, m: Map<Atom, Atom>, r: Seq<(Atom, Atom)>, e: Atom)
    requires
        m.dom().finite(),
        acyclic(m),
        handle_aliases(m),
        plain_definitions(m),
        plain(root),
        redirections_ok(m, r),
        fully_expanded(root, m, e),
    ensures
        ({
            let (root2, m2) = apply_redirections(root, m, r);
            &&& fully_expanded(root2, m2, norm(e))
            &&& m2.dom().finite()
            &&& acyclic(m2)
            &&& handle_aliases(m2)
            &&& plain_definitions(m2)
            &&& plain(root2)
            &&& forall|x: Atom| #[trigger] m2.dom().contains(x) <==> m.dom().contains(x) && forall|i: int|
                0 <= i < r.len() ==> r[i].0 != x
            &&& forall|x: Atom, y: Atom|
                m2.dom().contains(x) && m2.dom().contains(y) && m[x] == m[y] ==> #[trigger] m2[x] == #[trigger] m2[y]
        }),
    decreases r.len(),
{
    if r.len() == 0 {
        lemma_norm_normal_expansion(root, m, e);
    } else {
        let p = r.drop_last();
        lemma_redirections_ok_prefix(m, r);
        lemma_redirections_keep(root, m, p, e);
        let (root1, m1) = apply_redirections(root, m, p);
        let (a, t) = r.last();
        assert(r.last() == r[r.len() - 1]);
        assert(m1.dom().contains(a)) by {
            assert forall|i: int| 0 <= i < p.len() implies p[i].0 != a by {
                assert(p[i] == r[i]);
            }
        }
        assert(m1.dom().contains(t)) by {
            assert forall|i: int| 0 <= i < p.len() implies p[i].0 != t by {
                assert(p[i] == r[i]);
            }
        }
        assert(m1[a] == m1[t]);
        lemma_redirect_keeps_expansion(root1, m1, a, t, norm(e));
        lemma_norm_idempotent(e);
        lemma_redirect_acyclic(m1, a, t);
        lemma_redirected_round(root1, m1, a, t);
        let sw = swap_map(a, t);
        lemma_swap_is_lookup(a, t);
        assert(handle_aliases(sw)) by {
            assert(is_handle(a));
        }
        assert(plain_definitions(sw)) by {
            assert(is_handle(t));
            lemma_handle_plain(t);
        }
        lemma_replace_plain(root1, None, sw);
        lemma_norm_plain(replace(root1, None, lookup_in(sw)));
        let m2 = rename_bodies(m1.remove(a), a, t);
        assert(m2.dom() =~= m1.dom().remove(a));
        assert forall|x: Atom| #[trigger] m2.dom().contains(x) <==> m.dom().contains(x) && forall|i: int|
            0 <= i < r.len() ==> r[i].0 != x by {
            if m2.dom().contains(x) {
                assert forall|i: int| 0 <= i < r.len() implies r[i].0 != x by {
                    if i < p.len() {
                        assert(p[i] == r[i]);
                    }
                }
            }
            if m.dom().contains(x) && forall|i: int| 0 <= i < r.len() ==> r[i].0 != x {
                assert forall|i: int| 0 <= i < p.len() implies p[i].0 != x by {
                    assert(p[i] == r[i]);
                }
                assert(r[r.len() - 1].0 != x);
            }
        }
    }
}

/// A full expansion is in normal form.
proof fn lemma_norm_normal_expansion(root: Atom, m: Map<Atom, Atom>, e: Atom)
    requires
        fully_expanded(root, m, e),
    ensures
        norm(e) == e,
{
    let k = choose|k: nat| e == expand_n(root, m, k) && settles_at(root, m, k) && forall|j: nat| j < k ==> !settles_at(root, m, j);
    if k > 0 {
        let p = expand_n(root, m, (k - 1) as nat);
        lemma_norm_idempotent(replace(p, None, lookup_in(m)));
    } else {
        assert(expand_once(root, m) == root);
        lemma_norm_idempotent(replace(root, None, lookup_in(m)));
    }
}

/// What scanning for duplicates finds: each redirected alias is listed, and is sent to a
/// different listed alias with the same definition that is not redirected itself.
proof fn lemma_duplicate_scan(e: Seq<(Atom, Atom)>)
    requires
        forall|i: int, j: int| 0 <= i < j < e.len() ==> e[i].0 != e[j].0,
    ensures
        ({
            let (first, remap) = duplicate_scan(e);
            &&& forall|x: Atom|
                #[trigger] remap.dom().contains(x) ==> exists|i: int, j: int|
                    0 <= i < e.len() && 0 <= j < e.len() && e[i].0 == x && e[j].0 == remap[x] && e[j].1 == e[i].1 && i != j
            &&& forall|x: Atom| #[trigger] remap.dom().contains(x) ==> !remap.dom().contains(remap[x])
            &&& forall|b: Atom|
                #[trigger] first.dom().contains(b) ==> !remap.dom().contains(first[b]) && exists|j: int|
                    0 <= j < e.len() && e[j].0 == first[b] && e[j].1 == b
            &&& forall|x: Atom| #[trigger] remap.dom().contains(x) ==> exists|i: int| 0 <= i < e.len() && e[i].0 == x
        }),
    decreases e.len(),
{
    if e.len() > 0 {
        let p = e.drop_last();
        assert forall|i: int, j: int| 0 <= i < j < p.len() implies p[i].0 != p[j].0 by {
            assert(p[i] == e[i] && p[j] == e[j]);
        }
        lemma_duplicate_scan(p);
        let (first, remap) = duplicate_scan(p);
        let (alias, body) = e.last();
        let n = e.len() - 1;
        assert(e[n] == e.last());
        assert forall|i: int| 0 <= i < p.len() implies p[i] == e[i] && p[i].0 != alias by {}
        assert(!remap.dom().contains(alias)) by {
            if remap.dom().contains(alias) {
                let i = choose|i: int| 0 <= i < p.len() && p[i].0 == alias;
            }
        }
        assert forall|b: Atom| #[trigger] first.dom().contains(b) implies first[b] != alias by {
            let j = choose|j: int| 0 <= j < p.len() && p[j].0 == first[b] && p[j].1 == b;
        }
        assert forall|x: Atom| #[trigger] remap.dom().contains(x) implies remap[x] != alias by {
            let (i, j) = choose|i: int, j: int|
                0 <= i < p.len() && 0 <= j < p.len() && p[i].0 == x && p[j].0 == remap[x] && p[j].1 == p[i].1 && i != j;
        }
        let (first2, remap2) = duplicate_scan(e);
        if first.dom().contains(body) {
            assert(remap2 == remap.insert(alias, first[body]));
            assert(first2 == first);
            assert forall|x: Atom| #[trigger] remap2.dom().contains(x) implies exists|i: int, j: int|
                0 <= i < e.len() && 0 <= j < e.len() && e[i].0 == x && e[j].0 == remap2[x] && e[j].1 == e[i].1 && i != j by {
                if x == alias {
                    let j = choose|j: int| 0 <= j < p.len() && p[j].0 == first[body] && p[j].1 == body;
                    assert(e[n].0 == x && e[j].0 == remap2[x] && e[j].1 == e[n].1 && n != j);
                } else {
                    let (i, j) = choose|i: int, j: int|
                        0 <= i < p.len() && 0 <= j < p.len() && p[i].0 == x && p[j].0 == remap[x] && p[j].1 == p[i].1 && i != j;
                    assert(e[i].0 == x && e[j].0 == remap2[x] && e[j].1 == e[i].1 && i != j);
                }
            }
            assert forall|x: Atom| #[trigger] remap2.dom().contains(x) implies exists|i: int| 0 <= i < e.len() && e[i].0 == x by {
                if x == alias {
                    assert(e[n].0 == x);
                } else {
                    let i = choose|i: int| 0 <= i < p.len() && p[i].0 == x;
                    assert(e[i].0 == x);
                }
            }
            assert forall|b: Atom| #[trigger] first2.dom().contains(b) implies exists|j: int|
                0 <= j < e.len() && e[j].0 == first2[b] && e[j].1 == b by {
                let j = choose|j: int| 0 <= j < p.len() && p[j].0 == first[b] && p[j].1 == b;
                assert(e[j].0 == first2[b] && e[j].1 == b);
            }
        } else {
            assert(remap2 == remap);
            assert(first2 == first.insert(body, alias));
            assert forall|x: Atom| #[trigger] remap2.dom().contains(x) implies exists|i: int, j: int|
                0 <= i < e.len() && 0 <= j < e.len() && e[i].0 == x && e[j].0 == remap2[x] && e[j].1 == e[i].1 && i != j by {
                let (i, j) = choose|i: int, j: int|
                    0 <= i < p.len() && 0 <= j < p.len() && p[i].0 == x && p[j].0 == remap[x] && p[j].1 == p[i].1 && i != j;
                assert(e[i].0 == x && e[j].0 == remap2[x] && e[j].1 == e[i].1 && i != j);
            }
            assert forall|x: Atom| #[trigger] remap2.dom().contains(x) implies exists|i: int| 0 <= i < e.len() && e[i].0 == x by {
                let i = choose|i: int| 0 <= i < p.len() && p[i].0 == x;
                assert(e[i].0 == x);
            }
            assert forall|b: Atom| #[trigger] first2.dom().contains(b) implies exists|j: int|
                0 <= j < e.len() && e[j].0 == first2[b] && e[j].1 == b by {
                if b == body {
                    assert(e[n].0 == first2[b] && e[n].1 == b);
                } else {
                    let j = choose|j: int| 0 <= j < p.len() && p[j].0 == first[b] && p[j].1 == b;
                    assert(e[j].0 == first2[b] && e[j].1 == b);
                }
            }
        }
    }
}

/// Fusing duplicate aliases keeps the full expansion (in normal form): the redirections that
/// `fuse_duplicate_aliases` applies, found by scanning the entries of the map, each send an
/// alias to one with the same definition.
pub proof fn lemma_fuse_duplicates_keep_expansion(root: Atom, m: Map<Atom, Atom>, e: Seq<(Atom, Atom)>, r: Seq<(Atom, Atom)>, ex: Atom)
    requires
        m.dom().finite(),
        acyclic(m),
        handle_aliases(m),
        plain_definitions(m),
        plain(root),
        listing(e, m),
        listing(r, duplicate_scan(e).1),
        fully_expanded(root, m, ex),
    ensures
        fully_expanded(apply_redirections(root, m, r).0, apply_redirections(root, m, r).1, ex),
{
    lemma_duplicate_scan(e);
    let remap = duplicate_scan(e).1;
    assert forall|i: int|
        0 <= i < r.len() implies m.dom().contains(#[trigger] r[i].0) && m.dom().contains(r[i].1) && r[i].0 != r[i].1
            && m[r[i].0] == m[r[i].1] by {
        let x = r[i].0;
        assert(remap.dom().contains(x));
        let (p, q) = choose|p: int, q: int|
            0 <= p < e.len() && 0 <= q < e.len() && e[p].0 == x && e[q].0 == remap[x] && e[q].1 == e[p].1 && p != q;
        assert(e[p].0 != e[q].0) by {
            if p < q {
                assert(e[p].0 != e[q].0);
            } else {
                assert(e[q].0 != e[p].0);
            }
        }
    }
    assert forall|i: int, j: int| 0 <= i < r.len() && 0 <= j < r.len() implies r[i].1 != r[j].0 by {
        assert(remap.dom().contains(r[i].0));
        assert(remap.dom().contains(r[j].0));
    }
    assert(redirections_ok(m, r));
    lemma_redirections_keep(root, m, r, ex);
    lemma_norm_normal_expansion(root, m, ex);
}

/// `a` is no number, and each of its sums and products has a term that is no number; numbers
/// may stand anywhere else.
pub open spec fn anchored(a: Atom) -> bool
    decreases a,
{
    match a {
        Atom::Num(_) => false,
        Atom::Var(_) => true,
        Atom::Fun(_, l) => anchored_args(l),
        Atom::Add(l) => has_term(l) && anchored_args(l),
        Atom::Mul(l) => has_term(l) && anchored_args(l),
        Atom::Pow(b, e) => (*b is Num || anchored(*b)) && (*e is Num || anchored(*e)),
    }
}

/// Each argument is a number or anchored.
pub open spec fn anchored_args(l: AtomList) -> bool
    decreases l,
{
    match l {
        AtomList::Nil => true,
        AtomList::Cons(h, t) => (*h is Num || anchored(*h)) && anchored_args(*t),
    }
}

/// Some argument is no number.
pub open spec fn has_term(l: AtomList) -> bool
    decreases l,
{
    match l {
        AtomList::Nil => false,
        AtomList::Cons(h, t) => !(*h is Num) || has_term(*t),
    }
}

/// Every definition of `m` is anchored.
pub open spec fn anchored_definitions(m: Map<Atom, Atom>) -> bool {
    forall|k: Atom| #[trigger] m.dom().contains(k) ==> anchored(m[k])
}

/// No definition of `m` is a number.
pub open spec fn nonnum_definitions(m: Map<Atom, Atom>) -> bool {
    forall|k: Atom| #[trigger] m.dom().contains(k) ==> !(m[k] is Num)
}

pub open spec fn all_anchored(s: Seq<Atom>) -> bool {
    forall|i: int| 0 <= i < s.len() ==> (#[trigger] s[i]) is Num || anchored(s[i])
}

pub open spec fn some_term(s: Seq<Atom>) -> bool {
    exists|i: int| 0 <= i < s.len() && !((#[trigger] s[i]) is Num)
}

proof fn lemma_anchored_seq(l: AtomList)
    ensures
        anchored_args(l) == all_anchored(seq_of(l)),
        has_term(l) == some_term(seq_of(l)),
    decreases l,
{
    match l {
        AtomList::Nil => {},
        AtomList::Cons(h, t) => {
            lemma_anchored_seq(*t);
            let s = seq_of(l);
            let st = seq_of(*t);
            assert(s.drop_first() =~= st);
            assert(s[0] == *h);
            assert forall|i: int| 0 < i < s.len() implies s[i] == st[i - 1] by {}
            if all_anchored(s) {
                assert forall|i: int| 0 <= i < st.len() implies (#[trigger] st[i]) is Num || anchored(st[i]) by {
                    assert(s[i + 1] == st[i]);
                }
            }
            if anchored_args(l) {
                assert forall|i: int| 0 <= i < s.len() implies (#[trigger] s[i]) is Num || anchored(s[i]) by {
                    if i > 0 {
                        assert(s[i] == st[i - 1]);
                    }
                }
            }
            if some_term(st) {
                let i = choose|i: int| 0 <= i < st.len() && !((#[trigger] st[i]) is Num);
                assert(s[i + 1] == st[i]);
            }
            if some_term(s) {
                let i = choose|i: int| 0 <= i < s.len() && !((#[trigger] s[i]) is Num);
                if i > 0 {
                    assert(st[i - 1] == s[i]);
                }
            }
        },
    }
}

proof fn lemma_anchored_parts(x: Atom, k: AtomKind)
    requires
        x is Num || anchored(x),
    ensures
        all_anchored(parts(x, k)),
        !(x is Num) ==> some_term(parts(x, k)),
{
    match x {
        Atom::Add(l) if k == AtomKind::Add => lemma_anchored_seq(l),
        Atom::Mul(l) if k == AtomKind::Mul => lemma_anchored_seq(l),
        _ => {
            if !(x is Num) {
                assert(!(parts(x, k)[0] is Num));
            }
        },
    }
}

proof fn lemma_anchored_flatten(s: Seq<Atom>, k: AtomKind)
    requires
        all_anchored(s),
    ensures
        all_anchored(flatten(s, k)),
        some_term(s) ==> some_term(flatten(s, k)),
    decreases s.len(),
{
    if s.len() > 0 {
        let t = s.drop_first();
        assert forall|i: int| 0 <= i < t.len() implies (#[trigger] t[i]) is Num || anchored(t[i]) by {
            assert(t[i] == s[i + 1]);
        }
        lemma_anchored_flatten(t, k);
        lemma_anchored_parts(s[0], k);
        let h = parts(s[0], k);
        let f = flatten(s, k);
        assert(f == h + flatten(t, k));
        assert forall|i: int| 0 <= i < f.len() implies (#[trigger] f[i]) is Num || anchored(f[i]) by {
            if i < h.len() {
                assert(f[i] == h[i]);
            } else {
                assert(f[i] == flatten(t, k)[i - h.len()]);
            }
        }
        if some_term(s) {
            let i = choose|i: int| 0 <= i < s.len() && !((#[trigger] s[i]) is Num);
            if i == 0 {
                let q = choose|q: int| 0 <= q < h.len() && !((#[trigger] h[q]) is Num);
                assert(f[q] == h[q]);
            } else {
                assert(t[i - 1] == s[i]);
                assert(some_term(t));
                let q = choose|q: int| 0 <= q < flatten(t, k).len() && !((#[trigger] flatten(t, k)[q]) is Num);
                assert(f[q + h.len()] == flatten(t, k)[q]);
            }
        }
    }
}

proof fn lemma_anchored_made(s: Seq<Atom>)
    requires
        all_anchored(s),
        some_term(s),
    ensures
        anchored(make_sum(s)),
        anchored(make_product(s)),
{
    lemma_nums_parts(s);
    let nn = non_nums(s);
    let fnum = folded_numbers(num_atoms(s));
    let terms = nn + fnum;
    let i0 = choose|i: int| 0 <= i < s.len() && !((#[trigger] s[i]) is Num);
    lemma_non_nums_keeps(s, i0);
    assert forall|i: int| 0 <= i < fnum.len() implies (#[trigger] fnum[i]) is Num by {
        match fold_nums(0, num_atoms(s)) {
            Some(t) => {},
            None => {
                assert(fnum[i] == num_atoms(s)[i]);
            },
        }
    }
    assert forall|i: int| 0 <= i < terms.len() implies (#[trigger] terms[i]) is Num || anchored(terms[i]) by {
        if i < nn.len() {
            assert(terms[i] == nn[i]);
            assert(s.contains(nn[i]));
            let j = choose|j: int| 0 <= j < s.len() && s[j] == nn[i];
        } else {
            assert(terms[i] == fnum[i - nn.len()]);
        }
    }
    assert(terms[0] == nn[0]);
    assert(!(terms[0] is Num));
    if terms.len() > 1 {
        lemma_seq_of_list_of(terms);
        lemma_anchored_seq(list_of(terms));
    }
    if s.len() > 1 {
        lemma_seq_of_list_of(s);
        lemma_anchored_seq(list_of(s));
    } else {
        assert(i0 == 0);
    }
}

/// A sequence with a term that is no number keeps one among its non-numbers.
proof fn lemma_non_nums_keeps(s: Seq<Atom>, i: int)
    requires
        0 <= i < s.len(),
        !(s[i] is Num),
    ensures
        non_nums(s).len() > 0,
    decreases s.len(),
{
    if !(s[0] is Num) {
        assert(non_nums(s) == seq![s[0]] + non_nums(s.drop_first()));
    } else {
        assert(s.drop_first()[i - 1] == s[i]);
        lemma_non_nums_keeps(s.drop_first(), i - 1);
        assert(non_nums(s) == Seq::<Atom>::empty() + non_nums(s.drop_first()));
    }
}

/// Normalizing keeps an atom anchored.
pub proof fn lemma_norm_anchored(a: Atom)
    requires
        anchored(a),
    ensures
        anchored(norm(a)),
    decreases a,
{
    match a {
        Atom::Fun(_, l) => lemma_norm_anchored_args(l),
        Atom::Add(l) => {
            lemma_norm_anchored_args(l);
            let s = seq_of(norm_list(l));
            lemma_anchored_seq(norm_list(l));
            lemma_anchored_flatten(s, AtomKind::Add);
            lemma_anchored_made(flatten(s, AtomKind::Add));
        },
        Atom::Mul(l) => {
            lemma_norm_anchored_args(l);
            let s = seq_of(norm_list(l));
            lemma_anchored_seq(norm_list(l));
            lemma_anchored_flatten(s, AtomKind::Mul);
            lemma_anchored_made(flatten(s, AtomKind::Mul));
        },
        Atom::Pow(b, e) => {
            if !(*b is Num) {
                lemma_norm_anchored(*b);
            }
            if !(*e is Num) {
                lemma_norm_anchored(*e);
            }
        },
        _ => {},
    }
}

proof fn lemma_norm_anchored_args(l: AtomList)
    requires
        anchored_args(l),
    ensures
        anchored_args(norm_list(l)),
        has_term(l) ==> has_term(norm_list(l)),
    decreases l,
{
    match l {
        AtomList::Nil => {},
        AtomList::Cons(h, t) => {
            if !(*h is Num) {
                lemma_norm_anchored(*h);
            }
            lemma_norm_anchored_args(*t);
        },
    }
}

/// Replacing handles by anchored definitions keeps an atom anchored.
pub proof fn lemma_replace_anchored(a: Atom, c: Option<AtomKind>, m: Map<Atom, Atom>)
    requires
        a is Num || anchored(a),
        handle_aliases(m),
        anchored_definitions(m),
    ensures
        a is Num ==> replace(a, c, lookup_in(m)) == a,
        anchored(a) ==> anchored(replace(a, c, lookup_in(m))),
    decreases a,
{
    if !m.dom().contains(a) {
        match a {
            Atom::Fun(_, l) => lemma_replace_anchored_args(l, AtomKind::Fun, m),
            Atom::Add(l) => lemma_replace_anchored_args(l, AtomKind::Add, m),
            Atom::Mul(l) => lemma_replace_anchored_args(l, AtomKind::Mul, m),
            Atom::Pow(b, e) => {
                lemma_replace_anchored(*b, Some(AtomKind::Pow), m);
                lemma_replace_anchored(*e, Some(AtomKind::Pow), m);
            },
            _ => {},
        }
    } else {
        assert(is_handle(a));
    }
}

proof fn lemma_replace_anchored_args(l: AtomList, p: AtomKind, m: Map<Atom, Atom>)
    requires
        anchored_args(l),
        handle_aliases(m),
        anchored_definitions(m),
    ensures
        anchored_args(replace_list(l, p, lookup_in(m))),
        has_term(l) ==> has_term(replace_list(l, p, lookup_in(m))),
    decreases l,
{
    match l {
        AtomList::Nil => {},
        AtomList::Cons(h, t) => {
            lemma_replace_anchored(*h, Some(p), m);
            lemma_replace_anchored_args(*t, p, m);
        },
    }
}

/// A plain atom is anchored.
proof fn lemma_plain_anchored(a: Atom)
    requires
        plain(a),
    ensures
        anchored(a),
    decreases a,
{
    match a {
        Atom::Fun(_, l) => lemma_plain_args_anchored(l),
        Atom::Add(l) => lemma_plain_list_anchored(l),
        Atom::Mul(l) => lemma_plain_list_anchored(l),
        Atom::Pow(b, e) => {
            if !(*b is Num) {
                lemma_plain_anchored(*b);
            }
            if !(*e is Num) {
                lemma_plain_anchored(*e);
            }
        },
        _ => {},
    }
}

proof fn lemma_plain_args_anchored(l: AtomList)
    requires
        plain_args(l),
    ensures
        anchored_args(l),
    decreases l,
{
    match l {
        AtomList::Nil => {},
        AtomList::Cons(h, t) => {
            if !(*h is Num) {
                lemma_plain_anchored(*h);
            }
            lemma_plain_args_anchored(*t);
        },
    }
}

proof fn lemma_plain_list_anchored(l: AtomList)
    requires
        plain_list(l),
    ensures
        anchored_args(l),
        l is Cons ==> has_term(l),
    decreases l,
{
    match l {
        AtomList::Nil => {},
        AtomList::Cons(h, t) => {
            lemma_plain_anchored(*h);
            lemma_plain_list_anchored(*t);
        },
    }
}

/// Anchored arguments that normalize to numbers were numbers.
proof fn lemma_norm_to_numbers_anchored(l: AtomList)
    requires
        anchored_args(l),
        number_args(norm_list(l)),
    ensures
        norm_list(l) == l,
    decreases l,
{
    match l {
        AtomList::Nil => {},
        AtomList::Cons(h, t) => {
            if !(*h is Num) {
                lemma_norm_anchored(*h);
            }
            lemma_norm_to_numbers_anchored(*t);
        },
    }
}

/// Handles with plain definitions, in a plain atom, can be expanded.
proof fn lemma_plain_expandable(a: Atom, m: Map<Atom, Atom>)
    requires
        handle_aliases(m),
        plain(a),
        plain_definitions(m),
    ensures
        expandable(a, m),
        nonnum_definitions(m),
{
    lemma_plain_anchored(a);
    assert forall|k: Atom| #[trigger] m.dom().contains(k) implies anchored(m[k]) by {
        lemma_plain_anchored(m[k]);
    }
}

proof fn lemma_plain_nonnum(m: Map<Atom, Atom>)
    requires
        plain_definitions(m),
    ensures
        nonnum_definitions(m),
{
}

} // verus!
