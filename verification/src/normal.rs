use crate::atom::{
    flatten, fold_nums, folded_numbers, kind_of, lemma_list_of_seq_of, lemma_seq_of_list_of, list_of, make_product,
    make_sum, non_nums, norm, norm_list, num_atoms, seq_of, Atom, AtomKind, AtomList,
};
use crate::alias::swap_for;
use crate::atom::{byte_size, contains, list_byte_size, list_contains, replace, replace_list};
use vstd::prelude::*;

verus! {

/// `a` is in normal form: sums and products have at least two arguments and none of their
/// own kind, the numbers of a sum come last and are already combined, and so on inside.
pub open spec fn is_normal(a: Atom) -> bool
    decreases a,
{
    match a {
        Atom::Num(_) => true,
        Atom::Var(_) => true,
        Atom::Fun(_, l) => list_normal(l),
        Atom::Add(l) => list_normal(l) && sum_shape(seq_of(l)),
        Atom::Mul(l) => list_normal(l) && product_shape(seq_of(l)),
        Atom::Pow(b, e) => is_normal(*b) && is_normal(*e),
    }
}

pub open spec fn list_normal(l: AtomList) -> bool
    decreases l,
{
    match l {
        AtomList::Nil => true,
        AtomList::Cons(h, t) => is_normal(*h) && list_normal(*t),
    }
}

pub open spec fn all_normal(s: Seq<Atom>) -> bool {
    forall|i: int| 0 <= i < s.len() ==> is_normal(#[trigger] s[i])
}

pub open spec fn none_of_kind(s: Seq<Atom>, k: AtomKind) -> bool {
    forall|i: int| 0 <= i < s.len() ==> kind_of(#[trigger] s[i]) != k
}

pub open spec fn all_nums(s: Seq<Atom>) -> bool {
    forall|i: int| 0 <= i < s.len() ==> (#[trigger] s[i]) is Num
}

pub open spec fn no_nums(s: Seq<Atom>) -> bool {
    forall|i: int| 0 <= i < s.len() ==> !((#[trigger] s[i]) is Num)
}

/// The arguments of a normal sum.
pub open spec fn sum_shape(s: Seq<Atom>) -> bool {
    &&& s.len() >= 2
    &&& none_of_kind(s, AtomKind::Add)
    &&& s == non_nums(s) + num_atoms(s)
    &&& folded_numbers(num_atoms(s)) == num_atoms(s)
}

/// The arguments of a normal product.
pub open spec fn product_shape(s: Seq<Atom>) -> bool {
    &&& s.len() >= 2
    &&& none_of_kind(s, AtomKind::Mul)
}

pub proof fn lemma_list_normal_seq(l: AtomList)
    ensures
        list_normal(l) == all_normal(seq_of(l)),
    decreases l,
{
    match l {
        AtomList::Nil => {},
        AtomList::Cons(h, t) => {
            lemma_list_normal_seq(*t);
            let s = seq_of(l);
            let st = seq_of(*t);
            assert(s.drop_first() =~= st);
            assert(s[0] == *h);
            if list_normal(l) {
                assert forall|i: int| 0 <= i < s.len() implies is_normal(#[trigger] s[i]) by {
                    if i > 0 {
                        assert(s[i] == st[i - 1]);
                    }
                }
            }
            if all_normal(s) {
                assert(is_normal(s[0]));
                assert forall|i: int| 0 <= i < st.len() implies is_normal(#[trigger] st[i]) by {
                    assert(st[i] == s[i + 1]);
                }
            }
        },
    }
}

proof fn lemma_nums_concat(a: Seq<Atom>, b: Seq<Atom>)
    ensures
        non_nums(a + b) == non_nums(a) + non_nums(b),
        num_atoms(a + b) == num_atoms(a) + num_atoms(b),
    decreases a.len(),
{
    if a.len() == 0 {
        assert(a + b =~= b);
        assert(non_nums(a) + non_nums(b) =~= non_nums(b));
        assert(num_atoms(a) + num_atoms(b) =~= num_atoms(b));
    } else {
        lemma_nums_concat(a.drop_first(), b);
        assert((a + b).drop_first() =~= a.drop_first() + b);
        assert((a + b)[0] == a[0]);
        let h1 = if a[0] is Num { Seq::<Atom>::empty() } else { seq![a[0]] };
        let h2 = if a[0] is Num { seq![a[0]] } else { Seq::<Atom>::empty() };
        assert(non_nums(a + b) =~= h1 + (non_nums(a.drop_first()) + non_nums(b)));
        assert(num_atoms(a + b) =~= h2 + (num_atoms(a.drop_first()) + num_atoms(b)));
    }
}

/// The parts that `non_nums` and `num_atoms` keep come from the sequence and are what their
/// names say.
pub proof fn lemma_nums_parts(s: Seq<Atom>)
    ensures
        no_nums(non_nums(s)),
        all_nums(num_atoms(s)),
        forall|i: int| 0 <= i < non_nums(s).len() ==> s.contains(#[trigger] non_nums(s)[i]),
        forall|i: int| 0 <= i < num_atoms(s).len() ==> s.contains(#[trigger] num_atoms(s)[i]),
    decreases s.len(),
{
    if s.len() > 0 {
        let t = s.drop_first();
        lemma_nums_parts(t);
        let h1 = if s[0] is Num { Seq::<Atom>::empty() } else { seq![s[0]] };
        let h2 = if s[0] is Num { seq![s[0]] } else { Seq::<Atom>::empty() };
        let nn = non_nums(s);
        let na = num_atoms(s);
        assert(nn == h1 + non_nums(t));
        assert(na == h2 + num_atoms(t));
        assert forall|i: int| 0 <= i < nn.len() implies !((#[trigger] nn[i]) is Num) && s.contains(nn[i]) by {
            if i < h1.len() {
                assert(nn[i] == s[0]);
            } else {
                assert(nn[i] == non_nums(t)[i - h1.len()]);
                let j = choose|j: int| 0 <= j < t.len() && t[j] == nn[i];
                assert(s[j + 1] == t[j]);
            }
        }
        assert forall|i: int| 0 <= i < na.len() implies (#[trigger] na[i]) is Num && s.contains(na[i]) by {
            if i < h2.len() {
                assert(na[i] == s[0]);
            } else {
                assert(na[i] == num_atoms(t)[i - h2.len()]);
                let j = choose|j: int| 0 <= j < t.len() && t[j] == na[i];
                assert(s[j + 1] == t[j]);
            }
        }
    }
}

pub proof fn lemma_no_nums_split(s: Seq<Atom>)
    requires
        no_nums(s),
    ensures
        non_nums(s) == s,
        num_atoms(s) == Seq::<Atom>::empty(),
    decreases s.len(),
{
    if s.len() > 0 {
        lemma_no_nums_split(s.drop_first());
        assert(seq![s[0]] + s.drop_first() =~= s);
        assert(Seq::<Atom>::empty() + Seq::<Atom>::empty() =~= Seq::<Atom>::empty());
    }
}

proof fn lemma_all_nums_split(s: Seq<Atom>)
    requires
        all_nums(s),
    ensures
        non_nums(s) == Seq::<Atom>::empty(),
        num_atoms(s) == s,
    decreases s.len(),
{
    if s.len() > 0 {
        lemma_all_nums_split(s.drop_first());
        assert(seq![s[0]] + s.drop_first() =~= s);
        assert(Seq::<Atom>::empty() + Seq::<Atom>::empty() =~= Seq::<Atom>::empty());
    }
}

/// Combining the numbers once more changes nothing.
proof fn lemma_folded_twice(ns: Seq<Atom>)
    requires
        all_nums(ns),
    ensures
        all_nums(folded_numbers(ns)),
        folded_numbers(folded_numbers(ns)) == folded_numbers(ns),
{
    match fold_nums(0, ns) {
        Some(t) => {
            if t != 0 {
                let one = seq![Atom::Num(t)];
                assert(one.drop_first() =~= Seq::<Atom>::empty());
                assert(fold_nums(t, one.drop_first()) == Some(t));
                assert(fold_nums(0, one) == Some(t));
            } else {
                assert(fold_nums(0, Seq::<Atom>::empty()) == Some(0i64));
            }
        },
        None => {},
    }
}

proof fn lemma_concat_props(a: Seq<Atom>, b: Seq<Atom>, k: AtomKind)
    requires
        all_normal(a),
        all_normal(b),
        none_of_kind(a, k),
        none_of_kind(b, k),
    ensures
        all_normal(a + b),
        none_of_kind(a + b, k),
{
    assert forall|i: int| 0 <= i < (a + b).len() implies is_normal(#[trigger] (a + b)[i]) && kind_of((a + b)[i]) != k by {
        if i < a.len() {
            assert((a + b)[i] == a[i]);
        } else {
            assert((a + b)[i] == b[i - a.len()]);
        }
    }
}

/// Splicing the normal sums (or products) of a sequence of normal atoms into it leaves normal
/// atoms, none of that kind.
pub proof fn lemma_flatten_props(s: Seq<Atom>, k: AtomKind)
    requires
        all_normal(s),
        k == AtomKind::Add || k == AtomKind::Mul,
    ensures
        all_normal(flatten(s, k)),
        none_of_kind(flatten(s, k), k),
    decreases s.len(),
{
    if s.len() > 0 {
        let t = s.drop_first();
        assert forall|i: int| 0 <= i < t.len() implies is_normal(#[trigger] t[i]) by {
            assert(t[i] == s[i + 1]);
        }
        lemma_flatten_props(t, k);
        assert(is_normal(s[0]));
        let head = match s[0] {
            Atom::Add(l) if k == AtomKind::Add => seq_of(l),
            Atom::Mul(l) if k == AtomKind::Mul => seq_of(l),
            _ => seq![s[0]],
        };
        match s[0] {
            Atom::Add(l) if k == AtomKind::Add => {
                lemma_list_normal_seq(l);
            },
            Atom::Mul(l) if k == AtomKind::Mul => {
                lemma_list_normal_seq(l);
            },
            _ => {
                assert(head[0] == s[0]);
            },
        }
        lemma_concat_props(head, flatten(t, k), k);
    }
}

/// A sequence with no sum (or product) in it is left as it is by splicing.
pub proof fn lemma_flatten_id(s: Seq<Atom>, k: AtomKind)
    requires
        none_of_kind(s, k),
    ensures
        flatten(s, k) == s,
    decreases s.len(),
{
    if s.len() > 0 {
        let t = s.drop_first();
        assert forall|i: int| 0 <= i < t.len() implies kind_of(#[trigger] t[i]) != k by {
            assert(t[i] == s[i + 1]);
        }
        lemma_flatten_id(t, k);
        assert(kind_of(s[0]) != k);
        assert(seq![s[0]] + t =~= s);
    }
}

/// The normal form is normal.
pub proof fn lemma_norm_normal(a: Atom)
    ensures
        is_normal(norm(a)),
    decreases a,
{
    match a {
        Atom::Num(_) => {},
        Atom::Var(_) => {},
        Atom::Fun(_, l) => {
            lemma_norm_list_normal(l);
        },
        Atom::Add(l) => {
            lemma_norm_list_normal(l);
            lemma_list_normal_seq(norm_list(l));
            let s0 = seq_of(norm_list(l));
            lemma_flatten_props(s0, AtomKind::Add);
            let f = flatten(s0, AtomKind::Add);
            lemma_nums_parts(f);
            lemma_folded_twice(num_atoms(f));
            let nn = non_nums(f);
            let fo = folded_numbers(num_atoms(f));
            let terms = nn + fo;
            assert forall|i: int| 0 <= i < nn.len() implies is_normal(#[trigger] nn[i]) && kind_of(nn[i]) != AtomKind::Add by {
                let j = choose|j: int| 0 <= j < f.len() && f[j] == nn[i];
            }
            assert forall|i: int| 0 <= i < fo.len() implies is_normal(#[trigger] fo[i]) && kind_of(fo[i]) != AtomKind::Add by {
                assert(fo[i] is Num);
            }
            lemma_concat_props(nn, fo, AtomKind::Add);
            if terms.len() >= 2 {
                lemma_seq_of_list_of(terms);
                lemma_list_normal_seq(list_of(terms));
                lemma_nums_concat(nn, fo);
                lemma_no_nums_split(nn);
                lemma_all_nums_split(fo);
                assert(non_nums(terms) == nn);
                assert(num_atoms(terms) == fo);
                assert(sum_shape(terms));
            } else if terms.len() == 1 {
                assert(is_normal(terms[0]));
            }
        },
        Atom::Mul(l) => {
            lemma_norm_list_normal(l);
            lemma_list_normal_seq(norm_list(l));
            let s0 = seq_of(norm_list(l));
            lemma_flatten_props(s0, AtomKind::Mul);
            let f = flatten(s0, AtomKind::Mul);
            if f.len() >= 2 {
                lemma_seq_of_list_of(f);
                lemma_list_normal_seq(list_of(f));
            } else if f.len() == 1 {
                assert(is_normal(f[0]));
            }
        },
        Atom::Pow(b, e) => {
            lemma_norm_normal(*b);
            lemma_norm_normal(*e);
        },
    }
}

pub proof fn lemma_norm_list_normal(l: AtomList)
    ensures
        list_normal(norm_list(l)),
    decreases l,
{
    match l {
        AtomList::Nil => {},
        AtomList::Cons(h, t) => {
            lemma_norm_normal(*h);
            lemma_norm_list_normal(*t);
        },
    }
}

/// A normal atom is its own normal form.
pub proof fn lemma_normal_fixed(a: Atom)
    requires
        is_normal(a),
    ensures
        norm(a) == a,
    decreases a,
{
    match a {
        Atom::Num(_) => {},
        Atom::Var(_) => {},
        Atom::Fun(_, l) => {
            lemma_normal_list_fixed(l);
        },
        Atom::Add(l) => {
            lemma_normal_list_fixed(l);
            let s = seq_of(l);
            lemma_flatten_id(s, AtomKind::Add);
            lemma_list_of_seq_of(l);
            assert(make_sum(s) == Atom::Add(list_of(s)));
        },
        Atom::Mul(l) => {
            lemma_normal_list_fixed(l);
            let s = seq_of(l);
            lemma_flatten_id(s, AtomKind::Mul);
            lemma_list_of_seq_of(l);
        },
        Atom::Pow(b, e) => {
            lemma_normal_fixed(*b);
            lemma_normal_fixed(*e);
        },
    }
}

pub proof fn lemma_normal_list_fixed(l: AtomList)
    requires
        list_normal(l),
    ensures
        norm_list(l) == l,
    decreases l,
{
    match l {
        AtomList::Nil => {},
        AtomList::Cons(h, t) => {
            lemma_normal_fixed(*h);
            lemma_normal_list_fixed(*t);
        },
    }
}

/// Normalizing twice is normalizing once.
pub proof fn lemma_norm_idempotent(a: Atom)
    ensures
        norm(norm(a)) == norm(a),
{
    lemma_norm_normal(a);
    lemma_normal_fixed(norm(a));
}


/// An atom is at least as large as each of its subexpressions.
pub proof fn lemma_contains_size(a: Atom, x: Atom)
    requires
        contains(a, x),
    ensures
        byte_size(x) <= byte_size(a),
    decreases a,
{
    if a != x {
        match a {
            Atom::Fun(_, l) => lemma_list_contains_size(l, x),
            Atom::Add(l) => lemma_list_contains_size(l, x),
            Atom::Mul(l) => lemma_list_contains_size(l, x),
            Atom::Pow(b, e) => {
                if contains(*b, x) {
                    lemma_contains_size(*b, x);
                } else {
                    lemma_contains_size(*e, x);
                }
            },
            _ => {},
        }
    }
}

pub proof fn lemma_list_contains_size(l: AtomList, x: Atom)
    requires
        list_contains(l, x),
    ensures
        byte_size(x) <= list_byte_size(l),
    decreases l,
{
    match l {
        AtomList::Nil => {},
        AtomList::Cons(h, t) => {
            if contains(*h, x) {
                lemma_contains_size(*h, x);
            } else {
                lemma_list_contains_size(*t, x);
            }
        },
    }
}

/// Replacing a subexpression that does not occur changes nothing.
pub proof fn lemma_replace_absent(a: Atom, ctx: Option<AtomKind>, x: Atom, y: Atom)
    requires
        !contains(a, x),
    ensures
        replace(a, ctx, swap_for(x, y)) == a,
    decreases a,
{
    match a {
        Atom::Fun(_, l) => lemma_replace_list_absent(l, AtomKind::Fun, x, y),
        Atom::Add(l) => lemma_replace_list_absent(l, AtomKind::Add, x, y),
        Atom::Mul(l) => lemma_replace_list_absent(l, AtomKind::Mul, x, y),
        Atom::Pow(b, e) => {
            lemma_replace_absent(*b, Some(AtomKind::Pow), x, y);
            lemma_replace_absent(*e, Some(AtomKind::Pow), x, y);
        },
        _ => {},
    }
}

pub proof fn lemma_replace_list_absent(l: AtomList, p: AtomKind, x: Atom, y: Atom)
    requires
        !list_contains(l, x),
    ensures
        replace_list(l, p, swap_for(x, y)) == l,
    decreases l,
{
    match l {
        AtomList::Nil => {},
        AtomList::Cons(h, t) => {
            lemma_replace_absent(*h, Some(p), x, y);
            lemma_replace_list_absent(*t, p, x, y);
        },
    }
}

/// Where replacing `b` by `s` leaves no `s`, it replaced nothing.
proof fn lemma_replace_untouched(a: Atom, ctx: Option<AtomKind>, b: Atom, s: Atom)
    requires
        !contains(replace(a, ctx, swap_for(b, s)), s),
    ensures
        replace(a, ctx, swap_for(b, s)) == a,
    decreases a,
{
    if a != b {
        match a {
            Atom::Fun(_, l) => lemma_replace_list_untouched(l, AtomKind::Fun, b, s),
            Atom::Add(l) => lemma_replace_list_untouched(l, AtomKind::Add, b, s),
            Atom::Mul(l) => lemma_replace_list_untouched(l, AtomKind::Mul, b, s),
            Atom::Pow(x, y) => {
                lemma_replace_untouched(*x, Some(AtomKind::Pow), b, s);
                lemma_replace_untouched(*y, Some(AtomKind::Pow), b, s);
            },
            _ => {},
        }
    }
}

proof fn lemma_replace_list_untouched(l: AtomList, p: AtomKind, b: Atom, s: Atom)
    requires
        !list_contains(replace_list(l, p, swap_for(b, s)), s),
    ensures
        replace_list(l, p, swap_for(b, s)) == l,
    decreases l,
{
    match l {
        AtomList::Nil => {},
        AtomList::Cons(h, t) => {
            lemma_replace_untouched(*h, Some(p), b, s);
            lemma_replace_list_untouched(*t, p, b, s);
        },
    }
}

/// Replacing `b` by a fresh `s` and then `s` by `b` gives back the atom.
pub proof fn lemma_replace_inverse(a: Atom, c1: Option<AtomKind>, c2: Option<AtomKind>, b: Atom, s: Atom)
    requires
        !contains(a, s),
        !contains(b, s),
    ensures
        replace(replace(a, c1, swap_for(b, s)), c2, swap_for(s, b)) == a,
    decreases a,
{
    let a1 = replace(a, c1, swap_for(b, s));
    if a == b {
        assert(a1 == s);
    } else {
        assert(a != s);
        match a {
            Atom::Fun(h, l) => {
                let l1 = replace_list(l, AtomKind::Fun, swap_for(b, s));
                assert(a1 == Atom::Fun(h, l1));
                if list_contains(l1, s) {
                    lemma_list_contains_size(l1, s);
                } else {
                    lemma_replace_list_untouched(l, AtomKind::Fun, b, s);
                }
                lemma_replace_list_inverse(l, AtomKind::Fun, b, s);
            },
            Atom::Add(l) => {
                let l1 = replace_list(l, AtomKind::Add, swap_for(b, s));
                assert(a1 == Atom::Add(l1));
                if list_contains(l1, s) {
                    lemma_list_contains_size(l1, s);
                } else {
                    lemma_replace_list_untouched(l, AtomKind::Add, b, s);
                }
                lemma_replace_list_inverse(l, AtomKind::Add, b, s);
            },
            Atom::Mul(l) => {
                let l1 = replace_list(l, AtomKind::Mul, swap_for(b, s));
                assert(a1 == Atom::Mul(l1));
                if list_contains(l1, s) {
                    lemma_list_contains_size(l1, s);
                } else {
                    lemma_replace_list_untouched(l, AtomKind::Mul, b, s);
                }
                lemma_replace_list_inverse(l, AtomKind::Mul, b, s);
            },
            Atom::Pow(x, y) => {
                let x1 = replace(*x, Some(AtomKind::Pow), swap_for(b, s));
                let y1 = replace(*y, Some(AtomKind::Pow), swap_for(b, s));
                assert(a1 == Atom::Pow(Box::new(x1), Box::new(y1)));
                if contains(x1, s) {
                    lemma_contains_size(x1, s);
                } else if contains(y1, s) {
                    lemma_contains_size(y1, s);
                } else {
                    lemma_replace_untouched(*x, Some(AtomKind::Pow), b, s);
                    lemma_replace_untouched(*y, Some(AtomKind::Pow), b, s);
                }
                lemma_replace_inverse(*x, Some(AtomKind::Pow), Some(AtomKind::Pow), b, s);
                lemma_replace_inverse(*y, Some(AtomKind::Pow), Some(AtomKind::Pow), b, s);
            },
            _ => {},
        }
    }
}

pub proof fn lemma_replace_list_inverse(l: AtomList, p: AtomKind, b: Atom, s: Atom)
    requires
        !list_contains(l, s),
        !contains(b, s),
    ensures
        replace_list(replace_list(l, p, swap_for(b, s)), p, swap_for(s, b)) == l,
    decreases l,
{
    match l {
        AtomList::Nil => {},
        AtomList::Cons(h, t) => {
            lemma_replace_inverse(*h, Some(p), Some(p), b, s);
            lemma_replace_list_inverse(*t, p, b, s);
        },
    }
}


pub proof fn lemma_replace_list_seq(l: AtomList, p: AtomKind, f: spec_fn(Atom, Option<AtomKind>) -> Option<Atom>)
    ensures
        seq_of(replace_list(l, p, f)) == seq_of(l).map_values(|x: Atom| replace(x, Some(p), f)),
    decreases l,
{
    match l {
        AtomList::Nil => {
            assert(seq_of(l).map_values(|x: Atom| replace(x, Some(p), f)) =~= Seq::<Atom>::empty());
        },
        AtomList::Cons(h, t) => {
            lemma_replace_list_seq(*t, p, f);
            assert(seq_of(replace_list(l, p, f)) =~= seq_of(l).map_values(|x: Atom| replace(x, Some(p), f)));
        },
    }
}

/// A map that fixes numbers and keeps other atoms other than numbers commutes with taking
/// the non-numbers and leaves the numbers.
proof fn lemma_nums_map(sq: Seq<Atom>, g: spec_fn(Atom) -> Atom)
    requires
        forall|x: Atom| (x is Num ==> #[trigger] g(x) == x) && (!(x is Num) ==> !(g(x) is Num)),
    ensures
        non_nums(sq.map_values(g)) == non_nums(sq).map_values(g),
        num_atoms(sq.map_values(g)) == num_atoms(sq),
    decreases sq.len(),
{
    if sq.len() == 0 {
        assert(sq.map_values(g) =~= Seq::<Atom>::empty());
        assert(non_nums(sq).map_values(g) =~= Seq::<Atom>::empty());
    } else {
        let t = sq.drop_first();
        lemma_nums_map(t, g);
        let m = sq.map_values(g);
        assert(m.drop_first() =~= t.map_values(g));
        assert(m[0] == g(sq[0]));
        if sq[0] is Num {
            assert(non_nums(m) =~= non_nums(t.map_values(g)));
            assert(non_nums(sq) =~= non_nums(t));
        } else {
            assert(non_nums(m) =~= seq![g(sq[0])] + non_nums(t.map_values(g)));
            assert(non_nums(sq).map_values(g) =~= seq![g(sq[0])] + non_nums(t).map_values(g));
        }
    }
}

/// Replacing a subexpression other than a number by a variable or function keeps an atom
/// normal.
pub proof fn lemma_replace_keeps_normal(a: Atom, ctx: Option<AtomKind>, b: Atom, s: Atom)
    requires
        is_normal(a),
        is_normal(s),
        s is Var || s is Fun,
        !(b is Num),
    ensures
        is_normal(replace(a, ctx, swap_for(b, s))),
    decreases a,
{
    if a != b {
        match a {
            Atom::Fun(_, l) => lemma_replace_list_keeps_normal(l, AtomKind::Fun, b, s),
            Atom::Add(l) => {
                lemma_replace_list_keeps_normal(l, AtomKind::Add, b, s);
                lemma_replace_shape(l, AtomKind::Add, b, s);
            },
            Atom::Mul(l) => {
                lemma_replace_list_keeps_normal(l, AtomKind::Mul, b, s);
                lemma_replace_shape(l, AtomKind::Mul, b, s);
            },
            Atom::Pow(x, y) => {
                lemma_replace_keeps_normal(*x, Some(AtomKind::Pow), b, s);
                lemma_replace_keeps_normal(*y, Some(AtomKind::Pow), b, s);
            },
            _ => {},
        }
    }
}

pub proof fn lemma_replace_list_keeps_normal(l: AtomList, p: AtomKind, b: Atom, s: Atom)
    requires
        list_normal(l),
        is_normal(s),
        s is Var || s is Fun,
        !(b is Num),
    ensures
        list_normal(replace_list(l, p, swap_for(b, s))),
    decreases l,
{
    match l {
        AtomList::Nil => {},
        AtomList::Cons(h, t) => {
            lemma_replace_keeps_normal(*h, Some(p), b, s);
            lemma_replace_list_keeps_normal(*t, p, b, s);
        },
    }
}

/// The arguments of a normal sum (or product) keep their shape when `b` is replaced by `s`.
proof fn lemma_replace_shape(l: AtomList, p: AtomKind, b: Atom, s: Atom)
    requires
        p == AtomKind::Add ==> sum_shape(seq_of(l)),
        p == AtomKind::Mul ==> product_shape(seq_of(l)),
        s is Var || s is Fun,
        !(b is Num),
    ensures
        p == AtomKind::Add ==> sum_shape(seq_of(replace_list(l, p, swap_for(b, s)))),
        p == AtomKind::Mul ==> product_shape(seq_of(replace_list(l, p, swap_for(b, s)))),
{
    let f = swap_for(b, s);
    let g = |x: Atom| replace(x, Some(p), f);
    lemma_replace_list_seq(l, p, f);
    let sq = seq_of(l);
    let sq2 = seq_of(replace_list(l, p, f));
    assert(sq2 == sq.map_values(g));
    assert forall|x: Atom| (x is Num ==> #[trigger] g(x) == x) && (!(x is Num) ==> !(g(x) is Num)) by {
        if x is Num {
            assert(x != b);
        }
    }
    assert forall|i: int| 0 <= i < sq2.len() implies kind_of(#[trigger] sq2[i]) == kind_of(sq[i]) || sq2[i] == s by {
        assert(sq2[i] == g(sq[i]));
    }
    if p == AtomKind::Add {
        let nn = non_nums(sq);
        let na = num_atoms(sq);
        lemma_nums_map(sq, g);
        lemma_nums_parts(sq);
        assert(na.map_values(g) =~= na) by {
            assert forall|i: int| 0 <= i < na.len() implies na.map_values(g)[i] == na[i] by {
                assert(na[i] is Num);
            }
        }
        assert(sq.map_values(g) =~= nn.map_values(g) + na.map_values(g)) by {
            assert(sq == nn + na);
        }
        assert(sq2 == non_nums(sq2) + num_atoms(sq2));
    }
}


/// A replacement that never applies changes nothing.
pub proof fn lemma_replace_inert(a: Atom, ctx: Option<AtomKind>, f: spec_fn(Atom, Option<AtomKind>) -> Option<Atom>)
    requires
        forall|x: Atom, c: Option<AtomKind>| #[trigger] f(x, c) is None,
    ensures
        replace(a, ctx, f) == a,
    decreases a,
{
    assert(f(a, ctx) is None);
    match a {
        Atom::Fun(_, l) => lemma_replace_list_inert(l, AtomKind::Fun, f),
        Atom::Add(l) => lemma_replace_list_inert(l, AtomKind::Add, f),
        Atom::Mul(l) => lemma_replace_list_inert(l, AtomKind::Mul, f),
        Atom::Pow(b, e) => {
            lemma_replace_inert(*b, Some(AtomKind::Pow), f);
            lemma_replace_inert(*e, Some(AtomKind::Pow), f);
        },
        _ => {},
    }
}

pub proof fn lemma_replace_list_inert(l: AtomList, p: AtomKind, f: spec_fn(Atom, Option<AtomKind>) -> Option<Atom>)
    requires
        forall|x: Atom, c: Option<AtomKind>| #[trigger] f(x, c) is None,
    ensures
        replace_list(l, p, f) == l,
    decreases l,
{
    match l {
        AtomList::Nil => {},
        AtomList::Cons(h, t) => {
            lemma_replace_inert(*h, Some(p), f);
            lemma_replace_list_inert(*t, p, f);
        },
    }
}

} // verus!
