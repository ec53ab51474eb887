use vstd::prelude::*;

verus! {

/// A symbolic expression. Symbols are interned and identified by a number.
#[derive(PartialEq, Eq, Hash, Debug)]
pub enum Atom {
    Num(i64),
    Var(u32),
    Fun(u32, AtomList),
    Add(AtomList),
    Mul(AtomList),
    Pow(Box<Atom>, Box<Atom>),
}

/// The argument list of a function, sum or product.
#[derive(PartialEq, Eq, Hash, Debug)]
pub enum AtomList {
    Nil,
    Cons(Box<Atom>, Box<AtomList>),
}

/// The kind of the outermost node of an atom.
#[derive(PartialEq, Eq, Structural, Clone, Copy, Debug)]
pub enum AtomKind {
    Num,
    Var,
    Fun,
    Add,
    Mul,
    Pow,
}

pub open spec fn seq_of(l: AtomList) -> Seq<Atom>
    decreases l,
{
    match l {
        AtomList::Nil => Seq::empty(),
        AtomList::Cons(h, t) => seq![*h] + seq_of(*t),
    }
}

pub open spec fn list_of(s: Seq<Atom>) -> AtomList
    decreases s.len(),
{
    if s.len() == 0 {
        AtomList::Nil
    } else {
        AtomList::Cons(Box::new(s[0]), Box::new(list_of(s.drop_first())))
    }
}

pub proof fn lemma_list_of_seq_of(l: AtomList)
    ensures
        list_of(seq_of(l)) == l,
    decreases l,
{
    match l {
        AtomList::Nil => {},
        AtomList::Cons(h, t) => {
            lemma_list_of_seq_of(*t);
            assert((seq![*h] + seq_of(*t)).drop_first() =~= seq_of(*t));
        },
    }
}

pub proof fn lemma_seq_of_list_of(s: Seq<Atom>)
    ensures
        seq_of(list_of(s)) == s,
    decreases s.len(),
{
    if s.len() > 0 {
        lemma_seq_of_list_of(s.drop_first());
        assert(seq![s[0]] + s.drop_first() =~= s);
    }
}


/// The arguments of the sums (or products, by `kind`) in `s` spliced into one sequence.
pub open spec fn flatten(s: Seq<Atom>, kind: AtomKind) -> Seq<Atom>
    decreases s.len(),
{
    if s.len() == 0 {
        Seq::empty()
    } else {
        let head = match s[0] {
            Atom::Add(l) if kind == AtomKind::Add => seq_of(l),
            Atom::Mul(l) if kind == AtomKind::Mul => seq_of(l),
            _ => seq![s[0]],
        };
        head + flatten(s.drop_first(), kind)
    }
}

/// The atoms of `s` that are not numbers, in order.
pub open spec fn non_nums(s: Seq<Atom>) -> Seq<Atom>
    decreases s.len(),
{
    if s.len() == 0 {
        Seq::empty()
    } else {
        (if s[0] is Num { Seq::empty() } else { seq![s[0]] }) + non_nums(s.drop_first())
    }
}

/// The atoms of `s` that are numbers, in order.
pub open spec fn num_atoms(s: Seq<Atom>) -> Seq<Atom>
    decreases s.len(),
{
    if s.len() == 0 {
        Seq::empty()
    } else {
        (if s[0] is Num { seq![s[0]] } else { Seq::empty() }) + num_atoms(s.drop_first())
    }
}

/// The value of a number atom (zero for any other atom).
pub open spec fn num_value(a: Atom) -> int {
    match a {
        Atom::Num(n) => n as int,
        _ => 0,
    }
}

/// Adds the numbers of `s` to `acc` from left to right; `None` if a running sum leaves the
/// range of `i64`.
pub open spec fn fold_nums(acc: i64, s: Seq<Atom>) -> Option<i64>
    decreases s.len(),
{
    if s.len() == 0 {
        Some(acc)
    } else {
        let v = acc + num_value(s[0]);
        if i64::MIN <= v <= i64::MAX {
            fold_nums(v as i64, s.drop_first())
        } else {
            None
        }
    }
}

/// The numeric terms of a normal sum: their total, when it is nonzero and every running sum
/// fits in 64 bits; the numbers unchanged when a running sum does not fit.
pub open spec fn folded_numbers(ns: Seq<Atom>) -> Seq<Atom> {
    match fold_nums(0, ns) {
        Some(t) => if t == 0 { Seq::empty() } else { seq![Atom::Num(t)] },
        None => ns,
    }
}

/// The normal sum of the (already flattened) terms `s`.
pub open spec fn make_sum(s: Seq<Atom>) -> Atom {
    let terms = non_nums(s) + folded_numbers(num_atoms(s));
    if terms.len() == 0 {
        Atom::Num(0)
    } else if terms.len() == 1 {
        terms[0]
    } else {
        Atom::Add(list_of(terms))
    }
}

/// The normal product of the (already flattened) factors `s`.
pub open spec fn make_product(s: Seq<Atom>) -> Atom {
    if s.len() == 0 {
        Atom::Num(1)
    } else if s.len() == 1 {
        s[0]
    } else {
        Atom::Mul(list_of(s))
    }
}

/// The normal form of an atom: arguments are normalized, nested sums and products are
/// spliced into their parent, the numbers of a sum are combined into one trailing term
/// (dropped when zero), and sums and products of fewer than two terms are collapsed.
pub open spec fn norm(a: Atom) -> Atom
    decreases a,
{
    match a {
        Atom::Num(_) => a,
        Atom::Var(_) => a,
        Atom::Fun(s, l) => Atom::Fun(s, norm_list(l)),
        Atom::Add(l) => make_sum(flatten(seq_of(norm_list(l)), AtomKind::Add)),
        Atom::Mul(l) => make_product(flatten(seq_of(norm_list(l)), AtomKind::Mul)),
        Atom::Pow(b, e) => Atom::Pow(Box::new(norm(*b)), Box::new(norm(*e))),
    }
}

pub open spec fn norm_list(l: AtomList) -> AtomList
    decreases l,
{
    match l {
        AtomList::Nil => AtomList::Nil,
        AtomList::Cons(h, t) => AtomList::Cons(Box::new(norm(*h)), Box::new(norm_list(*t))),
    }
}

fn append(a: AtomList, b: AtomList) -> (r: AtomList)
    ensures
        seq_of(r) == seq_of(a) + seq_of(b),
    decreases a,
{
    match a {
        AtomList::Nil => {
            assert(seq_of(a) + seq_of(b) =~= seq_of(b));
            b
        },
        AtomList::Cons(h, t) => {
            let rest = append(*t, b);
            let r = AtomList::Cons(h, Box::new(rest));
            assert(seq_of(r) =~= seq_of(a) + seq_of(b));
            r
        },
    }
}

fn flatten_list(l: AtomList, kind: AtomKind) -> (r: AtomList)
    ensures
        seq_of(r) == flatten(seq_of(l), kind),
    decreases l,
{
    match l {
        AtomList::Nil => AtomList::Nil,
        AtomList::Cons(h, t) => {
            proof {
                assert(seq_of(l).drop_first() =~= seq_of(*t));
            }
            let rest = flatten_list(*t, kind);
            match *h {
                Atom::Add(inner) if kind == AtomKind::Add => append(inner, rest),
                Atom::Mul(inner) if kind == AtomKind::Mul => append(inner, rest),
                other => {
                    let r = AtomList::Cons(Box::new(other), Box::new(rest));
                    assert(seq_of(r) =~= seq![other] + seq_of(rest));
                    r
                },
            }
        },
    }
}

fn split_nums(l: AtomList) -> (r: (AtomList, AtomList))
    ensures
        seq_of(r.0) == non_nums(seq_of(l)),
        seq_of(r.1) == num_atoms(seq_of(l)),
    decreases l,
{
    match l {
        AtomList::Nil => (AtomList::Nil, AtomList::Nil),
        AtomList::Cons(h, t) => {
            proof {
                assert(seq_of(l).drop_first() =~= seq_of(*t));
            }
            let (others, nums) = split_nums(*t);
            match *h {
                Atom::Num(n) => {
                    let r = AtomList::Cons(Box::new(Atom::Num(n)), Box::new(nums));
                    assert(seq_of(r) =~= seq![Atom::Num(n)] + seq_of(nums));
                    assert(seq_of(others) =~= Seq::<Atom>::empty() + seq_of(others));
                    (others, r)
                },
                other => {
                    let r = AtomList::Cons(Box::new(other), Box::new(others));
                    assert(seq_of(r) =~= seq![other] + seq_of(others));
                    assert(seq_of(nums) =~= Seq::<Atom>::empty() + seq_of(nums));
                    (r, nums)
                },
            }
        },
    }
}

fn sum_nums(acc: i64, l: &AtomList) -> (r: Option<i64>)
    ensures
        r == fold_nums(acc, seq_of(*l)),
    decreases l,
{
    match l {
        AtomList::Nil => Some(acc),
        AtomList::Cons(h, t) => {
            proof {
                assert(seq_of(*l).drop_first() =~= seq_of(**t));
            }
            let v: i64 = match &**h {
                Atom::Num(n) => *n,
                _ => 0,
            };
            match acc.checked_add(v) {
                Some(s) => sum_nums(s, &**t),
                None => None,
            }
        },
    }
}

fn build_sum(l: AtomList) -> (r: Atom)
    ensures
        r == make_sum(seq_of(l)),
{
    let ghost s = seq_of(l);
    let (others, nums) = split_nums(l);
    let folded = match sum_nums(0, &nums) {
        Some(t) => {
            if t == 0 {
                AtomList::Nil
            } else {
                let f = AtomList::Cons(Box::new(Atom::Num(t)), Box::new(AtomList::Nil));
                assert(seq_of(AtomList::Nil) =~= Seq::<Atom>::empty());
                assert(seq_of(f) =~= seq![Atom::Num(t)]);
                f
            }
        },
        None => nums,
    };
    let terms = append(others, folded);
    proof {
        lemma_list_of_seq_of(terms);
    }
    assert(seq_of(AtomList::Nil) =~= Seq::<Atom>::empty());
    match terms {
        AtomList::Nil => Atom::Num(0),
        AtomList::Cons(h, t) => match *t {
            AtomList::Nil => *h,
            AtomList::Cons(h2, t2) => {
                let rest = AtomList::Cons(h2, t2);
                assert(seq_of(rest).len() >= 1);
                Atom::Add(AtomList::Cons(h, Box::new(rest)))
            },
        },
    }
}

fn build_product(l: AtomList) -> (r: Atom)
    ensures
        r == make_product(seq_of(l)),
{
    proof {
        lemma_list_of_seq_of(l);
    }
    assert(seq_of(AtomList::Nil) =~= Seq::<Atom>::empty());
    match l {
        AtomList::Nil => Atom::Num(1),
        AtomList::Cons(h, t) => match *t {
            AtomList::Nil => *h,
            AtomList::Cons(h2, t2) => {
                let rest = AtomList::Cons(h2, t2);
                assert(seq_of(rest).len() >= 1);
                Atom::Mul(AtomList::Cons(h, Box::new(rest)))
            },
        },
    }
}


/// The normal form of `a` (see `norm`).
pub fn normalize(a: Atom) -> (r: Atom)
    ensures
        r == norm(a),
    decreases a,
{
    match a {
        Atom::Num(n) => Atom::Num(n),
        Atom::Var(v) => Atom::Var(v),
        Atom::Fun(s, l) => Atom::Fun(s, normalize_list(l)),
        Atom::Add(l) => build_sum(flatten_list(normalize_list(l), AtomKind::Add)),
        Atom::Mul(l) => build_product(flatten_list(normalize_list(l), AtomKind::Mul)),
        Atom::Pow(b, e) => Atom::Pow(Box::new(normalize(*b)), Box::new(normalize(*e))),
    }
}

fn normalize_list(l: AtomList) -> (r: AtomList)
    ensures
        r == norm_list(l),
    decreases l,
{
    match l {
        AtomList::Nil => AtomList::Nil,
        AtomList::Cons(h, t) => AtomList::Cons(Box::new(normalize(*h)), Box::new(normalize_list(*t))),
    }
}

/// Top-down replacement: `f` sees each subexpression and the kind of its parent; where it
/// gives a result, that result takes the place of the subexpression, which is not entered;
/// elsewhere the arguments are visited.
pub open spec fn replace(
    a: Atom,
    ctx: Option<AtomKind>,
    f: spec_fn(Atom, Option<AtomKind>) -> Option<Atom>,
) -> Atom
    decreases a,
{
    match f(a, ctx) {
        Some(r) => r,
        None => match a {
            Atom::Fun(s, l) => Atom::Fun(s, replace_list(l, AtomKind::Fun, f)),
            Atom::Add(l) => Atom::Add(replace_list(l, AtomKind::Add, f)),
            Atom::Mul(l) => Atom::Mul(replace_list(l, AtomKind::Mul, f)),
            Atom::Pow(b, e) => Atom::Pow(
                Box::new(replace(*b, Some(AtomKind::Pow), f)),
                Box::new(replace(*e, Some(AtomKind::Pow), f)),
            ),
            _ => a,
        },
    }
}

pub open spec fn replace_list(
    l: AtomList,
    parent: AtomKind,
    f: spec_fn(Atom, Option<AtomKind>) -> Option<Atom>,
) -> AtomList
    decreases l,
{
    match l {
        AtomList::Nil => AtomList::Nil,
        AtomList::Cons(h, t) => AtomList::Cons(
            Box::new(replace(*h, Some(parent), f)),
            Box::new(replace_list(*t, parent, f)),
        ),
    }
}

/// `a` is `x` or holds `x` as a subexpression.
pub open spec fn contains(a: Atom, x: Atom) -> bool
    decreases a,
{
    a == x || match a {
        Atom::Fun(_, l) => list_contains(l, x),
        Atom::Add(l) => list_contains(l, x),
        Atom::Mul(l) => list_contains(l, x),
        Atom::Pow(b, e) => contains(*b, x) || contains(*e, x),
        _ => false,
    }
}

pub open spec fn list_contains(l: AtomList, x: Atom) -> bool
    decreases l,
{
    match l {
        AtomList::Nil => false,
        AtomList::Cons(h, t) => contains(*h, x) || list_contains(*t, x),
    }
}

/// The symbol `s` occurs in `a`, as a variable or as the head of a function.
pub open spec fn has_symbol(a: Atom, s: u32) -> bool
    decreases a,
{
    match a {
        Atom::Num(_) => false,
        Atom::Var(v) => v == s,
        Atom::Fun(g, l) => g == s || list_has_symbol(l, s),
        Atom::Add(l) => list_has_symbol(l, s),
        Atom::Mul(l) => list_has_symbol(l, s),
        Atom::Pow(b, e) => has_symbol(*b, s) || has_symbol(*e, s),
    }
}

pub open spec fn list_has_symbol(l: AtomList, s: u32) -> bool
    decreases l,
{
    match l {
        AtomList::Nil => false,
        AtomList::Cons(h, t) => has_symbol(*h, s) || list_has_symbol(*t, s),
    }
}

pub open spec fn kind_of(a: Atom) -> AtomKind {
    match a {
        Atom::Num(_) => AtomKind::Num,
        Atom::Var(_) => AtomKind::Var,
        Atom::Fun(_, _) => AtomKind::Fun,
        Atom::Add(_) => AtomKind::Add,
        Atom::Mul(_) => AtomKind::Mul,
        Atom::Pow(_, _) => AtomKind::Pow,
    }
}

fn replace_rec<F: Fn(&Atom, Option<AtomKind>) -> Option<Atom>>(
    a: &Atom,
    ctx: Option<AtomKind>,
    f: &F,
    Ghost(sf): Ghost<spec_fn(Atom, Option<AtomKind>) -> Option<Atom>>,
) -> (r: Atom)
    requires
        forall|x: &Atom, c: Option<AtomKind>| #[trigger] f.requires((x, c)),
        forall|x: &Atom, c: Option<AtomKind>, o: Option<Atom>|
            #[trigger] f.ensures((x, c), o) ==> o == sf(*x, c),
    ensures
        r == replace(*a, ctx, sf),
    decreases a,
{
    match f(a, ctx) {
        Some(r) => r,
        None => match a {
            Atom::Fun(s, l) => Atom::Fun(*s, replace_list_rec(l, AtomKind::Fun, f, Ghost(sf))),
            Atom::Add(l) => Atom::Add(replace_list_rec(l, AtomKind::Add, f, Ghost(sf))),
            Atom::Mul(l) => Atom::Mul(replace_list_rec(l, AtomKind::Mul, f, Ghost(sf))),
            Atom::Pow(b, e) => Atom::Pow(
                Box::new(replace_rec(&**b, Some(AtomKind::Pow), f, Ghost(sf))),
                Box::new(replace_rec(&**e, Some(AtomKind::Pow), f, Ghost(sf))),
            ),
            _ => a.copy(),
        },
    }
}

fn replace_list_rec<F: Fn(&Atom, Option<AtomKind>) -> Option<Atom>>(
    l: &AtomList,
    parent: AtomKind,
    f: &F,
    Ghost(sf): Ghost<spec_fn(Atom, Option<AtomKind>) -> Option<Atom>>,
) -> (r: AtomList)
    requires
        forall|x: &Atom, c: Option<AtomKind>| #[trigger] f.requires((x, c)),
        forall|x: &Atom, c: Option<AtomKind>, o: Option<Atom>|
            #[trigger] f.ensures((x, c), o) ==> o == sf(*x, c),
    ensures
        r == replace_list(*l, parent, sf),
    decreases l,
{
    match l {
        AtomList::Nil => AtomList::Nil,
        AtomList::Cons(h, t) => AtomList::Cons(
            Box::new(replace_rec(&**h, Some(parent), f, Ghost(sf))),
            Box::new(replace_list_rec(&**t, parent, f, Ghost(sf))),
        ),
    }
}

/// The list holding the atoms of `v` in order.
pub fn list_from_vec(v: Vec<Atom>) -> (r: AtomList)
    ensures
        seq_of(r) == v@,
{
    let ghost all = v@;
    let mut v = v;
    let mut acc = AtomList::Nil;
    assert(seq_of(acc) =~= all.skip(all.len() as int));
    while v.len() > 0
        invariant
            v@ == all.take(v.len() as int),
            seq_of(acc) == all.skip(v.len() as int),
            v.len() <= all.len(),
        decreases v.len(),
    {
        let x = v.pop().unwrap();
        let next = AtomList::Cons(Box::new(x), Box::new(acc));
        assert(seq_of(next) =~= all.skip(v.len() as int));
        acc = next;
    }
    assert(all.skip(0) =~= all);
    acc
}

impl AtomList {

    /// The summed byte sizes of the atoms, capped at `usize::MAX`.
    pub fn capped_byte_size(&self) -> (r: usize)
        ensures
            r == (if list_byte_size(*self) <= usize::MAX { list_byte_size(*self) } else { usize::MAX as nat }),
        decreases self,
    {
        match self {
            AtomList::Nil => 0,
            AtomList::Cons(h, t) => (**h).capped_byte_size().saturating_add((**t).capped_byte_size()),
        }
    }
    /// The atoms of the list, in order.
    pub fn to_vec(&self) -> (r: Vec<Atom>)
        ensures
            r@ == seq_of(*self),
    {
        let mut out: Vec<Atom> = Vec::new();
        self.push_all(&mut out);
        assert(out@ =~= seq_of(*self));
        out
    }

    fn push_all(&self, out: &mut Vec<Atom>)
        ensures
            final(out)@ == old(out)@ + seq_of(*self),
        decreases self,
    {
        match self {
            AtomList::Nil => {
                assert(old(out)@ + seq_of(*self) =~= old(out)@);
            },
            AtomList::Cons(h, t) => {
                out.push((**h).copy());
                (**t).push_all(out);
                assert(old(out)@ + seq_of(*self) =~= old(out)@.push(**h) + seq_of(**t));
            },
        }
    }
}

/// The number of bytes of the encoding of an atom: a tag byte per node, eight bytes per
/// number, four per symbol and four for the length of each argument list.
pub open spec fn byte_size(a: Atom) -> nat
    decreases a,
{
    match a {
        Atom::Num(_) => 9,
        Atom::Var(_) => 5,
        Atom::Fun(_, l) => 9 + list_byte_size(l),
        Atom::Add(l) => 5 + list_byte_size(l),
        Atom::Mul(l) => 5 + list_byte_size(l),
        Atom::Pow(b, e) => 1 + byte_size(*b) + byte_size(*e),
    }
}

pub open spec fn list_byte_size(l: AtomList) -> nat
    decreases l,
{
    match l {
        AtomList::Nil => 0,
        AtomList::Cons(h, t) => byte_size(*h) + list_byte_size(*t),
    }
}

/// The byte size, or `usize::MAX` where it does not fit.
pub open spec fn capped_byte_size(a: Atom) -> nat {
    if byte_size(a) <= usize::MAX {
        byte_size(a)
    } else {
        usize::MAX as nat
    }
}

impl Atom {

    /// The number of bytes of the encoding of the atom.
    pub fn get_byte_size(&self) -> (r: usize)
        requires
            byte_size(*self) <= usize::MAX,
        ensures
            r == byte_size(*self),
    {
        self.capped_byte_size()
    }

    /// The byte size, capped at `usize::MAX`.
    pub fn capped_byte_size(&self) -> (r: usize)
        ensures
            r == capped_byte_size(*self),
        decreases self,
    {
        match self {
            Atom::Num(_) => 9,
            Atom::Var(_) => 5,
            Atom::Fun(_, l) => l.capped_byte_size().saturating_add(9),
            Atom::Add(l) => l.capped_byte_size().saturating_add(5),
            Atom::Mul(l) => l.capped_byte_size().saturating_add(5),
            Atom::Pow(b, e) => (**b).capped_byte_size().saturating_add((**e).capped_byte_size()).saturating_add(1),
        }
    }

    /// The integer `n`.
    pub fn num(n: i64) -> (r: Atom)
        ensures
            r == Atom::Num(n),
    {
        Atom::Num(n)
    }

    /// The variable `s`.
    pub fn var(s: u32) -> (r: Atom)
        ensures
            r == Atom::Var(s),
    {
        Atom::Var(s)
    }

    /// The function `s` applied to `args`, normalized.
    pub fn fun(s: u32, args: Vec<Atom>) -> (r: Atom)
        ensures
            r == norm(Atom::Fun(s, list_of(args@))),
    {
        let l = list_from_vec(args);
        proof {
            lemma_list_of_seq_of(l);
        }
        normalize(Atom::Fun(s, l))
    }

    /// The normalized sum of `terms`.
    pub fn sum(terms: Vec<Atom>) -> (r: Atom)
        ensures
            r == norm(Atom::Add(list_of(terms@))),
    {
        let l = list_from_vec(terms);
        proof {
            lemma_list_of_seq_of(l);
        }
        normalize(Atom::Add(l))
    }

    /// The normalized product of `factors`.
    pub fn product(factors: Vec<Atom>) -> (r: Atom)
        ensures
            r == norm(Atom::Mul(list_of(factors@))),
    {
        let l = list_from_vec(factors);
        proof {
            lemma_list_of_seq_of(l);
        }
        normalize(Atom::Mul(l))
    }

    /// The normalized sum of `self` and `rhs`.
    pub fn plus(&self, rhs: &Atom) -> (r: Atom)
        ensures
            r == norm(Atom::Add(list_of(seq![*self, *rhs]))),
    {
        let l = AtomList::Cons(
            Box::new(self.copy()),
            Box::new(AtomList::Cons(Box::new(rhs.copy()), Box::new(AtomList::Nil))),
        );
        proof {
            assert(seq_of(AtomList::Nil) =~= Seq::<Atom>::empty());
            assert(seq_of(AtomList::Cons(Box::new(*rhs), Box::new(AtomList::Nil))) =~= seq![*rhs]);
            assert(seq_of(l) =~= seq![*self, *rhs]);
            lemma_list_of_seq_of(l);
        }
        normalize(Atom::Add(l))
    }

    /// The normalized product of `self` and `rhs`.
    pub fn times(&self, rhs: &Atom) -> (r: Atom)
        ensures
            r == norm(Atom::Mul(list_of(seq![*self, *rhs]))),
    {
        let l = AtomList::Cons(
            Box::new(self.copy()),
            Box::new(AtomList::Cons(Box::new(rhs.copy()), Box::new(AtomList::Nil))),
        );
        proof {
            assert(seq_of(AtomList::Nil) =~= Seq::<Atom>::empty());
            assert(seq_of(AtomList::Cons(Box::new(*rhs), Box::new(AtomList::Nil))) =~= seq![*rhs]);
            assert(seq_of(l) =~= seq![*self, *rhs]);
            lemma_list_of_seq_of(l);
        }
        normalize(Atom::Mul(l))
    }

    /// `self` raised to the power `exp`, normalized.
    pub fn pow(&self, exp: &Atom) -> (r: Atom)
        ensures
            r == norm(Atom::Pow(Box::new(*self), Box::new(*exp))),
    {
        normalize(Atom::Pow(Box::new(self.copy()), Box::new(exp.copy())))
    }

    /// Replace subexpressions top-down by the results of `f` and normalize the result.
    /// `f` is called with a subexpression and the kind of its parent (`None` at the top).
    pub fn replace_map<F: Fn(&Atom, Option<AtomKind>) -> Option<Atom>>(
        &self,
        f: F,
        Ghost(sf): Ghost<spec_fn(Atom, Option<AtomKind>) -> Option<Atom>>,
    ) -> (r: Atom)
        requires
            forall|x: &Atom, c: Option<AtomKind>| #[trigger] f.requires((x, c)),
            forall|x: &Atom, c: Option<AtomKind>, o: Option<Atom>|
                #[trigger] f.ensures((x, c), o) ==> o == sf(*x, c),
        ensures
            r == norm(replace(*self, None, sf)),
    {
        normalize(replace_rec(self, None, &f, Ghost(sf)))
    }

    /// `x` is `self` or one of its subexpressions.
    pub fn contains(&self, x: &Atom) -> (r: bool)
        ensures
            r == contains(*self, *x),
        decreases self,
    {
        if self.same(x) {
            return true;
        }
        match self {
            Atom::Fun(_, l) => l.contains(x),
            Atom::Add(l) => l.contains(x),
            Atom::Mul(l) => l.contains(x),
            Atom::Pow(b, e) => (**b).contains(x) || (**e).contains(x),
            _ => false,
        }
    }

    /// The symbol `s` occurs in the atom.
    pub fn contains_symbol(&self, s: u32) -> (r: bool)
        ensures
            r == has_symbol(*self, s),
        decreases self,
    {
        match self {
            Atom::Num(_) => false,
            Atom::Var(v) => *v == s,
            Atom::Fun(g, l) => *g == s || l.contains_symbol(s),
            Atom::Add(l) => l.contains_symbol(s),
            Atom::Mul(l) => l.contains_symbol(s),
            Atom::Pow(b, e) => (**b).contains_symbol(s) || (**e).contains_symbol(s),
        }
    }

    /// The kind of the outermost node.
    pub fn get_atom_type(&self) -> (r: AtomKind)
        ensures
            r == kind_of(*self),
    {
        match self {
            Atom::Num(_) => AtomKind::Num,
            Atom::Var(_) => AtomKind::Var,
            Atom::Fun(_, _) => AtomKind::Fun,
            Atom::Add(_) => AtomKind::Add,
            Atom::Mul(_) => AtomKind::Mul,
            Atom::Pow(_, _) => AtomKind::Pow,
        }
    }
    /// Structural equality.
    pub fn same(&self, other: &Atom) -> (r: bool)
        ensures
            r == (*self == *other),
        decreases self,
    {
        match (self, other) {
            (Atom::Num(a), Atom::Num(b)) => *a == *b,
            (Atom::Var(a), Atom::Var(b)) => *a == *b,
            (Atom::Fun(s, l), Atom::Fun(t, m)) => *s == *t && l.same(m),
            (Atom::Add(l), Atom::Add(m)) => l.same(m),
            (Atom::Mul(l), Atom::Mul(m)) => l.same(m),
            (Atom::Pow(b, e), Atom::Pow(c, f)) => (**b).same(&**c) && (**e).same(&**f),
            _ => false,
        }
    }

    /// A copy of the atom.
    pub fn copy(&self) -> (r: Atom)
        ensures
            r == *self,
        decreases self,
    {
        match self {
            Atom::Num(a) => Atom::Num(*a),
            Atom::Var(a) => Atom::Var(*a),
            Atom::Fun(s, l) => Atom::Fun(*s, l.copy()),
            Atom::Add(l) => Atom::Add(l.copy()),
            Atom::Mul(l) => Atom::Mul(l.copy()),
            Atom::Pow(b, e) => Atom::Pow(Box::new((**b).copy()), Box::new((**e).copy())),
        }
    }
}

impl AtomList {

    pub fn contains(&self, x: &Atom) -> (r: bool)
        ensures
            r == list_contains(*self, *x),
        decreases self,
    {
        match self {
            AtomList::Nil => false,
            AtomList::Cons(h, t) => (**h).contains(x) || (**t).contains(x),
        }
    }

    pub fn contains_symbol(&self, s: u32) -> (r: bool)
        ensures
            r == list_has_symbol(*self, s),
        decreases self,
    {
        match self {
            AtomList::Nil => false,
            AtomList::Cons(h, t) => (**h).contains_symbol(s) || (**t).contains_symbol(s),
        }
    }
    pub fn same(&self, other: &AtomList) -> (r: bool)
        ensures
            r == (*self == *other),
        decreases self,
    {
        match (self, other) {
            (AtomList::Nil, AtomList::Nil) => true,
            (AtomList::Cons(h, t), AtomList::Cons(g, u)) => (**h).same(&**g) && (**t).same(&**u),
            _ => false,
        }
    }

    pub fn copy(&self) -> (r: AtomList)
        ensures
            r == *self,
        decreases self,
    {
        match self {
            AtomList::Nil => AtomList::Nil,
            AtomList::Cons(h, t) => AtomList::Cons(Box::new((**h).copy()), Box::new((**t).copy())),
        }
    }
}

impl Clone for Atom {
    fn clone(&self) -> (r: Self)
        ensures
            r == *self,
    {
        self.copy()
    }
}

impl Clone for AtomList {
    fn clone(&self) -> (r: Self)
        ensures
            r == *self,
    {
        self.copy()
    }
}

} // verus!
