use crate::alias::{compatible, expand_aliases, expand_once, listing, lookup_in};
use crate::alias_table::{index_get, index_insert, index_new, index_view, table_contains, table_entries, table_get, table_insert, table_new, table_view};
use ahash::HashMap;
use crate::atom::{norm, replace, Atom, AtomKind, AtomList};
use vstd::prelude::*;

verus! {

broadcast use vstd::map_lib::lemma_submap_of_trans;

/// The outermost subexpressions of `a` that are among `keys`: the search does not enter a
/// subexpression found in `keys`.
pub open spec fn key_uses(a: Atom, keys: Set<Atom>) -> Set<Atom>
    decreases a,
{
    if keys.contains(a) {
        set![a]
    } else {
        match a {
            Atom::Fun(_, l) => key_uses_list(l, keys),
            Atom::Add(l) => key_uses_list(l, keys),
            Atom::Mul(l) => key_uses_list(l, keys),
            Atom::Pow(b, e) => key_uses(*b, keys).union(key_uses(*e, keys)),
            _ => Set::empty(),
        }
    }
}

pub open spec fn key_uses_list(l: AtomList, keys: Set<Atom>) -> Set<Atom>
    decreases l,
{
    match l {
        AtomList::Nil => Set::empty(),
        AtomList::Cons(h, t) => key_uses(*h, keys).union(key_uses_list(*t, keys)),
    }
}

/// The definitions of `m` use one another without a cycle: some rank decreases from each
/// alias to the aliases its definition uses.
pub open spec fn acyclic(m: Map<Atom, Atom>) -> bool {
    exists|rank: spec_fn(Atom) -> nat| ranked(m, rank)
}

pub open spec fn ranked(m: Map<Atom, Atom>, rank: spec_fn(Atom) -> nat) -> bool {
    forall|k: Atom, d: Atom|
        m.dom().contains(k) && #[trigger] key_uses(m[k], m.dom()).contains(d) ==> rank(d) < rank(k)
}

/// Replacement of the aliases in `d` that have been renamed in `rho` by their new names.
pub open spec fn dep_rule(d: Set<Atom>, rho: Map<Atom, Atom>) -> spec_fn(Atom, Option<AtomKind>) -> Option<Atom> {
    |x: Atom, c: Option<AtomKind>|
        if d.contains(x) && rho.dom().contains(x) {
            Some(rho[x])
        } else {
            None
        }
}

/// A definition taken over from the right-hand map: unchanged when none of the aliases it
/// uses was renamed, otherwise with the renamed ones replaced by their new names, normalized.
pub open spec fn fused_body(body: Atom, keys: Set<Atom>, rho: Map<Atom, Atom>) -> Atom {
    let d = key_uses(body, keys);
    if forall|x: Atom| d.contains(x) ==> !rho.dom().contains(x) {
        body
    } else {
        norm(replace(body, None, dep_rule(d, rho)))
    }
}

/// `ch` are the successive names the resolver gave: first for `start`, then each for the
/// name before it.
pub open spec fn resolver_chain<F: Fn(&Atom) -> Atom>(f: F, start: Atom, ch: Seq<Atom>) -> bool {
    &&& ch.len() > 0
    &&& f.ensures((&start,), ch[0])
    &&& forall|i: int| 0 <= i < ch.len() - 1 ==> #[trigger] f.ensures((&ch[i],), ch[i + 1])
}

/// The resolver, asked for a new name for `k`, ended with `name` after names that were all
/// taken.
pub open spec fn fresh_name_chain<F: Fn(&Atom) -> Atom>(f: F, k: Atom, ch: Seq<Atom>, name: Atom, l: Map<Atom, Atom>) -> bool {
    &&& resolver_chain(f, k, ch)
    &&& ch.last() == name
    &&& forall|i: int| 0 <= i < ch.len() - 1 ==> l.dom().contains(#[trigger] ch[i])
}

/// The resolver, asked for a new name for `k`, gave `u64::MAX` names that were all taken.
pub open spec fn exhausted_chain<F: Fn(&Atom) -> Atom>(f: F, k: Atom, ch: Seq<Atom>, l: Map<Atom, Atom>) -> bool {
    &&& resolver_chain(f, k, ch)
    &&& ch.len() == u64::MAX
    &&& forall|i: int| 0 <= i < ch.len() ==> l.dom().contains(#[trigger] ch[i])
}

/// Where the right-hand alias `k` stands after fusing into `l1`: renamed aliases keep the
/// conflicting left-hand definition under `k` and have their own definition under the new
/// name; the others have their definition under `k`, except those for which no free name was
/// found.
pub open spec fn settled(l1: Map<Atom, Atom>, r: Map<Atom, Atom>, rho: Map<Atom, Atom>, gave: Set<Atom>, k: Atom) -> bool {
    let b = fused_body(r[k], r.dom(), rho);
    if gave.contains(k) {
        !rho.dom().contains(k) && l1.dom().contains(k) && l1[k] != b
    } else if rho.dom().contains(k) {
        &&& l1.dom().contains(k)
        &&& l1[k] != b
        &&& l1.dom().contains(rho[k])
        &&& l1[rho[k]] == b
    } else {
        l1.dom().contains(k) && l1[k] == b
    }
}

/// `s` renames right-hand aliases to names that `l1` defines and `l0` did not.
pub open spec fn fresh_renames(s: Map<Atom, Atom>, l0: Map<Atom, Atom>, l1: Map<Atom, Atom>, r: Map<Atom, Atom>) -> bool {
    &&& s.dom().subset_of(r.dom())
    &&& forall|x: Atom| #[trigger] s.dom().contains(x) ==> l1.dom().contains(s[x]) && !l0.dom().contains(s[x])
}

/// The right-hand alias `k` is defined in `l1`, and, unless the resolver found no free name
/// for it, its definition stands in `l1`, under `k` or under its new name, with some of the
/// aliases it uses replaced by their new names.
pub open spec fn placed(l0: Map<Atom, Atom>, l1: Map<Atom, Atom>, r: Map<Atom, Atom>, rho: Map<Atom, Atom>, gave: Set<Atom>, k: Atom) -> bool {
    &&& l1.dom().contains(k)
    &&& gave.contains(k) || exists|s: Map<Atom, Atom>|
        #[trigger] fresh_renames(s, l0, l1, r) && (l1[k] == fused_body(r[k], r.dom(), s) || (rho.dom().contains(k)
            && l1[rho[k]] == fused_body(r[k], r.dom(), s)))
}

/// The alias map `l0` became `l1` by taking over the aliases of `r`, with the aliases in the
/// domain of `rho` renamed to `rho`'s values and those in `gave` left out after the resolver
/// found no free name.
pub open spec fn fused_into<F: Fn(&Atom) -> Atom>(
    l0: Map<Atom, Atom>,
    l1: Map<Atom, Atom>,
    r: Map<Atom, Atom>,
    rho: Map<Atom, Atom>,
    gave: Set<Atom>,
    f: F,
) -> bool {
    &&& l0.submap_of(l1)
    &&& rho.dom().subset_of(r.dom())
    &&& gave.subset_of(r.dom())
    &&& forall|k: Atom|
        #[trigger] rho.dom().contains(k) ==> !l0.dom().contains(rho[k]) && exists|ch: Seq<Atom>|
            fresh_name_chain(f, k, ch, rho[k], l1)
    &&& forall|k: Atom| #[trigger] gave.contains(k) ==> exists|ch: Seq<Atom>| exhausted_chain(f, k, ch, l1)
    &&& forall|k: Atom|
        #[trigger] l1.dom().contains(k) ==> l0.dom().contains(k) || r.dom().contains(k) || exists|x: Atom|
            f.ensures((&x,), k)
    &&& forall|k: Atom| #[trigger] r.dom().contains(k) ==> placed(l0, l1, r, rho, gave, k)
    &&& compatible(l0, r) ==> rho == Map::<Atom, Atom>::empty() && gave == Set::<Atom>::empty() && l1
        == l0.union_prefer_right(r)
    &&& acyclic(r) ==> forall|k: Atom| #[trigger] r.dom().contains(k) ==> settled(l1, r, rho, gave, k)
    &&& acyclic(r) ==> forall|k: Atom|
        #[trigger] l1.dom().contains(k) ==> l0.dom().contains(k) || (r.dom().contains(k)
            && !rho.dom().contains(k) && !gave.contains(k)) || exists|j: Atom|
            rho.dom().contains(j) && rho[j] == k
    &&& acyclic(r) ==> exists|time: spec_fn(Atom) -> nat| fused_in_order(l0, r, rho, gave, time)
}

/// `time` orders the right-hand aliases as they were taken over: each after the aliases its
/// definition uses, and a renamed (or left-out) alias only because the left-hand map held it
/// from the start or because an alias taken over before it was renamed to it.
pub open spec fn fused_in_order(
    l0: Map<Atom, Atom>,
    r: Map<Atom, Atom>,
    rho: Map<Atom, Atom>,
    gave: Set<Atom>,
    time: spec_fn(Atom) -> nat,
) -> bool {
    &&& forall|k: Atom, d: Atom|
        r.dom().contains(k) && #[trigger] key_uses(r[k], r.dom()).contains(d) ==> time(d) < time(k)
    &&& forall|k: Atom|
        #[trigger] r.dom().contains(k) && (gave.contains(k) || rho.dom().contains(k)) ==> l0.dom().contains(k)
            || exists|j: Atom| rho.dom().contains(j) && rho[j] == k && time(j) < time(k)
}

/// Fusing in a map without aliases changes nothing and renames nothing.
pub proof fn lemma_fuse_empty<F: Fn(&Atom) -> Atom>(l0: Map<Atom, Atom>, l1: Map<Atom, Atom>, rho: Map<Atom, Atom>, gave: Set<Atom>, f: F)
    requires
        fused_into(l0, l1, Map::empty(), rho, gave, f),
    ensures
        l1 == l0,
        rho == Map::<Atom, Atom>::empty(),
        gave == Set::<Atom>::empty(),
{
    let r = Map::<Atom, Atom>::empty();
    assert(ranked(r, |x: Atom| 0nat));
    assert(acyclic(r));
    assert(rho =~= Map::<Atom, Atom>::empty());
    assert(gave =~= Set::<Atom>::empty());
    assert(l1 =~= l0) by {
        assert forall|k: Atom| l1.dom().contains(k) implies l0.dom().contains(k) by {
            if !l0.dom().contains(k) {
                assert(!r.dom().contains(k));
                assert(!(exists|j: Atom| rho.dom().contains(j) && rho[j] == k));
            }
        }
    }
}

/// Fusing maps that define no alias differently renames nothing and leaves nothing out: the
/// result is the union of the two maps, and the resolver is never asked.
pub proof fn lemma_fuse_compatible<F: Fn(&Atom) -> Atom>(
    l0: Map<Atom, Atom>,
    l1: Map<Atom, Atom>,
    r: Map<Atom, Atom>,
    rho: Map<Atom, Atom>,
    gave: Set<Atom>,
    f: F,
)
    requires
        fused_into(l0, l1, r, rho, gave, f),
        compatible(l0, r),
    ensures
        rho == Map::<Atom, Atom>::empty(),
        gave == Set::<Atom>::empty(),
        l1 == l0.union_prefer_right(r),
{
}

/// The aliases `es[p].0` for the positions `p` in `ds`.
pub open spec fn dep_set(es: Seq<(Atom, Atom)>, ds: Seq<usize>) -> Set<Atom> {
    Set::new(|x: Atom| exists|i: int| 0 <= i < ds.len() && es[ds[i] as int].0 == x)
}

/// `im` gives the position in `es` of each alias listed there.
pub open spec fn indexes(im: Map<Atom, usize>, es: Seq<(Atom, Atom)>) -> bool {
    &&& forall|p: int| 0 <= p < es.len() ==> im.dom().contains(#[trigger] es[p].0) && im[es[p].0] == p
    &&& forall|x: Atom| #[trigger] im.dom().contains(x) ==> exists|p: int| 0 <= p < es.len() && es[p].0 == x
}

/// Append to `out` the positions of the outermost subexpressions of `a` listed in `es`.
fn collect_deps(a: &Atom, idx: &HashMap<Atom, usize>, out: &mut Vec<usize>, Ghost(es): Ghost<Seq<(Atom, Atom)>>, Ghost(keys): Ghost<Set<Atom>>)
    requires
        indexes(index_view(*idx), es),
        keys == index_view(*idx).dom(),
    ensures
        final(out)@.len() >= old(out)@.len(),
        final(out)@.subrange(0, old(out)@.len() as int) == old(out)@,
        forall|i: int|
            old(out)@.len() <= i < final(out)@.len() ==> #[trigger] final(out)@[i] < es.len() && key_uses(
                *a,
                keys,
            ).contains(es[final(out)@[i] as int].0),
        forall|x: Atom|
            #[trigger] key_uses(*a, keys).contains(x) ==> exists|i: int|
                old(out)@.len() <= i < final(out)@.len() && es[final(out)@[i] as int].0 == x,
    decreases a,
{
    let ghost o = out@;
    match index_get(idx, a) {
        Some(p) => {
            proof {
                let q = choose|q: int| 0 <= q < es.len() && es[q].0 == *a;
                assert(index_view(*idx)[es[q].0] == q);
            }
            out.push(p);
            proof {
                assert(key_uses(*a, keys) =~= set![*a]);
                assert(out@[o.len() as int] == p);
                assert(es[p as int].0 == *a);
            }
        },
        None => {
            assert(!keys.contains(*a));
            match a {
                Atom::Fun(_, l) => {
                    collect_deps_list(l, idx, out, Ghost(es), Ghost(keys));
                    assert(key_uses(*a, keys) == key_uses_list(*l, keys));
                },
                Atom::Add(l) => {
                    collect_deps_list(l, idx, out, Ghost(es), Ghost(keys));
                    assert(key_uses(*a, keys) == key_uses_list(*l, keys));
                },
                Atom::Mul(l) => {
                    collect_deps_list(l, idx, out, Ghost(es), Ghost(keys));
                    assert(key_uses(*a, keys) == key_uses_list(*l, keys));
                },
                Atom::Pow(b, e) => {
                    collect_deps(&**b, idx, out, Ghost(es), Ghost(keys));
                    let ghost mid = out@;
                    collect_deps(&**e, idx, out, Ghost(es), Ghost(keys));
                    proof {
                        assert(out@.subrange(0, o.len() as int) =~= mid.subrange(0, o.len() as int));
                        assert forall|i: int| o.len() <= i < mid.len() implies out@[i] == mid[i] by {
                            assert(out@.subrange(0, mid.len() as int)[i] == mid[i]);
                        }
                        assert(key_uses(*a, keys) == key_uses(**b, keys).union(key_uses(**e, keys)));
                        assert forall|i: int| o.len() <= i < out@.len() implies out@[i] < es.len() && key_uses(
                            *a,
                            keys,
                        ).contains(es[out@[i] as int].0) by {
                            if i < mid.len() {
                                assert(out@[i] == mid[i]);
                            }
                        }
                        assert forall|x: Atom| #[trigger] key_uses(*a, keys).contains(x) implies exists|i: int|
                            o.len() <= i < out@.len() && es[out@[i] as int].0 == x by {
                            if key_uses(**b, keys).contains(x) {
                                let i = choose|i: int| o.len() <= i < mid.len() && es[mid[i] as int].0 == x;
                                assert(out@[i] == mid[i]);
                                assert(o.len() <= i < out@.len() && es[out@[i] as int].0 == x);
                            } else {
                                assert(key_uses(**e, keys).contains(x));
                                let i = choose|i: int| mid.len() <= i < out@.len() && es[out@[i] as int].0 == x;
                                assert(o.len() <= i < out@.len() && es[out@[i] as int].0 == x);
                            }
                        }
                    }
                },
                _ => {
                    assert(key_uses(*a, keys) =~= Set::empty());
                },
            }
        },
    }
}

fn collect_deps_list(l: &AtomList, idx: &HashMap<Atom, usize>, out: &mut Vec<usize>, Ghost(es): Ghost<Seq<(Atom, Atom)>>, Ghost(keys): Ghost<Set<Atom>>)
    requires
        indexes(index_view(*idx), es),
        keys == index_view(*idx).dom(),
    ensures
        final(out)@.len() >= old(out)@.len(),
        final(out)@.subrange(0, old(out)@.len() as int) == old(out)@,
        forall|i: int|
            old(out)@.len() <= i < final(out)@.len() ==> #[trigger] final(out)@[i] < es.len()
                && key_uses_list(*l, keys).contains(es[final(out)@[i] as int].0),
        forall|x: Atom|
            #[trigger] key_uses_list(*l, keys).contains(x) ==> exists|i: int|
                old(out)@.len() <= i < final(out)@.len() && es[final(out)@[i] as int].0 == x,
    decreases l,
{
    let ghost o = out@;
    match l {
        AtomList::Nil => {
            assert(key_uses_list(*l, keys) =~= Set::empty());
        },
        AtomList::Cons(h, t) => {
            collect_deps(&**h, idx, out, Ghost(es), Ghost(keys));
            let ghost mid = out@;
            collect_deps_list(&**t, idx, out, Ghost(es), Ghost(keys));
            proof {
                assert(out@.subrange(0, o.len() as int) =~= mid.subrange(0, o.len() as int));
                assert forall|i: int| o.len() <= i < mid.len() implies out@[i] == mid[i] by {
                    assert(out@.subrange(0, mid.len() as int)[i] == mid[i]);
                }
                assert(key_uses_list(*l, keys) == key_uses(**h, keys).union(key_uses_list(**t, keys)));
                assert forall|i: int| o.len() <= i < out@.len() implies out@[i] < es.len()
                    && key_uses_list(*l, keys).contains(es[out@[i] as int].0) by {
                    if i < mid.len() {
                        assert(out@[i] == mid[i]);
                    }
                }
                assert forall|x: Atom| #[trigger] key_uses_list(*l, keys).contains(x) implies exists|i: int|
                    o.len() <= i < out@.len() && es[out@[i] as int].0 == x by {
                    if key_uses(**h, keys).contains(x) {
                        let i = choose|i: int| o.len() <= i < mid.len() && es[mid[i] as int].0 == x;
                        assert(out@[i] == mid[i]);
                        assert(o.len() <= i < out@.len() && es[out@[i] as int].0 == x);
                    } else {
                        assert(key_uses_list(**t, keys).contains(x));
                        let i = choose|i: int| mid.len() <= i < out@.len() && es[out@[i] as int].0 == x;
                        assert(o.len() <= i < out@.len() && es[out@[i] as int].0 == x);
                    }
                }
            }
        },
    }
}


/// What is known of one right-hand alias while the maps are fused: the positions of the
/// aliases its definition uses (taken when it is first visited), whether it is done, and the
/// names the resolver gave for it.
struct DepNode {
    deps: Vec<usize>,
    resolved: bool,
    name_chain: Ghost<Seq<Atom>>,
    gave_chain: Ghost<Option<Seq<Atom>>>,
    stamp: Ghost<nat>,
    placed_with: Ghost<Map<Atom, Atom>>,
}

/// The number of finished aliases.
spec fn count_resolved(s: Seq<DepNode>) -> nat
    decreases s.len(),
{
    if s.len() == 0 {
        0
    } else {
        count_resolved(s.drop_last()) + (if s.last().resolved { 1nat } else { 0nat })
    }
}

proof fn lemma_count_update(s: Seq<DepNode>, i: int, n: DepNode)
    requires
        0 <= i < s.len(),
    ensures
        count_resolved(s.update(i, n)) + (if s[i].resolved { 1nat } else { 0nat }) == count_resolved(s) + (if n.resolved {
            1nat
        } else {
            0nat
        }),
    decreases s.len(),
{
    if i == s.len() - 1 {
        assert(s.update(i, n).drop_last() =~= s.drop_last());
    } else {
        lemma_count_update(s.drop_last(), i, n);
        assert(s.update(i, n).drop_last() =~= s.drop_last().update(i, n));
    }
}

spec fn total_deps(s: Seq<DepNode>) -> nat
    decreases s.len(),
{
    if s.len() == 0 {
        0
    } else {
        total_deps(s.drop_last()) + s.last().deps@.len()
    }
}

proof fn lemma_total_deps_update(s: Seq<DepNode>, i: int, n: DepNode)
    requires
        0 <= i < s.len(),
    ensures
        total_deps(s.update(i, n)) + s[i].deps@.len() == total_deps(s) + n.deps@.len(),
    decreases s.len(),
{
    if i == s.len() - 1 {
        assert(s.update(i, n).drop_last() =~= s.drop_last());
    } else {
        lemma_total_deps_update(s.drop_last(), i, n);
        assert(s.update(i, n).drop_last() =~= s.drop_last().update(i, n));
    }
}

spec fn same_at(m1: Map<Atom, Atom>, m2: Map<Atom, Atom>, k: Atom) -> bool {
    &&& m1.dom().contains(k) == m2.dom().contains(k)
    &&& m1.dom().contains(k) ==> m1[k] == m2[k]
}

/// `es` lists `r`, and `d0[j]` lists the positions of the aliases that the definition at
/// position `j` uses.
spec fn setup_ok(es: Seq<(Atom, Atom)>, r: Map<Atom, Atom>, d0: Seq<Seq<usize>>) -> bool {
    &&& listing(es, r)
    &&& d0.len() == es.len()
    &&& forall|j: int, i: int| 0 <= j < d0.len() && 0 <= i < d0[j].len() ==> #[trigger] d0[j][i] < es.len()
    &&& forall|j: int| 0 <= j < d0.len() ==> #[trigger] dep_set(es, d0[j]) == key_uses(es[j].1, r.dom())
}

spec fn node_wf(nodes: Seq<DepNode>, d0: Seq<Seq<usize>>) -> bool {
    &&& nodes.len() == d0.len()
    &&& forall|j: int| 0 <= j < nodes.len() ==> (#[trigger] nodes[j]).deps@ == d0[j] || nodes[j].deps@.len() == 0
}

spec fn chains_ok<F: Fn(&Atom) -> Atom>(
    f: F,
    es: Seq<(Atom, Atom)>,
    nodes: Seq<DepNode>,
    rho: Map<Atom, Atom>,
    l: Map<Atom, Atom>,
    l0: Map<Atom, Atom>,
    r: Map<Atom, Atom>,
) -> bool {
    &&& rho.dom().subset_of(r.dom())
    &&& forall|j: int|
        0 <= j < nodes.len() ==> match (#[trigger] nodes[j]).gave_chain@ {
            Some(ch) => nodes[j].resolved && exhausted_chain(f, es[j].0, ch, l),
            None => true,
        }
    &&& forall|j: int|
        0 <= j < nodes.len() && rho.dom().contains(#[trigger] es[j].0) ==> {
            &&& nodes[j].resolved
            &&& !l0.dom().contains(rho[es[j].0])
            &&& l.dom().contains(rho[es[j].0])
            &&& fresh_name_chain(f, es[j].0, nodes[j].name_chain@, rho[es[j].0], l)
        }
}

/// Each finished alias is defined in `l` and, unless the resolver found no free name for it,
/// its definition stands there as `placed` says, with the renames it was placed with.
spec fn placed_ok(es: Seq<(Atom, Atom)>, r: Map<Atom, Atom>, nodes: Seq<DepNode>, l: Map<Atom, Atom>, rho: Map<Atom, Atom>, l0: Map<Atom, Atom>) -> bool {
    forall|j: int|
        0 <= j < nodes.len() && (#[trigger] nodes[j]).resolved ==> {
            let s = nodes[j].placed_with@;
            let b = fused_body(es[j].1, r.dom(), s);
            &&& l.dom().contains(es[j].0)
            &&& nodes[j].gave_chain@ is Some || (fresh_renames(s, l0, l, r) && (l[es[j].0] == b || (rho.dom().contains(es[j].0)
                && l[rho[es[j].0]] == b)))
        }
}

/// Where the two maps agree on every alias they share, nothing has been renamed or left out,
/// and every alias of `l` stands with the definition the two maps give it.
spec fn compat_state(nodes: Seq<DepNode>, l: Map<Atom, Atom>, rho: Map<Atom, Atom>, l0: Map<Atom, Atom>, r: Map<Atom, Atom>) -> bool {
    &&& rho.dom() =~= Set::<Atom>::empty()
    &&& forall|j: int| 0 <= j < nodes.len() ==> (#[trigger] nodes[j]).gave_chain@ is None
    &&& forall|k: Atom|
        #[trigger] l.dom().contains(k) ==> (l0.dom().contains(k) || r.dom().contains(k)) && l[k] == l0.union_prefer_right(r)[k]
}

spec fn origin_ok<F: Fn(&Atom) -> Atom>(f: F, l: Map<Atom, Atom>, l0: Map<Atom, Atom>, r: Map<Atom, Atom>) -> bool {
    forall|k: Atom|
        #[trigger] l.dom().contains(k) ==> l0.dom().contains(k) || r.dom().contains(k) || exists|x: Atom|
            f.ensures((&x,), k)
}

/// The alias at position `j` stands in `l` as `settled` describes.
spec fn handled(es: Seq<(Atom, Atom)>, r: Map<Atom, Atom>, d0: Seq<Seq<usize>>, nodes: Seq<DepNode>, l: Map<Atom, Atom>, rho: Map<Atom, Atom>, j: int) -> bool {
    let k = es[j].0;
    let b = fused_body(es[j].1, r.dom(), rho);
    &&& forall|i: int| 0 <= i < d0[j].len() ==> nodes[#[trigger] d0[j][i] as int].resolved
    &&& match nodes[j].gave_chain@ {
        Some(_) => !rho.dom().contains(k) && l.dom().contains(k) && l[k] != b,
        None => if rho.dom().contains(k) {
            l.dom().contains(k) && l[k] != b && l.dom().contains(rho[k]) && l[rho[k]] == b
        } else {
            l.dom().contains(k) && l[k] == b
        },
    }
}

spec fn good(es: Seq<(Atom, Atom)>, r: Map<Atom, Atom>, d0: Seq<Seq<usize>>, nodes: Seq<DepNode>, l: Map<Atom, Atom>, rho: Map<Atom, Atom>) -> bool {
    forall|j: int| 0 <= j < nodes.len() && (#[trigger] nodes[j]).resolved ==> handled(es, r, d0, nodes, l, rho, j)
}

/// The finished aliases carry the order in which they were finished: each after the aliases
/// its definition uses, and each renamed (or left out) alias after the alias whose new name
/// took its place, unless the left-hand map held it from the start.
spec fn timed(es: Seq<(Atom, Atom)>, d0: Seq<Seq<usize>>, nodes: Seq<DepNode>, rho: Map<Atom, Atom>, l0: Map<Atom, Atom>) -> bool {
    forall|j: int|
        0 <= j < nodes.len() && (#[trigger] nodes[j]).resolved ==> {
            &&& nodes[j].stamp@ < count_resolved(nodes)
            &&& forall|i: int| 0 <= i < d0[j].len() ==> nodes[#[trigger] d0[j][i] as int].stamp@ < nodes[j].stamp@
            &&& (nodes[j].gave_chain@ is Some || rho.dom().contains(es[j].0)) ==> l0.dom().contains(es[j].0)
                || exists|i: int|
                0 <= i < nodes.len() && nodes[i].resolved && rho.dom().contains(es[i].0) && rho[es[i].0] == es[j].0
                    && nodes[i].stamp@ < nodes[j].stamp@
        }
}

/// Every alias of `l` was there before or stands for a finished right-hand alias.
spec fn l_exact(es: Seq<(Atom, Atom)>, nodes: Seq<DepNode>, l: Map<Atom, Atom>, rho: Map<Atom, Atom>, l0: Map<Atom, Atom>) -> bool {
    forall|k: Atom|
        #[trigger] l.dom().contains(k) ==> l0.dom().contains(k) || exists|j: int|
            0 <= j < nodes.len() && nodes[j].resolved && ((k == es[j].0 && !rho.dom().contains(es[j].0)
                && nodes[j].gave_chain@ is None) || (rho.dom().contains(es[j].0) && rho[es[j].0] == k))
}

spec fn untouched(es: Seq<(Atom, Atom)>, d0: Seq<Seq<usize>>, nodes: Seq<DepNode>, rho: Map<Atom, Atom>, j: int) -> bool {
    &&& !nodes[j].resolved
    &&& nodes[j].deps@ == d0[j]
    &&& !rho.dom().contains(es[j].0)
    &&& nodes[j].gave_chain@ is None
}

proof fn lemma_fused_agree(body: Atom, keys: Set<Atom>, rho1: Map<Atom, Atom>, rho2: Map<Atom, Atom>)
    requires
        forall|x: Atom| #[trigger] key_uses(body, keys).contains(x) ==> same_at(rho1, rho2, x),
    ensures
        fused_body(body, keys, rho1) == fused_body(body, keys, rho2),
{
    let d = key_uses(body, keys);
    assert(dep_rule(d, rho1) =~= dep_rule(d, rho2));
}

/// `x` is `es[p].0` for a position `p` in `ds`.
fn in_deps(es: &Vec<(Atom, Atom)>, ds: &Vec<usize>, x: &Atom) -> (r: bool)
    requires
        forall|i: int| 0 <= i < ds@.len() ==> #[trigger] ds@[i] < es@.len(),
    ensures
        r == dep_set(es@, ds@).contains(*x),
{
    let mut i: usize = 0;
    while i < ds.len()
        invariant
            0 <= i <= ds@.len(),
            forall|i: int| 0 <= i < ds@.len() ==> #[trigger] ds@[i] < es@.len(),
            forall|jj: int| 0 <= jj < i ==> es@[#[trigger] ds@[jj] as int].0 != *x,
        decreases ds@.len() - i,
    {
        if es[ds[i]].0.same(x) {
            assert(es@[ds@[i as int] as int].0 == *x);
            return true;
        }
        i = i + 1;
    }
    false
}

/// The definition at position `c` with the aliases at the positions `ds` replaced by their
/// new names, if any of them was renamed.
fn tail_body(es: &Vec<(Atom, Atom)>, c: usize, ds: &Vec<usize>, renames: &HashMap<Atom, Atom>) -> (b: Atom)
    requires
        c < es@.len(),
        forall|i: int| 0 <= i < ds@.len() ==> #[trigger] ds@[i] < es@.len(),
    ensures
        b == (if forall|i: int| 0 <= i < ds@.len() ==> !table_view(*renames).dom().contains(#[trigger] es@[ds@[i] as int].0) {
            es@[c as int].1
        } else {
            norm(replace(es@[c as int].1, None, dep_rule(dep_set(es@, ds@), table_view(*renames))))
        }),
{
    let mut any = false;
    let mut i: usize = 0;
    while i < ds.len()
        invariant
            0 <= i <= ds@.len(),
            forall|i: int| 0 <= i < ds@.len() ==> #[trigger] ds@[i] < es@.len(),
            any == exists|jj: int| 0 <= jj < i && table_view(*renames).dom().contains(#[trigger] es@[ds@[jj] as int].0),
        decreases ds@.len() - i,
    {
        if table_contains(renames, &es[ds[i]].0) {
            any = true;
        }
        i = i + 1;
    }
    if !any {
        es[c].1.copy()
    } else {
        let ghost rule = dep_rule(dep_set(es@, ds@), table_view(*renames));
        let f = |x: &Atom, ctx: Option<AtomKind>| -> (o: Option<Atom>)
            ensures
                o == dep_rule(dep_set(es@, ds@), table_view(*renames))(*x, ctx),
            {
                if in_deps(es, ds, x) {
                    match table_get(renames, x) {
                        Some(v) => Some(v.copy()),
                        None => None,
                    }
                } else {
                    None
                }
            };
        es[c].1.replace_map(f, Ghost(rule))
    }
}


/// Everything the depth-first visit of the acyclic case keeps: rank, finished aliases in
/// place, the map's new aliases accounted for, and the aliases not yet reached untouched.
spec fn acyc_pre(
    es: Seq<(Atom, Atom)>,
    r: Map<Atom, Atom>,
    d0: Seq<Seq<usize>>,
    nodes: Seq<DepNode>,
    l: Map<Atom, Atom>,
    rho: Map<Atom, Atom>,
    l0: Map<Atom, Atom>,
    rank: spec_fn(Atom) -> nat,
    c: int,
) -> bool {
    &&& ranked(r, rank)
    &&& good(es, r, d0, nodes, l, rho)
    &&& l_exact(es, nodes, l, rho, l0)
    &&& timed(es, d0, nodes, rho, l0)
    &&& forall|j: int|
        0 <= j < nodes.len() && !(#[trigger] nodes[j]).resolved && rank(es[j].0) <= rank(es[c].0) ==> untouched(
            es,
            d0,
            nodes,
            rho,
            j,
        )
}

/// Positions in `es` of equal aliases are equal.
proof fn lemma_listing_distinct(es: Seq<(Atom, Atom)>, r: Map<Atom, Atom>, p: int, q: int)
    requires
        listing(es, r),
        0 <= p < es.len(),
        0 <= q < es.len(),
        es[p].0 == es[q].0,
    ensures
        p == q,
{
    if p < q {
        assert(es[p].0 != es[q].0);
    } else if q < p {
        assert(es[q].0 != es[p].0);
    }
}

/// The definition the tail computes is `fused_body` when the positions `ds` list exactly the
/// aliases the definition uses.
proof fn lemma_tail_is_fused(es: Seq<(Atom, Atom)>, ds: Seq<usize>, body: Atom, keys: Set<Atom>, rho: Map<Atom, Atom>)
    requires
        dep_set(es, ds) == key_uses(body, keys),
        forall|i: int| 0 <= i < ds.len() ==> #[trigger] ds[i] < es.len(),
    ensures
        fused_body(body, keys, rho) == (if forall|i: int| 0 <= i < ds.len() ==> !rho.dom().contains(#[trigger] es[ds[i] as int].0) {
            body
        } else {
            norm(replace(body, None, dep_rule(dep_set(es, ds), rho)))
        }),
{
    let d = key_uses(body, keys);
    let c1 = forall|x: Atom| d.contains(x) ==> !rho.dom().contains(x);
    let c2 = forall|i: int| 0 <= i < ds.len() ==> !rho.dom().contains(#[trigger] es[ds[i] as int].0);
    if c1 {
        assert forall|i: int| 0 <= i < ds.len() implies !rho.dom().contains(#[trigger] es[ds[i] as int].0) by {
            assert(dep_set(es, ds).contains(es[ds[i] as int].0));
        }
    }
    if c2 {
        assert forall|x: Atom| d.contains(x) implies !rho.dom().contains(x) by {
            assert(dep_set(es, ds).contains(x));
            let i = choose|i: int| 0 <= i < ds.len() && es[ds[i] as int].0 == x;
        }
    }
}

proof fn lemma_submap_at(m1: Map<Atom, Atom>, m2: Map<Atom, Atom>, k: Atom)
    requires
        m1.submap_of(m2),
        m1.dom().contains(k),
    ensures
        m2.dom().contains(k),
        m2[k] == m1[k],
{
    assert(m2.dom().contains(k));
}

/// The finished alias at position `c`, and those finished before it, stand as `handled`
/// says after its definition has been placed.
proof fn lemma_tail_good(
    es: Seq<(Atom, Atom)>,
    r: Map<Atom, Atom>,
    d0: Seq<Seq<usize>>,
    nt: Seq<DepNode>,
    nf: Seq<DepNode>,
    al1: Map<Atom, Atom>,
    al2: Map<Atom, Atom>,
    rho1: Map<Atom, Atom>,
    rho2: Map<Atom, Atom>,
    c: int,
    b: Atom,
    renamed_to: Option<Atom>,
    gave: bool,
    rank: spec_fn(Atom) -> nat,
)
    requires
        setup_ok(es, r, d0),
        ranked(r, rank),
        0 <= c < es.len(),
        nt.len() == es.len(),
        nf.len() == es.len(),
        good(es, r, d0, nt, al1, rho1),
        !nt[c].resolved,
        forall|i: int| 0 <= i < d0[c].len() ==> nt[#[trigger] d0[c][i] as int].resolved,
        forall|j: int| 0 <= j < es.len() && j != c ==> #[trigger] nf[j] == nt[j],
        nf[c].resolved,
        (nf[c].gave_chain@ is Some) == gave,
        !rho1.dom().contains(es[c].0),
        b == fused_body(es[c].1, r.dom(), rho1),
        al1.submap_of(al2),
        match renamed_to {
            Some(a) => {
                &&& rho2 == rho1.insert(es[c].0, a)
                &&& !al1.dom().contains(a)
                &&& al1.dom().contains(es[c].0)
                &&& al1[es[c].0] != b
                &&& al2 == al1.insert(a, b)
                &&& !gave
            },
            None => {
                &&& rho2 == rho1
                &&& gave ==> al1.dom().contains(es[c].0) && al1[es[c].0] != b && al2 == al1
                &&& !gave ==> al2.dom().contains(es[c].0) && al2[es[c].0] == b
            },
        },
    ensures
        good(es, r, d0, nf, al2, rho2),
{
    let k = es[c].0;
    assert(r.dom().contains(k) && r[k] == es[c].1);
    assert forall|j: int| 0 <= j < es.len() && j != c implies es[j].0 != k by {
        if es[j].0 == k {
            lemma_listing_distinct(es, r, j, c);
        }
    }
    assert forall|j: int| 0 <= j < nf.len() && (#[trigger] nf[j]).resolved implies handled(es, r, d0, nf, al2, rho2, j) by {
        let kj = es[j].0;
        assert(dep_set(es, d0[j]) == key_uses(es[j].1, r.dom()));
        assert forall|x: Atom| #[trigger] key_uses(es[j].1, r.dom()).contains(x) implies same_at(rho1, rho2, x) by {
            if x == k {
                assert(dep_set(es, d0[j]).contains(x));
                let i = choose|i: int| 0 <= i < d0[j].len() && es[d0[j][i] as int].0 == x;
                assert(d0[j][i] < es.len());
                lemma_listing_distinct(es, r, d0[j][i] as int, c);
                if j == c {
                    assert(rank(x) < rank(k));
                } else {
                    assert(nt[j].resolved);
                    assert(handled(es, r, d0, nt, al1, rho1, j));
                    assert(nt[d0[j][i] as int].resolved);
                }
            }
        }
        lemma_fused_agree(es[j].1, r.dom(), rho1, rho2);
        assert forall|i: int| 0 <= i < d0[j].len() implies nf[#[trigger] d0[j][i] as int].resolved by {
            assert(d0[j][i] < es.len());
            if d0[j][i] as int != c {
                if j == c {
                    assert(nt[d0[c][i] as int].resolved);
                } else {
                    assert(handled(es, r, d0, nt, al1, rho1, j));
                }
            }
        }
        let bj = fused_body(es[j].1, r.dom(), rho2);
        assert(bj == fused_body(es[j].1, r.dom(), rho1));
        if j != c {
            assert(nt[j].resolved);
            assert(handled(es, r, d0, nt, al1, rho1, j));
            assert(kj != k);
            assert(nf[j] == nt[j]);
            assert(same_at(rho2, rho1, kj));
            if al1.dom().contains(kj) {
                lemma_submap_at(al1, al2, kj);
            }
            if rho1.dom().contains(kj) {
                let a = rho1[kj];
                if al1.dom().contains(a) {
                    lemma_submap_at(al1, al2, a);
                }
            }
            match nt[j].gave_chain@ {
                Some(_) => {
                    assert(al2[kj] == al1[kj]);
                },
                None => {
                    if rho1.dom().contains(kj) {
                        assert(al2[kj] == al1[kj]);
                        assert(al2[rho1[kj]] == al1[rho1[kj]]);
                    } else {
                        assert(al2[kj] == al1[kj]);
                    }
                },
            }
        } else {
            assert(bj == b);
            match renamed_to {
                Some(a) => {
                    assert(nf[c].gave_chain@ is None);
                    assert(k != a);
                    assert(al2[k] == al1[k]);
                    assert(rho2.dom().contains(k) && rho2[k] == a);
                    assert(al2[a] == b);
                },
                None => {
                    if gave {
                        assert(!rho2.dom().contains(k));
                    } else {
                        assert(nf[c].gave_chain@ is None);
                        assert(!rho2.dom().contains(k));
                    }
                },
            }
        }
    }
}

/// The alias at position `c`, finished now, and those finished before it keep the order
/// that `timed` asks for.
proof fn lemma_tail_timed(
    es: Seq<(Atom, Atom)>,
    r: Map<Atom, Atom>,
    d0: Seq<Seq<usize>>,
    nt: Seq<DepNode>,
    nf: Seq<DepNode>,
    al1: Map<Atom, Atom>,
    rho1: Map<Atom, Atom>,
    rho2: Map<Atom, Atom>,
    l0: Map<Atom, Atom>,
    c: int,
    renamed_to: Option<Atom>,
    gave: bool,
)
    requires
        setup_ok(es, r, d0),
        0 <= c < es.len(),
        nt.len() == es.len(),
        nf.len() == es.len(),
        timed(es, d0, nt, rho1, l0),
        good(es, r, d0, nt, al1, rho1),
        l_exact(es, nt, al1, rho1, l0),
        !nt[c].resolved,
        forall|i: int| 0 <= i < d0[c].len() ==> nt[#[trigger] d0[c][i] as int].resolved,
        forall|j: int| 0 <= j < es.len() && j != c ==> #[trigger] nf[j] == nt[j],
        nf[c].resolved,
        nf[c].stamp@ == count_resolved(nt),
        count_resolved(nf) == count_resolved(nt) + 1,
        (nf[c].gave_chain@ is Some) == gave,
        !rho1.dom().contains(es[c].0),
        match renamed_to {
            Some(a) => rho2 == rho1.insert(es[c].0, a) && !gave,
            None => rho2 == rho1,
        },
        (gave || renamed_to is Some) ==> al1.dom().contains(es[c].0),
    ensures
        timed(es, d0, nf, rho2, l0),
{
    let k = es[c].0;
    assert forall|j: int| 0 <= j < es.len() && j != c implies es[j].0 != k by {
        if es[j].0 == k {
            lemma_listing_distinct(es, r, j, c);
        }
    }
    assert forall|j: int| 0 <= j < es.len() && j != c implies same_at(rho2, rho1, #[trigger] es[j].0) by {}
    assert forall|j: int| 0 <= j < nf.len() && (#[trigger] nf[j]).resolved implies {
        &&& nf[j].stamp@ < count_resolved(nf)
        &&& forall|i: int| 0 <= i < d0[j].len() ==> nf[#[trigger] d0[j][i] as int].stamp@ < nf[j].stamp@
        &&& (nf[j].gave_chain@ is Some || rho2.dom().contains(es[j].0)) ==> l0.dom().contains(es[j].0)
            || exists|i: int|
            0 <= i < nf.len() && nf[i].resolved && rho2.dom().contains(es[i].0) && rho2[es[i].0] == es[j].0
                && nf[i].stamp@ < nf[j].stamp@
    } by {
        if j != c {
            assert(nt[j].resolved);
            assert(handled(es, r, d0, nt, al1, rho1, j));
            assert forall|i: int| 0 <= i < d0[j].len() implies nf[#[trigger] d0[j][i] as int].stamp@ < nf[j].stamp@ by {
                assert(d0[j][i] < es.len());
                assert(nt[d0[j][i] as int].resolved);
                assert(d0[j][i] as int != c);
            }
            if nf[j].gave_chain@ is Some || rho2.dom().contains(es[j].0) {
                if !l0.dom().contains(es[j].0) {
                    let i = choose|i: int|
                        0 <= i < nt.len() && nt[i].resolved && rho1.dom().contains(es[i].0) && rho1[es[i].0] == es[j].0
                            && nt[i].stamp@ < nt[j].stamp@;
                    assert(i != c);
                    assert(nf[i] == nt[i]);
                    assert(same_at(rho2, rho1, es[i].0));
                }
            }
        } else {
            assert forall|i: int| 0 <= i < d0[c].len() implies nf[#[trigger] d0[c][i] as int].stamp@ < nf[c].stamp@ by {
                assert(d0[c][i] < es.len());
                assert(nt[d0[c][i] as int].resolved);
                assert(d0[c][i] as int != c);
            }
            if (nf[c].gave_chain@ is Some || rho2.dom().contains(k)) && !l0.dom().contains(k) {
                assert(al1.dom().contains(k));
                let i = choose|i: int|
                    0 <= i < nt.len() && nt[i].resolved && ((k == es[i].0 && !rho1.dom().contains(es[i].0)
                        && nt[i].gave_chain@ is None) || (rho1.dom().contains(es[i].0) && rho1[es[i].0] == k));
                assert(i != c);
                if k == es[i].0 {
                    lemma_listing_distinct(es, r, i, c);
                }
                assert(nf[i] == nt[i]);
                assert(same_at(rho2, rho1, es[i].0));
            }
        }
    }
}

/// Finish the right-hand alias at position `c`: first the aliases its definition uses, then
/// its own definition, renamed through the resolver when the map already defines the alias
/// differently.
fn resolve_node<F: Fn(&Atom) -> Atom>(
    c: usize,
    nodes: &mut Vec<DepNode>,
    aliases: &mut HashMap<Atom, Atom>,
    renames: &mut HashMap<Atom, Atom>,
    es: &Vec<(Atom, Atom)>,
    f: &F,
    Ghost(r): Ghost<Map<Atom, Atom>>,
    Ghost(l0): Ghost<Map<Atom, Atom>>,
    Ghost(d0): Ghost<Seq<Seq<usize>>>,
    Ghost(acyc): Ghost<bool>,
    Ghost(rank): Ghost<spec_fn(Atom) -> nat>,
)
    requires
        setup_ok(es@, r, d0),
        c < es@.len(),
        node_wf(old(nodes)@, d0),
        chains_ok(*f, es@, old(nodes)@, table_view(*old(renames)), table_view(*old(aliases)), l0, r),
        l0.submap_of(table_view(*old(aliases))),
        table_view(*old(aliases)).dom().finite(),
        origin_ok(*f, table_view(*old(aliases)), l0, r),
        placed_ok(es@, r, old(nodes)@, table_view(*old(aliases)), table_view(*old(renames)), l0),
        compatible(l0, r) ==> compat_state(old(nodes)@, table_view(*old(aliases)), table_view(*old(renames)), l0, r),
        forall|x: &Atom| #[trigger] f.requires((x,)),
        acyc ==> acyc_pre(
            es@,
            r,
            d0,
            old(nodes)@,
            table_view(*old(aliases)),
            table_view(*old(renames)),
            l0,
            rank,
            c as int,
        ),
    ensures
        node_wf(final(nodes)@, d0),
        chains_ok(*f, es@, final(nodes)@, table_view(*final(renames)), table_view(*final(aliases)), l0, r),
        table_view(*old(aliases)).submap_of(table_view(*final(aliases))),
        table_view(*final(aliases)).dom().finite(),
        origin_ok(*f, table_view(*final(aliases)), l0, r),
        placed_ok(es@, r, final(nodes)@, table_view(*final(aliases)), table_view(*final(renames)), l0),
        compatible(l0, r) ==> compat_state(final(nodes)@, table_view(*final(aliases)), table_view(*final(renames)), l0, r),
        final(nodes)@[c as int].resolved,
        forall|j: int|
            0 <= j < es@.len() && (old(nodes)@[j].resolved || !final(nodes)@[j].resolved) ==> #[trigger] final(nodes)@[j]
                == old(nodes)@[j] && same_at(table_view(*final(renames)), table_view(*old(renames)), es@[j].0),
        total_deps(final(nodes)@) <= total_deps(old(nodes)@),
        acyc ==> good(es@, r, d0, final(nodes)@, table_view(*final(aliases)), table_view(*final(renames))),
        acyc ==> l_exact(es@, final(nodes)@, table_view(*final(aliases)), table_view(*final(renames)), l0),
        acyc ==> timed(es@, d0, final(nodes)@, table_view(*final(renames)), l0),
        acyc ==> forall|j: int|
            0 <= j < es@.len() && rank(es@[j].0) > rank(es@[c as int].0) ==> #[trigger] final(nodes)@[j] == old(nodes)@[j]
                && same_at(table_view(*final(renames)), table_view(*old(renames)), es@[j].0),
    decreases total_deps(old(nodes)@),
{
    if nodes[c].resolved {
        return;
    }
    let ghost n0 = nodes@;
    let ghost rho0 = table_view(*renames);
    let ghost al0 = table_view(*aliases);
    let mut node = DepNode {
        deps: Vec::new(),
        resolved: false,
        name_chain: Ghost(nodes@[c as int].name_chain@),
        gave_chain: Ghost(nodes@[c as int].gave_chain@),
        stamp: Ghost(nodes@[c as int].stamp@),
        placed_with: Ghost(nodes@[c as int].placed_with@),
    };
    nodes.set_and_swap(c, &mut node);
    proof {
        lemma_total_deps_update(n0, c as int, nodes@[c as int]);
    }
    let DepNode { deps, .. } = node;
    let ghost n1 = nodes@;
    assert(node_wf(nodes@, d0)) by {
        assert forall|j: int| 0 <= j < nodes@.len() implies (#[trigger] nodes@[j]).deps@ == d0[j] || nodes@[j].deps@.len() == 0 by {
            if j != c {
                assert(nodes@[j] == n0[j]);
            }
        }
    }
    proof {
        if acyc {
            assert(nodes@[c as int] == n1[c as int]);
            assert(n0[c as int].deps@ == d0[c as int]);
            lemma_count_update(n0, c as int, nodes@[c as int]);
            assert(nodes@ == n0.update(c as int, nodes@[c as int]));
            assert(timed(es@, d0, nodes@, rho0, l0)) by {
                assert forall|j: int| 0 <= j < nodes@.len() && (#[trigger] nodes@[j]).resolved implies {
                    &&& nodes@[j].stamp@ < count_resolved(nodes@)
                    &&& forall|i: int| 0 <= i < d0[j].len() ==> nodes@[#[trigger] d0[j][i] as int].stamp@ < nodes@[j].stamp@
                    &&& (nodes@[j].gave_chain@ is Some || rho0.dom().contains(es@[j].0)) ==> l0.dom().contains(es@[j].0)
                        || exists|i: int|
                        0 <= i < nodes@.len() && nodes@[i].resolved && rho0.dom().contains(es@[i].0) && rho0[es@[i].0]
                            == es@[j].0 && nodes@[i].stamp@ < nodes@[j].stamp@
                } by {
                    assert(j != c);
                    assert(nodes@[j] == n0[j]);
                    assert(handled(es@, r, d0, n0, al0, rho0, j));
                    assert forall|i: int| 0 <= i < d0[j].len() implies nodes@[#[trigger] d0[j][i] as int].stamp@ < nodes@[j].stamp@ by {
                        assert(n0[d0[j][i] as int].resolved);
                        assert(d0[j][i] as int != c);
                    }
                    if (nodes@[j].gave_chain@ is Some || rho0.dom().contains(es@[j].0)) && !l0.dom().contains(es@[j].0) {
                        let i = choose|i: int|
                            0 <= i < n0.len() && n0[i].resolved && rho0.dom().contains(es@[i].0) && rho0[es@[i].0]
                                == es@[j].0 && n0[i].stamp@ < n0[j].stamp@;
                        assert(i != c);
                        assert(nodes@[i] == n0[i]);
                    }
                }
            }
        }
    }
    let mut i: usize = 0;
    while i < deps.len()
        invariant
            0 <= i <= deps@.len(),
            deps@ == n0[c as int].deps@,
            n0[c as int].deps@ == d0[c as int] || n0[c as int].deps@.len() == 0,
            !n0[c as int].resolved,
            n0 == old(nodes)@,
            rho0 == table_view(*old(renames)),
            al0 == table_view(*old(aliases)),
            setup_ok(es@, r, d0),
            c < es@.len(),
            node_wf(nodes@, d0),
            chains_ok(*f, es@, nodes@, table_view(*renames), table_view(*aliases), l0, r),
            l0.submap_of(al0),
            al0.submap_of(table_view(*aliases)),
            table_view(*aliases).dom().finite(),
            origin_ok(*f, table_view(*aliases), l0, r),
            placed_ok(es@, r, nodes@, table_view(*aliases), table_view(*renames), l0),
            compatible(l0, r) ==> compat_state(nodes@, table_view(*aliases), table_view(*renames), l0, r),
            forall|x: &Atom| #[trigger] f.requires((x,)),
            total_deps(nodes@) + deps@.len() <= total_deps(n0),
            nodes@.len() == n0.len(),
            forall|j: int|
                0 <= j < es@.len() && j != c && (n0[j].resolved || !nodes@[j].resolved) ==> #[trigger] nodes@[j]
                    == n0[j] && same_at(table_view(*renames), rho0, es@[j].0),
            acyc ==> {
                &&& ranked(r, rank)
                &&& good(es@, r, d0, nodes@, table_view(*aliases), table_view(*renames))
                &&& l_exact(es@, nodes@, table_view(*aliases), table_view(*renames), l0)
                &&& timed(es@, d0, nodes@, table_view(*renames), l0)
                &&& nodes@[c as int] == n1[c as int]
                &&& !table_view(*renames).dom().contains(es@[c as int].0)
                &&& deps@ == d0[c as int]
                &&& forall|j: int|
                    0 <= j < nodes@.len() && j != c && !(#[trigger] nodes@[j]).resolved && rank(es@[j].0)
                        <= rank(es@[c as int].0) ==> untouched(es@, d0, nodes@, table_view(*renames), j)
                &&& forall|j: int|
                    0 <= j < es@.len() && rank(es@[j].0) > rank(es@[c as int].0) ==> #[trigger] nodes@[j]
                        == n0[j] && same_at(table_view(*renames), rho0, es@[j].0)
                &&& forall|ii: int| 0 <= ii < i ==> nodes@[#[trigger] deps@[ii] as int].resolved
            },
        decreases deps@.len() - i,
    {
        let p = deps[i];
        let ghost nb = nodes@;
        let ghost rb = table_view(*renames);
        proof {
            assert(p < es@.len()) by {
                if deps@ == d0[c as int] {
                    assert(d0[c as int][i as int] < es@.len());
                }
            }
            if acyc {
                assert(dep_set(es@, d0[c as int]).contains(es@[p as int].0));
                assert(key_uses(es@[c as int].1, r.dom()).contains(es@[p as int].0));
                assert(r[es@[c as int].0] == es@[c as int].1);
                assert(rank(es@[p as int].0) < rank(es@[c as int].0));
                assert forall|j: int|
                    0 <= j < nodes@.len() && !(#[trigger] nodes@[j]).resolved && rank(es@[j].0) <= rank(
                        es@[p as int].0,
                    ) implies untouched(es@, d0, nodes@, table_view(*renames), j) by {
                    assert(j != c);
                }
            }
        }
        resolve_node(p, nodes, aliases, renames, es, f, Ghost(r), Ghost(l0), Ghost(d0), Ghost(acyc), Ghost(rank));
        proof {
            assert forall|j: int|
                0 <= j < es@.len() && j != c && (n0[j].resolved || !nodes@[j].resolved) implies #[trigger] nodes@[j]
                    == n0[j] && same_at(table_view(*renames), rho0, es@[j].0) by {
                if n0[j].resolved {
                    assert(nb[j] == n0[j]);
                } else {
                    assert(!nb[j].resolved);
                    assert(nb[j] == n0[j]);
                }
            }
            if acyc {
                assert(rank(es@[p as int].0) < rank(es@[c as int].0));
                assert(nodes@[c as int] == nb[c as int]);
                assert forall|j: int|
                    0 <= j < nodes@.len() && j != c && !(#[trigger] nodes@[j]).resolved && rank(es@[j].0)
                        <= rank(es@[c as int].0) implies untouched(es@, d0, nodes@, table_view(*renames), j) by {
                    assert(!nb[j].resolved);
                    assert(nodes@[j] == nb[j]);
                }
                assert forall|j: int|
                    0 <= j < es@.len() && rank(es@[j].0) > rank(es@[c as int].0) implies #[trigger] nodes@[j]
                        == n0[j] && same_at(table_view(*renames), rho0, es@[j].0) by {
                    assert(nodes@[j] == nb[j]);
                }
                assert forall|ii: int| 0 <= ii < i + 1 implies nodes@[#[trigger] deps@[ii] as int].resolved by {
                    if ii < i {
                        assert(nb[deps@[ii] as int].resolved);
                        assert(nodes@[deps@[ii] as int] == nb[deps@[ii] as int]);
                    }
                }
            }
        }
        i = i + 1;
    }
    let ghost nt = nodes@;
    let ghost rho1 = table_view(*renames);
    let ghost al1 = table_view(*aliases);
    proof {
        assert forall|ii: int| 0 <= ii < deps@.len() implies #[trigger] deps@[ii] < es@.len() by {
            if deps@ == d0[c as int] {
                assert(d0[c as int][ii] < es@.len());
            }
        }
    }
    let body = tail_body(es, c, &deps, renames);
    let ghost b = body;
    let existing: Option<bool> = match table_get(aliases, &es[c].0) {
        Some(e) => Some(e.same(&body)),
        None => None,
    };
    let ghost k = es@[c as int].0;
    let ghost cur = nodes@[c as int];
    assert(existing == (if al1.dom().contains(k) { Some(al1[k] == b) } else { None }));
    let ghost mut renamed_to: Option<Atom> = None;
    let ghost mut gave: bool = false;
    let mut done = DepNode {
        deps: Vec::new(),
        resolved: true,
        name_chain: Ghost(cur.name_chain@),
        gave_chain: Ghost(cur.gave_chain@),
        stamp: Ghost(count_resolved(nodes@)),
        placed_with: Ghost(if deps@ == d0[c as int] { table_view(*renames) } else { Map::empty() }),
    };
    match existing {
        Some(true) => {},
        Some(false) => {
            proof {
                if compatible(l0, r) {
                    assert(table_view(*renames).dom() =~= Set::<Atom>::empty());
                    assert(r.dom().contains(k) && r[k] == es@[c as int].1);
                    assert(b == es@[c as int].1);
                    assert(al1[k] == l0.union_prefer_right(r)[k]);
                }
            }
            let mut cand = f(&es[c].0);
            let ghost mut tried: Seq<Atom> = seq![cand];
            let mut tries: u64 = 1;
            while table_contains(aliases, &cand) && tries < u64::MAX
                invariant
                    resolver_chain(*f, k, tried),
                    k == es@[c as int].0,
                    tried.last() == cand,
                    tried.len() == tries,
                    1 <= tries <= u64::MAX,
                    forall|ii: int| 0 <= ii < tried.len() - 1 ==> table_view(*aliases).dom().contains(#[trigger] tried[ii]),
                    forall|x: &Atom| #[trigger] f.requires((x,)),
                decreases u64::MAX - tries,
            {
                let next = f(&cand);
                proof {
                    let t0 = tried;
                    tried = tried.push(next);
                    assert forall|ii: int| 0 <= ii < tried.len() - 1 implies #[trigger] f.ensures((&tried[ii],), tried[ii + 1]) by {
                        if ii < t0.len() - 1 {
                            assert(tried[ii] == t0[ii] && tried[ii + 1] == t0[ii + 1]);
                        }
                    }
                    assert forall|ii: int| 0 <= ii < tried.len() - 1 implies table_view(*aliases).dom().contains(#[trigger] tried[ii]) by {
                        if ii < t0.len() - 1 {
                            assert(tried[ii] == t0[ii]);
                        }
                    }
                }
                cand = next;
                tries = tries + 1;
            }
            if table_contains(aliases, &cand) {
                done.gave_chain = Ghost(Some(tried));
                proof {
                    gave = true;
                }
                assert(exhausted_chain(*f, k, tried, table_view(*aliases)));
            } else {
                proof {
                    if tried.len() == 1 {
                        assert(f.ensures((&k,), cand));
                    } else {
                        assert(f.ensures((&tried[tried.len() - 2],), tried[tried.len() - 2 + 1]));
                    }
                }
                let ghost cand_g = cand;
                assert(!al1.dom().contains(cand_g));
                table_insert(renames, es[c].0.copy(), cand.copy());
                table_insert(aliases, cand, body);
                done.name_chain = Ghost(tried);
                proof {
                    renamed_to = Some(cand_g);
                }
                assert(fresh_name_chain(*f, k, tried, table_view(*renames)[k], table_view(*aliases)));
            }
        },
        None => {
            table_insert(aliases, es[c].0.copy(), body);
        },
    }
    let ghost nb = nodes@;
    nodes.set(c, done);
    proof {
        lemma_total_deps_update(nb, c as int, done);
        let rho2 = table_view(*renames);
        let al2 = table_view(*aliases);
        assert(al1.submap_of(al2));
        assert(forall|j: int| 0 <= j < es@.len() && j != c ==> #[trigger] nodes@[j] == nb[j]);
        assert forall|j: int| 0 <= j < es@.len() && es@[j].0 != k implies same_at(rho2, rho1, #[trigger] es@[j].0) by {}
        assert forall|j: int| 0 <= j < es@.len() && j != c implies es@[j].0 != k by {
            if es@[j].0 == k {
                lemma_listing_distinct(es@, r, j, c as int);
            }
        }
        assert(rho2 == (match renamed_to { Some(a) => rho1.insert(k, a), None => rho1 }));
        assert(al2 == (match renamed_to {
            Some(a) => al1.insert(a, b),
            None => if existing is None { al1.insert(k, b) } else { al1 },
        }));
        assert(r.dom().contains(k) && r[k] == es@[c as int].1);
        assert(forall|j: int| 0 <= j < es@.len() && j != c ==> same_at(rho2, rho1, #[trigger] es@[j].0));
        assert(node_wf(nodes@, d0)) by {
            assert forall|j: int| 0 <= j < nodes@.len() implies (#[trigger] nodes@[j]).deps@ == d0[j] || nodes@[j].deps@.len() == 0 by {
                if j != c {
                    assert(nodes@[j] == nt[j]);
                }
            }
        }
        assert(chains_ok(*f, es@, nodes@, rho2, al2, l0, r)) by {
            assert forall|j: int| 0 <= j < nodes@.len() implies match (#[trigger] nodes@[j]).gave_chain@ {
                Some(ch) => nodes@[j].resolved && exhausted_chain(*f, es@[j].0, ch, al2),
                None => true,
            } by {
                if j != c {
                    assert(nodes@[j] == nt[j]);
                }
            }
            assert forall|j: int| 0 <= j < nodes@.len() && rho2.dom().contains(#[trigger] es@[j].0) implies {
                &&& nodes@[j].resolved
                &&& !l0.dom().contains(rho2[es@[j].0])
                &&& al2.dom().contains(rho2[es@[j].0])
                &&& fresh_name_chain(*f, es@[j].0, nodes@[j].name_chain@, rho2[es@[j].0], al2)
            } by {
                if j != c {
                    assert(nodes@[j] == nt[j]);
                    assert(same_at(rho2, rho1, es@[j].0));
                } else if renamed_to is None {
                    assert(rho1.dom().contains(k));
                }
            }
        }
        assert(placed_ok(es@, r, nodes@, al2, rho2, l0)) by {
            let sc = if deps@ == d0[c as int] { rho1 } else { Map::empty() };
            assert(nodes@[c as int].placed_with@ == sc);
            if deps@ == d0[c as int] {
                lemma_tail_is_fused(es@, deps@, es@[c as int].1, r.dom(), rho1);
            } else {
                assert(deps@.len() == 0);
                assert(b == es@[c as int].1);
            }
            assert(b == fused_body(es@[c as int].1, r.dom(), sc));
            assert(fresh_renames(sc, l0, al2, r)) by {
                assert forall|x: Atom| #[trigger] sc.dom().contains(x) implies al2.dom().contains(sc[x]) && !l0.dom().contains(sc[x]) by {
                    assert(rho1.dom().contains(x));
                    assert(r.dom().contains(x));
                    let q = choose|q: int| 0 <= q < es@.len() && #[trigger] es@[q].0 == x;
                    assert(rho1.dom().contains(es@[q].0));
                    assert(al1.dom().contains(rho1[x]));
                }
            }
            assert forall|j: int| 0 <= j < nodes@.len() && (#[trigger] nodes@[j]).resolved implies {
                let s = nodes@[j].placed_with@;
                let bj = fused_body(es@[j].1, r.dom(), s);
                &&& al2.dom().contains(es@[j].0)
                &&& nodes@[j].gave_chain@ is Some || (fresh_renames(s, l0, al2, r) && (al2[es@[j].0] == bj || (rho2.dom().contains(es@[j].0)
                    && al2[rho2[es@[j].0]] == bj)))
            } by {
                if j != c {
                    assert(nodes@[j] == nt[j]);
                    let s = nt[j].placed_with@;
                    let kj = es@[j].0;
                    assert(same_at(rho2, rho1, kj));
                    lemma_submap_at(al1, al2, kj);
                    if rho1.dom().contains(kj) && al1.dom().contains(rho1[kj]) {
                        lemma_submap_at(al1, al2, rho1[kj]);
                    }
                    if fresh_renames(s, l0, al1, r) {
                        assert forall|x: Atom| #[trigger] s.dom().contains(x) implies al2.dom().contains(s[x]) && !l0.dom().contains(s[x]) by {
                            assert(al1.dom().contains(s[x]));
                        }
                    }
                } else {
                    match existing {
                        Some(true) => {
                            assert(al2 == al1);
                        },
                        Some(false) => {
                            if renamed_to is None {
                                assert(gave);
                            }
                        },
                        None => {},
                    }
                }
            }
        }
        assert forall|j: int|
            0 <= j < es@.len() && (n0[j].resolved || !nodes@[j].resolved) implies #[trigger] nodes@[j]
                == n0[j] && same_at(rho2, rho0, es@[j].0) by {
            if j != c {
                assert(nodes@[j] == nt[j]);
                assert(nt[j] == n0[j]);
            }
        }
        if acyc {
            lemma_tail_is_fused(es@, deps@, es@[c as int].1, r.dom(), rho1);
            assert(nt[c as int] == n1[c as int]);
            assert(untouched(es@, d0, n0, rho0, c as int));
            lemma_tail_good(es@, r, d0, nt, nodes@, al1, al2, rho1, rho2, c as int, b, renamed_to, gave, rank);
            lemma_count_update(nt, c as int, done);
            lemma_tail_timed(es@, r, d0, nt, nodes@, al1, rho1, rho2, l0, c as int, renamed_to, gave);
        }
    }
}


/// Take the aliases of `rhs_aliases` over into `aliases`. Each right-hand alias is visited
/// after the aliases its definition uses; where `aliases` already holds the alias with
/// another definition, the resolver is asked for a new name (again for each name already
/// taken) and the alias is renamed, in the later definitions that use it and in the returned
/// copy of `rhs_root`. After `u64::MAX` taken names the alias is left out.
pub(crate) fn fuse_tables<F: Fn(&Atom) -> Atom>(aliases: &mut HashMap<Atom, Atom>, rhs_aliases: &HashMap<Atom, Atom>, rhs_root: &Atom, f: &F) -> (root: Atom)
    requires
        table_view(*rhs_aliases).dom().finite(),
        table_view(*old(aliases)).dom().finite(),
        forall|x: &Atom| #[trigger] f.requires((x,)),
    ensures
        table_view(*final(aliases)).dom().finite(),
        exists|rho: Map<Atom, Atom>, gave: Set<Atom>|
            {
                &&& fused_into(table_view(*old(aliases)), table_view(*final(aliases)), table_view(*rhs_aliases), rho, gave, *f)
                &&& root == expand_once(*rhs_root, rho)
            },
{
    let ghost r = table_view(*rhs_aliases);
    let ghost l0 = table_view(*aliases);
    let es = table_entries(rhs_aliases);
    assert(listing(es@, r));
    let mut idx = index_new();
    let mut i: usize = 0;
    while i < es.len()
        invariant
            0 <= i <= es@.len(),
            listing(es@, r),
            forall|p: int| 0 <= p < i ==> index_view(idx).dom().contains(#[trigger] es@[p].0) && index_view(idx)[es@[p].0] == p,
            forall|x: Atom| #[trigger] index_view(idx).dom().contains(x) ==> exists|p: int| 0 <= p < i && es@[p].0 == x,
        decreases es@.len() - i,
    {
        proof {
            assert forall|p: int| 0 <= p < i implies es@[p].0 != es@[i as int].0 by {
                assert(es@[p].0 != es@[i as int].0);
            }
        }
        index_insert(&mut idx, es[i].0.copy(), i);
        i = i + 1;
    }
    assert(indexes(index_view(idx), es@));
    assert(index_view(idx).dom() =~= r.dom()) by {
        assert forall|x: Atom| r.dom().contains(x) implies index_view(idx).dom().contains(x) by {
            let p = choose|p: int| 0 <= p < es@.len() && #[trigger] es@[p].0 == x;
        }
        assert forall|x: Atom| index_view(idx).dom().contains(x) implies r.dom().contains(x) by {
            let p = choose|p: int| 0 <= p < es@.len() && es@[p].0 == x;
        }
    }
    let mut nodes: Vec<DepNode> = Vec::new();
    let ghost mut d0: Seq<Seq<usize>> = Seq::empty();
    let mut j: usize = 0;
    while j < es.len()
        invariant
            0 <= j <= es@.len(),
            listing(es@, r),
            indexes(index_view(idx), es@),
            index_view(idx).dom() == r.dom(),
            nodes@.len() == j,
            d0.len() == j,
            forall|q: int, ii: int| 0 <= q < j && 0 <= ii < d0[q].len() ==> #[trigger] d0[q][ii] < es@.len(),
            forall|q: int| 0 <= q < j ==> #[trigger] dep_set(es@, d0[q]) == key_uses(es@[q].1, r.dom()),
            forall|q: int| 0 <= q < j ==> untouched(es@, d0, nodes@, Map::empty(), q),
        decreases es@.len() - j,
    {
        let mut ds: Vec<usize> = Vec::new();
        collect_deps(&es[j].1, &idx, &mut ds, Ghost(es@), Ghost(r.dom()));
        proof {
            assert(ds@.subrange(0, 0) =~= Seq::<usize>::empty());
            assert(dep_set(es@, ds@) =~= key_uses(es@[j as int].1, r.dom())) by {
                assert forall|x: Atom| #[trigger] dep_set(es@, ds@).contains(x) implies key_uses(es@[j as int].1, r.dom()).contains(x) by {
                    let ii = choose|ii: int| 0 <= ii < ds@.len() && es@[ds@[ii] as int].0 == x;
                    assert(ds@[ii] < es@.len());
                }
            }
            let d0_before = d0;
            d0 = d0.push(ds@);
            assert(d0.drop_last() =~= d0_before);
        }
        let ghost nodes_before = nodes@;
        nodes.push(DepNode { deps: ds, resolved: false, name_chain: Ghost(Seq::empty()), gave_chain: Ghost(None), stamp: Ghost(0), placed_with: Ghost(Map::empty()) });
        proof {
            assert forall|q: int| 0 <= q < j + 1 implies untouched(es@, d0, nodes@, Map::empty(), q) by {
                if q < j {
                    assert(nodes@[q] == nodes_before[q]);
                    assert(d0[q] == d0.drop_last()[q]);
                    assert(untouched(es@, d0.drop_last(), nodes_before, Map::empty(), q));
                }
            }
            assert forall|q: int, ii: int| 0 <= q < j + 1 && 0 <= ii < d0[q].len() implies #[trigger] d0[q][ii] < es@.len() by {
                if q == j {
                    assert(d0[q] == ds@);
                    assert(ds@[ii] < es@.len());
                }
            }
            assert forall|q: int| 0 <= q < j + 1 implies #[trigger] dep_set(es@, d0[q]) == key_uses(es@[q].1, r.dom()) by {
                if q < j {
                    assert(d0[q] == d0.drop_last()[q]);
                }
            }
        }
        j = j + 1;
    }
    assert(setup_ok(es@, r, d0));
    let mut renames = table_new();
    let ghost acyc = acyclic(r);
    let ghost rank: spec_fn(Atom) -> nat = if acyc {
        choose|rank: spec_fn(Atom) -> nat| ranked(r, rank)
    } else {
        |x: Atom| 0nat
    };
    proof {
        assert(table_view(renames).dom() =~= Set::<Atom>::empty());
        assert(l_exact(es@, nodes@, table_view(*aliases), table_view(renames), l0));
        assert forall|q: int| 0 <= q < es@.len() implies !(#[trigger] nodes@[q]).resolved by {
            assert(untouched(es@, d0, nodes@, Map::empty(), q));
        }
        assert forall|q: int| 0 <= q < es@.len() implies untouched(es@, d0, nodes@, table_view(renames), q) by {
            assert(untouched(es@, d0, nodes@, Map::empty(), q));
        }
        assert(node_wf(nodes@, d0)) by {
            assert forall|q: int| 0 <= q < nodes@.len() implies (#[trigger] nodes@[q]).deps@ == d0[q] || nodes@[q].deps@.len() == 0 by {
                assert(untouched(es@, d0, nodes@, table_view(renames), q));
            }
        }
        assert(chains_ok(*f, es@, nodes@, table_view(renames), table_view(*aliases), l0, r)) by {
            assert forall|q: int| 0 <= q < nodes@.len() implies match (#[trigger] nodes@[q]).gave_chain@ {
                Some(ch) => nodes@[q].resolved && exhausted_chain(*f, es@[q].0, ch, table_view(*aliases)),
                None => true,
            } by {
                assert(untouched(es@, d0, nodes@, table_view(renames), q));
            }
        }
        if acyc {
            assert(timed(es@, d0, nodes@, table_view(renames), l0)) by {
                assert forall|q: int| 0 <= q < nodes@.len() implies !(#[trigger] nodes@[q]).resolved by {
                    assert(untouched(es@, d0, nodes@, table_view(renames), q));
                }
            }
            assert(good(es@, r, d0, nodes@, table_view(*aliases), table_view(renames))) by {
                assert forall|q: int| 0 <= q < nodes@.len() && (#[trigger] nodes@[q]).resolved implies handled(es@, r, d0, nodes@, table_view(*aliases), table_view(renames), q) by {
                    assert(untouched(es@, d0, nodes@, table_view(renames), q));
                }
            }
        }
    }
    let mut k: usize = 0;
    while k < es.len()
        invariant
            0 <= k <= es@.len(),
            setup_ok(es@, r, d0),
            node_wf(nodes@, d0),
            chains_ok(*f, es@, nodes@, table_view(renames), table_view(*aliases), l0, r),
            l0.submap_of(table_view(*aliases)),
            table_view(*aliases).dom().finite(),
            origin_ok(*f, table_view(*aliases), l0, r),
            placed_ok(es@, r, nodes@, table_view(*aliases), table_view(renames), l0),
            compatible(l0, r) ==> compat_state(nodes@, table_view(*aliases), table_view(renames), l0, r),
            forall|x: &Atom| #[trigger] f.requires((x,)),
            forall|q: int| 0 <= q < k ==> (#[trigger] nodes@[q]).resolved,
            forall|q: int| 0 <= q < es@.len() && !(#[trigger] nodes@[q]).resolved ==> untouched(es@, d0, nodes@, table_view(renames), q),
            acyc ==> ranked(r, rank) && good(es@, r, d0, nodes@, table_view(*aliases), table_view(renames)) && l_exact(
                es@,
                nodes@,
                table_view(*aliases),
                table_view(renames),
                l0,
            ) && timed(es@, d0, nodes@, table_view(renames), l0),
        decreases es@.len() - k,
    {
        let ghost nb = nodes@;
        let ghost rb = table_view(renames);
        resolve_node(k, &mut nodes, aliases, &mut renames, &es, f, Ghost(r), Ghost(l0), Ghost(d0), Ghost(acyc), Ghost(rank));
        proof {
            assert forall|q: int| 0 <= q < es@.len() && !(#[trigger] nodes@[q]).resolved implies untouched(es@, d0, nodes@, table_view(renames), q) by {
                assert(!nb[q].resolved);
                assert(nodes@[q] == nb[q]);
            }
            assert forall|q: int| 0 <= q < k + 1 implies (#[trigger] nodes@[q]).resolved by {
                if q < k {
                    assert(nb[q].resolved);
                }
            }
        }
        k = k + 1;
    }
    let root = expand_aliases(rhs_root, &renames);
    let ghost rho = table_view(renames);
    let ghost l1 = table_view(*aliases);
    let ghost gave = Set::new(|x: Atom| exists|q: int| 0 <= q < es@.len() && es@[q].0 == x && nodes@[q].gave_chain@ is Some);
    proof {
        assert forall|x: Atom| #[trigger] rho.dom().contains(x) implies !l0.dom().contains(rho[x]) && exists|ch: Seq<Atom>|
            fresh_name_chain(*f, x, ch, rho[x], l1) by {
            let q = choose|q: int| 0 <= q < es@.len() && #[trigger] es@[q].0 == x;
            assert(rho.dom().contains(es@[q].0));
            assert(fresh_name_chain(*f, x, nodes@[q].name_chain@, rho[x], l1));
        }
        assert forall|x: Atom| #[trigger] gave.contains(x) implies exists|ch: Seq<Atom>| exhausted_chain(*f, x, ch, l1) by {
            let q = choose|q: int| 0 <= q < es@.len() && es@[q].0 == x && nodes@[q].gave_chain@ is Some;
            let ch = nodes@[q].gave_chain@->0;
            assert(exhausted_chain(*f, x, ch, l1));
        }
        assert(gave.subset_of(r.dom())) by {
            assert forall|x: Atom| gave.contains(x) implies r.dom().contains(x) by {
                let q = choose|q: int| 0 <= q < es@.len() && es@[q].0 == x && nodes@[q].gave_chain@ is Some;
            }
        }
        if acyc {
            assert(acyclic(r));
            assert forall|x: Atom| #[trigger] r.dom().contains(x) implies settled(l1, r, rho, gave, x) by {
                let q = choose|q: int| 0 <= q < es@.len() && #[trigger] es@[q].0 == x;
                assert(nodes@[q].resolved);
                assert(handled(es@, r, d0, nodes@, l1, rho, q));
                assert(r[x] == es@[q].1);
                if nodes@[q].gave_chain@ is Some {
                    assert(gave.contains(x));
                } else {
                    assert forall|p: int| 0 <= p < es@.len() && es@[p].0 == x implies !(nodes@[p].gave_chain@ is Some) by {
                        lemma_listing_distinct(es@, r, p, q);
                    }
                    assert(!gave.contains(x));
                }
            }
            assert forall|x: Atom| #[trigger] l1.dom().contains(x) implies l0.dom().contains(x) || (r.dom().contains(x)
                && !rho.dom().contains(x) && !gave.contains(x)) || exists|y: Atom| rho.dom().contains(y) && rho[y] == x by {
                if !l0.dom().contains(x) {
                    let q = choose|q: int|
                        0 <= q < nodes@.len() && nodes@[q].resolved && ((x == es@[q].0 && !rho.dom().contains(es@[q].0)
                            && nodes@[q].gave_chain@ is None) || (rho.dom().contains(es@[q].0) && rho[es@[q].0] == x));
                    if x == es@[q].0 && !rho.dom().contains(es@[q].0) && nodes@[q].gave_chain@ is None {
                        assert forall|p: int| 0 <= p < es@.len() && es@[p].0 == x implies !(nodes@[p].gave_chain@ is Some) by {
                            lemma_listing_distinct(es@, r, p, q);
                        }
                        assert(r.dom().contains(x));
                    } else {
                        assert(rho.dom().contains(es@[q].0) && rho[es@[q].0] == x);
                    }
                }
            }
        }
        if acyc {
            let time = |x: Atom| nodes@[choose|q: int| 0 <= q < es@.len() && es@[q].0 == x].stamp@;
            assert forall|x: Atom, q: int| 0 <= q < es@.len() && #[trigger] es@[q].0 == x implies #[trigger] time(x) == nodes@[q].stamp@ by {
                let p = choose|p: int| 0 <= p < es@.len() && es@[p].0 == x;
                lemma_listing_distinct(es@, r, p, q);
            }
            assert forall|x: Atom, d: Atom| r.dom().contains(x) && #[trigger] key_uses(r[x], r.dom()).contains(d) implies time(d) < time(x) by {
                let q = choose|q: int| 0 <= q < es@.len() && #[trigger] es@[q].0 == x;
                assert(r[x] == es@[q].1);
                assert(dep_set(es@, d0[q]).contains(d));
                let i = choose|i: int| 0 <= i < d0[q].len() && es@[d0[q][i] as int].0 == d;
                assert(d0[q][i] < es@.len());
                assert(nodes@[q].resolved);
                assert(time(x) == nodes@[q].stamp@);
                assert(time(d) == nodes@[d0[q][i] as int].stamp@);
            }
            assert forall|x: Atom| #[trigger] r.dom().contains(x) && (gave.contains(x) || rho.dom().contains(x)) implies l0.dom().contains(x)
                || exists|j: Atom| rho.dom().contains(j) && rho[j] == x && time(j) < time(x) by {
                let q = choose|q: int| 0 <= q < es@.len() && #[trigger] es@[q].0 == x;
                assert(nodes@[q].resolved);
                assert(time(x) == nodes@[q].stamp@);
                if gave.contains(x) {
                    let p = choose|p: int| 0 <= p < es@.len() && es@[p].0 == x && nodes@[p].gave_chain@ is Some;
                    lemma_listing_distinct(es@, r, p, q);
                }
                if !l0.dom().contains(x) {
                    let i = choose|i: int|
                        0 <= i < nodes@.len() && nodes@[i].resolved && rho.dom().contains(es@[i].0) && rho[es@[i].0]
                            == x && nodes@[i].stamp@ < nodes@[q].stamp@;
                    assert(time(es@[i].0) == nodes@[i].stamp@);
                }
            }
            assert(fused_in_order(l0, r, rho, gave, time));
        }
        if compatible(l0, r) {
            assert(rho =~= Map::<Atom, Atom>::empty());
            assert(gave =~= Set::<Atom>::empty()) by {
                assert forall|x: Atom| !gave.contains(x) by {
                    if gave.contains(x) {
                        let q = choose|q: int| 0 <= q < es@.len() && es@[q].0 == x && nodes@[q].gave_chain@ is Some;
                    }
                }
            }
            assert(l1 =~= l0.union_prefer_right(r)) by {
                assert forall|x: Atom| r.dom().contains(x) implies l1.dom().contains(x) by {
                    let q = choose|q: int| 0 <= q < es@.len() && #[trigger] es@[q].0 == x;
                    assert(nodes@[q].resolved);
                }
            }
        }
        assert(fused_into(l0, l1, r, rho, gave, *f));
    }
    root
}

} // verus!
