use crate::alias_table::{table_clone, table_contains, table_entries, table_get, table_insert, table_new, table_view};
use ahash::HashMap;
use crate::fuse::{acyclic, fuse_tables, fused_into, lemma_fuse_compatible};
use crate::normal::{lemma_norm_idempotent, lemma_replace_inert, lemma_norm_normal, lemma_normal_fixed, lemma_replace_absent, lemma_replace_inverse, lemma_replace_keeps_normal};
use crate::atom::{norm_list, AtomList, byte_size, capped_byte_size, contains, kind_of, list_of, norm, replace, Atom, AtomKind};
use vstd::prelude::*;

verus! {

/// Replacement of every registered alias by its definition.
pub open spec fn lookup_in(m: Map<Atom, Atom>) -> spec_fn(Atom, Option<AtomKind>) -> Option<Atom> {
    |x: Atom, c: Option<AtomKind>|
        if m.dom().contains(x) {
            Some(m[x])
        } else {
            None
        }
}

/// Replacement of `from` by `to`.
pub open spec fn swap_for(from: Atom, to: Atom) -> spec_fn(Atom, Option<AtomKind>) -> Option<Atom> {
    |x: Atom, c: Option<AtomKind>|
        if x == from {
            Some(to)
        } else {
            None
        }
}

/// `a` with every subexpression equal to `from` replaced by `to`, normalized.
pub open spec fn rename_in(a: Atom, from: Atom, to: Atom) -> Atom {
    norm(replace(a, None, swap_for(from, to)))
}

/// One round of alias expansion: every outermost alias occurrence replaced by its definition.
pub open spec fn expand_once(a: Atom, m: Map<Atom, Atom>) -> Atom {
    norm(replace(a, None, lookup_in(m)))
}

/// `n` rounds of alias expansion.
pub open spec fn expand_n(a: Atom, m: Map<Atom, Atom>, n: nat) -> Atom
    decreases n,
{
    if n == 0 {
        a
    } else {
        expand_once(expand_n(a, m, (n - 1) as nat), m)
    }
}

/// After `n` rounds, a further round changes nothing.
pub open spec fn settles_at(a: Atom, m: Map<Atom, Atom>, n: nat) -> bool {
    expand_once(expand_n(a, m, n), m) == expand_n(a, m, n)
}

/// `r` is the first round of expanding the aliases of `m` in `root` that a further round
/// leaves unchanged.
pub open spec fn fully_expanded(root: Atom, m: Map<Atom, Atom>, r: Atom) -> bool {
    exists|k: nat|
        {
            &&& r == expand_n(root, m, k)
            &&& settles_at(root, m, k)
            &&& forall|j: nat| j < k ==> !settles_at(root, m, j)
        }
}

/// Expanding an alias undoes `add_alias`: for a normal atom `a` and a fresh handle (a
/// variable or function) standing for a normal definition other than a number, the aliased
/// atom `add_alias` makes from `a` expands back to `a`, after finitely many rounds.
pub proof fn lemma_add_alias_undone(a: Atom, alias: Atom, original: Atom)
    requires
        norm(a) == a,
        norm(original) == original,
        norm(alias) == alias,
        alias is Var || alias is Fun,
        !(original is Num),
        !contains(a, alias),
        !contains(original, alias),
    ensures
        exists|n: nat| settles_at(rename_in(a, original, alias), Map::empty().insert(alias, original), n),
        forall|r: Atom|
            fully_expanded(rename_in(a, original, alias), Map::empty().insert(alias, original), r) ==> r == a,
{
    let m = Map::<Atom, Atom>::empty().insert(alias, original);
    lemma_norm_normal(a);
    lemma_norm_normal(alias);
    let a1 = replace(a, None, swap_for(original, alias));
    lemma_replace_keeps_normal(a, None, original, alias);
    lemma_normal_fixed(a1);
    assert(rename_in(a, original, alias) == a1);
    assert(lookup_in(m) =~= swap_for(alias, original));
    lemma_replace_inverse(a, None, None, original, alias);
    assert(expand_once(a1, m) == a);
    lemma_replace_absent(a, None, alias, original);
    assert(expand_once(a, m) == a);
    assert(expand_n(a1, m, 0) == a1);
    assert(expand_n(a1, m, 1) == a);
    assert(expand_n(a1, m, 2) == a);
    assert(settles_at(a1, m, 1));
    assert forall|r: Atom| fully_expanded(a1, m, r) implies r == a by {
        let k = choose|k: nat|
            {
                &&& r == expand_n(a1, m, k)
                &&& settles_at(a1, m, k)
                &&& forall|j: nat| j < k ==> !settles_at(a1, m, j)
            };
        if k > 1 {
            assert(!settles_at(a1, m, 1));
        }
    }
}

/// An atom without aliases expands, in at most one round, to its normal form.
pub proof fn lemma_expand_without_aliases(a: Atom)
    ensures
        exists|n: nat| settles_at(a, Map::<Atom, Atom>::empty(), n),
        forall|r: Atom| fully_expanded(a, Map::<Atom, Atom>::empty(), r) ==> r == norm(a),
{
    let m = Map::<Atom, Atom>::empty();
    assert forall|x: Atom, c: Option<AtomKind>| #[trigger] lookup_in(m)(x, c) is None by {}
    lemma_replace_inert(a, None, lookup_in(m));
    lemma_replace_inert(norm(a), None, lookup_in(m));
    lemma_norm_idempotent(a);
    assert(replace(a, None, lookup_in(m)) == a);
    assert(expand_once(a, m) == norm(a));
    assert(expand_n(a, m, 0) == a);
    assert(expand_n(a, m, 1) == norm(a));
    assert(expand_n(a, m, 2) == norm(a));
    assert(settles_at(a, m, 1));
    assert forall|r: Atom| fully_expanded(a, m, r) implies r == norm(a) by {
        let k = choose|k: nat|
            {
                &&& r == expand_n(a, m, k)
                &&& settles_at(a, m, k)
                &&& forall|j: nat| j < k ==> !settles_at(a, m, j)
            };
        if k > 1 {
            assert(!settles_at(a, m, 1));
        }
    }
}

/// Renaming `from` to a fresh `to` inside a normal atom and then `to` back to `from` gives
/// back the atom.
proof fn lemma_rename_back_atom(x: Atom, from: Atom, to: Atom)
    requires
        norm(x) == x,
        norm(from) == from,
        norm(to) == to,
        from is Var || from is Fun,
        to is Var || to is Fun,
        !contains(x, to),
        !contains(from, to),
    ensures
        rename_in(rename_in(x, from, to), to, from) == x,
{
    lemma_norm_normal(x);
    lemma_norm_normal(to);
    let x1 = replace(x, None, swap_for(from, to));
    lemma_replace_keeps_normal(x, None, from, to);
    lemma_normal_fixed(x1);
    lemma_replace_inverse(x, None, None, from, to);
}

/// Renaming an alias to a fresh handle and back restores the root and the alias map: after
/// the first renaming the new handle is registered and the old one is not, so the second
/// renaming succeeds, and it undoes the first.
pub proof fn lemma_rename_back(root: Atom, m: Map<Atom, Atom>, from: Atom, to: Atom)
    requires
        norm(root) == root,
        forall|k: Atom| #[trigger] m.dom().contains(k) ==> norm(m[k]) == m[k] && !contains(m[k], to),
        !contains(root, to),
        m.dom().contains(from),
        !m.dom().contains(to),
        norm(from) == from,
        norm(to) == to,
        from is Var || from is Fun,
        to is Var || to is Fun,
        !contains(from, to),
        from != to,
    ensures
        renamed_map(m, from, to).dom().contains(to),
        !renamed_map(m, from, to).dom().contains(from),
        rename_in(rename_in(root, from, to), to, from) == root,
        renamed_map(renamed_map(m, from, to), to, from) == m,
{
    lemma_rename_back_atom(root, from, to);
    let m1 = renamed_map(m, from, to);
    let m2 = renamed_map(m1, to, from);
    assert forall|k: Atom| m.dom().contains(k) && k != from implies m2[k] == m[k] by {
        lemma_rename_back_atom(m[k], from, to);
    }
    assert(m2 =~= m);
}

/// Where `try_add` succeeds, `add` gives the same: when the maps define no alias
/// differently, `add` renames nothing, whatever the resolver, and yields the union of the maps
/// and the same root.
pub proof fn lemma_add_agrees_with_try_add<F: Fn(&Atom) -> Atom>(
    lhs_root: Atom,
    lhs_aliases: Map<Atom, Atom>,
    rhs_root: Atom,
    rhs_aliases: Map<Atom, Atom>,
    root: Atom,
    aliases: Map<Atom, Atom>,
    rho: Map<Atom, Atom>,
    gave: Set<Atom>,
    resolve: F,
)
    requires
        compatible(lhs_aliases, rhs_aliases),
        fused_into(lhs_aliases, aliases, rhs_aliases, rho, gave, resolve),
        root == norm(Atom::Add(list_of(seq![lhs_root, expand_once(rhs_root, rho)]))),
    ensures
        aliases == lhs_aliases.union_prefer_right(rhs_aliases),
        root == norm(Atom::Add(list_of(seq![lhs_root, rhs_root]))),
{
    lemma_fuse_compatible(lhs_aliases, aliases, rhs_aliases, rho, gave, resolve);
    let m = Map::<Atom, Atom>::empty();
    assert forall|x: Atom, c: Option<AtomKind>| #[trigger] lookup_in(m)(x, c) is None by {}
    lemma_replace_inert(rhs_root, None, lookup_in(m));
    assert(expand_once(rhs_root, rho) == norm(rhs_root));
    lemma_norm_idempotent(rhs_root);
    let s1 = seq![lhs_root, norm(rhs_root)];
    let s2 = seq![lhs_root, rhs_root];
    assert(s1.drop_first().drop_first() =~= Seq::<Atom>::empty());
    assert(s2.drop_first().drop_first() =~= Seq::<Atom>::empty());
    assert(s1.drop_first() =~= seq![norm(rhs_root)]);
    assert(s2.drop_first() =~= seq![rhs_root]);
    let t1 = list_of(s1.drop_first());
    let t2 = list_of(s2.drop_first());
    assert(list_of(s1.drop_first().drop_first()) == AtomList::Nil);
    assert(t1 == AtomList::Cons(Box::new(norm(rhs_root)), Box::new(AtomList::Nil)));
    assert(t2 == AtomList::Cons(Box::new(rhs_root), Box::new(AtomList::Nil)));
    assert(norm_list(t1) == norm_list(t2));
    assert(list_of(s1) == AtomList::Cons(Box::new(lhs_root), Box::new(t1)));
    assert(list_of(s2) == AtomList::Cons(Box::new(lhs_root), Box::new(t2)));
    assert(norm_list(list_of(s1)) == norm_list(list_of(s2)));
}

/// Two alias maps define no alias differently.
pub open spec fn compatible(m1: Map<Atom, Atom>, m2: Map<Atom, Atom>) -> bool {
    forall|k: Atom| m1.dom().contains(k) && m2.dom().contains(k) ==> m1[k] == m2[k]
}


/// The alias map after renaming `old` to `new`: every other definition has `old` replaced
/// by `new`, and `new` keeps its own (renamed) definition or else takes over that of `old`.
pub open spec fn renamed_map(m: Map<Atom, Atom>, old: Atom, new: Atom) -> Map<Atom, Atom> {
    Map::new(
        |k: Atom| (m.dom().contains(k) && k != old) || k == new,
        |k: Atom|
            if k != old && m.dom().contains(k) {
                rename_in(m[k], old, new)
            } else {
                m[old]
            },
    )
}

/// Every definition of `m` with `from` replaced by `to`.
pub open spec fn rename_bodies(m: Map<Atom, Atom>, from: Atom, to: Atom) -> Map<Atom, Atom> {
    Map::new(|k: Atom| m.dom().contains(k), |k: Atom| rename_in(m[k], from, to))
}


/// `e` lists the entries of `m`, each once.
pub open spec fn listing(e: Seq<(Atom, Atom)>, m: Map<Atom, Atom>) -> bool {
    &&& e.len() == m.len()
    &&& forall|i: int| 0 <= i < e.len() ==> m.dom().contains(#[trigger] e[i].0) && m[e[i].0] == e[i].1
    &&& forall|i: int, j: int| 0 <= i < j < e.len() ==> e[i].0 != e[j].0
    &&& forall|k: Atom| m.dom().contains(k) ==> exists|i: int| 0 <= i < e.len() && #[trigger] e[i].0 == k
}

/// The map from each definition in `e` to the last alias in `e` defined by it.
pub open spec fn inverse_of(e: Seq<(Atom, Atom)>) -> Map<Atom, Atom>
    decreases e.len(),
{
    if e.len() == 0 {
        Map::empty()
    } else {
        inverse_of(e.drop_last()).insert(e.last().1, e.last().0)
    }
}

/// Replacement, in a sum or product, of an alias whose definition is a sum or product of the
/// same kind by that definition.
pub open spec fn flatten_rule(m: Map<Atom, Atom>) -> spec_fn(Atom, Option<AtomKind>) -> Option<Atom> {
    |x: Atom, c: Option<AtomKind>|
        if (c == Some(AtomKind::Add) || c == Some(AtomKind::Mul)) && m.dom().contains(x) && c == Some(
            kind_of(m[x]),
        ) {
            Some(m[x])
        } else {
            None
        }
}

/// The alias `k` occurs in the root or in one of the definitions of `m`.
pub open spec fn used(root: Atom, m: Map<Atom, Atom>, k: Atom) -> bool {
    contains(root, k) || exists|k2: Atom| m.dom().contains(k2) && #[trigger] contains(m[k2], k)
}

/// Every alias of `m` is used by the root or by a definition of `m`.
pub open spec fn self_sufficient(root: Atom, m: Map<Atom, Atom>) -> bool {
    forall|k: Atom| m.dom().contains(k) ==> used(root, m, k)
}


/// `m2` is what pruning leaves of `m` under `root`: a part of `m` in which every alias is
/// used, and the largest such part.
pub open spec fn pruned(root: Atom, m: Map<Atom, Atom>, m2: Map<Atom, Atom>) -> bool {
    &&& m2.submap_of(m)
    &&& self_sufficient(root, m2)
    &&& forall|s: Set<Atom>|
        s.subset_of(m.dom()) && self_sufficient(root, #[trigger] m.restrict(s)) ==> s.subset_of(m2.dom())
}

/// Pruning has one outcome: two results of pruning the same map under the same root agree.
pub proof fn lemma_pruned_unique(root: Atom, m: Map<Atom, Atom>, m1: Map<Atom, Atom>, m2: Map<Atom, Atom>)
    requires
        pruned(root, m, m1),
        pruned(root, m, m2),
    ensures
        m1 == m2,
{
    assert(m.restrict(m1.dom()) =~= m1);
    assert(m.restrict(m2.dom()) =~= m2);
    assert(m1.dom().subset_of(m2.dom()));
    assert(m2.dom().subset_of(m1.dom()));
    assert(m1 =~= m2);
}

/// Pruning is idempotent: pruning what a pruning left removes nothing more.
pub proof fn lemma_pruned_idempotent(root: Atom, m: Map<Atom, Atom>, m1: Map<Atom, Atom>, m2: Map<Atom, Atom>)
    requires
        pruned(root, m, m1),
        pruned(root, m1, m2),
    ensures
        m2 == m1,
{
    assert(m1.restrict(m1.dom()) =~= m1);
    assert(m1.dom().subset_of(m2.dom()));
    assert(m2 =~= m1);
}

/// A map whose every alias is used loses nothing to pruning.
pub proof fn lemma_pruned_keeps_used(root: Atom, m: Map<Atom, Atom>, m2: Map<Atom, Atom>)
    requires
        self_sufficient(root, m),
        pruned(root, m, m2),
    ensures
        m2 == m,
{
    assert(m.restrict(m.dom()) =~= m);
    assert(m.dom().subset_of(m2.dom()));
    assert(m2 =~= m);
}

/// Whether two maps can be fused without a conflict does not depend on their order, and
/// the fused map is then the same either way.
pub proof fn lemma_compatible_symmetric(m1: Map<Atom, Atom>, m2: Map<Atom, Atom>)
    ensures
        compatible(m1, m2) == compatible(m2, m1),
        compatible(m1, m2) ==> m1.union_prefer_right(m2) == m2.union_prefer_right(m1),
{
    if compatible(m1, m2) {
        assert(m1.union_prefer_right(m2) =~= m2.union_prefer_right(m1));
    }
}

/// Registering the same alias twice is registering it once.
pub proof fn lemma_register_twice(m: Map<Atom, Atom>, alias: Atom, original: Atom)
    ensures
        m.insert(alias, original).insert(alias, original) == m.insert(alias, original),
{
    assert(m.insert(alias, original).insert(alias, original) =~= m.insert(alias, original));
}

/// The summed byte sizes of the aliases and definitions in `e`.
pub open spec fn entries_byte_size(e: Seq<(Atom, Atom)>) -> nat
    decreases e.len(),
{
    if e.len() == 0 {
        0
    } else {
        entries_byte_size(e.drop_last()) + byte_size(e.last().0) + byte_size(e.last().1)
    }
}

/// The definitions in `e` have non-increasing (capped) byte sizes.
pub open spec fn sorted_by_size(e: Seq<(Atom, Atom)>) -> bool {
    forall|i: int, j: int| 0 <= i < j < e.len() ==> capped_byte_size(#[trigger] e[i].1) >= capped_byte_size(#[trigger] e[j].1)
}

/// The alias of the first entry of `e` whose definition is `x`.
pub open spec fn first_alias_for(e: Seq<(Atom, Atom)>, x: Atom) -> Option<Atom>
    decreases e.len(),
{
    if e.len() == 0 {
        None
    } else if e[0].1 == x {
        Some(e[0].0)
    } else {
        first_alias_for(e.drop_first(), x)
    }
}

/// Replacement of a subexpression by the first alias in `e` defined as it, except for the
/// whole of `skip`.
pub open spec fn replacement_rule(e: Seq<(Atom, Atom)>, skip: Option<Atom>) -> spec_fn(Atom, Option<AtomKind>) -> Option<Atom> {
    |x: Atom, c: Option<AtomKind>|
        if skip == Some(x) {
            None
        } else {
            first_alias_for(e, x)
        }
}


/// Scanning `e` in order: the map from each definition to the first alias defined by it, and
/// the map from every later alias with an already seen definition to that first alias.
pub open spec fn duplicate_scan(e: Seq<(Atom, Atom)>) -> (Map<Atom, Atom>, Map<Atom, Atom>)
    decreases e.len(),
{
    if e.len() == 0 {
        (Map::empty(), Map::empty())
    } else {
        let (first, remap) = duplicate_scan(e.drop_last());
        let (alias, body) = e.last();
        if first.dom().contains(body) {
            (first, remap.insert(alias, first[body]))
        } else {
            (first.insert(body, alias), remap)
        }
    }
}

/// Applying the redirections `r` in order: each alias is removed and its uses in the root and
/// in the remaining definitions point to its replacement.
pub open spec fn apply_redirections(root: Atom, m: Map<Atom, Atom>, r: Seq<(Atom, Atom)>) -> (Atom, Map<Atom, Atom>)
    decreases r.len(),
{
    if r.len() == 0 {
        (root, m)
    } else {
        let (root1, m1) = apply_redirections(root, m, r.drop_last());
        let (alias, target) = r.last();
        (rename_in(root1, alias, target), rename_bodies(m1.remove(alias), alias, target))
    }
}

/// An atom together with a map from aliases (opaque handles such as `s(1)`) to the atoms they
/// stand for. The definitions may themselves contain aliases.
pub struct AliasedAtom {
    root: Atom,
    aliases: HashMap<Atom, Atom>,
}

impl AliasedAtom {
    #[verifier::type_invariant]
    spec fn finite_aliases(self) -> bool {
        table_view(self.aliases).dom().finite()
    }

    /// The root atom.
    pub closed spec fn root_of(self) -> Atom {
        self.root
    }

    /// The alias map.
    pub closed spec fn aliases_of(self) -> Map<Atom, Atom> {
        table_view(self.aliases)
    }

    /// An aliased atom with root `atom` and no aliases.
    pub fn from_atom(atom: Atom) -> (r: AliasedAtom)
        ensures
            r.root_of() == atom,
            r.aliases_of() == Map::<Atom, Atom>::empty(),
    {
        AliasedAtom { root: atom, aliases: table_new() }
    }

    /// Get the root atom, which may contain aliases.
    pub fn get_root(&self) -> (r: &Atom)
        ensures
            *r == self.root_of(),
    {
        &self.root
    }

    /// Get the map from aliases to their original atoms. These atoms may contain aliases
    /// themselves.
    pub fn get_aliases(&self) -> (r: &HashMap<Atom, Atom>)
        ensures
            table_view(*r) == self.aliases_of(),
    {
        &self.aliases
    }

    /// Map the root atom using the given function.
    pub fn map_root<F: FnOnce(Atom) -> Atom>(self, f: F) -> (r: AliasedAtom)
        requires
            f.requires((self.root_of(),)),
        ensures
            f.ensures((self.root_of(),), r.root_of()),
            r.aliases_of() == self.aliases_of(),
    {
        proof {
            use_type_invariant(&self);
        }
        let AliasedAtom { root, aliases } = self;
        AliasedAtom { root: f(root), aliases }
    }

    /// Return the root atom and the alias map.
    pub fn into_inner_with_aliases(self) -> (r: (Atom, HashMap<Atom, Atom>))
        ensures
            r.0 == self.root_of(),
            table_view(r.1) == self.aliases_of(),
    {
        let AliasedAtom { root, aliases } = self;
        (root, aliases)
    }

    /// Undo the common subexpression extraction and return the original atom: aliases are
    /// expanded round after round until a round changes nothing.
    pub fn into_inner(self) -> (r: Atom)
        requires
            exists|n: nat| settles_at(self.root_of(), self.aliases_of(), n),
        ensures
            fully_expanded(self.root_of(), self.aliases_of(), r),
    {
        let ghost a0 = self.root_of();
        let ghost m = self.aliases_of();
        let ghost n = choose|n: nat| settles_at(a0, m, n);
        let AliasedAtom { root, aliases } = self;
        let mut root = root;
        let ghost mut i: nat = 0;
        loop
            invariant
                root == expand_n(a0, m, i),
                i <= n,
                settles_at(a0, m, n),
                table_view(aliases) == m,
                a0 == self.root_of(),
                m == self.aliases_of(),
                forall|j: nat| j < i ==> !settles_at(a0, m, j),
            decreases n - i,
        {
            let out = expand_aliases(&root, &aliases);
            if !out.same(&root) {
                assert(!settles_at(a0, m, i));
                root = out;
                proof {
                    i = i + 1;
                }
            } else {
                assert(settles_at(a0, m, i));
                assert(exists|k: nat|
                    {
                        &&& root == expand_n(a0, m, k)
                        &&& settles_at(a0, m, k)
                        &&& forall|j: nat| j < k ==> !settles_at(a0, m, j)
                    }) by {
                    assert(root == expand_n(a0, m, i));
                }

                return root;
            }
        }
    }

    /// Register an alias, but do not apply it to the root atom.
    pub fn register_alias(&mut self, alias: Atom, original: Atom)
        requires
            old(self).aliases_of().dom().contains(alias) ==> old(self).aliases_of()[alias]
                == original,
        ensures
            final(self).root_of() == old(self).root_of(),
            final(self).aliases_of() == old(self).aliases_of().insert(alias, original),
    {
        if !table_contains(&self.aliases, &alias) {
            self.insert_alias(alias, original);
        } else {
            assert(old(self).aliases_of().insert(alias, original) =~= old(self).aliases_of());
        }
    }


    /// Rename an alias handle and rewrite all uses of the handle in the root and alias bodies.
    ///
    /// Returns `true` if `from` was registered as an alias and was successfully renamed.
    /// Returns an error if `new` is already registered and has a different value than `old`;
    /// `old` has then already been taken out of the map.
    pub fn rename_alias(&mut self, from: Atom, to: Atom) -> (r: Result<bool, ()>)
        ensures
            ({
                let m = old(self).aliases_of();
                let r0 = old(self).root_of();
                if from == to {
                    r == Ok::<bool, ()>(m.dom().contains(from)) && final(self).aliases_of() == m
                        && final(self).root_of() == r0
                } else if !m.dom().contains(from) {
                    r == Ok::<bool, ()>(false) && final(self).aliases_of() == m
                        && final(self).root_of() == r0
                } else if m.dom().contains(to) && m[to] != m[from] {
                    r == Err::<bool, ()>(()) && final(self).aliases_of() == m.remove(from)
                        && final(self).root_of() == r0
                } else {
                    &&& r == Ok::<bool, ()>(true)
                    &&& final(self).root_of() == rename_in(r0, from, to)
                    &&& final(self).aliases_of() == renamed_map(m, from, to)
                }
            }),
    {
        proof {
            use_type_invariant(&*self);
        }
        if from.same(&to) {
            return Ok(table_contains(&self.aliases, &from));
        }
        let ghost m = self.aliases_of();
        let original = match self.remove_alias(&from) {
            Some(o) => o,
            None => {
                assert(m.remove(from) =~= m);
                return Ok(false);
            },
        };
        if let Some(existing) = table_get(&self.aliases, &to) {
            if !existing.same(&original) {
                return Err(());
            }
        }
        self.root = rename_alias_in_atom(&self.root, &from, &to);
        let mut t = table_new();
        std::mem::swap(&mut t, &mut self.aliases);
        let mut t = rename_all_bodies(t, &from, &to);
        assert(table_view(t).dom() =~= m.remove(from).dom());
        if !table_contains(&t, &to) {
            table_insert(&mut t, to, original);
        }
        self.aliases = t;
        assert(self.aliases_of() =~= renamed_map(m, from, to));
        Ok(true)
    }

    /// Register an alias for an atom and apply the substitution to the root.
    pub fn add_alias(self, alias: Atom, original: Atom) -> (r: AliasedAtom)
        requires
            self.aliases_of().dom().contains(alias) ==> self.aliases_of()[alias] == original,
        ensures
            r.root_of() == rename_in(self.root_of(), original, alias),
            r.aliases_of() == self.aliases_of().insert(alias, original),
    {
        let new_root = rename_alias_in_atom(&self.root, &original, &alias);
        let mut s = self;
        s.register_alias(alias, original);
        proof {
            use_type_invariant(&s);
        }
        s.root = new_root;
        s
    }

    /// Fuses the alias map of `rhs` into this one, resolving conflicts with the provided
    /// function, and returns the root of `rhs` with its renamed aliases replaced. An alias of
    /// `rhs` is renamed only when this map defines it differently, after the aliases its own
    /// definition uses have been fused.
    fn fuse_aliases<F: Fn(&Atom) -> Atom>(&mut self, rhs: &AliasedAtom, resolve: &F) -> (r: Atom)
        requires
            forall|x: &Atom| #[trigger] resolve.requires((x,)),
        ensures
            final(self).root_of() == old(self).root_of(),
            exists|rho: Map<Atom, Atom>, gave: Set<Atom>|
                {
                    &&& fused_into(old(self).aliases_of(), final(self).aliases_of(), rhs.aliases_of(), rho, gave, *resolve)
                    &&& r == expand_once(rhs.root_of(), rho)
                },
    {
        proof {
            use_type_invariant(&*self);
            use_type_invariant(rhs);
        }
        let mut t = table_new();
        std::mem::swap(&mut t, &mut self.aliases);
        let ghost l0 = table_view(t);
        let root = fuse_tables(&mut t, &rhs.aliases, &rhs.root, resolve);
        let ghost (rho, gave) = choose|rho: Map<Atom, Atom>, gave: Set<Atom>|
            fused_into(l0, table_view(t), table_view(rhs.aliases), rho, gave, *resolve) && root == expand_once(rhs.root, rho);
        self.aliases = t;
        assert(fused_into(old(self).aliases_of(), self.aliases_of(), rhs.aliases_of(), rho, gave, *resolve));
        root
    }

    /// Add two aliased atoms, fusing their alias maps. On conflicts, the `resolve` function is
    /// called to generate a new alias handle.
    pub fn add<F: Fn(&Atom) -> Atom>(self, rhs: &AliasedAtom, resolve: F) -> (s: AliasedAtom)
        requires
            forall|x: &Atom| #[trigger] resolve.requires((x,)),
        ensures
            exists|rho: Map<Atom, Atom>, gave: Set<Atom>|
                {
                    &&& fused_into(self.aliases_of(), s.aliases_of(), rhs.aliases_of(), rho, gave, resolve)
                    &&& s.root_of() == norm(
                        Atom::Add(list_of(seq![self.root_of(), expand_once(rhs.root_of(), rho)])),
                    )
                },
    {
        let mut s = self;
        let ghost s0 = s;
        let new_rhs_root = s.fuse_aliases(rhs, &resolve);
        let ghost (rho, gave) = choose|rho: Map<Atom, Atom>, gave: Set<Atom>|
            fused_into(s0.aliases_of(), s.aliases_of(), rhs.aliases_of(), rho, gave, resolve) && new_rhs_root
                == expand_once(rhs.root_of(), rho);
        let root = s.root.plus(&new_rhs_root);
        proof {
            use_type_invariant(&s);
        }
        s.root = root;
        assert(fused_into(self.aliases_of(), s.aliases_of(), rhs.aliases_of(), rho, gave, resolve));
        s
    }

    /// Multiply two aliased atoms, fusing their alias maps. On conflicts, the `resolve`
    /// function is called to generate a new alias handle.
    pub fn mul<F: Fn(&Atom) -> Atom>(self, rhs: &AliasedAtom, resolve: F) -> (s: AliasedAtom)
        requires
            forall|x: &Atom| #[trigger] resolve.requires((x,)),
        ensures
            exists|rho: Map<Atom, Atom>, gave: Set<Atom>|
                {
                    &&& fused_into(self.aliases_of(), s.aliases_of(), rhs.aliases_of(), rho, gave, resolve)
                    &&& s.root_of() == norm(
                        Atom::Mul(list_of(seq![self.root_of(), expand_once(rhs.root_of(), rho)])),
                    )
                },
    {
        let mut s = self;
        let ghost s0 = s;
        let new_rhs_root = s.fuse_aliases(rhs, &resolve);
        let ghost (rho, gave) = choose|rho: Map<Atom, Atom>, gave: Set<Atom>|
            fused_into(s0.aliases_of(), s.aliases_of(), rhs.aliases_of(), rho, gave, resolve) && new_rhs_root
                == expand_once(rhs.root_of(), rho);
        let root = s.root.times(&new_rhs_root);
        proof {
            use_type_invariant(&s);
        }
        s.root = root;
        assert(fused_into(self.aliases_of(), s.aliases_of(), rhs.aliases_of(), rho, gave, resolve));
        s
    }

    /// Raise one aliased atom to another, fusing their alias maps. On conflicts, the `resolve`
    /// function is called to generate a new alias handle.
    pub fn pow<F: Fn(&Atom) -> Atom>(self, rhs: &AliasedAtom, resolve: F) -> (s: AliasedAtom)
        requires
            forall|x: &Atom| #[trigger] resolve.requires((x,)),
        ensures
            exists|rho: Map<Atom, Atom>, gave: Set<Atom>|
                {
                    &&& fused_into(self.aliases_of(), s.aliases_of(), rhs.aliases_of(), rho, gave, resolve)
                    &&& s.root_of() == norm(
                        Atom::Pow(Box::new(self.root_of()), Box::new(expand_once(rhs.root_of(), rho))),
                    )
                },
    {
        let mut s = self;
        let ghost s0 = s;
        let new_rhs_root = s.fuse_aliases(rhs, &resolve);
        let ghost (rho, gave) = choose|rho: Map<Atom, Atom>, gave: Set<Atom>|
            fused_into(s0.aliases_of(), s.aliases_of(), rhs.aliases_of(), rho, gave, resolve) && new_rhs_root
                == expand_once(rhs.root_of(), rho);
        let root = s.root.pow(&new_rhs_root);
        proof {
            use_type_invariant(&s);
        }
        s.root = root;
        assert(fused_into(self.aliases_of(), s.aliases_of(), rhs.aliases_of(), rho, gave, resolve));
        s
    }

    /// Fuse the alias maps: the first alias (in the map's order) that both define differently
    /// is the error.
    fn try_fuse_aliases(&self, rhs: &AliasedAtom) -> (r: Result<HashMap<Atom, Atom>, Atom>)
        ensures
            match r {
                Ok(t) => compatible(self.aliases_of(), rhs.aliases_of()) && table_view(t)
                    == self.aliases_of().union_prefer_right(rhs.aliases_of()) && table_view(
                    t,
                ).dom().finite(),
                Err(a) => self.aliases_of().dom().contains(a) && rhs.aliases_of().dom().contains(a)
                    && self.aliases_of()[a] != rhs.aliases_of()[a],
            },
    {
        proof {
            use_type_invariant(self);
            use_type_invariant(rhs);
        }
        let ghost m1 = self.aliases_of();
        let ghost m2 = rhs.aliases_of();
        let mut aliases = table_clone(&self.aliases);
        let es = table_entries(&rhs.aliases);
        let mut i: usize = 0;
        while i < es.len()
            invariant
                0 <= i <= es@.len(),
                m1 == self.aliases_of(),
                m2 == rhs.aliases_of(),
                m1.dom().finite(),
                m2.dom().finite(),
                forall|j: int| 0 <= j < es@.len() ==> m2.dom().contains(#[trigger] es@[j].0) && m2[es@[j].0] == es@[j].1,
                forall|j: int, l: int| 0 <= j < l < es@.len() ==> es@[j].0 != es@[l].0,
                forall|k: Atom| m2.dom().contains(k) ==> exists|j: int| 0 <= j < es@.len() && #[trigger] es@[j].0 == k,
                table_view(aliases) =~= Map::new(
                    |k: Atom| m1.dom().contains(k) || exists|j: int| 0 <= j < i && #[trigger] es@[j].0 == k,
                    |k: Atom| if exists|j: int| 0 <= j < i && #[trigger] es@[j].0 == k { m2[k] } else { m1[k] },
                ),
                forall|j: int| 0 <= j < i ==> (m1.dom().contains(#[trigger] es@[j].0) ==> m1[es@[j].0] == m2[es@[j].0]),
            decreases es@.len() - i,
        {
            let (alias, original) = &es[i];
            match table_get(&aliases, alias) {
                Some(existing) => {
                    if !existing.same(original) {
                        assert(!(exists|j: int| 0 <= j < i && #[trigger] es@[j].0 == *alias));
                        assert(table_view(aliases).dom().contains(*alias));
                        assert(m1.dom().contains(*alias));
                        assert(m1[*alias] == *existing);
                        return Err(alias.copy());
                    }
                },
                None => {
                    table_insert(&mut aliases, alias.copy(), original.copy());
                },
            }
            i = i + 1;
        }
        proof {
            assert forall|k: Atom| m1.dom().contains(k) && m2.dom().contains(k) implies m1[k] == m2[k] by {
                let j = choose|j: int| 0 <= j < es@.len() && #[trigger] es@[j].0 == k;
                assert(es@[j].0 == k);
            }
            assert(table_view(aliases) =~= m1.union_prefer_right(m2));
            assert(compatible(m1, m2));
            assert(table_view(aliases).dom() =~= m1.dom().union(m2.dom()));
            assert(table_view(aliases).dom().finite());
        }
        Ok(aliases)
    }

    /// Try to add two aliased atoms, fusing their alias maps.
    ///
    /// If both atoms define the same alias handle with different bodies, the conflicting alias
    /// handle is returned.
    pub fn try_add(&self, rhs: &AliasedAtom) -> (r: Result<AliasedAtom, Atom>)
        ensures
            match r {
                Ok(s) => compatible(self.aliases_of(), rhs.aliases_of()) && s.aliases_of()
                    == self.aliases_of().union_prefer_right(rhs.aliases_of()) && s.root_of()
                    == norm(Atom::Add(list_of(seq![self.root_of(), rhs.root_of()]))),
                Err(a) => self.aliases_of().dom().contains(a) && rhs.aliases_of().dom().contains(a)
                    && self.aliases_of()[a] != rhs.aliases_of()[a],
            },
    {
        let aliases = self.try_fuse_aliases(rhs)?;
        Ok(AliasedAtom { aliases, root: self.root.plus(&rhs.root) })
    }

    /// Try to multiply two aliased atoms, fusing their alias maps.
    ///
    /// If both atoms define the same alias handle with different bodies, the conflicting alias
    /// handle is returned.
    pub fn try_mul(&self, rhs: &AliasedAtom) -> (r: Result<AliasedAtom, Atom>)
        ensures
            match r {
                Ok(s) => compatible(self.aliases_of(), rhs.aliases_of()) && s.aliases_of()
                    == self.aliases_of().union_prefer_right(rhs.aliases_of()) && s.root_of()
                    == norm(Atom::Mul(list_of(seq![self.root_of(), rhs.root_of()]))),
                Err(a) => self.aliases_of().dom().contains(a) && rhs.aliases_of().dom().contains(a)
                    && self.aliases_of()[a] != rhs.aliases_of()[a],
            },
    {
        let aliases = self.try_fuse_aliases(rhs)?;
        Ok(AliasedAtom { aliases, root: self.root.times(&rhs.root) })
    }

    /// Try to raise one aliased atom to another, fusing their alias maps.
    ///
    /// If both atoms define the same alias handle with different bodies, the conflicting alias
    /// handle is returned.
    pub fn try_pow(&self, rhs: &AliasedAtom) -> (r: Result<AliasedAtom, Atom>)
        ensures
            match r {
                Ok(s) => compatible(self.aliases_of(), rhs.aliases_of()) && s.aliases_of()
                    == self.aliases_of().union_prefer_right(rhs.aliases_of()) && s.root_of()
                    == norm(Atom::Pow(Box::new(self.root_of()), Box::new(rhs.root_of()))),
                Err(a) => self.aliases_of().dom().contains(a) && rhs.aliases_of().dom().contains(a)
                    && self.aliases_of()[a] != rhs.aliases_of()[a],
            },
    {
        let aliases = self.try_fuse_aliases(rhs)?;
        Ok(AliasedAtom { aliases, root: self.root.pow(&rhs.root) })
    }


    /// Apply currently registered aliases to the root atom: each outermost subexpression equal
    /// to a definition is replaced by an alias with that definition (where several aliases share
    /// a definition, the one met last in the map's order).
    pub fn apply_aliases(&self) -> (r: AliasedAtom)
        ensures
            r.aliases_of() == self.aliases_of(),
            exists|e: Seq<(Atom, Atom)>|
                listing(e, self.aliases_of()) && r.root_of() == norm(
                    replace(self.root_of(), None, lookup_in(inverse_of(e))),
                ),
    {
        proof {
            use_type_invariant(self);
        }
        let es = table_entries(&self.aliases);
        let mut inv = table_new();
        let mut i: usize = 0;
        while i < es.len()
            invariant
                0 <= i <= es@.len(),
                table_view(inv) == inverse_of(es@.take(i as int)),
            decreases es@.len() - i,
        {
            let (alias, body) = &es[i];
            table_insert(&mut inv, body.copy(), alias.copy());
            assert(es@.take(i + 1).drop_last() =~= es@.take(i as int));
            i = i + 1;
        }
        assert(es@.take(es@.len() as int) =~= es@);
        let root = expand_aliases(&self.root, &inv);
        let aliases = table_clone(&self.aliases);
        assert(listing(es@, self.aliases_of()));
        AliasedAtom { root, aliases }
    }

    /// Removes any aliases in the root whose body has the same symmetric operator as its use in
    /// the root. For example `x+y+s(1), s(1)=z+w` will yield `x+y+z+w`.
    pub fn flatten_operators(&mut self)
        ensures
            final(self).aliases_of() == old(self).aliases_of(),
            final(self).root_of() == norm(
                replace(old(self).root_of(), None, flatten_rule(old(self).aliases_of())),
            ),
    {
        proof {
            use_type_invariant(&*self);
        }
        let t = &self.aliases;
        let f = |x: &Atom, c: Option<AtomKind>| -> (o: Option<Atom>)
            ensures
                o == flatten_rule(table_view(*t))(*x, c),
            {
                if c == Some(AtomKind::Add) || c == Some(AtomKind::Mul) {
                    match table_get(t, x) {
                        Some(alias) => {
                            if c == Some(alias.get_atom_type()) {
                                Some(alias.copy())
                            } else {
                                None
                            }
                        },
                        None => None,
                    }
                } else {
                    None
                }
            };
        let root = self.root.replace_map(f, Ghost(flatten_rule(table_view(*t))));
        self.root = root;
    }

    /// Removes any aliases that are not used in the root or any of the aliases, round after
    /// round, until every remaining alias is used. What remains is the largest part of the map
    /// whose aliases are all used by the root or by a definition in that part.
    pub fn prune(&mut self)
        ensures
            final(self).root_of() == old(self).root_of(),
            pruned(old(self).root_of(), old(self).aliases_of(), final(self).aliases_of()),
    {
        proof {
            use_type_invariant(&*self);
        }
        let ghost m0 = self.aliases_of();
        let ghost root = self.root_of();
        loop
            invariant
                self.root_of() == root,
                self.aliases_of().submap_of(m0),
                self.aliases_of().dom().finite(),
                forall|s: Set<Atom>|
                    s.subset_of(m0.dom()) && self_sufficient(root, #[trigger] m0.restrict(s))
                        ==> s.subset_of(self.aliases_of().dom()),
            ensures
                self.root_of() == root,
                self.aliases_of().submap_of(m0),
                self_sufficient(root, self.aliases_of()),
                forall|s: Set<Atom>|
                    s.subset_of(m0.dom()) && self_sufficient(root, #[trigger] m0.restrict(s))
                        ==> s.subset_of(self.aliases_of().dom()),
            decreases self.aliases_of().len(),
        {
            let ghost cur = self.aliases_of();
            let es = table_entries(&self.aliases);
            let mut to_remove: Vec<Atom> = Vec::new();
            let mut i: usize = 0;
            while i < es.len()
                invariant
                    0 <= i <= es@.len(),
                    listing(es@, cur),
                    cur == self.aliases_of(),
                    self.root_of() == root,
                    forall|j: int|
                        0 <= j < to_remove@.len() ==> cur.dom().contains(#[trigger] to_remove@[j])
                            && !used(root, cur, to_remove@[j]),
                    forall|j: int|
                        0 <= j < i && !used(root, cur, #[trigger] es@[j].0) ==> to_remove@.contains(
                            es@[j].0,
                        ),
                decreases es@.len() - i,
            {
                let alias = &es[i].0;
                let ghost before = to_remove@;
                if !self.root.contains(alias) && !body_uses(&es, alias, Ghost(cur)) {
                    to_remove.push(alias.copy());
                    assert(to_remove@.contains(es@[i as int].0)) by {
                        assert(to_remove@[to_remove@.len() - 1] == es@[i as int].0);
                    }
                }
                assert forall|y: Atom| before.contains(y) implies to_remove@.contains(y) by {
                    let jj = choose|jj: int| 0 <= jj < before.len() && before[jj] == y;
                    assert(to_remove@[jj] == y);
                }
                i = i + 1;
            }
            if to_remove.len() == 0 {
                assert forall|k: Atom| cur.dom().contains(k) implies used(root, cur, k) by {
                    let j = choose|j: int| 0 <= j < es@.len() && #[trigger] es@[j].0 == k;
                    if !used(root, cur, es@[j].0) {
                        assert(to_remove@.contains(es@[j].0));
                    }
                }
                break;
            }
            let ghost rem = to_remove@.to_set();
            let mut j: usize = 0;
            while j < to_remove.len()
                invariant
                    0 <= j <= to_remove@.len(),
                    self.root_of() == root,
                    cur.dom().finite(),
                    self.aliases_of() =~= cur.remove_keys(to_remove@.take(j as int).to_set()),
                decreases to_remove@.len() - j,
            {
                self.remove_alias(&to_remove[j]);
                assert(to_remove@.take(j + 1) =~= to_remove@.take(j as int).push(to_remove@[j as int]));
                proof {
                    to_remove@.take(j as int).lemma_push_to_set_commute(to_remove@[j as int]);
                }
                j = j + 1;
            }
            proof {
                assert(to_remove@.take(to_remove@.len() as int) =~= to_remove@);
                assert(self.aliases_of().dom().subset_of(cur.dom()));
                assert(rem.subset_of(cur.dom()));
                vstd::seq_lib::seq_to_set_is_finite(to_remove@);
                cur.lemma_remove_keys_len(rem);
                assert(rem.contains(to_remove@[0]));
                assert(rem.remove(to_remove@[0]).len() == rem.len() - 1);
                assert forall|s: Set<Atom>|
                    s.subset_of(m0.dom()) && self_sufficient(root, #[trigger] m0.restrict(s))
                        implies s.subset_of(self.aliases_of().dom()) by {
                    assert forall|k: Atom| s.contains(k) implies self.aliases_of().dom().contains(k) by {
                        assert(m0.restrict(s).dom().contains(k));
                        assert(used(root, m0.restrict(s), k));
                        if !contains(root, k) {
                            let k2 = choose|k2: Atom| m0.restrict(s).dom().contains(k2) && #[trigger] contains(m0.restrict(s)[k2], k);
                            assert(cur.dom().contains(k2));
                            assert(contains(cur[k2], k));
                        }
                        assert(used(root, cur, k));
                        if rem.contains(k) {
                            let jj = choose|jj: int| 0 <= jj < to_remove@.len() && to_remove@[jj] == k;
                            assert(!used(root, cur, to_remove@[jj]));
                        }
                    }
                }
            }
        }
    }


    /// Return the number of bytes stored in the root atom and alias definitions.
    pub fn get_byte_size(&self) -> (r: usize)
        requires
            forall|e: Seq<(Atom, Atom)>|
                listing(e, self.aliases_of()) ==> byte_size(self.root_of()) + #[trigger] entries_byte_size(e)
                    <= usize::MAX,
        ensures
            exists|e: Seq<(Atom, Atom)>|
                listing(e, self.aliases_of()) && r == byte_size(self.root_of()) + entries_byte_size(e),
    {
        proof {
            use_type_invariant(self);
        }
        let es = table_entries(&self.aliases);
        assert(listing(es@, self.aliases_of()));
        let ghost total = byte_size(self.root_of()) + entries_byte_size(es@);
        proof {
            lemma_entries_size_prefix(es@, es@.len() as int);
            assert(es@.take(es@.len() as int) =~= es@);
        }
        let mut sum = self.root.capped_byte_size();
        let mut i: usize = 0;
        while i < es.len()
            invariant
                0 <= i <= es@.len(),
                total <= usize::MAX,
                total == byte_size(self.root_of()) + entries_byte_size(es@),
                sum == byte_size(self.root_of()) + entries_byte_size(es@.take(i as int)),
            decreases es@.len() - i,
        {
            proof {
                assert(es@.take(i + 1).drop_last() =~= es@.take(i as int));
                lemma_entries_size_prefix(es@, i + 1);
            }
            let (alias, body) = &es[i];
            sum = sum + alias.capped_byte_size() + body.capped_byte_size();
            i = i + 1;
        }
        assert(es@.take(es@.len() as int) =~= es@);
        sum
    }

    /// The alias entries, ordered by decreasing byte size of their definitions (entries of
    /// equal size keep the map's order).
    fn alias_replacements(&self) -> (r: Vec<(Atom, Atom)>)
        ensures
            listing(r@, self.aliases_of()),
            sorted_by_size(r@),
    {
        proof {
            use_type_invariant(self);
        }
        let ghost m = self.aliases_of();
        let es = table_entries(&self.aliases);
        let mut out: Vec<(Atom, Atom)> = Vec::new();
        let mut sizes: Vec<usize> = Vec::new();
        let mut i: usize = 0;
        while i < es.len()
            invariant
                0 <= i <= es@.len(),
                listing(es@, m),
                out@.len() == i,
                sizes@.len() == i,
                forall|j: int| 0 <= j < i ==> sizes@[j] == capped_byte_size(#[trigger] out@[j].1),
                sorted_by_size(out@),
                forall|j: int| 0 <= j < i ==> m.dom().contains(#[trigger] out@[j].0) && m[out@[j].0] == out@[j].1,
                forall|j: int, l: int| 0 <= j < l < i ==> out@[j].0 != out@[l].0,
                forall|j: int| 0 <= j < i ==> out@.contains(#[trigger] es@[j]),
                forall|j: int| 0 <= j < i ==> es@.take(i as int).contains(#[trigger] out@[j]),
            decreases es@.len() - i,
        {
            let (alias, body) = &es[i];
            let size = body.capped_byte_size();
            let mut pos: usize = 0;
            while pos < sizes.len() && sizes[pos] >= size
                invariant
                    0 <= pos <= sizes@.len(),
                    forall|j: int| 0 <= j < pos ==> sizes@[j] >= size,
                decreases sizes@.len() - pos,
            {
                pos = pos + 1;
            }
            let ghost old_out = out@;
            let ghost old_sizes = sizes@;
            out.insert(pos, (alias.copy(), body.copy()));
            sizes.insert(pos, size);
            proof {
                assert(pos == old_sizes.len() || old_sizes[pos as int] < size);
                assert forall|a: int, b: int| 0 <= a < b < out@.len() implies capped_byte_size(#[trigger] out@[a].1) >= capped_byte_size(#[trigger] out@[b].1) by {
                    if a == pos {
                        if b > pos {
                            assert(out@[b] == old_out[b - 1]);
                            assert(capped_byte_size(old_out[pos as int].1) >= capped_byte_size(old_out[b - 1].1));
                        }
                    } else if b == pos {
                        assert(out@[a] == old_out[a]);
                        assert(old_sizes[a] >= size);
                    } else {
                        let aa = if a < pos { a } else { a - 1 };
                        let bb = if b < pos { b } else { b - 1 };
                        assert(out@[a] == old_out[aa]);
                        assert(out@[b] == old_out[bb]);
                    }
                }
                assert forall|j: int| 0 <= j < i + 1 implies sizes@[j] == capped_byte_size(#[trigger] out@[j].1) by {
                    if j < pos {
                        assert(out@[j] == old_out[j]);
                    } else if j > pos {
                        assert(out@[j] == old_out[j - 1]);
                    }
                }
                assert forall|j: int| 0 <= j < i + 1 implies out@.contains(#[trigger] es@[j]) by {
                    if j == i {
                        assert(out@[pos as int] == es@[j]);
                    } else {
                        let k = choose|k: int| 0 <= k < old_out.len() && old_out[k] == es@[j];
                        if k < pos {
                            assert(out@[k] == es@[j]);
                        } else {
                            assert(out@[k + 1] == es@[j]);
                        }
                    }
                }
                assert forall|j: int| 0 <= j < i + 1 implies es@.take(i + 1).contains(#[trigger] out@[j]) by {
                    if j == pos {
                        assert(es@.take(i + 1)[i as int] == out@[j]);
                    } else {
                        let jj = if j < pos { j } else { j - 1 };
                        assert(old_out[jj] == out@[j]);
                        assert(es@.take(i as int).contains(old_out[jj]));
                        let k = choose|k: int| 0 <= k < i && es@.take(i as int)[k] == old_out[jj];
                        assert(es@.take(i + 1)[k] == out@[j]);
                    }
                }
                assert forall|j: int, l: int| 0 <= j < l < i + 1 implies out@[j].0 != out@[l].0 by {
                    if j == pos || l == pos {
                        let other = if j == pos { l } else { j };
                        let oo = if other < pos { other } else { other - 1 };
                        assert(es@.take(i as int).contains(old_out[oo]));
                        let k = choose|k: int| 0 <= k < i && es@.take(i as int)[k] == old_out[oo];
                        assert(es@[k].0 != es@[i as int].0);
                    } else {
                        let jj = if j < pos { j } else { j - 1 };
                        let ll = if l < pos { l } else { l - 1 };
                        assert(old_out[jj].0 != old_out[ll].0);
                    }
                }
            }
            i = i + 1;
        }
        proof {
            assert forall|k: Atom| m.dom().contains(k) implies exists|j: int| 0 <= j < out@.len() && #[trigger] out@[j].0 == k by {
                let j0 = choose|j: int| 0 <= j < es@.len() && #[trigger] es@[j].0 == k;
                let k2 = choose|k2: int| 0 <= k2 < out@.len() && out@[k2] == es@[j0];
                assert(out@[k2].0 == k);
            }
        }
        out
    }

    /// Apply currently registered aliases to the root atom and inside the body of other
    /// aliases: each outermost subexpression equal to a definition becomes the alias, largest
    /// definitions first; a definition is not replaced by an alias as a whole.
    pub fn apply_aliases_nested(&self) -> (r: AliasedAtom)
        ensures
            exists|e: Seq<(Atom, Atom)>|
                {
                    &&& listing(e, self.aliases_of())
                    &&& sorted_by_size(e)
                    &&& r.root_of() == norm(replace(self.root_of(), None, replacement_rule(e, None)))
                    &&& r.aliases_of() == Map::new(
                        |k: Atom| self.aliases_of().dom().contains(k),
                        |k: Atom|
                            norm(
                                replace(
                                    self.aliases_of()[k],
                                    None,
                                    replacement_rule(e, Some(self.aliases_of()[k])),
                                ),
                            ),
                    )
                },
    {
        proof {
            use_type_invariant(self);
        }
        let ghost m = self.aliases_of();
        let replacements = self.alias_replacements();
        let root = apply_alias_replacements(&self.root, &replacements, None);
        let es = table_entries(&self.aliases);
        let mut aliases = table_new();
        let mut i: usize = 0;
        while i < es.len()
            invariant
                0 <= i <= es@.len(),
                listing(es@, m),
                table_view(aliases) =~= Map::new(
                    |k: Atom| exists|j: int| 0 <= j < i && #[trigger] es@[j].0 == k,
                    |k: Atom| norm(replace(m[k], None, replacement_rule(replacements@, Some(m[k])))),
                ),
            decreases es@.len() - i,
        {
            let (alias, body) = &es[i];
            let nb = apply_alias_replacements(body, &replacements, Some(body));
            table_insert(&mut aliases, alias.copy(), nb);
            i = i + 1;
        }
        assert(table_view(aliases).dom() =~= m.dom());
        let r = AliasedAtom { root, aliases };
        assert(r.aliases_of() =~= Map::new(
            |k: Atom| m.dom().contains(k),
            |k: Atom| norm(replace(m[k], None, replacement_rule(replacements@, Some(m[k])))),
        ));
        r
    }


    /// Removes any duplicate aliases that map to the same body, keeping the first one
    /// encountered (in the map's order); uses of a removed alias are redirected to the kept one.
    pub fn fuse_duplicate_aliases(&mut self)
        ensures
            exists|e: Seq<(Atom, Atom)>, r: Seq<(Atom, Atom)>|
                {
                    &&& listing(e, old(self).aliases_of())
                    &&& listing(r, duplicate_scan(e).1)
                    &&& (final(self).root_of(), final(self).aliases_of()) == apply_redirections(
                        old(self).root_of(),
                        old(self).aliases_of(),
                        r,
                    )
                    &&& forall|i: int|
                        0 <= i < r.len() ==> old(self).aliases_of().dom().contains(#[trigger] r[i].0)
                            && !final(self).aliases_of().dom().contains(r[i].0)
                            && final(self).aliases_of().dom().contains(r[i].1)
                            && old(self).aliases_of()[r[i].0] == old(self).aliases_of()[r[i].1]
                },
            final(self).aliases_of().dom().subset_of(old(self).aliases_of().dom()),
            forall|a: Atom, b: Atom|
                #[trigger] final(self).aliases_of().dom().contains(a) && #[trigger] final(self).aliases_of().dom().contains(b)
                    && a != b ==> old(self).aliases_of()[a] != old(self).aliases_of()[b],
            forall|a: Atom|
                #[trigger] old(self).aliases_of().dom().contains(a) ==> exists|b: Atom|
                    #[trigger] final(self).aliases_of().dom().contains(b) && old(self).aliases_of()[b] == old(self).aliases_of()[a],
    {
        proof {
            use_type_invariant(&*self);
        }
        let ghost m0 = self.aliases_of();
        let ghost root0 = self.root_of();
        let es = table_entries(&self.aliases);
        let mut first = table_new();
        let mut remap = table_new();
        let mut i: usize = 0;
        while i < es.len()
            invariant
                0 <= i <= es@.len(),
                (table_view(first), table_view(remap)) == duplicate_scan(es@.take(i as int)),
            decreases es@.len() - i,
        {
            assert(es@.take(i + 1).drop_last() =~= es@.take(i as int));
            let (alias, body) = &es[i];
            match table_get(&first, body) {
                Some(kept) => {
                    let kept = kept.copy();
                    table_insert(&mut remap, alias.copy(), kept);
                },
                None => {
                    table_insert(&mut first, body.copy(), alias.copy());
                },
            }
            i = i + 1;
        }
        assert(es@.take(es@.len() as int) =~= es@);
        proof {
            lemma_duplicate_scan_finite(es@);
        }
        let rs = table_entries(&remap);
        let mut aliases = table_new();
        std::mem::swap(&mut aliases, &mut self.aliases);
        let mut root = self.root.copy();
        let mut j: usize = 0;
        while j < rs.len()
            invariant
                0 <= j <= rs@.len(),
                (root, table_view(aliases)) == apply_redirections(root0, m0, rs@.take(j as int)),
                table_view(aliases).dom().finite(),
            decreases rs@.len() - j,
        {
            assert(rs@.take(j + 1).drop_last() =~= rs@.take(j as int));
            let (alias, target) = &rs[j];
            crate::alias_table::table_remove(&mut aliases, alias);
            root = rename_alias_in_atom(&root, alias, target);
            aliases = rename_all_bodies(aliases, alias, target);
            assert(table_view(aliases).dom() =~= (apply_redirections(root0, m0, rs@.take(j as int)).1).remove(*alias).dom());
            j = j + 1;
        }
        assert(rs@.take(rs@.len() as int) =~= rs@);
        self.aliases = aliases;
        self.root = root;
        assert(listing(es@, m0));
        assert(listing(rs@, duplicate_scan(es@).1));
        proof {
            lemma_fused_duplicates_distinct(es@, rs@, root0, m0);
        }
    }

    fn insert_alias(&mut self, alias: Atom, original: Atom)
        ensures
            final(self).root_of() == old(self).root_of(),
            final(self).aliases_of() == old(self).aliases_of().insert(alias, original),
    {
        proof {
            use_type_invariant(&*self);
        }
        let mut t = table_new();
        std::mem::swap(&mut t, &mut self.aliases);
        crate::alias_table::table_insert(&mut t, alias, original);
        self.aliases = t;
    }

    fn remove_alias(&mut self, alias: &Atom) -> (r: Option<Atom>)
        ensures
            final(self).root_of() == old(self).root_of(),
            final(self).aliases_of() == old(self).aliases_of().remove(*alias),
            r == (if old(self).aliases_of().dom().contains(*alias) {
                Some(old(self).aliases_of()[*alias])
            } else {
                None
            }),
    {
        proof {
            use_type_invariant(&*self);
        }
        let mut t = table_new();
        std::mem::swap(&mut t, &mut self.aliases);
        let r = crate::alias_table::table_remove(&mut t, alias);
        self.aliases = t;
        r
    }
}


/// Replace `from` by `to` in every definition of `t`.
fn rename_all_bodies(t: HashMap<Atom, Atom>, from: &Atom, to: &Atom) -> (r: HashMap<Atom, Atom>)
    requires
        table_view(t).dom().finite(),
    ensures
        table_view(r) == rename_bodies(table_view(t), *from, *to),
{
    let ghost m = table_view(t);
    let mut t = t;
    let es = table_entries(&t);
    let mut i: usize = 0;
    while i < es.len()
        invariant
            0 <= i <= es@.len(),
            forall|j: int| 0 <= j < es@.len() ==> m.dom().contains(#[trigger] es@[j].0) && m[es@[j].0] == es@[j].1,
            forall|j: int, l: int| 0 <= j < l < es@.len() ==> es@[j].0 != es@[l].0,
            forall|k: Atom| m.dom().contains(k) ==> exists|j: int| 0 <= j < es@.len() && #[trigger] es@[j].0 == k,
            table_view(t) =~= Map::new(
                |k: Atom| m.dom().contains(k),
                |k: Atom| if exists|j: int| 0 <= j < i && #[trigger] es@[j].0 == k { rename_in(m[k], *from, *to) } else { m[k] },
            ),
        decreases es@.len() - i,
    {
        let (k, v) = &es[i];
        let nv = rename_alias_in_atom(v, from, to);
        table_insert(&mut t, k.copy(), nv);
        i = i + 1;
    }
    proof {
        assert forall|k: Atom| m.dom().contains(k) implies (exists|j: int| 0 <= j < es@.len() && #[trigger] es@[j].0 == k) by {}
        assert(table_view(t) =~= rename_bodies(m, *from, *to));
    }
    t
}


/// Some definition among the entries `es` of `m` contains `alias`.
fn body_uses(es: &Vec<(Atom, Atom)>, alias: &Atom, Ghost(m): Ghost<Map<Atom, Atom>>) -> (r: bool)
    requires
        listing(es@, m),
    ensures
        r == exists|k2: Atom| m.dom().contains(k2) && #[trigger] contains(m[k2], *alias),
{
    let mut i: usize = 0;
    while i < es.len()
        invariant
            0 <= i <= es@.len(),
            listing(es@, m),
            forall|j: int| 0 <= j < i ==> !contains(#[trigger] es@[j].1, *alias),
        decreases es@.len() - i,
    {
        if es[i].1.contains(alias) {
            assert(m.dom().contains(es@[i as int].0) && contains(m[es@[i as int].0], *alias));
            return true;
        }
        i = i + 1;
    }
    assert forall|k2: Atom| m.dom().contains(k2) implies !contains(#[trigger] m[k2], *alias) by {
        let j = choose|j: int| 0 <= j < es@.len() && #[trigger] es@[j].0 == k2;
        assert(es@[j].1 == m[k2]);
    }
    false
}


proof fn lemma_entries_size_prefix(e: Seq<(Atom, Atom)>, i: int)
    requires
        0 <= i <= e.len(),
    ensures
        entries_byte_size(e.take(i)) <= entries_byte_size(e),
    decreases e.len() - i,
{
    if i < e.len() {
        lemma_entries_size_prefix(e, i + 1);
        assert(e.take(i + 1).drop_last() =~= e.take(i));
    } else {
        assert(e.take(i) =~= e);
    }
}

/// The first alias in `repl` defined as `x`, unless `x` is `skip`.
fn find_replacement(repl: &Vec<(Atom, Atom)>, x: &Atom, skip: Option<&Atom>) -> (r: Option<Atom>)
    ensures
        r == replacement_rule(repl@, match skip { Some(s) => Some(*s), None => None })(*x, None),
{
    if let Some(s) = skip {
        if x.same(s) {
            return None;
        }
    }
    assert(repl@.skip(0) =~= repl@);
    let mut i: usize = 0;
    while i < repl.len()
        invariant
            0 <= i <= repl@.len(),
            first_alias_for(repl@.skip(i as int), *x) == first_alias_for(repl@, *x),
            match skip { Some(s) => *s != *x, None => true },
        decreases repl@.len() - i,
    {
        assert(repl@.skip(i as int).drop_first() =~= repl@.skip(i + 1));
        assert(repl@.skip(i as int)[0] == repl@[i as int]);
        if repl[i].1.same(x) {
            return Some(repl[i].0.copy());
        }
        i = i + 1;
    }
    None
}

/// `a` with each outermost subexpression equal to a definition in `repl` replaced by the
/// first alias defined as it, except for the whole of `skip`; normalized.
fn apply_alias_replacements(a: &Atom, repl: &Vec<(Atom, Atom)>, skip: Option<&Atom>) -> (r: Atom)
    ensures
        r == norm(replace(*a, None, replacement_rule(repl@, match skip { Some(s) => Some(*s), None => None }))),
{
    let ghost sk = match skip { Some(s) => Some(*s), None => None };
    let f = |x: &Atom, c: Option<AtomKind>| -> (o: Option<Atom>)
        ensures
            o == replacement_rule(repl@, match skip { Some(s) => Some(*s), None => None })(*x, c),
        {
            find_replacement(repl, x, skip)
        };
    a.replace_map(f, Ghost(replacement_rule(repl@, sk)))
}


proof fn lemma_duplicate_scan_finite(e: Seq<(Atom, Atom)>)
    ensures
        duplicate_scan(e).0.dom().finite(),
        duplicate_scan(e).1.dom().finite(),
    decreases e.len(),
{
    if e.len() > 0 {
        lemma_duplicate_scan_finite(e.drop_last());
    }
}

impl Default for AliasedAtom {
    /// Create an aliased atom that represents the number 0.
    fn default() -> (r: AliasedAtom)
        ensures
            r.root_of() == Atom::Num(0),
            r.aliases_of() == Map::<Atom, Atom>::empty(),
    {
        AliasedAtom::from_atom(Atom::Num(0))
    }
}

/// One round of alias expansion of `a` under the aliases of `t`.
pub(crate) fn expand_aliases(a: &Atom, t: &HashMap<Atom, Atom>) -> (r: Atom)
    ensures
        r == expand_once(*a, table_view(*t)),
{
    let f = |x: &Atom, c: Option<AtomKind>| -> (o: Option<Atom>)
        ensures
            o == lookup_in(table_view(*t))(*x, c),
        {
            match table_get(t, x) {
                Some(v) => Some(v.copy()),
                None => None,
            }
        };
    a.replace_map(f, Ghost(lookup_in(table_view(*t))))
}

/// `a` with `from` replaced by `to` everywhere, normalized.
fn rename_alias_in_atom(a: &Atom, from: &Atom, to: &Atom) -> (r: Atom)
    ensures
        r == rename_in(*a, *from, *to),
{
    let f = |x: &Atom, c: Option<AtomKind>| -> (o: Option<Atom>)
        ensures
            o == swap_for(*from, *to)(*x, c),
        {
            if x.same(from) {
                Some(to.copy())
            } else {
                None
            }
        };
    a.replace_map(f, Ghost(swap_for(*from, *to)))
}

/// What scanning for duplicates finds: the definitions seen, each with the first alias that has
/// it; an alias is redirected exactly when an earlier entry has its definition, and then to
/// that first alias, which is not redirected itself.
proof fn lemma_scan_exact(e: Seq<(Atom, Atom)>)
    requires
        forall|i: int, j: int| 0 <= i < j < e.len() ==> e[i].0 != e[j].0,
    ensures
        ({
            let (first, remap) = duplicate_scan(e);
            &&& forall|b: Atom| #[trigger] first.dom().contains(b) <==> exists|j: int| 0 <= j < e.len() && e[j].1 == b
            &&& forall|i: int|
                0 <= i < e.len() ==> (remap.dom().contains(#[trigger] e[i].0) <==> exists|j: int| 0 <= j < i && e[j].1 == e[i].1)
            &&& forall|x: Atom| #[trigger] remap.dom().contains(x) ==> exists|i: int| 0 <= i < e.len() && e[i].0 == x
            &&& forall|b: Atom|
                #[trigger] first.dom().contains(b) ==> !remap.dom().contains(first[b]) && exists|j: int|
                    0 <= j < e.len() && e[j].0 == first[b] && e[j].1 == b
            &&& forall|i: int|
                0 <= i < e.len() && remap.dom().contains(#[trigger] e[i].0) ==> first.dom().contains(e[i].1) && remap[e[i].0]
                    == first[e[i].1]
        }),
    decreases e.len(),
{
    if e.len() > 0 {
        let p = e.drop_last();
        assert forall|i: int, j: int| 0 <= i < j < p.len() implies p[i].0 != p[j].0 by {
            assert(p[i] == e[i] && p[j] == e[j]);
        }
        lemma_scan_exact(p);
        let (first, remap) = duplicate_scan(p);
        let (alias, body) = e.last();
        let n = e.len() - 1;
        assert(e[n] == e.last());
        assert forall|i: int| 0 <= i < p.len() implies p[i] == e[i] && e[i].0 != alias by {}
        let (first2, remap2) = duplicate_scan(e);
        assert(!remap.dom().contains(alias)) by {
            if remap.dom().contains(alias) {
                let i = choose|i: int| 0 <= i < p.len() && p[i].0 == alias;
            }
        }
        assert forall|b: Atom| #[trigger] first.dom().contains(b) implies first[b] != alias by {
            let j = choose|j: int| 0 <= j < p.len() && p[j].0 == first[b] && p[j].1 == b;
        }
        if first.dom().contains(body) {
            assert(remap2 == remap.insert(alias, first[body]));
            assert(first2 == first);
            assert forall|b: Atom| #[trigger] first2.dom().contains(b) <==> exists|j: int| 0 <= j < e.len() && e[j].1 == b by {
                if exists|j: int| 0 <= j < e.len() && e[j].1 == b {
                    let j = choose|j: int| 0 <= j < e.len() && e[j].1 == b;
                    if j < n {
                        assert(p[j].1 == b);
                    }
                }
                if first2.dom().contains(b) {
                    let j = choose|j: int| 0 <= j < p.len() && p[j].1 == b;
                    assert(e[j].1 == b);
                }
            }
            assert forall|i: int| 0 <= i < e.len() implies (remap2.dom().contains(#[trigger] e[i].0) <==> exists|j: int|
                0 <= j < i && e[j].1 == e[i].1) by {
                if i < n {
                    assert(p[i] == e[i]);
                    if exists|j: int| 0 <= j < i && e[j].1 == e[i].1 {
                        let j = choose|j: int| 0 <= j < i && e[j].1 == e[i].1;
                        assert(p[j].1 == p[i].1);
                    }
                    if remap.dom().contains(p[i].0) {
                        let j = choose|j: int| 0 <= j < i && p[j].1 == p[i].1;
                        assert(e[j].1 == e[i].1);
                    }
                } else {
                    let j = choose|j: int| 0 <= j < p.len() && p[j].1 == body;
                    assert(e[j].1 == e[i].1);
                }
            }
            assert forall|x: Atom| #[trigger] remap2.dom().contains(x) implies exists|i: int| 0 <= i < e.len() && e[i].0 == x by {
                if x == alias {
                    assert(e[n].0 == x);
                } else {
                    let i = choose|i: int| 0 <= i < p.len() && p[i].0 == x;
                    assert(e[i].0 == x);
                }
            }
            assert forall|b: Atom| #[trigger] first2.dom().contains(b) implies !remap2.dom().contains(first2[b]) && exists|j: int|
                0 <= j < e.len() && e[j].0 == first2[b] && e[j].1 == b by {
                let j = choose|j: int| 0 <= j < p.len() && p[j].0 == first[b] && p[j].1 == b;
                assert(e[j].0 == first2[b] && e[j].1 == b);
            }
            assert forall|i: int| 0 <= i < e.len() && remap2.dom().contains(#[trigger] e[i].0) implies first2.dom().contains(e[i].1)
                && remap2[e[i].0] == first2[e[i].1] by {
                if i < n {
                    assert(p[i] == e[i]);
                }
            }
        } else {
            assert(remap2 == remap);
            assert(first2 == first.insert(body, alias));
            assert forall|b: Atom| #[trigger] first2.dom().contains(b) <==> exists|j: int| 0 <= j < e.len() && e[j].1 == b by {
                if exists|j: int| 0 <= j < e.len() && e[j].1 == b {
                    let j = choose|j: int| 0 <= j < e.len() && e[j].1 == b;
                    if j < n {
                        assert(p[j].1 == b);
                    }
                }
                if first2.dom().contains(b) && b != body {
                    let j = choose|j: int| 0 <= j < p.len() && p[j].1 == b;
                    assert(e[j].1 == b);
                }
                if b == body {
                    assert(e[n].1 == b);
                }
            }
            assert forall|i: int| 0 <= i < e.len() implies (remap2.dom().contains(#[trigger] e[i].0) <==> exists|j: int|
                0 <= j < i && e[j].1 == e[i].1) by {
                if i < n {
                    assert(p[i] == e[i]);
                    if exists|j: int| 0 <= j < i && e[j].1 == e[i].1 {
                        let j = choose|j: int| 0 <= j < i && e[j].1 == e[i].1;
                        assert(p[j].1 == p[i].1);
                    }
                    if remap.dom().contains(p[i].0) {
                        let j = choose|j: int| 0 <= j < i && p[j].1 == p[i].1;
                        assert(e[j].1 == e[i].1);
                    }
                } else {
                    if exists|j: int| 0 <= j < i && e[j].1 == e[i].1 {
                        let j = choose|j: int| 0 <= j < i && e[j].1 == e[i].1;
                        assert(p[j].1 == body);
                    }
                }
            }
            assert forall|x: Atom| #[trigger] remap2.dom().contains(x) implies exists|i: int| 0 <= i < e.len() && e[i].0 == x by {
                let i = choose|i: int| 0 <= i < p.len() && p[i].0 == x;
                assert(e[i].0 == x);
            }
            assert forall|b: Atom| #[trigger] first2.dom().contains(b) implies !remap2.dom().contains(first2[b]) && exists|j: int|
                0 <= j < e.len() && e[j].0 == first2[b] && e[j].1 == b by {
                if b == body {
                    assert(e[n].0 == first2[b] && e[n].1 == b);
                } else {
                    let j = choose|j: int| 0 <= j < p.len() && p[j].0 == first[b] && p[j].1 == b;
                    assert(e[j].0 == first2[b] && e[j].1 == b);
                }
            }
            assert forall|i: int| 0 <= i < e.len() && remap2.dom().contains(#[trigger] e[i].0) implies first2.dom().contains(e[i].1)
                && remap2[e[i].0] == first2[e[i].1] by {
                if i < n {
                    assert(p[i] == e[i]);
                    assert(e[i].1 != body);
                }
            }
        }
    }
}

/// Redirections remove exactly the aliases they redirect.
proof fn lemma_redirections_dom(root: Atom, m: Map<Atom, Atom>, r: Seq<(Atom, Atom)>)
    ensures
        forall|x: Atom| #[trigger] apply_redirections(root, m, r).1.dom().contains(x) <==> m.dom().contains(x) && forall|i: int|
            0 <= i < r.len() ==> r[i].0 != x,
    decreases r.len(),
{
    if r.len() > 0 {
        let p = r.drop_last();
        lemma_redirections_dom(root, m, p);
        let m1 = apply_redirections(root, m, p).1;
        assert(apply_redirections(root, m, r).1.dom() =~= m1.dom().remove(r.last().0));
        assert forall|x: Atom| #[trigger] apply_redirections(root, m, r).1.dom().contains(x) <==> m.dom().contains(x) && forall|i: int|
            0 <= i < r.len() ==> r[i].0 != x by {
            assert forall|i: int| 0 <= i < p.len() implies p[i] == r[i] by {}
            assert(r.last() == r[r.len() - 1]);
            if m.dom().contains(x) && forall|i: int| 0 <= i < p.len() ==> p[i].0 != x {
                if r.last().0 != x {
                    assert forall|i: int| 0 <= i < r.len() implies r[i].0 != x by {
                        if i < p.len() {
                            assert(p[i].0 != x);
                        }
                    }
                }
            }
        }
    }
}

/// Fusing duplicates keeps no two aliases of one definition, and keeps a definition for every
/// alias it drops.
proof fn lemma_fused_duplicates_distinct(e: Seq<(Atom, Atom)>, r: Seq<(Atom, Atom)>, root0: Atom, m0: Map<Atom, Atom>)
    requires
        listing(e, m0),
        listing(r, duplicate_scan(e).1),
    ensures
        forall|i: int|
            0 <= i < r.len() ==> m0.dom().contains(#[trigger] r[i].0) && !apply_redirections(root0, m0, r).1.dom().contains(r[i].0)
                && apply_redirections(root0, m0, r).1.dom().contains(r[i].1) && m0[r[i].0] == m0[r[i].1],
        apply_redirections(root0, m0, r).1.dom().subset_of(m0.dom()),
        forall|a: Atom, b: Atom|
            #[trigger] apply_redirections(root0, m0, r).1.dom().contains(a) && #[trigger] apply_redirections(root0, m0, r).1.dom().contains(b)
                && a != b ==> m0[a] != m0[b],
        forall|a: Atom|
            #[trigger] m0.dom().contains(a) ==> exists|b: Atom|
                #[trigger] apply_redirections(root0, m0, r).1.dom().contains(b) && m0[b] == m0[a],
{
    let (first, remap) = duplicate_scan(e);
    let m1 = apply_redirections(root0, m0, r).1;
    lemma_scan_exact(e);
    lemma_redirections_dom(root0, m0, r);
    // An alias stays exactly when it is not redirected.
    assert forall|x: Atom| #[trigger] m1.dom().contains(x) <==> m0.dom().contains(x) && !remap.dom().contains(x) by {
        if m0.dom().contains(x) && !remap.dom().contains(x) {
            assert forall|i: int| 0 <= i < r.len() implies r[i].0 != x by {
                assert(remap.dom().contains(r[i].0));
            }
        }
        if m0.dom().contains(x) && remap.dom().contains(x) {
            let i = choose|i: int| 0 <= i < r.len() && #[trigger] r[i].0 == x;
        }
    }
    assert forall|a: Atom, b: Atom|
        #[trigger] m1.dom().contains(a) && #[trigger] m1.dom().contains(b) && a != b implies m0[a] != m0[b] by {
        let i = choose|i: int| 0 <= i < e.len() && #[trigger] e[i].0 == a;
        let j = choose|j: int| 0 <= j < e.len() && #[trigger] e[j].0 == b;
        if m0[a] == m0[b] {
            assert(e[i].1 == e[j].1);
            if j < i {
                assert(remap.dom().contains(e[i].0));
            } else if i < j {
                assert(remap.dom().contains(e[j].0));
            }
        }
    }
    assert forall|a: Atom| #[trigger] m0.dom().contains(a) implies exists|b: Atom|
        #[trigger] m1.dom().contains(b) && m0[b] == m0[a] by {
        if m1.dom().contains(a) {
            assert(m1.dom().contains(a) && m0[a] == m0[a]);
        } else {
            let i = choose|i: int| 0 <= i < e.len() && #[trigger] e[i].0 == a;
            assert(remap.dom().contains(e[i].0));
            let body = e[i].1;
            let b = first[body];
            let j = choose|j: int| 0 <= j < e.len() && e[j].0 == first[body] && e[j].1 == body;
            assert(m0.dom().contains(b));
            assert(m1.dom().contains(b) && m0[b] == m0[a]);
        }
    }
    assert forall|i: int| 0 <= i < r.len() implies m0.dom().contains(#[trigger] r[i].0) && !m1.dom().contains(r[i].0)
        && m1.dom().contains(r[i].1) && m0[r[i].0] == m0[r[i].1] by {
        let x = r[i].0;
        assert(remap.dom().contains(x));
        let p = choose|p: int| 0 <= p < e.len() && e[p].0 == x;
        assert(remap.dom().contains(e[p].0));
        let body = e[p].1;
        assert(first.dom().contains(body));
        assert(r[i].1 == first[body]);
        let j = choose|j: int| 0 <= j < e.len() && e[j].0 == first[body] && e[j].1 == body;
    }
}

} // verus!
