use symbolica::alias::AliasedAtom;
use symbolica::atom::Atom;

const X: u32 = 0;
const Y: u32 = 1;
const Z: u32 = 2;
const W: u32 = 3;
const S: u32 = 10;
const T: u32 = 11;
const U: u32 = 12;
const F: u32 = 13;
const F1: u32 = 14;
const F2: u32 = 15;
const SE: u32 = 16;
const MISSING: u32 = 17;
const V: u32 = 18;

fn var(s: u32) -> Atom {
    Atom::var(s)
}

fn num(n: i64) -> Atom {
    Atom::num(n)
}

/// The handle `h(1)`.
fn handle(h: u32) -> Atom {
    Atom::fun(h, vec![num(1)])
}

fn fun1(f: u32, a: Atom) -> Atom {
    Atom::fun(f, vec![a])
}

fn sum(terms: Vec<Atom>) -> Atom {
    Atom::sum(terms)
}

fn product(factors: Vec<Atom>) -> Atom {
    Atom::product(factors)
}

fn pow(b: Atom, e: Atom) -> Atom {
    b.pow(&e)
}

/// `x + 1`
fn x_plus_1() -> Atom {
    sum(vec![var(X), num(1)])
}

#[test]
fn create_alias() {
    // (x+1)^2 + (x+1)^3
    let a = AliasedAtom::from_atom(sum(vec![pow(x_plus_1(), num(2)), pow(x_plus_1(), num(3))]));
    let b = a.add_alias(handle(S), x_plus_1());
    let c = b.map_root(|r: Atom| r.plus(&num(2))).map_root(|r: Atom| r.plus(&pow(x_plus_1(), num(4))));
    assert!(c.get_root().contains_symbol(X));
    let d = c.apply_aliases();
    assert!(!d.get_root().contains_symbol(X));
}

#[test]
fn add_alias_replaces_the_definition_in_the_root() {
    let a = AliasedAtom::from_atom(sum(vec![pow(x_plus_1(), num(2)), pow(x_plus_1(), num(3))]));
    let b = a.add_alias(handle(S), x_plus_1());
    assert!(!b.get_root().contains_symbol(X));
    assert_eq!(b.get_root(), &sum(vec![pow(handle(S), num(2)), pow(handle(S), num(3))]));
    assert_eq!(b.get_aliases().get(&handle(S)), Some(&x_plus_1()));
}

#[test]
fn flatten() {
    let mut aliased = AliasedAtom::from_atom(sum(vec![var(X), var(Y), handle(S)]));
    aliased.register_alias(handle(S), sum(vec![var(Z), var(W)]));
    aliased.flatten_operators();
    assert_eq!(aliased.get_root(), &sum(vec![var(X), var(Y), var(Z), var(W)]));
}

#[test]
fn flatten_keeps_aliases_of_another_operator() {
    let mut aliased = AliasedAtom::from_atom(sum(vec![var(X), handle(S)]));
    aliased.register_alias(handle(S), product(vec![var(Z), var(W)]));
    aliased.flatten_operators();
    assert_eq!(aliased.get_root(), &sum(vec![var(X), handle(S)]));
}

/// `se(0)` stands for `x+1` in `se(0)^2+se(0)^3`.
fn aliased_atom() -> AliasedAtom {
    let a = AliasedAtom::from_atom(sum(vec![pow(x_plus_1(), num(2)), pow(x_plus_1(), num(3))]));
    a.add_alias(Atom::fun(SE, vec![num(0)]), x_plus_1())
}

#[test]
fn byte_size_counts_root_and_aliases() {
    let aliased = aliased_atom();
    let expected = aliased.get_root().get_byte_size()
        + aliased
            .get_aliases()
            .iter()
            .map(|(alias, original)| alias.get_byte_size() + original.get_byte_size())
            .sum::<usize>();

    assert_eq!(aliased.get_byte_size(), expected);
}

#[test]
fn byte_size_of_a_small_aliased_atom() {
    // root s(1): 9 + 9; alias s(1): 18; body x+1: 5 + 5 + 9
    let mut aliased = AliasedAtom::from_atom(handle(S));
    aliased.register_alias(handle(S), x_plus_1());
    assert_eq!(aliased.get_byte_size(), 18 + 18 + 19);
}

#[test]
fn rename_alias_updates_root_and_alias_bodies() {
    let mut aliased = AliasedAtom::from_atom(sum(vec![handle(S), fun1(F, handle(S))]));
    aliased.register_alias(handle(S), var(X));
    aliased.register_alias(handle(T), fun1(F1, handle(S)));

    assert!(aliased.rename_alias(handle(S), handle(U)).unwrap());
    assert!(!aliased.rename_alias(handle(MISSING), handle(V)).unwrap());

    assert_eq!(aliased.get_root(), &sum(vec![handle(U), fun1(F, handle(U))]));
    assert_eq!(aliased.get_aliases().get(&handle(U)), Some(&var(X)));
    assert_eq!(aliased.get_aliases().get(&handle(T)), Some(&fun1(F1, handle(U))));
    assert!(!aliased.get_aliases().contains_key(&handle(S)));
}

#[test]
fn rename_alias_onto_a_different_definition_fails() {
    let mut aliased = AliasedAtom::from_atom(handle(S));
    aliased.register_alias(handle(S), var(X));
    aliased.register_alias(handle(T), var(Y));
    assert_eq!(aliased.rename_alias(handle(S), handle(T)), Err(()));
    assert!(!aliased.get_aliases().contains_key(&handle(S)));
    assert_eq!(aliased.get_root(), &handle(S));
}

#[test]
fn rename_alias_to_itself_reports_registration() {
    let mut aliased = AliasedAtom::from_atom(handle(S));
    aliased.register_alias(handle(S), var(X));
    assert_eq!(aliased.rename_alias(handle(S), handle(S)), Ok(true));
    assert_eq!(aliased.rename_alias(handle(T), handle(T)), Ok(false));
    assert_eq!(aliased.get_aliases().len(), 1);
}

#[test]
fn try_ops_fuse_aliases() {
    let mut lhs = AliasedAtom::from_atom(handle(S));
    lhs.register_alias(handle(S), x_plus_1());

    let mut rhs = AliasedAtom::from_atom(handle(T));
    rhs.register_alias(handle(T), sum(vec![var(Y), num(1)]));

    let sum_ = lhs.try_add(&rhs).unwrap();
    assert_eq!(sum_.get_aliases().len(), 2);
    assert_eq!(sum_.into_inner(), sum(vec![var(X), var(Y), num(2)]));

    let prod = lhs.try_mul(&rhs).unwrap();
    assert_eq!(prod.get_aliases().len(), 2);
    assert_eq!(
        prod.into_inner(),
        product(vec![sum(vec![num(1), var(X)]), sum(vec![num(1), var(Y)])])
    );

    let power = lhs.try_pow(&rhs).unwrap();
    assert_eq!(power.get_aliases().len(), 2);
    assert_eq!(power.into_inner(), pow(sum(vec![num(1), var(X)]), sum(vec![num(1), var(Y)])));
}

#[test]
fn ops_with_resolver_fuse_independent_rhs_aliases() {
    let mut lhs = AliasedAtom::from_atom(handle(S));
    lhs.register_alias(handle(S), x_plus_1());

    let mut rhs = AliasedAtom::from_atom(sum(vec![handle(T), var(Z)]));
    rhs.register_alias(handle(T), sum(vec![var(Y), num(1)]));

    let total = lhs.add(&rhs, |_: &Atom| handle(U));

    assert_eq!(total.get_aliases().len(), 2);
    assert_eq!(total.into_inner(), sum(vec![var(X), var(Y), var(Z), num(2)]));
}

#[test]
fn ops_with_resolver_rename_rhs_alias_dependencies() {
    let mut lhs = AliasedAtom::from_atom(handle(T));
    lhs.register_alias(handle(T), var(X));

    let mut rhs = AliasedAtom::from_atom(handle(S));
    rhs.register_alias(handle(S), sum(vec![handle(T), num(1)]));
    rhs.register_alias(handle(T), var(Y));

    let total = lhs.add(&rhs, |_: &Atom| handle(U));

    assert_eq!(total.get_aliases().get(&handle(U)), Some(&var(Y)));
    assert_eq!(total.get_aliases().get(&handle(S)), Some(&sum(vec![num(1), handle(U)])));
    assert_eq!(total.into_inner(), sum(vec![var(X), var(Y), num(1)]));
}

#[test]
fn resolver_is_asked_again_while_names_are_taken() {
    // Both sides define s(1) differently; the resolver first offers t(1), which the left-hand
    // map already holds, then u(1).
    let mut lhs = AliasedAtom::from_atom(handle(S));
    lhs.register_alias(handle(S), var(X));
    lhs.register_alias(handle(T), var(Z));

    let mut rhs = AliasedAtom::from_atom(handle(S));
    rhs.register_alias(handle(S), var(Y));

    let resolver = |a: &Atom| if *a == handle(S) { handle(T) } else { handle(U) };
    let product_ = lhs.mul(&rhs, resolver);

    assert_eq!(product_.get_aliases().len(), 3);
    assert_eq!(product_.get_aliases().get(&handle(S)), Some(&var(X)));
    assert_eq!(product_.get_aliases().get(&handle(T)), Some(&var(Z)));
    assert_eq!(product_.get_aliases().get(&handle(U)), Some(&var(Y)));
    assert_eq!(product_.get_root(), &product(vec![handle(S), handle(U)]));
}

#[test]
fn pow_with_resolver_renames_the_exponent() {
    let mut lhs = AliasedAtom::from_atom(handle(S));
    lhs.register_alias(handle(S), var(X));

    let mut rhs = AliasedAtom::from_atom(handle(S));
    rhs.register_alias(handle(S), var(Y));

    let power = lhs.pow(&rhs, |_: &Atom| handle(U));
    assert_eq!(power.get_root(), &pow(handle(S), handle(U)));
    assert_eq!(power.into_inner(), pow(var(X), var(Y)));
}

#[test]
fn binary_ops_with_atoms_and_symbols_preserve_aliases() {
    let aliased = aliased_atom();

    let with_symbol_rhs = aliased_atom().add(&AliasedAtom::from_atom(var(Y)), |_: &Atom| handle(U));
    assert_eq!(with_symbol_rhs.get_aliases(), aliased.get_aliases());
    assert_eq!(
        with_symbol_rhs.into_inner(),
        sum(vec![pow(x_plus_1(), num(2)), pow(x_plus_1(), num(3)), var(Y)])
    );

    let with_atom_lhs = AliasedAtom::from_atom(sum(vec![var(Y)])).add(&aliased, |_: &Atom| handle(U));
    assert_eq!(with_atom_lhs.get_aliases(), aliased.get_aliases());
    assert_eq!(
        with_atom_lhs.into_inner(),
        sum(vec![var(Y), pow(x_plus_1(), num(2)), pow(x_plus_1(), num(3))])
    );

    let with_symbol_lhs = AliasedAtom::from_atom(var(Y)).add(&aliased, |_: &Atom| handle(U));
    assert_eq!(with_symbol_lhs.get_aliases(), aliased.get_aliases());
    assert_eq!(
        with_symbol_lhs.into_inner(),
        sum(vec![var(Y), pow(x_plus_1(), num(2)), pow(x_plus_1(), num(3))])
    );
}

#[test]
fn try_ops_report_conflicting_alias_handle() {
    let mut lhs = AliasedAtom::from_atom(handle(S));
    lhs.register_alias(handle(S), var(X));

    let mut rhs = AliasedAtom::from_atom(handle(S));
    rhs.register_alias(handle(S), var(Y));

    assert_eq!(lhs.try_add(&rhs).err(), Some(handle(S)));
    assert_eq!(lhs.try_mul(&rhs).err(), Some(handle(S)));
    assert_eq!(lhs.try_pow(&rhs).err(), Some(handle(S)));
}

#[test]
fn try_add_succeeds_in_either_order() {
    let mut lhs = AliasedAtom::from_atom(handle(S));
    lhs.register_alias(handle(S), var(X));
    let mut rhs = AliasedAtom::from_atom(handle(T));
    rhs.register_alias(handle(T), var(Y));
    rhs.register_alias(handle(S), var(X));

    let a = lhs.try_add(&rhs).unwrap();
    let b = rhs.try_add(&lhs).unwrap();
    assert_eq!(a.get_aliases().len(), 2);
    assert_eq!(b.get_aliases().len(), 2);
    assert_eq!(a.get_aliases().get(&handle(T)), b.get_aliases().get(&handle(T)));
    assert_eq!(a.get_aliases().get(&handle(S)), b.get_aliases().get(&handle(S)));
}

#[test]
fn apply_aliases_nested_updates_alias_bodies() {
    let fx = fun1(F, x_plus_1());
    let mut aliased = AliasedAtom::from_atom(sum(vec![fx.copy(), fun1(F2, fx.copy())]));
    aliased.register_alias(handle(S), x_plus_1());
    aliased.register_alias(handle(T), fx.copy());

    let nested = aliased.apply_aliases_nested();

    assert_eq!(nested.get_root(), &sum(vec![handle(T), fun1(F2, handle(T))]));
    assert_eq!(nested.get_aliases().get(&handle(T)), Some(&fun1(F, handle(S))));
    assert_eq!(nested.get_aliases().get(&handle(S)), Some(&x_plus_1()));
}

#[test]
fn register_alias_twice_is_registering_once() {
    let mut aliased = AliasedAtom::from_atom(handle(S));
    aliased.register_alias(handle(S), var(X));
    aliased.register_alias(handle(S), var(X));
    assert_eq!(aliased.get_aliases().len(), 1);
    assert_eq!(aliased.get_aliases().get(&handle(S)), Some(&var(X)));
}

#[test]
fn prune_removes_unused_aliases_and_is_idempotent() {
    // root s(1); s(1) = f(t(1)); t(1) = x; v(1) = y is used nowhere; u(1) and w(1) use each
    // other, so each is used by a definition and both stay.
    let mut aliased = AliasedAtom::from_atom(handle(S));
    aliased.register_alias(handle(S), fun1(F, handle(T)));
    aliased.register_alias(handle(T), var(X));
    aliased.register_alias(handle(U), handle(W));
    aliased.register_alias(handle(W), handle(U));
    aliased.register_alias(handle(V), var(Y));
    aliased.register_alias(handle(Z), handle(V));
    aliased.prune();
    assert_eq!(aliased.get_aliases().len(), 4);
    assert!(aliased.get_aliases().contains_key(&handle(S)));
    assert!(aliased.get_aliases().contains_key(&handle(T)));
    assert!(!aliased.get_aliases().contains_key(&handle(V)));
    assert!(!aliased.get_aliases().contains_key(&handle(Z)));
    aliased.prune();
    assert_eq!(aliased.get_aliases().len(), 4);
    assert_eq!(aliased.get_root(), &handle(S));
}

#[test]
fn fuse_duplicate_aliases_keeps_one_handle_per_definition() {
    let mut aliased = AliasedAtom::from_atom(sum(vec![handle(S), handle(T)]));
    aliased.register_alias(handle(S), x_plus_1());
    aliased.register_alias(handle(T), x_plus_1());
    aliased.fuse_duplicate_aliases();
    assert_eq!(aliased.get_aliases().len(), 1);
    let kept = if aliased.get_aliases().contains_key(&handle(S)) { handle(S) } else { handle(T) };
    assert_eq!(aliased.get_aliases().get(&kept), Some(&x_plus_1()));
    assert_eq!(aliased.get_root(), &sum(vec![kept.copy(), kept]));
}

#[test]
fn apply_aliases_replaces_definitions_in_the_root() {
    let mut aliased = AliasedAtom::from_atom(fun1(F, x_plus_1()));
    aliased.register_alias(handle(S), x_plus_1());
    let applied = aliased.apply_aliases();
    assert_eq!(applied.get_root(), &fun1(F, handle(S)));
    assert_eq!(applied.get_aliases().len(), 1);
}

#[test]
fn into_inner_expands_nested_aliases() {
    let mut aliased = AliasedAtom::from_atom(fun1(F, handle(S)));
    aliased.register_alias(handle(S), sum(vec![handle(T), num(1)]));
    aliased.register_alias(handle(T), var(X));
    assert_eq!(aliased.into_inner(), fun1(F, x_plus_1()));
}

#[test]
fn into_inner_with_aliases_returns_both_parts() {
    let mut aliased = AliasedAtom::from_atom(handle(S));
    aliased.register_alias(handle(S), var(X));
    let (root, aliases) = aliased.into_inner_with_aliases();
    assert_eq!(root, handle(S));
    assert_eq!(aliases.get(&handle(S)), Some(&var(X)));
}

#[test]
fn default_is_zero_without_aliases() {
    let a = AliasedAtom::default();
    assert_eq!(a.get_root(), &num(0));
    assert_eq!(a.get_aliases().len(), 0);
}

#[test]
fn map_root_keeps_aliases() {
    let mut aliased = AliasedAtom::from_atom(handle(S));
    aliased.register_alias(handle(S), var(X));
    let mapped = aliased.map_root(|r: Atom| r.times(&var(Y)));
    assert_eq!(mapped.get_root(), &product(vec![handle(S), var(Y)]));
    assert_eq!(mapped.get_aliases().get(&handle(S)), Some(&var(X)));
}

#[test]
fn renaming_to_a_fresh_handle_and_back_restores_the_atom() {
    let mut aliased = AliasedAtom::from_atom(sum(vec![handle(S), fun1(F, handle(S))]));
    aliased.register_alias(handle(S), x_plus_1());
    aliased.register_alias(handle(T), fun1(F1, handle(S)));

    assert_eq!(aliased.rename_alias(handle(S), handle(U)), Ok(true));
    assert_eq!(aliased.rename_alias(handle(U), handle(S)), Ok(true));

    assert_eq!(aliased.get_root(), &sum(vec![handle(S), fun1(F, handle(S))]));
    assert_eq!(aliased.get_aliases().len(), 2);
    assert_eq!(aliased.get_aliases().get(&handle(S)), Some(&x_plus_1()));
    assert_eq!(aliased.get_aliases().get(&handle(T)), Some(&fun1(F1, handle(S))));
}

#[test]
fn expanding_undoes_add_alias() {
    let a = product(vec![pow(x_plus_1(), num(2)), fun1(F, x_plus_1()), var(Y)]);
    let aliased = AliasedAtom::from_atom(a.copy()).add_alias(handle(S), x_plus_1());
    assert_eq!(aliased.get_root(), &product(vec![pow(handle(S), num(2)), fun1(F, handle(S)), var(Y)]));
    assert_eq!(aliased.into_inner(), a);
}

#[test]
fn an_atom_without_aliases_expands_to_itself() {
    let a = sum(vec![var(X), fun1(F, var(Y)), num(3)]);
    assert_eq!(AliasedAtom::from_atom(a.copy()).into_inner(), a);
}

#[test]
fn sums_are_flattened_and_numbers_combined() {
    let s = sum(vec![var(X), sum(vec![var(Y), num(2)]), num(3)]);
    assert_eq!(s, sum(vec![var(X), var(Y), num(5)]));
    match &s {
        Atom::Add(l) => assert_eq!(l.to_vec(), vec![var(X), var(Y), num(5)]),
        _ => panic!("expected a sum"),
    }
    assert_eq!(sum(vec![var(X), num(2), num(-2)]), var(X));
}

/// `s(1) + y` with `s(1)` standing for `x*z`.
fn left_operand() -> AliasedAtom {
    let mut a = AliasedAtom::from_atom(sum(vec![handle(S), var(Y)]));
    a.register_alias(handle(S), product(vec![var(X), var(Z)]));
    a
}

/// `t(1)^w` with `t(1)` standing for `x + w`.
fn right_operand() -> AliasedAtom {
    let mut b = AliasedAtom::from_atom(pow(handle(T), var(W)));
    b.register_alias(handle(T), sum(vec![var(X), var(W)]));
    b
}

#[test]
fn expanding_a_sum_adds_the_expansions() {
    let s = left_operand().try_add(&right_operand()).unwrap();
    let expected = sum(vec![left_operand().into_inner(), right_operand().into_inner()]);
    assert_eq!(expected, sum(vec![product(vec![var(X), var(Z)]), var(Y), pow(sum(vec![var(X), var(W)]), var(W))]));
    assert_eq!(s.into_inner(), expected);
    let s = left_operand().add(&right_operand(), |_: &Atom| handle(U));
    assert_eq!(s.into_inner(), expected);
}

#[test]
fn expanding_a_product_multiplies_the_expansions() {
    let s = left_operand().try_mul(&right_operand()).unwrap();
    let expected = product(vec![left_operand().into_inner(), right_operand().into_inner()]);
    assert_eq!(s.into_inner(), expected);
    let s = left_operand().mul(&right_operand(), |_: &Atom| handle(U));
    assert_eq!(s.into_inner(), expected);
}

#[test]
fn expanding_a_power_raises_the_expansions() {
    let s = left_operand().try_pow(&right_operand()).unwrap();
    let expected = pow(left_operand().into_inner(), right_operand().into_inner());
    assert_eq!(s.into_inner(), expected);
    let s = left_operand().pow(&right_operand(), |_: &Atom| handle(U));
    assert_eq!(s.into_inner(), expected);
}

#[test]
fn aliases_that_use_one_another_in_a_cycle_are_all_taken_over() {
    let mut rhs = AliasedAtom::from_atom(handle(S));
    rhs.register_alias(handle(S), sum(vec![handle(T), var(X)]));
    rhs.register_alias(handle(T), product(vec![handle(S), var(Y)]));
    let s = AliasedAtom::from_atom(var(Z)).add(&rhs, |_: &Atom| handle(U));
    assert_eq!(s.get_aliases().len(), 2);
    assert_eq!(s.get_aliases().get(&handle(S)), Some(&sum(vec![handle(T), var(X)])));
    assert_eq!(s.get_aliases().get(&handle(T)), Some(&product(vec![handle(S), var(Y)])));
    assert_eq!(s.get_root(), &sum(vec![var(Z), handle(S)]));
}

#[test]
fn expanding_a_sum_with_a_renamed_alias_adds_the_expansions() {
    let conflicting = || {
        let mut b = AliasedAtom::from_atom(product(vec![handle(S), var(W)]));
        b.register_alias(handle(S), sum(vec![var(Y), var(Z)]));
        b
    };
    let s = left_operand().add(&conflicting(), |_: &Atom| handle(U));
    assert_eq!(s.get_aliases().get(&handle(U)), Some(&sum(vec![var(Y), var(Z)])));
    let expected = sum(vec![left_operand().into_inner(), conflicting().into_inner()]);
    assert_eq!(expected, sum(vec![product(vec![var(X), var(Z)]), var(Y), product(vec![sum(vec![var(Y), var(Z)]), var(W)])]));
    assert_eq!(s.into_inner(), expected);
}

#[test]
fn fusing_duplicate_aliases_keeps_the_expansion() {
    let make = || {
        let mut a = AliasedAtom::from_atom(product(vec![handle(S), pow(handle(T), var(W)), handle(F)]));
        a.register_alias(handle(S), sum(vec![var(X), var(Z)]));
        a.register_alias(handle(T), sum(vec![var(X), var(Z)]));
        a.register_alias(handle(F), fun1(F1, handle(T)));
        a
    };
    let mut fused = make();
    fused.fuse_duplicate_aliases();
    assert_eq!(fused.get_aliases().len(), 2);
    let expected = make().into_inner();
    assert_eq!(
        expected,
        product(vec![
            sum(vec![var(X), var(Z)]),
            pow(sum(vec![var(X), var(Z)]), var(W)),
            fun1(F1, sum(vec![var(X), var(Z)])),
        ])
    );
    assert_eq!(fused.into_inner(), expected);
}

#[test]
fn renaming_an_alias_keeps_the_expansion() {
    let make = || {
        let mut a = AliasedAtom::from_atom(sum(vec![handle(S), fun1(F, handle(S))]));
        a.register_alias(handle(S), var(X));
        a.register_alias(handle(T), fun1(F1, handle(S)));
        a
    };
    let mut renamed = make();
    assert_eq!(renamed.rename_alias(handle(S), handle(U)), Ok(true));
    let expected = make().into_inner();
    assert_eq!(expected, sum(vec![var(X), fun1(F, var(X))]));
    assert_eq!(renamed.into_inner(), expected);
}

#[test]
fn compatible_cyclic_aliases_are_taken_over_without_renames() {
    let mut rhs = AliasedAtom::from_atom(handle(S));
    rhs.register_alias(handle(S), sum(vec![handle(T), var(X)]));
    rhs.register_alias(handle(T), product(vec![handle(S), var(Y)]));
    let mut lhs = AliasedAtom::from_atom(handle(T));
    lhs.register_alias(handle(T), product(vec![handle(S), var(Y)]));
    let s = lhs.add(&rhs, |_: &Atom| handle(U));
    assert_eq!(s.get_aliases().len(), 2);
    assert_eq!(s.get_aliases().get(&handle(U)), None);
    assert_eq!(s.get_root(), &sum(vec![handle(T), handle(S)]));
}
