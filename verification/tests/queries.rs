//! Exercises of the constraint providers and the join engine.

use tribles::hashtribleset::hashtriblesetconstraint::HashTribleSetConstraint;
use tribles::hashtribleset::HashTribleSet;
use tribles::id::local_owned;
use tribles::id::IdOwner;
use tribles::query::anyconstraint::AnyConstraint;
use tribles::query::constantconstraint::ConstantConstraint;
use tribles::query::intersectionconstraint::IntersectionConstraint;
use tribles::query::solve;
use tribles::query::Binding;
use tribles::query::Constraint;
use tribles::query::Variable;
use tribles::schemas::GenId;
use tribles::schemas::UnknownValue;
use tribles::trible::id_into_value;
use tribles::trible::Trible;

fn make_id(tag: u8) -> Vec<u8> {
    let mut v = vec![0u8; 16];
    v[0] = tag;
    v
}

fn make_val(s: &str) -> Vec<u8> {
    let mut v = s.as_bytes().to_vec();
    assert!(v.len() <= 32);
    v.resize(32, 0);
    v
}

fn decode_val(v: &Vec<u8>) -> String {
    let trimmed: Vec<u8> = v.iter().cloned().take_while(|b| *b != 0).collect();
    String::from_utf8(trimmed).unwrap()
}

fn ev(i: usize) -> Variable<GenId> {
    Variable::<GenId>::new(i)
}

fn vv(i: usize) -> Variable<UnknownValue> {
    Variable::<UnknownValue>::new(i)
}

/// A small knowledge base: two named knights who love each other, and a
/// nurse, with attributes name (9), loves (10) and title (11).
fn knights_kb() -> HashTribleSet {
    let romeo = make_id(1);
    let juliet = make_id(2);
    let angelica = make_id(3);
    let name = make_id(9);
    let loves = make_id(10);
    let title = make_id(11);
    HashTribleSet::new()
        .insert(&Trible::new(&romeo, &name, &make_val("Romeo")))
        .insert(&Trible::new(&romeo, &title, &make_val("Prince")))
        .insert(&Trible::new(&romeo, &loves, &id_into_value(&juliet)))
        .insert(&Trible::new(&juliet, &name, &make_val("Juliet")))
        .insert(&Trible::new(&juliet, &title, &make_val("Maiden")))
        .insert(&Trible::new(&juliet, &loves, &id_into_value(&romeo)))
        .insert(&Trible::new(&angelica, &name, &make_val("Angelica")))
        .insert(&Trible::new(&angelica, &title, &make_val("Nurse")))
}

#[test]
fn empty_index_yields_nothing() {
    let kb = HashTribleSet::new();
    let c = HashTribleSetConstraint::new(ev(0), ev(1), vv(2), &kb);
    let results = solve(&c);
    assert_eq!(results.len(), 0);
}

#[test]
fn empty_index_all_patterns() {
    let kb = HashTribleSet::new();
    // a fully constant pattern on an empty index: still no error, just
    // no results
    let cs = vec![
        AnyConstraint::Constant(ConstantConstraint::new(ev(0), id_into_value(&make_id(1)))),
        AnyConstraint::Constant(ConstantConstraint::new(ev(1), id_into_value(&make_id(9)))),
        AnyConstraint::Constant(ConstantConstraint::new(vv(2), make_val("Romeo"))),
        AnyConstraint::Pattern(HashTribleSetConstraint::new(ev(0), ev(1), vv(2), &kb)),
    ];
    let c = IntersectionConstraint::new(cs);
    assert_eq!(solve(&c).len(), 0);
}

#[test]
fn single_pattern_enumerates_all() {
    let kb = knights_kb();
    let c = HashTribleSetConstraint::new(ev(0), ev(1), vv(2), &kb);
    let results = solve(&c);
    assert_eq!(results.len(), 8);
}

#[test]
fn eight_binding_patterns() {
    let kb = knights_kb();
    let romeo = id_into_value(&make_id(1));
    let name = id_into_value(&make_id(9));
    let val = make_val("Romeo");
    // every combination of {bound, free} over (entity, attribute, value)
    // finds the fact (romeo, name, "Romeo") and nothing spurious
    for mask in 0u8..8u8 {
        let mut cs: Vec<AnyConstraint> = Vec::new();
        if mask & 1 != 0 {
            cs.push(AnyConstraint::Constant(ConstantConstraint::new(ev(0), romeo.clone())));
        }
        if mask & 2 != 0 {
            cs.push(AnyConstraint::Constant(ConstantConstraint::new(ev(1), name.clone())));
        }
        if mask & 4 != 0 {
            cs.push(AnyConstraint::Constant(ConstantConstraint::new(vv(2), val.clone())));
        }
        cs.push(AnyConstraint::Pattern(HashTribleSetConstraint::new(ev(0), ev(1), vv(2), &kb)));
        let c = IntersectionConstraint::new(cs);
        let results = solve(&c);
        let mut found = false;
        for b in results.iter() {
            let e = b.get(0).unwrap().clone();
            let a = b.get(1).unwrap().clone();
            let v = b.get(2).unwrap().clone();
            assert!(kb_holds(&kb, &e, &a, &v));
            if e == romeo && a == name && v == val {
                found = true;
            }
        }
        assert!(found, "the matching fact must appear for every pattern");
    }
}

fn kb_holds(kb: &HashTribleSet, e: &Vec<u8>, a: &Vec<u8>, v: &Vec<u8>) -> bool {
    let eid: Vec<u8> = e[16..].to_vec();
    let aid: Vec<u8> = a[16..].to_vec();
    kb.contains(&Trible::new(&eid, &aid, v))
}

#[test]
fn romeo_loves_juliet() {
    let kb = knights_kb();
    let name = id_into_value(&make_id(9));
    let loves = id_into_value(&make_id(10));
    // {x: name = "Romeo", loves = y}, {y: name = n}
    let x = ev(0);
    let y = ev(1);
    let n = vv(2);
    let romeo_lit = vv(3);
    let a_name = ev(4);
    let a_loves = ev(5);
    let cs = vec![
        AnyConstraint::Constant(ConstantConstraint::new(romeo_lit, make_val("Romeo"))),
        AnyConstraint::Constant(ConstantConstraint::new(a_name, name.clone())),
        AnyConstraint::Constant(ConstantConstraint::new(a_loves, loves)),
        AnyConstraint::Pattern(HashTribleSetConstraint::new(ev(0), ev(4), vv(3), &kb)),
        AnyConstraint::Pattern(HashTribleSetConstraint::new(ev(0), ev(5), ev(1), &kb)),
        AnyConstraint::Pattern(HashTribleSetConstraint::new(ev(1), ev(4), vv(2), &kb)),
    ];
    let _ = (x, y, n);
    let c = IntersectionConstraint::new(cs);
    let results = solve(&c);
    assert_eq!(results.len(), 1);
    let b = &results[0];
    assert_eq!(decode_val(b.get(2).unwrap()), "Juliet");
    assert_eq!(b.get(0).unwrap().clone(), id_into_value(&make_id(1)));
    assert_eq!(b.get(1).unwrap().clone(), id_into_value(&make_id(2)));
}

#[test]
fn solving_twice_is_repeatable() {
    let kb = knights_kb();
    let c = HashTribleSetConstraint::new(ev(0), ev(1), vv(2), &kb);
    let r1 = solve(&c);
    let r2 = solve(&c);
    assert_eq!(r1.len(), r2.len());
    for (b1, b2) in r1.iter().zip(r2.iter()) {
        for v in 0usize..3usize {
            assert_eq!(b1.get(v).unwrap(), b2.get(v).unwrap());
        }
    }
}

#[test]
fn estimate_bounds_proposals() {
    let kb = knights_kb();
    let c = HashTribleSetConstraint::new(ev(0), ev(1), vv(2), &kb);
    let b = Binding::new();
    // proposing entities with nothing else bound: three distinct entities
    let est = c.estimate(0, &b);
    let mut props: Vec<Vec<u8>> = Vec::new();
    c.propose(0, &b, &mut props);
    assert!(est >= props.len());
    assert_eq!(est, 3);
    assert_eq!(props.len(), 3);
    // attributes: three distinct ones
    let est_a = c.estimate(1, &b);
    let mut props_a: Vec<Vec<u8>> = Vec::new();
    c.propose(1, &b, &mut props_a);
    assert!(est_a >= props_a.len());
    assert_eq!(est_a, 3);
    assert_eq!(props_a.len(), 3);
}

#[test]
fn estimate_is_the_bucket_count() {
    let kb = knights_kb();
    let c = HashTribleSetConstraint::new(ev(0), ev(1), vv(2), &kb);
    // with the entity bound, the value estimate is that entity's fact count
    let mut b = Binding::new();
    b.set(0, &id_into_value(&make_id(1)));
    assert_eq!(c.estimate(2, &b), 3);
    // a bound slot that embeds no identifier can match nothing
    let mut bad = Binding::new();
    bad.set(0, &make_val("not an id"));
    assert_eq!(c.estimate(2, &bad), 0);
    let mut props: Vec<Vec<u8>> = Vec::new();
    c.propose(2, &bad, &mut props);
    assert_eq!(props.len(), 0);
}

#[test]
fn confirm_filters_exactly() {
    let kb = knights_kb();
    let c = HashTribleSetConstraint::new(ev(0), ev(1), vv(2), &kb);
    let mut b = Binding::new();
    b.set(1, &id_into_value(&make_id(9)));
    b.set(2, &make_val("Romeo"));
    // candidates for the entity: one genuine, one impostor
    let mut props = vec![id_into_value(&make_id(1)), id_into_value(&make_id(2))];
    c.confirm(0, &b, &mut props);
    assert_eq!(props, vec![id_into_value(&make_id(1))]);
}

#[test]
fn ns_local_owned() {
    let romeo = make_id(1);
    let juliet = make_id(2);
    let angelica = make_id(3);
    let name = make_id(9);
    let loves = make_id(10);
    let title = make_id(11);
    let mut kb = HashTribleSet::new();
    kb = kb.union(
        &HashTribleSet::new()
            .insert(&Trible::new(&juliet, &name, &make_val("Juliet")))
            .insert(&Trible::new(&juliet, &loves, &id_into_value(&romeo)))
            .insert(&Trible::new(&juliet, &title, &make_val("Maiden")))
    );
    kb = kb.union(
        &HashTribleSet::new()
            .insert(&Trible::new(&romeo, &name, &make_val("Romeo")))
            .insert(&Trible::new(&romeo, &loves, &id_into_value(&juliet)))
            .insert(&Trible::new(&romeo, &title, &make_val("Prince")))
    );
    kb = kb.union(
        &HashTribleSet::new()
            .insert(&Trible::new(&angelica, &name, &make_val("Angelica")))
            .insert(&Trible::new(&angelica, &title, &make_val("Nurse")))
    );
    // every entity minted in this context is owned by it
    let mut owner = IdOwner::new();
    owner.add(&romeo);
    owner.add(&juliet);
    owner.add(&angelica);
    let person = ev(0);
    let n = vv(1);
    let a_name = ev(2);
    let cs = vec![
        AnyConstraint::Owned(local_owned(person, &owner)),
        AnyConstraint::Constant(ConstantConstraint::new(a_name, id_into_value(&name))),
        AnyConstraint::Pattern(HashTribleSetConstraint::new(ev(0), ev(2), vv(1), &kb)),
    ];
    let _ = n;
    let c = IntersectionConstraint::new(cs);
    let results = solve(&c);
    let mut r: Vec<String> = results.iter().map(|b| decode_val(b.get(1).unwrap())).collect();
    r.sort();
    assert_eq!(vec!["Angelica", "Juliet", "Romeo"], r);
}
