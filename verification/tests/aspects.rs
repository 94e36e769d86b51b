use wmms::query::AspectQuery;
use wmms::registry::AspectRegistryBuilder;
use wmms::set::AspectSet;

#[test]
fn registry_registers_ancestors_and_is_deterministic() {
    let mut b = AspectRegistryBuilder::new();
    b.register("damage.fire").unwrap();
    b.register("damage.ice").unwrap();

    let r = b.seal().unwrap();

    let damage = r.resolve_path("damage").unwrap();
    let fire = r.resolve_path("damage.fire").unwrap();
    let ice = r.resolve_path("damage.ice").unwrap();

    assert!(r.is_descendant_of(fire, damage));
    assert!(r.is_descendant_of(ice, damage));
    assert_eq!(r.parent(damage), None);
}

#[test]
fn query_matches() {
    let mut b = AspectRegistryBuilder::new();
    b.register("damage.fire").unwrap();
    b.register("status.burning").unwrap();
    let r = b.seal().unwrap();

    let fire = r.resolve_path("damage.fire").unwrap();
    let burning = r.resolve_path("status.burning").unwrap();

    let aspects = AspectSet::from_unsorted(vec![fire, burning]);

    let q = AspectQuery { all_of: vec![fire], any_of: vec![], none_of: vec![] }.normalize();

    assert!(q.matches(&aspects));
}

#[test]
fn registering_two_children_yields_three_aspects() {
    let mut b = AspectRegistryBuilder::new();
    b.register("damage.fire").unwrap();
    b.register("damage.ice").unwrap();
    let r = b.seal().unwrap();

    assert_eq!(r.len(), 3);
    let damage = r.resolve_path("damage").unwrap();
    let fire = r.resolve_path("damage.fire").unwrap();
    let ice = r.resolve_path("damage.ice").unwrap();
    assert_eq!(r.parent(damage), None);
    assert_eq!(r.children(damage).len(), 2);
    assert!(r.is_descendant_of(fire, damage));
    assert!(!r.is_descendant_of(fire, ice));
}

#[test]
fn registration_order_does_not_matter() {
    let mut b1 = AspectRegistryBuilder::new();
    b1.register("damage.fire").unwrap();
    b1.register("status.burning").unwrap();
    b1.register("damage.ice").unwrap();
    let r1 = b1.seal().unwrap();

    let mut b2 = AspectRegistryBuilder::new();
    b2.register("damage.ice").unwrap();
    b2.register("damage.fire").unwrap();
    b2.register("status.burning").unwrap();
    // re-registration is idempotent
    b2.register("damage.fire").unwrap();
    let r2 = b2.seal().unwrap();

    assert_eq!(r1.len(), r2.len());
    assert_eq!(r1.hash().0, r2.hash().0);
    let fire1 = r1.resolve_path("damage.fire").unwrap();
    let fire2 = r2.resolve_path("damage.fire").unwrap();
    assert_eq!(fire1, fire2);
    for i in 0..r1.len() {
        let rid = wmms::registry::AspectRid(i as u32);
        assert_eq!(r1.key(rid).as_str(), r2.key(rid).as_str());
        assert_eq!(r1.parent(rid), r2.parent(rid));
        assert_eq!(r1.depth(rid), r2.depth(rid));
        assert_eq!(r1.id(rid), r2.id(rid));
    }
}

#[test]
fn register_rejects_malformed_paths() {
    let mut b = AspectRegistryBuilder::new();
    assert!(b.register("").is_err());
    assert!(b.register("a..b").is_err());
    assert!(b.register(".a").is_err());
    assert!(b.register("a.").is_err());
    assert!(b.register("da mage").is_err());
    assert!(b.register("A_1.b2").is_ok());
}

#[test]
fn ancestors_walk_every_strict_prefix() {
    let mut b = AspectRegistryBuilder::new();
    b.register("a.b.c.d").unwrap();
    let r = b.seal().unwrap();
    assert_eq!(r.len(), 4);
    let d = r.resolve_path("a.b.c.d").unwrap();
    let mut out = Vec::new();
    r.ancestors(d, &mut out);
    let keys: Vec<&str> = out.iter().map(|a| r.key(*a).as_str()).collect();
    assert_eq!(keys, vec!["a.b.c", "a.b", "a"]);
    assert_eq!(r.depth(d), 3);
}

#[test]
fn resolve_id_round_trip() {
    let mut b = AspectRegistryBuilder::new();
    b.register("damage.fire").unwrap();
    let r = b.seal().unwrap();
    let fire = r.resolve_path("damage.fire").unwrap();
    let id = r.id(fire);
    assert_eq!(r.resolve_id(&id), Some(fire));
    assert!(r.resolve_path("damage.frost").is_none());
}

#[test]
fn close_under_ancestors_adds_every_ancestor() {
    let mut b = AspectRegistryBuilder::new();
    b.register("a.b.c").unwrap();
    b.register("x.y").unwrap();
    let r = b.seal().unwrap();
    let c = r.resolve_path("a.b.c").unwrap();
    let y = r.resolve_path("x.y").unwrap();
    let closed = r.close_under_ancestors(&[c, y]);
    assert_eq!(closed.len(), 5);
    assert!(closed.contains(r.resolve_path("a").unwrap()));
    assert!(closed.contains(r.resolve_path("a.b").unwrap()));
    assert!(closed.contains(r.resolve_path("x").unwrap()));
}

#[test]
fn query_none_of_and_any_of() {
    let mut b = AspectRegistryBuilder::new();
    b.register("damage.fire").unwrap();
    b.register("status.burning").unwrap();
    b.register("status.wet").unwrap();
    let r = b.seal().unwrap();
    let fire = r.resolve_path("damage.fire").unwrap();
    let burning = r.resolve_path("status.burning").unwrap();
    let wet = r.resolve_path("status.wet").unwrap();

    let aspects = AspectSet::from_unsorted(vec![fire, burning]);

    let q1 = AspectQuery { all_of: vec![], any_of: vec![], none_of: vec![wet] }.normalize();
    assert!(q1.matches(&aspects));

    let q2 = AspectQuery { all_of: vec![], any_of: vec![], none_of: vec![burning] }.normalize();
    assert!(!q2.matches(&aspects));

    let q3 = AspectQuery { all_of: vec![], any_of: vec![wet, fire], none_of: vec![] }.normalize();
    assert!(q3.matches(&aspects));

    let q4 = AspectQuery { all_of: vec![fire, wet], any_of: vec![], none_of: vec![] }.normalize();
    assert!(!q4.matches(&aspects));
}

#[test]
fn aspect_path_parent_chain() {
    let p = wmms::path::AspectPath::parse("damage.fire.ember").unwrap();
    let q = p.parent().unwrap();
    assert_eq!(q.as_str(), "damage.fire");
    let root = q.parent().unwrap().parent();
    assert!(root.is_none());
    assert!(wmms::path::AspectPath::parse("..x").is_err());
}

#[test]
fn canonical_key_from_path_normalizes_file_layout() {
    let k = wmms::canon::CanonicalKey::from_path(" \\worlds//core/fire.alemb ").unwrap();
    assert_eq!(k.as_str(), "worlds/core/fire");
    let k2 = wmms::canon::CanonicalKey::from_path("a///b").unwrap();
    assert_eq!(k2.as_str(), "a/b");
    assert!(wmms::canon::CanonicalKey::from_path("  ").is_err());
    assert!(wmms::canon::CanonicalKey::from_path("///").is_err());
}

#[test]
fn canonical_key_from_dotted_ident() {
    let k = wmms::canon::CanonicalKey::from_dotted_ident("a.b_2.c").unwrap();
    assert_eq!(k.as_str(), "a.b_2.c");
    assert!(wmms::canon::CanonicalKey::from_dotted_ident("a..b").is_err());
    assert!(wmms::canon::CanonicalKey::from_dotted_ident("").is_err());
}
