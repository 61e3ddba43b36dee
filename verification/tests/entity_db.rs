use reindeer::{
    ChildEntity1, ChildEntity2, Db, DeletionBehaviour, Entity1, Entity2, Entity3,
    GrandChildEntity, Key,
};

fn fresh_db() -> Db {
    let mut db = Db::open_temporary().unwrap();
    db.register(Entity1::descriptor()).unwrap();
    db.register(Entity2::descriptor()).unwrap();
    db.register(Entity3::descriptor()).unwrap();
    db.register(ChildEntity1::descriptor()).unwrap();
    db.register(ChildEntity2::descriptor()).unwrap();
    db.register(GrandChildEntity::descriptor()).unwrap();
    db
}

#[test]
fn save_then_get_returns_equal_entity() {
    let mut db = fresh_db();
    let e = Entity1 {
        id: 7,
        prop1: String::from("Hello, World!"),
    };
    db.save("entity_1", &e.get_key(), &e.to_payload()).unwrap();
    let bytes = db.get("entity_1", &Key::Int(7)).unwrap().unwrap();
    let back = Entity1::from_payload(&bytes).unwrap();
    assert_eq!(back.id, 7);
    assert_eq!(back.prop1, "Hello, World!");
}

#[test]
fn save_overwrites_same_key() {
    let mut db = fresh_db();
    let a = Entity2 {
        id: String::from("id1"),
        prop2: 3,
    };
    db.save("entity_2", &a.get_key(), &a.to_payload()).unwrap();
    let b = Entity2 {
        id: String::from("id1"),
        prop2: 5,
    };
    db.save("entity_2", &b.get_key(), &b.to_payload()).unwrap();
    let bytes = db
        .get("entity_2", &Key::Str(String::from("id1")))
        .unwrap()
        .unwrap();
    let back = Entity2::from_payload(&bytes).unwrap();
    assert_eq!(back.prop2, 5);
}

#[test]
fn save_next_yields_sequential_ids() {
    let mut db = fresh_db();
    let e = Entity1 {
        id: 0,
        prop1: String::from("x"),
    };
    let p = e.to_payload();
    assert_eq!(db.save_next("entity_1", &p).unwrap(), 0);
    assert_eq!(db.save_next("entity_1", &p).unwrap(), 1);
    assert_eq!(db.save_next("entity_1", &p).unwrap(), 2);
    assert!(db.get("entity_1", &Key::Int(1)).unwrap().is_some());
    assert!(db.get("entity_1", &Key::Int(3)).unwrap().is_none());
}

#[test]
fn save_next_child_is_scoped_per_parent() {
    let mut db = fresh_db();
    let child = ChildEntity1 {
        id: (String::from("id0"), 0),
    };
    let p = child.to_payload();
    let parent3 = Key::Str(String::from("id3"));
    let parent1 = Key::Str(String::from("id1"));
    assert_eq!(db.save_next_child("child_entity_1", &parent3, &p).unwrap(), 0);
    assert_eq!(db.save_next_child("child_entity_1", &parent3, &p).unwrap(), 1);
    assert_eq!(db.save_next_child("child_entity_1", &parent3, &p).unwrap(), 2);
    // a different parent starts again at zero
    assert_eq!(db.save_next_child("child_entity_1", &parent1, &p).unwrap(), 0);
    // grandchildren scoped to the child key ("id3", 2)
    let gp = Key::Str(String::from("id3")).child(2);
    let g = GrandChildEntity {
        id: ((String::from("id0"), 1), 0),
    };
    let gpayload = g.to_payload();
    assert_eq!(db.save_next_child("grand_child_entity", &gp, &gpayload).unwrap(), 0);
    assert_eq!(db.save_next_child("grand_child_entity", &gp, &gpayload).unwrap(), 1);
    let last = db.save_next_child("grand_child_entity", &gp, &gpayload).unwrap();
    assert_eq!(last, 2);
    let gk = Key::Str(String::from("id3")).child(2).child(2);
    assert!(db.get("grand_child_entity", &gk).unwrap().is_some());
}

#[test]
fn cascade_delete_removes_descendants() {
    let mut db = fresh_db();
    let parent = Entity2 {
        id: String::from("id3"),
        prop2: 9,
    };
    db.save("entity_2", &parent.get_key(), &parent.to_payload())
        .unwrap();
    let child_payload = vec![0u8, 0, 0, 0];
    let pkey = Key::Str(String::from("id3"));
    db.save_next_child("child_entity_1", &pkey, &child_payload)
        .unwrap();
    let c1 = db
        .save_next_child("child_entity_1", &pkey, &child_payload)
        .unwrap();
    let ckey = Key::Str(String::from("id3")).child(c1);
    db.save_next_child("grand_child_entity", &ckey, &child_payload)
        .unwrap();
    db.delete("entity_2", &pkey).unwrap();
    assert!(db.get("entity_2", &pkey).unwrap().is_none());
    assert!(db
        .get("child_entity_1", &Key::Str(String::from("id3")).child(0))
        .unwrap()
        .is_none());
    assert!(db
        .get("child_entity_1", &Key::Str(String::from("id3")).child(1))
        .unwrap()
        .is_none());
    assert!(db
        .get("grand_child_entity", &Key::Str(String::from("id3")).child(1).child(0))
        .unwrap()
        .is_none());
}

#[test]
fn error_link_blocks_delete_and_leaves_stores_untouched() {
    let mut db = fresh_db();
    // entity_3 has a sibling link to entity_1 with Error behaviour
    let e3 = Entity3 { id: 0 };
    db.save("entity_3", &e3.get_key(), &e3.to_payload()).unwrap();
    let e1 = Entity1 {
        id: 0,
        prop1: String::from("blocker"),
    };
    db.save("entity_1", &e1.get_key(), &e1.to_payload()).unwrap();
    let before_e3 = db.get("entity_3", &Key::Int(0)).unwrap();
    let before_e1 = db.get("entity_1", &Key::Int(0)).unwrap();
    let r = db.delete("entity_3", &Key::Int(0));
    assert!(matches!(r, Err(reindeer::Error::ReferentialIntegrity { .. })));
    assert_eq!(db.get("entity_3", &Key::Int(0)).unwrap(), before_e3);
    assert_eq!(db.get("entity_1", &Key::Int(0)).unwrap(), before_e1);
}

#[test]
fn error_child_link_blocks_delete() {
    let mut db = fresh_db();
    // entity_3 owns child_entity_2 records with Error behaviour
    let e3 = Entity3 { id: 4 };
    db.save("entity_3", &e3.get_key(), &e3.to_payload()).unwrap();
    let c = ChildEntity2 { id: (4, 0) };
    db.save("child_entity_2", &c.get_key(), &c.to_payload())
        .unwrap();
    let r = db.delete("entity_3", &Key::Int(4));
    assert!(matches!(r, Err(reindeer::Error::ReferentialIntegrity { .. })));
    assert!(db.get("entity_3", &Key::Int(4)).unwrap().is_some());
    assert!(db
        .get("child_entity_2", &Key::Int(4).child(0))
        .unwrap()
        .is_some());
}

#[test]
fn breaklink_relation_removes_only_the_relation() {
    let mut db = fresh_db();
    let a = ChildEntity1 {
        id: (String::from("id3"), 0),
    };
    let b = ChildEntity2 { id: (0, 0) };
    db.save("child_entity_1", &a.get_key(), &a.to_payload())
        .unwrap();
    db.save("child_entity_2", &b.get_key(), &b.to_payload())
        .unwrap();
    db.create_relation(
        "child_entity_1",
        &a.get_key(),
        "child_entity_2",
        &b.get_key(),
        DeletionBehaviour::BreakLink,
        DeletionBehaviour::BreakLink,
        &Vec::new(),
    )
    .unwrap();
    assert_eq!(db.relations_of("child_entity_2", &b.get_key()).unwrap().len(), 1);
    db.delete("child_entity_1", &a.get_key()).unwrap();
    // the linked record survives; the relation is gone from both sides
    assert!(db.get("child_entity_2", &b.get_key()).unwrap().is_some());
    assert!(db.get("child_entity_1", &a.get_key()).unwrap().is_none());
    assert_eq!(db.relations_of("child_entity_2", &b.get_key()).unwrap().len(), 0);
}

#[test]
fn cascade_relation_deletes_the_linked_entity() {
    let mut db = fresh_db();
    let a = Entity1 {
        id: 11,
        prop1: String::from("a"),
    };
    let b = Entity2 {
        id: String::from("linked"),
        prop2: 1,
    };
    db.save("entity_1", &a.get_key(), &a.to_payload()).unwrap();
    db.save("entity_2", &b.get_key(), &b.to_payload()).unwrap();
    db.create_relation(
        "entity_1",
        &a.get_key(),
        "entity_2",
        &b.get_key(),
        DeletionBehaviour::Cascade,
        DeletionBehaviour::BreakLink,
        &Vec::new(),
    )
    .unwrap();
    db.delete("entity_1", &Key::Int(11)).unwrap();
    assert!(db.get("entity_1", &Key::Int(11)).unwrap().is_none());
    assert!(db
        .get("entity_2", &Key::Str(String::from("linked")))
        .unwrap()
        .is_none());
}

#[test]
fn error_relation_blocks_delete() {
    let mut db = fresh_db();
    let a = Entity1 {
        id: 21,
        prop1: String::from("a"),
    };
    let b = Entity3 { id: 99 };
    db.save("entity_1", &a.get_key(), &a.to_payload()).unwrap();
    db.save("entity_3", &b.get_key(), &b.to_payload()).unwrap();
    db.create_relation(
        "entity_1",
        &a.get_key(),
        "entity_3",
        &b.get_key(),
        DeletionBehaviour::Error,
        DeletionBehaviour::BreakLink,
        &Vec::new(),
    )
    .unwrap();
    let r = db.delete("entity_1", &Key::Int(21));
    assert!(matches!(r, Err(reindeer::Error::ReferentialIntegrity { .. })));
    assert!(db.get("entity_1", &Key::Int(21)).unwrap().is_some());
    assert!(db.get("entity_3", &Key::Int(99)).unwrap().is_some());
}

#[test]
fn register_twice_keeps_existing_data() {
    let mut db = fresh_db();
    let e = Entity1 {
        id: 1,
        prop1: String::from("kept"),
    };
    db.save("entity_1", &e.get_key(), &e.to_payload()).unwrap();
    db.register(Entity1::descriptor()).unwrap();
    let bytes = db.get("entity_1", &Key::Int(1)).unwrap().unwrap();
    let back = Entity1::from_payload(&bytes).unwrap();
    assert_eq!(back.prop1, "kept");
}

#[test]
fn unregistered_store_is_refused() {
    let mut db = Db::open_temporary().unwrap();
    assert!(matches!(
        db.get("nowhere", &Key::Int(0)),
        Err(reindeer::Error::NotRegistered)
    ));
    assert!(matches!(
        db.save("nowhere", &Key::Int(0), &Vec::new()),
        Err(reindeer::Error::NotRegistered)
    ));
    assert!(matches!(
        db.delete("nowhere", &Key::Int(0)),
        Err(reindeer::Error::NotRegistered)
    ));
}

#[test]
fn delete_of_missing_record_is_not_found() {
    let mut db = fresh_db();
    assert!(matches!(
        db.delete("entity_1", &Key::Int(12345)),
        Err(reindeer::Error::NotFound)
    ));
}

#[test]
fn relations_carry_metadata_and_behaviours() {
    let mut db = fresh_db();
    let a = Entity1 {
        id: 1,
        prop1: String::from("a"),
    };
    let b = Entity3 { id: 2 };
    db.save("entity_1", &a.get_key(), &a.to_payload()).unwrap();
    db.save("entity_3", &b.get_key(), &b.to_payload()).unwrap();
    let meta = vec![9u8, 8, 7];
    db.create_relation(
        "entity_1",
        &a.get_key(),
        "entity_3",
        &b.get_key(),
        DeletionBehaviour::Cascade,
        DeletionBehaviour::Error,
        &meta,
    )
    .unwrap();
    let from_a = db.relations_of("entity_1", &a.get_key()).unwrap();
    assert_eq!(from_a.len(), 1);
    assert_eq!(from_a[0].other_store, "entity_3");
    assert_eq!(from_a[0].on_self_delete, DeletionBehaviour::Cascade);
    assert_eq!(from_a[0].on_other_delete, DeletionBehaviour::Error);
    assert_eq!(from_a[0].metadata, vec![9u8, 8, 7]);
    let from_b = db.relations_of("entity_3", &b.get_key()).unwrap();
    assert_eq!(from_b.len(), 1);
    assert_eq!(from_b[0].other_store, "entity_1");
    assert_eq!(from_b[0].on_self_delete, DeletionBehaviour::Error);
    assert_eq!(from_b[0].on_other_delete, DeletionBehaviour::Cascade);
}

#[test]
fn remove_relation_deletes_both_index_records() {
    let mut db = fresh_db();
    let a = Entity1 {
        id: 1,
        prop1: String::from("a"),
    };
    let b = Entity3 { id: 2 };
    db.save("entity_1", &a.get_key(), &a.to_payload()).unwrap();
    db.save("entity_3", &b.get_key(), &b.to_payload()).unwrap();
    let id = db
        .create_relation(
            "entity_1",
            &a.get_key(),
            "entity_3",
            &b.get_key(),
            DeletionBehaviour::BreakLink,
            DeletionBehaviour::BreakLink,
            &Vec::new(),
        )
        .unwrap();
    db.remove_relation(&id).unwrap();
    assert_eq!(db.relations_of("entity_1", &a.get_key()).unwrap().len(), 0);
    assert_eq!(db.relations_of("entity_3", &b.get_key()).unwrap().len(), 0);
    assert!(db.get("entity_1", &a.get_key()).unwrap().is_some());
    assert!(db.get("entity_3", &b.get_key()).unwrap().is_some());
}

#[test]
fn key_compose_and_decompose_invert() {
    let parent = Key::Str(String::from("id3")).encode();
    let child = reindeer::codec::compose(&parent, 42);
    let (p, n) = reindeer::codec::decompose(&child).unwrap();
    assert_eq!(p, parent);
    assert_eq!(n, 42);
    assert_eq!(
        reindeer::codec::read_trailing_int(&child),
        Some(42)
    );
}

#[test]
fn integer_keys_encode_order_preservingly() {
    let a = Key::Int(1).encode();
    let b = Key::Int(2).encode();
    let c = Key::Int(256).encode();
    assert!(a < b);
    assert!(b < c);
    let d = Key::Int(u32::MAX).encode();
    assert!(c < d);
}

#[test]
fn payload_codecs_roundtrip() {
    let e1 = Entity1 {
        id: 3,
        prop1: String::from("abc"),
    };
    let r1 = Entity1::from_payload(&e1.to_payload()).unwrap();
    assert_eq!(r1.id, 3);
    assert_eq!(r1.prop1, "abc");
    let e2 = Entity2 {
        id: String::from("k"),
        prop2: 77,
    };
    let r2 = Entity2::from_payload(&e2.to_payload()).unwrap();
    assert_eq!(r2.id, "k");
    assert_eq!(r2.prop2, 77);
    let e3 = Entity3 { id: 5 };
    assert_eq!(Entity3::from_payload(&e3.to_payload()).unwrap().id, 5);
    let c1 = ChildEntity1 {
        id: (String::from("p"), 6),
    };
    let rc1 = ChildEntity1::from_payload(&c1.to_payload()).unwrap();
    assert_eq!(rc1.id.0, "p");
    assert_eq!(rc1.id.1, 6);
    let c2 = ChildEntity2 { id: (1, 2) };
    assert_eq!(ChildEntity2::from_payload(&c2.to_payload()).unwrap().id, (1, 2));
    let g = GrandChildEntity {
        id: ((String::from("r"), 8), 9),
    };
    let rg = GrandChildEntity::from_payload(&g.to_payload()).unwrap();
    assert_eq!(rg.id.0 .0, "r");
    assert_eq!(rg.id.0 .1, 8);
    assert_eq!(rg.id.1, 9);
}

#[test]
fn set_key_updates_entity_keys() {
    let mut e2 = Entity2 {
        id: String::from("id1"),
        prop2: 3,
    };
    e2.set_key(&Key::Str(String::from("id2")));
    assert_eq!(e2.id, "id2");
    let mut g = GrandChildEntity {
        id: ((String::from("x"), 0), 0),
    };
    g.set_key(&Key::Str(String::from("id3")).child(2).child(2));
    assert_eq!(g.id.0 .0, "id3");
    assert_eq!(g.id.0 .1, 2);
    assert_eq!(g.id.1, 2);
}

#[test]
fn persistent_open_accepts_a_path() {
    // exercises the path-based constructor; registration is per run
    let dir = "/tmp/reindeer_open_test";
    {
        let mut db = Db::open(dir).unwrap();
        db.register(Entity1::descriptor()).unwrap();
        let e = Entity1 {
            id: 1,
            prop1: String::from("persisted"),
        };
        db.save("entity_1", &e.get_key(), &e.to_payload()).unwrap();
    }
    {
        let mut db = Db::open(dir).unwrap();
        db.register(Entity1::descriptor()).unwrap();
        let bytes = db.get("entity_1", &Key::Int(1)).unwrap().unwrap();
        assert_eq!(Entity1::from_payload(&bytes).unwrap().prop1, "persisted");
    }
}

#[test]
fn key_decode_inverts_encode() {
    let keys = vec![
        Key::Int(0),
        Key::Int(u32::MAX),
        Key::Str(String::from("")),
        Key::Str(String::from("id3")),
        Key::Str(String::from("with\u{0}nul")),
        Key::Str(String::from("id3")).child(2),
        Key::Str(String::from("id3")).child(2).child(7),
        Key::Int(9).child(1),
    ];
    for k in keys {
        let enc = k.encode();
        let back = reindeer::codec::decode(&enc).unwrap();
        assert_eq!(back.encode(), enc);
    }
    assert!(reindeer::codec::decode(&[]).is_err());
    assert!(reindeer::codec::decode(&[7, 7]).is_err());
    assert!(reindeer::codec::decode(&[1, 0, 0]).is_err());
}

#[test]
fn malformed_payload_is_a_serialization_error() {
    let short = vec![1u8, 2];
    assert!(matches!(
        Entity1::from_payload(&short),
        Err(reindeer::Error::SerializationError)
    ));
    assert!(matches!(
        Entity3::from_payload(&short),
        Err(reindeer::Error::SerializationError)
    ));
    let bad_utf8 = vec![0u8, 0, 0, 1, 0xff, 0xfe];
    assert!(matches!(
        Entity2::from_payload(&bad_utf8),
        Err(reindeer::Error::SerializationError)
    ));
}

#[test]
fn auto_increment_numbers_are_never_reused() {
    let mut db = fresh_db();
    let p = vec![1u8, 2, 3, 4];
    assert_eq!(db.save_next("entity_1", &p).unwrap(), 0);
    assert_eq!(db.save_next("entity_1", &p).unwrap(), 1);
    assert_eq!(db.save_next("entity_1", &p).unwrap(), 2);
    // deleting the record with the greatest number does not free it
    db.delete("entity_1", &Key::Int(2)).unwrap();
    assert_eq!(db.save_next("entity_1", &p).unwrap(), 3);
    db.delete("entity_1", &Key::Int(0)).unwrap();
    assert_eq!(db.save_next("entity_1", &p).unwrap(), 4);
}

#[test]
fn sample_content_produces_the_expected_grandchild() {
    let mut db = fresh_db();
    let g = reindeer::entities::populate_sample(&mut db).unwrap();
    assert_eq!(g.id.0 .0, "id3");
    assert_eq!(g.id.0 .1, 2);
    assert_eq!(g.id.1, 2);
    assert!(db.get("grand_child_entity", &g.get_key()).unwrap().is_some());
}
