//! The entity types: typed records over the database, each with its
//! store name, key accessors, declared links, and a verified payload
//! codec whose decode inverts its encode.

use crate::codec::{
    be4, be4_val, lemma_be4_val_inverse, lemma_be4_val_roundtrip, push_be4, string_from_utf8, Key,
};
use crate::db::{Db, DeletionBehaviour, Link, StoreDesc};
use crate::errors::Error;
use crate::codec::key_enc;
use vstd::prelude::*;
use vstd::string::StringExecFns;
use vstd::utf8::{encode_utf8, encode_utf8_decode_utf8, encode_utf8_valid_utf8, valid_utf8};

verus! {

/// Reads a big-endian integer out of four payload bytes.
fn read_u32_be(b: &Vec<u8>, off: usize) -> (r: u32)
    requires
        off + 4 <= b@.len(),
    ensures
        r == be4_val(b@.subrange(off as int, off + 4)),
{
    let l = b.len();
    assert(off + 4 <= l);
    let b0 = b[off];
    let b1 = b[off + 1];
    let b2 = b[off + 2];
    let b3 = b[off + 3];
    let n: u32 = ((b0 as u32) << 24) | ((b1 as u32) << 16) | ((b2 as u32) << 8) | (b3 as u32);
    proof {
        let w = b@.subrange(off as int, off + 4);
        assert(w[0] == b0 && w[1] == b1 && w[2] == b2 && w[3] == b3);
    }
    n
}

/// Copies the payload bytes from `off` on.
fn tail_bytes(b: &Vec<u8>, off: usize) -> (r: Vec<u8>)
    requires
        off <= b@.len(),
    ensures
        r@ == b@.skip(off as int),
{
    let mut out: Vec<u8> = Vec::new();
    let mut i: usize = off;
    while i < b.len()
        invariant
            off <= i <= b@.len(),
            out@ == b@.subrange(off as int, i as int),
        decreases b@.len() - i,
    {
        out.push(b[i]);
        assert(out@ =~= b@.subrange(off as int, i + 1));
        i = i + 1;
    }
    assert(out@ =~= b@.skip(off as int));
    out
}

/// A record with an integer key and one text property, sibling-linked
/// to `entity_3` with `Cascade`.
pub struct Entity1 {
    pub id: u32,
    pub prop1: String,
}

/// `Entity1`'s stored payload.
pub open spec fn entity1_payload(id: u32, prop1: Seq<char>) -> Seq<u8> {
    be4(id) + encode_utf8(prop1)
}

impl Entity1 {
    /// The key as this record carries it.
    pub open spec fn key_spec(&self) -> Key {
        Key::Int(self.id)
    }

    pub fn store_name() -> (r: &'static str)
        ensures
            r@ == "entity_1"@,
    {
        "entity_1"
    }

    pub fn get_key(&self) -> (k: Key)
        ensures
            k == self.key_spec(),
    {
        Key::Int(self.id)
    }

    pub fn set_key(&mut self, key: &Key)
        requires
            key is Int,
        ensures
            final(self).key_spec() == *key,
            final(self).prop1 == old(self).prop1,
    {
        match key {
            Key::Int(n) => {
                self.id = *n;
            },
            _ => {
                proof {
                    assert(false);
                }
            },
        }
    }

    pub fn get_sibling_stores() -> (r: Vec<Link>)
        ensures
            r@.len() == 1,
            r@[0].target@ == "entity_3"@ && r@[0].behaviour == DeletionBehaviour::Cascade,
    {
        let mut v: Vec<Link> = Vec::new();
        v.push(Link { target: "entity_3".to_owned(), behaviour: DeletionBehaviour::Cascade });
        v
    }

    /// The descriptor handed to `Db::register`.
    pub fn descriptor() -> (r: StoreDesc)
        ensures
            r.name@ == "entity_1"@,
            r.siblings@.len() == 1 && r.siblings@[0].target@ == "entity_3"@
                && r.siblings@[0].behaviour == DeletionBehaviour::Cascade,
            r.children@.len() == 0,
    {
        StoreDesc {
            name: "entity_1".to_owned(),
            siblings: Self::get_sibling_stores(),
            children: Vec::new(),
        }
    }

    /// Serializes the record.
    pub fn to_payload(&self) -> (r: Vec<u8>)
        ensures
            r@ == entity1_payload(self.id, self.prop1@),
    {
        let mut out: Vec<u8> = Vec::new();
        push_be4(&mut out, self.id);
        let mut prop = self.prop1.as_str().as_bytes_vec();
        out.append(&mut prop);
        assert(out@ =~= entity1_payload(self.id, self.prop1@));
        out
    }

    /// Deserializes a record: the exact inverse of `to_payload`.
    pub fn from_payload(b: &Vec<u8>) -> (r: Result<Entity1, Error>)
        ensures
            r matches Ok(e) ==> b@ == entity1_payload(e.id, e.prop1@),
            (exists|id: u32, p: Seq<char>| b@ == entity1_payload(id, p)) ==> r is Ok,
    {
        proof {
            broadcast use encode_utf8_valid_utf8;
        }
        if b.len() < 4 {
            proof {
                assert forall|id: u32, p: Seq<char>| b@ != entity1_payload(id, p) by {
                    assert(entity1_payload(id, p).len() >= 4);
                }
            }
            return Err(Error::SerializationError);
        }
        let id = read_u32_be(b, 0);
        let rest = tail_bytes(b, 4);
        match string_from_utf8(rest) {
            Ok(prop1) => {
                let e = Entity1 { id, prop1 };
                proof {
                    lemma_be4_val_inverse(b@.subrange(0, 4));
                    assert(b@ =~= b@.subrange(0, 4) + b@.skip(4));
                }
                Ok(e)
            },
            Err(_) => {
                proof {
                    assert forall|id2: u32, p: Seq<char>| b@ != entity1_payload(id2, p) by {
                        if b@ == entity1_payload(id2, p) {
                            assert(b@.skip(4) =~= encode_utf8(p));
                            assert(valid_utf8(b@.skip(4)));
                        }
                    }
                }
                Err(Error::SerializationError)
            },
        }
    }
}

/// A record with a string key and one numeric property, owning
/// `child_entity_1` records with `Cascade`.
pub struct Entity2 {
    pub id: String,
    pub prop2: u32,
}

/// `Entity2`'s stored payload.
pub open spec fn entity2_payload(prop2: u32, id: Seq<char>) -> Seq<u8> {
    be4(prop2) + encode_utf8(id)
}

impl Entity2 {
    pub open spec fn key_spec(&self) -> Key {
        Key::Str(self.id)
    }

    pub fn store_name() -> (r: &'static str)
        ensures
            r@ == "entity_2"@,
    {
        "entity_2"
    }

    pub fn get_key(&self) -> (k: Key)
        ensures
            k == self.key_spec(),
    {
        Key::Str(self.id.clone())
    }

    pub fn set_key(&mut self, key: &Key)
        requires
            key is Str,
        ensures
            final(self).key_spec() == *key,
            final(self).prop2 == old(self).prop2,
    {
        match key {
            Key::Str(s) => {
                self.id = s.clone();
            },
            _ => {
                proof {
                    assert(false);
                }
            },
        }
    }

    pub fn get_child_stores() -> (r: Vec<Link>)
        ensures
            r@.len() == 1,
            r@[0].target@ == "child_entity_1"@ && r@[0].behaviour == DeletionBehaviour::Cascade,
    {
        let mut v: Vec<Link> = Vec::new();
        v.push(Link { target: "child_entity_1".to_owned(), behaviour: DeletionBehaviour::Cascade });
        v
    }

    pub fn descriptor() -> (r: StoreDesc)
        ensures
            r.name@ == "entity_2"@,
            r.siblings@.len() == 0,
            r.children@.len() == 1 && r.children@[0].target@ == "child_entity_1"@
                && r.children@[0].behaviour == DeletionBehaviour::Cascade,
    {
        StoreDesc {
            name: "entity_2".to_owned(),
            siblings: Vec::new(),
            children: Self::get_child_stores(),
        }
    }

    pub fn to_payload(&self) -> (r: Vec<u8>)
        ensures
            r@ == entity2_payload(self.prop2, self.id@),
    {
        let mut out: Vec<u8> = Vec::new();
        push_be4(&mut out, self.prop2);
        let mut idb = self.id.as_str().as_bytes_vec();
        out.append(&mut idb);
        assert(out@ =~= entity2_payload(self.prop2, self.id@));
        out
    }

    pub fn from_payload(b: &Vec<u8>) -> (r: Result<Entity2, Error>)
        ensures
            r matches Ok(e) ==> b@ == entity2_payload(e.prop2, e.id@),
            (exists|p2: u32, id: Seq<char>| b@ == entity2_payload(p2, id)) ==> r is Ok,
    {
        proof {
            broadcast use encode_utf8_valid_utf8;
        }
        if b.len() < 4 {
            proof {
                assert forall|p2: u32, id: Seq<char>| b@ != entity2_payload(p2, id) by {
                    assert(entity2_payload(p2, id).len() >= 4);
                }
            }
            return Err(Error::SerializationError);
        }
        let prop2 = read_u32_be(b, 0);
        let rest = tail_bytes(b, 4);
        match string_from_utf8(rest) {
            Ok(id) => {
                let e = Entity2 { id, prop2 };
                proof {
                    lemma_be4_val_inverse(b@.subrange(0, 4));
                    assert(b@ =~= b@.subrange(0, 4) + b@.skip(4));
                }
                Ok(e)
            },
            Err(_) => {
                proof {
                    assert forall|p2: u32, id2: Seq<char>| b@ != entity2_payload(p2, id2) by {
                        if b@ == entity2_payload(p2, id2) {
                            assert(b@.skip(4) =~= encode_utf8(id2));
                            assert(valid_utf8(b@.skip(4)));
                        }
                    }
                }
                Err(Error::SerializationError)
            },
        }
    }
}

/// A record with an integer key, sibling-linked back to `entity_1`
/// with `Error` and owning `child_entity_2` records with `Error`.
pub struct Entity3 {
    pub id: u32,
}

/// `Entity3`'s stored payload.
pub open spec fn entity3_payload(id: u32) -> Seq<u8> {
    be4(id)
}

impl Entity3 {
    pub open spec fn key_spec(&self) -> Key {
        Key::Int(self.id)
    }

    pub fn store_name() -> (r: &'static str)
        ensures
            r@ == "entity_3"@,
    {
        "entity_3"
    }

    pub fn get_key(&self) -> (k: Key)
        ensures
            k == self.key_spec(),
    {
        Key::Int(self.id)
    }

    pub fn set_key(&mut self, key: &Key)
        requires
            key is Int,
        ensures
            final(self).key_spec() == *key,
    {
        match key {
            Key::Int(n) => {
                self.id = *n;
            },
            _ => {
                proof {
                    assert(false);
                }
            },
        }
    }

    pub fn get_sibling_stores() -> (r: Vec<Link>)
        ensures
            r@.len() == 1,
            r@[0].target@ == "entity_1"@ && r@[0].behaviour == DeletionBehaviour::Error,
    {
        let mut v: Vec<Link> = Vec::new();
        v.push(Link { target: "entity_1".to_owned(), behaviour: DeletionBehaviour::Error });
        v
    }

    pub fn get_child_stores() -> (r: Vec<Link>)
        ensures
            r@.len() == 1,
            r@[0].target@ == "child_entity_2"@ && r@[0].behaviour == DeletionBehaviour::Error,
    {
        let mut v: Vec<Link> = Vec::new();
        v.push(Link { target: "child_entity_2".to_owned(), behaviour: DeletionBehaviour::Error });
        v
    }

    pub fn descriptor() -> (r: StoreDesc)
        ensures
            r.name@ == "entity_3"@,
            r.siblings@.len() == 1 && r.siblings@[0].target@ == "entity_1"@
                && r.siblings@[0].behaviour == DeletionBehaviour::Error,
            r.children@.len() == 1 && r.children@[0].target@ == "child_entity_2"@
                && r.children@[0].behaviour == DeletionBehaviour::Error,
    {
        StoreDesc {
            name: "entity_3".to_owned(),
            siblings: Self::get_sibling_stores(),
            children: Self::get_child_stores(),
        }
    }

    pub fn to_payload(&self) -> (r: Vec<u8>)
        ensures
            r@ == entity3_payload(self.id),
    {
        let mut out: Vec<u8> = Vec::new();
        push_be4(&mut out, self.id);
        assert(out@ =~= entity3_payload(self.id));
        out
    }

    pub fn from_payload(b: &Vec<u8>) -> (r: Result<Entity3, Error>)
        ensures
            r matches Ok(e) ==> b@ == entity3_payload(e.id),
            r is Ok <==> b@.len() == 4,
    {
        if b.len() != 4 {
            return Err(Error::SerializationError);
        }
        let id = read_u32_be(b, 0);
        proof {
            lemma_be4_val_inverse(b@.subrange(0, 4));
            assert(b@ =~= b@.subrange(0, 4));
        }
        Ok(Entity3 { id })
    }
}

/// A child record of `entity_2`, keyed `(parent string, local id)`,
/// owning `grand_child_entity` records with `Cascade`.
pub struct ChildEntity1 {
    pub id: (String, u32),
}

/// `ChildEntity1`'s stored payload.
pub open spec fn child1_payload(seq_no: u32, parent: Seq<char>) -> Seq<u8> {
    be4(seq_no) + encode_utf8(parent)
}

impl ChildEntity1 {
    pub open spec fn key_spec(&self) -> Key {
        Key::Child(Box::new(Key::Str(self.id.0)), self.id.1)
    }

    pub fn store_name() -> (r: &'static str)
        ensures
            r@ == "child_entity_1"@,
    {
        "child_entity_1"
    }

    pub fn get_key(&self) -> (k: Key)
        ensures
            k == self.key_spec(),
    {
        Key::Child(Box::new(Key::Str(self.id.0.clone())), self.id.1)
    }

    pub fn set_key(&mut self, key: &Key)
        requires
            key matches Key::Child(p, n) && **p matches Key::Str(_),
        ensures
            final(self).key_spec() == *key,
    {
        match key {
            Key::Child(p, n) => {
                match &**p {
                    Key::Str(s) => {
                        self.id = (s.clone(), *n);
                    },
                    _ => {
                        proof {
                            assert(false);
                        }
                    },
                }
            },
            _ => {
                proof {
                    assert(false);
                }
            },
        }
    }

    pub fn get_child_stores() -> (r: Vec<Link>)
        ensures
            r@.len() == 1,
            r@[0].target@ == "grand_child_entity"@ && r@[0].behaviour == DeletionBehaviour::Cascade,
    {
        let mut v: Vec<Link> = Vec::new();
        v.push(
            Link { target: "grand_child_entity".to_owned(), behaviour: DeletionBehaviour::Cascade },
        );
        v
    }

    pub fn descriptor() -> (r: StoreDesc)
        ensures
            r.name@ == "child_entity_1"@,
            r.siblings@.len() == 0,
            r.children@.len() == 1 && r.children@[0].target@ == "grand_child_entity"@
                && r.children@[0].behaviour == DeletionBehaviour::Cascade,
    {
        StoreDesc {
            name: "child_entity_1".to_owned(),
            siblings: Vec::new(),
            children: Self::get_child_stores(),
        }
    }

    pub fn to_payload(&self) -> (r: Vec<u8>)
        ensures
            r@ == child1_payload(self.id.1, self.id.0@),
    {
        let mut out: Vec<u8> = Vec::new();
        push_be4(&mut out, self.id.1);
        let mut pb = self.id.0.as_str().as_bytes_vec();
        out.append(&mut pb);
        assert(out@ =~= child1_payload(self.id.1, self.id.0@));
        out
    }

    pub fn from_payload(b: &Vec<u8>) -> (r: Result<ChildEntity1, Error>)
        ensures
            r matches Ok(e) ==> b@ == child1_payload(e.id.1, e.id.0@),
            (exists|n: u32, p: Seq<char>| b@ == child1_payload(n, p)) ==> r is Ok,
    {
        proof {
            broadcast use encode_utf8_valid_utf8;
        }
        if b.len() < 4 {
            proof {
                assert forall|n: u32, p: Seq<char>| b@ != child1_payload(n, p) by {
                    assert(child1_payload(n, p).len() >= 4);
                }
            }
            return Err(Error::SerializationError);
        }
        let seq_no = read_u32_be(b, 0);
        let rest = tail_bytes(b, 4);
        match string_from_utf8(rest) {
            Ok(parent) => {
                let e = ChildEntity1 { id: (parent, seq_no) };
                proof {
                    lemma_be4_val_inverse(b@.subrange(0, 4));
                    assert(b@ =~= b@.subrange(0, 4) + b@.skip(4));
                }
                Ok(e)
            },
            Err(_) => {
                proof {
                    assert forall|n: u32, p: Seq<char>| b@ != child1_payload(n, p) by {
                        if b@ == child1_payload(n, p) {
                            assert(b@.skip(4) =~= encode_utf8(p));
                            assert(valid_utf8(b@.skip(4)));
                        }
                    }
                }
                Err(Error::SerializationError)
            },
        }
    }
}

/// A child record of `entity_3`, keyed `(parent id, local id)`.
pub struct ChildEntity2 {
    pub id: (u32, u32),
}

/// `ChildEntity2`'s stored payload.
pub open spec fn child2_payload(parent: u32, seq_no: u32) -> Seq<u8> {
    be4(parent) + be4(seq_no)
}

impl ChildEntity2 {
    pub open spec fn key_spec(&self) -> Key {
        Key::Child(Box::new(Key::Int(self.id.0)), self.id.1)
    }

    pub fn store_name() -> (r: &'static str)
        ensures
            r@ == "child_entity_2"@,
    {
        "child_entity_2"
    }

    pub fn get_key(&self) -> (k: Key)
        ensures
            k == self.key_spec(),
    {
        Key::Child(Box::new(Key::Int(self.id.0)), self.id.1)
    }

    pub fn set_key(&mut self, key: &Key)
        requires
            key matches Key::Child(p, n) && **p matches Key::Int(_),
        ensures
            final(self).key_spec() == *key,
    {
        match key {
            Key::Child(p, n) => {
                match &**p {
                    Key::Int(m) => {
                        self.id = (*m, *n);
                    },
                    _ => {
                        proof {
                            assert(false);
                        }
                    },
                }
            },
            _ => {
                proof {
                    assert(false);
                }
            },
        }
    }

    pub fn descriptor() -> (r: StoreDesc)
        ensures
            r.name@ == "child_entity_2"@,
            r.siblings@.len() == 0,
            r.children@.len() == 0,
    {
        StoreDesc { name: "child_entity_2".to_owned(), siblings: Vec::new(), children: Vec::new() }
    }

    pub fn to_payload(&self) -> (r: Vec<u8>)
        ensures
            r@ == child2_payload(self.id.0, self.id.1),
    {
        let mut out: Vec<u8> = Vec::new();
        push_be4(&mut out, self.id.0);
        push_be4(&mut out, self.id.1);
        assert(out@ =~= child2_payload(self.id.0, self.id.1));
        out
    }

    pub fn from_payload(b: &Vec<u8>) -> (r: Result<ChildEntity2, Error>)
        ensures
            r matches Ok(e) ==> b@ == child2_payload(e.id.0, e.id.1),
            r is Ok <==> b@.len() == 8,
    {
        if b.len() != 8 {
            return Err(Error::SerializationError);
        }
        let parent = read_u32_be(b, 0);
        let seq_no = read_u32_be(b, 4);
        proof {
            lemma_be4_val_inverse(b@.subrange(0, 4));
            lemma_be4_val_inverse(b@.subrange(4, 8));
            assert(b@ =~= b@.subrange(0, 4) + b@.subrange(4, 8));
        }
        Ok(ChildEntity2 { id: (parent, seq_no) })
    }
}

/// A grandchild record, keyed `((parent string, parent local id),
/// local id)`.
pub struct GrandChildEntity {
    pub id: ((String, u32), u32),
}

/// `GrandChildEntity`'s stored payload.
pub open spec fn grandchild_payload(mid: u32, seq_no: u32, root: Seq<char>) -> Seq<u8> {
    be4(mid) + be4(seq_no) + encode_utf8(root)
}

impl GrandChildEntity {
    pub open spec fn key_spec(&self) -> Key {
        Key::Child(
            Box::new(Key::Child(Box::new(Key::Str(self.id.0.0)), self.id.0.1)),
            self.id.1,
        )
    }

    pub fn store_name() -> (r: &'static str)
        ensures
            r@ == "grand_child_entity"@,
    {
        "grand_child_entity"
    }

    pub fn get_key(&self) -> (k: Key)
        ensures
            k == self.key_spec(),
    {
        Key::Child(
            Box::new(Key::Child(Box::new(Key::Str(self.id.0.0.clone())), self.id.0.1)),
            self.id.1,
        )
    }

    pub fn set_key(&mut self, key: &Key)
        requires
            key matches Key::Child(p, n) && **p matches Key::Child(q, m) && *q matches Key::Str(_),
        ensures
            final(self).key_spec() == *key,
    {
        match key {
            Key::Child(p, n) => {
                match &**p {
                    Key::Child(q, m) => {
                        match &**q {
                            Key::Str(s) => {
                                self.id = ((s.clone(), *m), *n);
                            },
                            _ => {
                                proof {
                                    assert(false);
                                }
                            },
                        }
                    },
                    _ => {
                        proof {
                            assert(false);
                        }
                    },
                }
            },
            _ => {
                proof {
                    assert(false);
                }
            },
        }
    }

    pub fn descriptor() -> (r: StoreDesc)
        ensures
            r.name@ == "grand_child_entity"@,
            r.siblings@.len() == 0,
            r.children@.len() == 0,
    {
        StoreDesc {
            name: "grand_child_entity".to_owned(),
            siblings: Vec::new(),
            children: Vec::new(),
        }
    }

    pub fn to_payload(&self) -> (r: Vec<u8>)
        ensures
            r@ == grandchild_payload(self.id.0.1, self.id.1, self.id.0.0@),
    {
        let mut out: Vec<u8> = Vec::new();
        push_be4(&mut out, self.id.0.1);
        push_be4(&mut out, self.id.1);
        let mut rb = self.id.0.0.as_str().as_bytes_vec();
        out.append(&mut rb);
        assert(out@ =~= grandchild_payload(self.id.0.1, self.id.1, self.id.0.0@));
        out
    }

    pub fn from_payload(b: &Vec<u8>) -> (r: Result<GrandChildEntity, Error>)
        ensures
            r matches Ok(e) ==> b@ == grandchild_payload(e.id.0.1, e.id.1, e.id.0.0@),
            (exists|m: u32, n: u32, p: Seq<char>| b@ == grandchild_payload(m, n, p)) ==> r is Ok,
    {
        proof {
            broadcast use encode_utf8_valid_utf8;
        }
        if b.len() < 8 {
            proof {
                assert forall|m: u32, n: u32, p: Seq<char>| b@ != grandchild_payload(m, n, p) by {
                    assert(grandchild_payload(m, n, p).len() >= 8);
                }
            }
            return Err(Error::SerializationError);
        }
        let mid = read_u32_be(b, 0);
        let seq_no = read_u32_be(b, 4);
        let rest = tail_bytes(b, 8);
        match string_from_utf8(rest) {
            Ok(root) => {
                let e = GrandChildEntity { id: ((root, mid), seq_no) };
                proof {
                    lemma_be4_val_inverse(b@.subrange(0, 4));
                    lemma_be4_val_inverse(b@.subrange(4, 8));
                    assert(b@ =~= b@.subrange(0, 4) + b@.subrange(4, 8) + b@.skip(8));
                }
                Ok(e)
            },
            Err(_) => {
                proof {
                    assert forall|m: u32, n: u32, p: Seq<char>| b@ != grandchild_payload(
                        m,
                        n,
                        p,
                    ) by {
                        if b@ == grandchild_payload(m, n, p) {
                            assert(b@.skip(8) =~= encode_utf8(p));
                            assert(valid_utf8(b@.skip(8)));
                        }
                    }
                }
                Err(Error::SerializationError)
            },
        }
    }
}

/// Payload equality law: a payload of one integer field followed by
/// one text field determines both fields, so two records that store
/// the same payload hold equal field values. `Entity1`, `Entity2`
/// and `ChildEntity1` payloads have this shape.
pub proof fn lemma_int_text_payload_inj(n1: u32, s1: Seq<char>, n2: u32, s2: Seq<char>)
    requires
        be4(n1) + encode_utf8(s1) == be4(n2) + encode_utf8(s2),
    ensures
        n1 == n2,
        s1 == s2,
{
    let a = be4(n1) + encode_utf8(s1);
    let b = be4(n2) + encode_utf8(s2);
    assert(a.take(4) =~= be4(n1));
    assert(b.take(4) =~= be4(n2));
    lemma_be4_val_roundtrip(n1);
    lemma_be4_val_roundtrip(n2);
    assert(a.skip(4) =~= encode_utf8(s1));
    assert(b.skip(4) =~= encode_utf8(s2));
    encode_utf8_decode_utf8(s1);
    encode_utf8_decode_utf8(s2);
}

/// The same law for payloads of two integer fields and one text
/// field, the shape of `GrandChildEntity` payloads.
pub proof fn lemma_int_int_text_payload_inj(
    m1: u32,
    n1: u32,
    s1: Seq<char>,
    m2: u32,
    n2: u32,
    s2: Seq<char>,
)
    requires
        be4(m1) + be4(n1) + encode_utf8(s1) == be4(m2) + be4(n2) + encode_utf8(s2),
    ensures
        m1 == m2,
        n1 == n2,
        s1 == s2,
{
    let a = be4(m1) + be4(n1) + encode_utf8(s1);
    let b = be4(m2) + be4(n2) + encode_utf8(s2);
    assert(a.take(4) =~= be4(m1));
    assert(b.take(4) =~= be4(m2));
    assert(a.subrange(4, 8) =~= be4(n1));
    assert(b.subrange(4, 8) =~= be4(n2));
    lemma_be4_val_roundtrip(m1);
    lemma_be4_val_roundtrip(m2);
    lemma_be4_val_roundtrip(n1);
    lemma_be4_val_roundtrip(n2);
    assert(a.skip(8) =~= encode_utf8(s1));
    assert(b.skip(8) =~= encode_utf8(s2));
    encode_utf8_decode_utf8(s1);
    encode_utf8_decode_utf8(s2);
}

/// The same law for the two-integer payload of `ChildEntity2`.
pub proof fn lemma_int_int_payload_inj(m1: u32, n1: u32, m2: u32, n2: u32)
    requires
        be4(m1) + be4(n1) == be4(m2) + be4(n2),
    ensures
        m1 == m2,
        n1 == n2,
{
    let a = be4(m1) + be4(n1);
    let b = be4(m2) + be4(n2);
    assert(a.take(4) =~= be4(m1));
    assert(b.take(4) =~= be4(m2));
    assert(a.skip(4) =~= be4(n1));
    assert(b.skip(4) =~= be4(n2));
    lemma_be4_val_roundtrip(m1);
    lemma_be4_val_roundtrip(m2);
    lemma_be4_val_roundtrip(n1);
    lemma_be4_val_roundtrip(n2);
}

/// Populates a database with the sample content the tests exercise:
/// three auto-numbered `Entity1` records, three `Entity2` records,
/// children under two parents, one `BreakLink` relation, and three
/// grandchildren under the child `("id3", 2)`. Returns the last
/// grandchild, whose record is retrievable under its key.
pub fn populate_sample(db: &mut Db) -> (r: Result<GrandChildEntity, Error>)
    requires
        old(db).wf(),
        old(db).registered("entity_1"@),
        old(db).registered("entity_2"@),
        old(db).registered("entity_3"@),
        old(db).registered("child_entity_1"@),
        old(db).registered("child_entity_2"@),
        old(db).registered("grand_child_entity"@),
    ensures
        final(db).wf(),
        final(db).registry() == old(db).registry(),
        r matches Ok(g) ==> final(db).store_contents("grand_child_entity"@).contains_key(
            key_enc(g.key_spec()),
        ),
{
    let mut e1 = Entity1 { id: 0, prop1: String::from_str("Hello, World!") };
    let n = db.save_next("entity_1", &e1.to_payload())?;
    e1.set_key(&Key::Int(n));
    e1.prop1 = String::from_str("Hello, Nancy!");
    let n = db.save_next("entity_1", &e1.to_payload())?;
    e1.set_key(&Key::Int(n));
    e1.prop1 = String::from_str("Hello, Jack!");
    let n = db.save_next("entity_1", &e1.to_payload())?;
    e1.set_key(&Key::Int(n));
    let mut e2 = Entity2 { id: String::from_str("id1"), prop2: 3 };
    db.save("entity_2", &e2.get_key(), &e2.to_payload())?;
    e2.set_key(&Key::Str(String::from_str("id2")));
    e2.prop2 = 5;
    db.save("entity_2", &e2.get_key(), &e2.to_payload())?;
    let e2_2 = Entity2 { id: String::from_str("id2"), prop2: 5 };
    e2.set_key(&Key::Str(String::from_str("id3")));
    e2.prop2 = 1000;
    db.save("entity_2", &e2.get_key(), &e2.to_payload())?;
    let mut e3 = Entity3 { id: 0 };
    let n = db.save_next("entity_3", &e3.to_payload())?;
    e3.set_key(&Key::Int(n));
    let n = db.save_next("entity_3", &e3.to_payload())?;
    e3.set_key(&Key::Int(n));
    let n = db.save_next("entity_3", &e3.to_payload())?;
    e3.set_key(&Key::Int(n));
    let mut e4 = ChildEntity1 { id: (String::from_str("id0"), 0) };
    let n = db.save_next_child("child_entity_1", &e2.get_key(), &e4.to_payload())?;
    e4.set_key(&e2.get_key().child(n));
    let n = db.save_next_child("child_entity_1", &e2.get_key(), &e4.to_payload())?;
    e4.set_key(&e2.get_key().child(n));
    let n = db.save_next_child("child_entity_1", &e2.get_key(), &e4.to_payload())?;
    e4.set_key(&e2.get_key().child(n));
    let mut e4_2 = ChildEntity1 { id: (e4.id.0.clone(), e4.id.1) };
    let n = db.save_next_child("child_entity_1", &e2_2.get_key(), &e4_2.to_payload())?;
    e4_2.set_key(&e2_2.get_key().child(n));
    let mut e5 = ChildEntity2 { id: (0, 0) };
    let n = db.save_next_child("child_entity_2", &e3.get_key(), &e5.to_payload())?;
    e5.set_key(&e3.get_key().child(n));
    let n = db.save_next_child("child_entity_2", &e3.get_key(), &e5.to_payload())?;
    e5.set_key(&e3.get_key().child(n));
    db.create_relation(
        "child_entity_1",
        &e4.get_key(),
        "child_entity_2",
        &e5.get_key(),
        DeletionBehaviour::BreakLink,
        DeletionBehaviour::BreakLink,
        &Vec::new(),
    )?;
    let n = db.save_next_child("child_entity_2", &e3.get_key(), &e5.to_payload())?;
    e5.set_key(&e3.get_key().child(n));
    let mut grand_child = GrandChildEntity { id: ((String::from_str("id0"), 1), 0) };
    let n = db.save_next_child("grand_child_entity", &e4.get_key(), &grand_child.to_payload())?;
    grand_child.set_key(&e4.get_key().child(n));
    let n = db.save_next_child("grand_child_entity", &e4.get_key(), &grand_child.to_payload())?;
    grand_child.set_key(&e4.get_key().child(n));
    let n = db.save_next_child("grand_child_entity", &e4.get_key(), &grand_child.to_payload())?;
    grand_child.set_key(&e4.get_key().child(n));
    Ok(grand_child)
}

} // verus!
