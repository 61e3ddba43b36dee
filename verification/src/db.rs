//! The entity database: store registry, save and point lookup,
//! auto-increment allocation, relations, and the cascade engine.
//!
//! A `Db` owns one storage engine handle and the registry of store
//! descriptors. User stores live in the engine under their name
//! prefixed with one marker character, so the relation store's own
//! name can never collide with a user store's.

use crate::codec::{
    be4, be4_val, be4_vec, compose, enc_int, esc_bytes, has_prefix, key_enc,
    lemma_be4_val_roundtrip, lemma_esc_concat_inj, lemma_unesc_reconstruct, push_esc, read_be4,
    read_escaped, spec_unesc, string_from_utf8, Key,
};
use vstd::utf8::{encode_utf8, encode_utf8_decode_utf8};
use crate::errors::Error;
use crate::storage::{
    dels_applied, lemma_dels_applied_membership, lemma_dels_applied_other_store,
    lemma_dels_applied_pair, lemma_puts_applied_pair, lemma_puts_applied_singleton,
    lemma_puts_applied_two, puts_applied, store_at, DelOp, PutOp, Storage,
};
use vstd::prelude::*;
use vstd::string::StringExecFns;

verus! {

/// What a delete does to a linked record.
#[derive(Debug, Clone, Copy, PartialEq, Eq, Structural)]
pub enum DeletionBehaviour {
    /// Delete the linked record too.
    Cascade,
    /// Abort the whole delete if the linked record still exists.
    Error,
    /// Remove only the link; the linked record is untouched.
    BreakLink,
}

/// A sibling or child link: the linked store and what deleting a
/// record here does to the linked record(s) there.
#[derive(Debug, Clone)]
pub struct Link {
    pub target: String,
    pub behaviour: DeletionBehaviour,
}

/// Per-store metadata captured at registration.
#[derive(Debug, Clone)]
pub struct StoreDesc {
    pub name: String,
    pub siblings: Vec<Link>,
    pub children: Vec<Link>,
}

/// The entity database: one engine handle plus the registry.
pub struct Db {
    storage: Storage,
    descs: Vec<StoreDesc>,
}

/// The engine-side name of the user store called `name`.
pub open spec fn user_chars(name: Seq<char>) -> Seq<char> {
    seq!['u'] + name
}

/// The engine-side name of the relation store.
pub open spec fn rel_chars() -> Seq<char> {
    "r_relations"@
}

/// The engine-side name of the auto-increment counter store.
pub open spec fn counter_chars() -> Seq<char> {
    "c_counters"@
}

/// Engine names of two distinct user stores differ.
pub proof fn lemma_user_chars_inj(a: Seq<char>, b: Seq<char>)
    ensures
        (user_chars(a) == user_chars(b)) == (a == b),
{
    if user_chars(a) == user_chars(b) {
        assert(user_chars(a).skip(1) =~= a);
        assert(user_chars(b).skip(1) =~= b);
    }
    if a == b {
        assert(user_chars(a) =~= user_chars(b));
    }
}

/// No user store's engine name is the relation store's.
pub proof fn lemma_user_not_rel(a: Seq<char>)
    ensures
        user_chars(a) != rel_chars(),
{
    proof_strlits();
    assert(user_chars(a)[0] == 'u');
    assert(rel_chars()[0] == 'r');
}

/// The counter store's engine name is no user store's and not the
/// relation store's.
pub proof fn lemma_counter_distinct(a: Seq<char>)
    ensures
        user_chars(a) != counter_chars(),
        rel_chars() != counter_chars(),
{
    proof_strlits();
    assert(user_chars(a)[0] == 'u');
    assert(rel_chars()[0] == 'r');
    assert(counter_chars()[0] == 'c');
}

/// Makes the character contents of the name literals available.
proof fn proof_strlits()
    ensures
        "u"@ == seq!['u'],
        "r_relations"@.len() == 11,
        "r_relations"@[0] == 'r',
        "c_counters"@.len() == 10,
        "c_counters"@[0] == 'c',
{
    reveal_strlit("u");
    assert("u"@ =~= seq!['u']);
    reveal_strlit("r_relations");
    reveal_strlit("c_counters");
}

/// Builds the engine-side name of a user store.
fn user_store_name(store: &str) -> (r: String)
    ensures
        r@ == user_chars(store@),
{
    let mut s = "u".to_owned();
    s.append(store);
    proof {
        proof_strlits();
    }
    s
}

/// The scope key under which a store's (or a parent-scoped) counter
/// is held: the escaped store name followed by the escaped scope
/// prefix, so distinct scopes never share a counter.
pub open spec fn counter_key(store: Seq<char>, prefix: Seq<u8>) -> Seq<u8> {
    rel_prefix(store, prefix)
}

/// The next number the scope's counter will mint: zero for a scope
/// that never allocated, else the stored four-byte value; `None` when
/// the stored value is malformed.
pub open spec fn counter_next(m: Map<Seq<u8>, Seq<u8>>, ck: Seq<u8>) -> Option<u32> {
    if !m.contains_key(ck) {
        Some(0u32)
    } else if m[ck].len() == 4 {
        Some(be4_val(m[ck]))
    } else {
        None
    }
}

/// The allocator law: a fresh scope starts at zero, and advancing the
/// counter mints the successor — numbers are monotonic per scope and,
/// because nothing but allocation ever writes the counter store,
/// never reused, even after the records that carry them are deleted.
pub proof fn lemma_counter_advances(m: Map<Seq<u8>, Seq<u8>>, ck: Seq<u8>, n: u32)
    requires
        counter_next(m, ck) == Some(n),
        n < u32::MAX,
    ensures
        counter_next(m.insert(ck, be4((n + 1) as u32)), ck) == Some((n + 1) as u32),
{
    lemma_be4_val_roundtrip((n + 1) as u32);
}

/// A scope with no counter record mints zero first.
pub proof fn lemma_fresh_scope_starts_at_zero(m: Map<Seq<u8>, Seq<u8>>, ck: Seq<u8>)
    requires
        !m.contains_key(ck),
    ensures
        counter_next(m, ck) == Some(0u32),
{
}

/// A concatenation extends its own left part.
pub proof fn lemma_has_prefix_concat(p: Seq<u8>, x: Seq<u8>)
    ensures
        has_prefix(p + x, p),
{
    assert((p + x).subrange(0, p.len() as int) =~= p);
}

/// The byte form of a relation endpoint: the escaped store name
/// followed by the escaped encoded key. A relation record's key is
/// the deleting endpoint's prefix followed by the other endpoint's.
pub open spec fn rel_prefix(s: Seq<char>, k: Seq<u8>) -> Seq<u8> {
    esc_bytes(encode_utf8(s)) + esc_bytes(k)
}

/// The byte that stores a deletion behaviour in a relation record.
pub open spec fn beh_byte(b: DeletionBehaviour) -> u8 {
    match b {
        DeletionBehaviour::Cascade => 0,
        DeletionBehaviour::Error => 1,
        DeletionBehaviour::BreakLink => 2,
    }
}

/// A relation record's value: the behaviour applied when the first
/// endpoint is deleted, then the other direction's, then metadata.
pub open spec fn rel_value(b1: DeletionBehaviour, b2: DeletionBehaviour, meta: Seq<u8>) -> Seq<u8> {
    seq![beh_byte(b1), beh_byte(b2)] + meta
}

/// Equal relation keys under one endpoint name equal endpoints.
pub proof fn lemma_rel_prefix_inj(a: Seq<char>, b: Seq<u8>, c: Seq<char>, d: Seq<u8>)
    requires
        rel_prefix(a, b) == rel_prefix(c, d),
    ensures
        a == c,
        b == d,
{
    lemma_esc_concat_inj(encode_utf8(a), b, encode_utf8(c), d);
    encode_utf8_decode_utf8(a);
    encode_utf8_decode_utf8(c);
}

/// A `ReferentialIntegrity` error names a blocking record that
/// really exists: some record of the named store whose key extends
/// the named key bytes (the record itself, or a child under it).
pub open spec fn blames_live_record(db: Db, e: Error) -> bool {
    match e {
        Error::ReferentialIntegrity { store: bs, key: bk } => exists|ck: Seq<u8>|
            #[trigger] db.store_contents(bs@).contains_key(ck) && has_prefix(ck, bk@),
        _ => true,
    }
}

/// Stores the deletion behaviour as a byte.
fn beh_to_byte(b: DeletionBehaviour) -> (r: u8)
    ensures
        r == beh_byte(b),
{
    match b {
        DeletionBehaviour::Cascade => 0,
        DeletionBehaviour::Error => 1,
        DeletionBehaviour::BreakLink => 2,
    }
}

/// Reads a stored deletion behaviour back.
fn byte_to_beh(b: u8) -> (r: Option<DeletionBehaviour>)
    ensures
        r matches Some(beh) ==> beh_byte(beh) == b,
        r is None ==> b != 0 && b != 1 && b != 2,
{
    if b == 0 {
        Some(DeletionBehaviour::Cascade)
    } else if b == 1 {
        Some(DeletionBehaviour::Error)
    } else if b == 2 {
        Some(DeletionBehaviour::BreakLink)
    } else {
        None
    }
}

/// Builds the byte form of a relation endpoint.
fn rel_prefix_bytes(store: &str, kb: &[u8]) -> (r: Vec<u8>)
    ensures
        r@ == rel_prefix(store@, kb@),
{
    let mut out: Vec<u8> = Vec::new();
    push_esc(&mut out, store.as_bytes());
    push_esc(&mut out, kb);
    assert(out@ =~= rel_prefix(store@, kb@));
    out
}

/// Names one stored relation: the keys of its two index records.
pub struct RelationId {
    pub forward: Vec<u8>,
    pub reverse: Vec<u8>,
}

/// One relation as seen from one endpoint.
pub struct RelationEntry {
    /// The other endpoint's store.
    pub other_store: String,
    /// The other endpoint's encoded key.
    pub other_key: Vec<u8>,
    /// What deleting this endpoint does to the other.
    pub on_self_delete: DeletionBehaviour,
    /// What deleting the other endpoint does to this one.
    pub on_other_delete: DeletionBehaviour,
    /// Opaque metadata stored with the relation.
    pub metadata: Vec<u8>,
}

/// Copies a byte vector.
fn clone_bytes(v: &Vec<u8>) -> (r: Vec<u8>)
    ensures
        r@ == v@,
{
    let mut out: Vec<u8> = Vec::new();
    let mut i: usize = 0;
    while i < v.len()
        invariant
            i <= v@.len(),
            out@ == v@.take(i as int),
        decreases v@.len() - i,
    {
        out.push(v[i]);
        assert(out@ =~= v@.take(i + 1));
        i = i + 1;
    }
    assert(out@ =~= v@);
    out
}

/// Copies a value's bytes from `off` on.
fn tail_rel_bytes(v: &Vec<u8>, off: usize) -> (r: Vec<u8>)
    requires
        off <= v@.len(),
    ensures
        r@ == v@.skip(off as int),
{
    let mut out: Vec<u8> = Vec::new();
    let mut i: usize = off;
    while i < v.len()
        invariant
            off <= i <= v@.len(),
            out@ == v@.subrange(off as int, i as int),
        decreases v@.len() - i,
    {
        out.push(v[i]);
        assert(out@ =~= v@.subrange(off as int, i + 1));
        i = i + 1;
    }
    assert(out@ =~= v@.skip(off as int));
    out
}

/// Builds the engine-side name of the relation store.
fn rel_store_name() -> (r: String)
    ensures
        r@ == rel_chars(),
{
    "r_relations".to_owned()
}

/// Builds the engine-side name of the counter store.
fn counter_store_name() -> (r: String)
    ensures
        r@ == counter_chars(),
{
    "c_counters".to_owned()
}


/// One entity awaiting cascade expansion: user store name and
/// encoded key.
pub struct Target {
    pub store: String,
    pub key: Vec<u8>,
}

/// `dels` contains a removal of key `k` from the engine store `en`.
pub open spec fn listed(dels: Seq<DelOp>, en: Seq<char>, k: Seq<u8>) -> bool {
    exists|i: int| 0 <= i < dels.len() && (#[trigger] dels[i]).store@ == en && dels[i].key@ == k
}

/// The work list still holds the entity `(n, k)`.
pub open spec fn in_pending(p: Seq<Target>, n: Seq<char>, k: Seq<u8>) -> bool {
    exists|i: int| 0 <= i < p.len() && (#[trigger] p[i]).store@ == n && p[i].key@ == k
}

/// The entity `(n, k)` is already planned for removal or still
/// awaits expansion.
pub open spec fn reach(dels: Seq<DelOp>, p: Seq<Target>, n: Seq<char>, k: Seq<u8>) -> bool {
    listed(dels, user_chars(n), k) || in_pending(p, n, k)
}

/// The cascade obligations of one planned removal `(n, k)` are met:
/// its store is registered; every existing record a `Cascade`
/// sibling or child link or `Cascade` relation points at is planned
/// or pending; and every relation record touching `(n, k)` from its
/// side is planned for removal.
pub open spec fn cascade_expanded(
    db: Db,
    dels: Seq<DelOp>,
    p: Seq<Target>,
    n: Seq<char>,
    k: Seq<u8>,
) -> bool {
    &&& db.registered(n)
    &&& (forall|li: int|
        0 <= li < db.desc_of(n).siblings@.len() && (#[trigger] db.desc_of(
            n,
        ).siblings@[li]).behaviour == DeletionBehaviour::Cascade && db.store_contents(
            db.desc_of(n).siblings@[li].target@,
        ).contains_key(k) ==> reach(dels, p, db.desc_of(n).siblings@[li].target@, k))
    &&& (forall|li: int, ck: Seq<u8>|
        0 <= li < db.desc_of(n).children@.len() && (#[trigger] db.desc_of(
            n,
        ).children@[li]).behaviour == DeletionBehaviour::Cascade && (#[trigger] db.store_contents(
            db.desc_of(n).children@[li].target@,
        ).contains_key(ck)) && has_prefix(ck, k) ==> reach(
            dels,
            p,
            db.desc_of(n).children@[li].target@,
            ck,
        ))
    &&& (forall|rk: Seq<u8>|
        #[trigger] db.rel_contents().contains_key(rk) && has_prefix(rk, rel_prefix(n, k))
            ==> listed(dels, rel_chars(), rk))
    &&& (forall|os: Seq<char>, ok: Seq<u8>|
        #[trigger] db.rel_contents().contains_key(rel_prefix(n, k) + rel_prefix(os, ok))
            && db.rel_contents()[rel_prefix(n, k) + rel_prefix(os, ok)][0] == 0
            && db.store_contents(os).contains_key(ok) ==> reach(dels, p, os, ok))
    // a live Error link would have aborted the plan, so none exists
    &&& (forall|li: int|
        0 <= li < db.desc_of(n).siblings@.len() && (#[trigger] db.desc_of(
            n,
        ).siblings@[li]).behaviour == DeletionBehaviour::Error ==> !db.store_contents(
            db.desc_of(n).siblings@[li].target@,
        ).contains_key(k))
    &&& (forall|li: int, ck: Seq<u8>|
        0 <= li < db.desc_of(n).children@.len() && (#[trigger] db.desc_of(
            n,
        ).children@[li]).behaviour == DeletionBehaviour::Error && (#[trigger] db.store_contents(
            db.desc_of(n).children@[li].target@,
        ).contains_key(ck)) ==> !has_prefix(ck, k))
    &&& (forall|os: Seq<char>, ok: Seq<u8>|
        #[trigger] db.rel_contents().contains_key(rel_prefix(n, k) + rel_prefix(os, ok))
            && db.rel_contents()[rel_prefix(n, k) + rel_prefix(os, ok)][0] == 1 ==> !db
            .store_contents(os).contains_key(ok))
}

/// One direct cascade hop: `(n2, k2)` is an existing record that a
/// `Cascade` sibling, child, or relation link of `(n, k)` points at.
pub open spec fn cascade_step(
    db: Db,
    n: Seq<char>,
    k: Seq<u8>,
    n2: Seq<char>,
    k2: Seq<u8>,
) -> bool {
    ||| (exists|li: int|
        0 <= li < db.desc_of(n).siblings@.len() && (#[trigger] db.desc_of(
            n,
        ).siblings@[li]).behaviour == DeletionBehaviour::Cascade && db.desc_of(
            n,
        ).siblings@[li].target@ == n2 && k2 == k && db.store_contents(n2).contains_key(k2))
    ||| (exists|li: int|
        0 <= li < db.desc_of(n).children@.len() && (#[trigger] db.desc_of(
            n,
        ).children@[li]).behaviour == DeletionBehaviour::Cascade && db.desc_of(
            n,
        ).children@[li].target@ == n2 && has_prefix(k2, k) && db.store_contents(n2).contains_key(
            k2,
        ))
    ||| (db.rel_contents().contains_key(rel_prefix(n, k) + rel_prefix(n2, k2))
        && db.rel_contents()[rel_prefix(n, k) + rel_prefix(n2, k2)][0] == 0
        && db.store_contents(n2).contains_key(k2))
}

/// `(n, k)` lies within `j` cascade hops of the delete target.
pub open spec fn cascade_reach(
    db: Db,
    rn: Seq<char>,
    rk: Seq<u8>,
    n: Seq<char>,
    k: Seq<u8>,
    j: nat,
) -> bool
    decreases j,
{
    (n == rn && k == rk) || (j > 0 && exists|n1: Seq<char>, k1: Seq<u8>|
        cascade_reach(db, rn, rk, n1, k1, (j - 1) as nat) && #[trigger] cascade_step(
            db,
            n1,
            k1,
            n,
            k,
        ))
}

/// `(n, k)` lies in the cascade closure of the delete target.
pub open spec fn reaches(db: Db, rn: Seq<char>, rk: Seq<u8>, n: Seq<char>, k: Seq<u8>) -> bool {
    exists|j: nat| cascade_reach(db, rn, rk, n, k, j)
}

/// A relation-record removal justified by the removal of `(n, k)`:
/// the record is stored and touches `(n, k)` from its side, or it is
/// the reverse index record of one that does.
pub open spec fn rel_removal_for(db: Db, n: Seq<char>, k: Seq<u8>, rk: Seq<u8>) -> bool {
    (db.rel_contents().contains_key(rk) && has_prefix(rk, rel_prefix(n, k))) || exists|
        os: Seq<char>,
        ok: Seq<u8>,
    |
        #[trigger] db.rel_contents().contains_key(rel_prefix(n, k) + rel_prefix(os, ok)) && rk
            == rel_prefix(os, ok) + rel_prefix(n, k)
}

/// Extending the removal plan keeps everything it listed.
pub proof fn lemma_listed_extend(dels1: Seq<DelOp>, dels2: Seq<DelOp>)
    requires
        dels1.len() <= dels2.len(),
        forall|i: int| 0 <= i < dels1.len() ==> dels2[i] == #[trigger] dels1[i],
    ensures
        forall|en: Seq<char>, k: Seq<u8>| listed(dels1, en, k) ==> #[trigger] listed(dels2, en, k),
{
    assert forall|en: Seq<char>, k: Seq<u8>| listed(dels1, en, k) implies #[trigger] listed(
        dels2,
        en,
        k,
    ) by {
        let i = choose|i: int|
            0 <= i < dels1.len() && (#[trigger] dels1[i]).store@ == en && dels1[i].key@ == k;
        assert(dels2[i] == dels1[i]);
    }
}

/// Extending the work list keeps everything it held.
pub proof fn lemma_pending_extend(p1: Seq<Target>, p2: Seq<Target>)
    requires
        p1.len() <= p2.len(),
        forall|i: int| 0 <= i < p1.len() ==> p2[i] == #[trigger] p1[i],
    ensures
        forall|n: Seq<char>, k: Seq<u8>| in_pending(p1, n, k) ==> #[trigger] in_pending(p2, n, k),
{
    assert forall|n: Seq<char>, k: Seq<u8>| in_pending(p1, n, k) implies #[trigger] in_pending(
        p2,
        n,
        k,
    ) by {
        let i = choose|i: int|
            0 <= i < p1.len() && (#[trigger] p1[i]).store@ == n && p1[i].key@ == k;
        assert(p2[i] == p1[i]);
    }
}

/// Cascade obligations survive growing the plan and work list, and
/// popping a work-list entry that the plan has absorbed.
pub proof fn lemma_expanded_mono(
    db: Db,
    dels1: Seq<DelOp>,
    p1: Seq<Target>,
    dels2: Seq<DelOp>,
    p2: Seq<Target>,
    n: Seq<char>,
    k: Seq<u8>,
)
    requires
        cascade_expanded(db, dels1, p1, n, k),
        forall|en: Seq<char>, k2: Seq<u8>| listed(dels1, en, k2) ==> #[trigger] listed(
            dels2,
            en,
            k2,
        ),
        forall|t: Seq<char>, k2: Seq<u8>| #[trigger] in_pending(p1, t, k2) ==> listed(
            dels2,
            user_chars(t),
            k2,
        ) || in_pending(p2, t, k2),
    ensures
        cascade_expanded(db, dels2, p2, n, k),
{
    assert forall|t: Seq<char>, k2: Seq<u8>| #[trigger] reach(dels1, p1, t, k2) implies reach(
        dels2,
        p2,
        t,
        k2,
    ) by {
        if listed(dels1, user_chars(t), k2) {
            assert(listed(dels2, user_chars(t), k2));
        }
    }
}


/// A record in `pre` that `post` no longer holds.
pub open spec fn removed_from(pre: Db, post: Db, n: Seq<char>, k: Seq<u8>) -> bool {
    pre.store_contents(n).contains_key(k) && !post.store_contents(n).contains_key(k)
}

/// What a successful cascading delete of `(root_store, root_key)`
/// guarantees, over the database contents before and after the call.
pub open spec fn delete_post(pre: Db, post: Db, root_store: Seq<char>, root_key: Seq<u8>) -> bool {
    // the primary record is gone
    &&& !post.store_contents(root_store).contains_key(root_key)
    // only removals: no record was added or changed anywhere
    &&& (forall|n: Seq<char>, k: Seq<u8>|
        #[trigger] post.store_contents(n).contains_key(k) ==> pre.store_contents(n).contains_key(k)
            && post.store_contents(n)[k] == pre.store_contents(n)[k])
    &&& (forall|rk: Seq<u8>|
        #[trigger] post.rel_contents().contains_key(rk) ==> pre.rel_contents().contains_key(rk)
            && post.rel_contents()[rk] == pre.rel_contents()[rk])
    // every removed record's cascade obligations hold of the outcome
    &&& (forall|n: Seq<char>, k: Seq<u8>, li: int|
        #[trigger] removed_from(pre, post, n, k) && 0 <= li < pre.desc_of(n).siblings@.len()
            && (#[trigger] pre.desc_of(n).siblings@[li]).behaviour == DeletionBehaviour::Cascade
            ==> !post.store_contents(pre.desc_of(n).siblings@[li].target@).contains_key(k))
    &&& (forall|n: Seq<char>, k: Seq<u8>, li: int, ck: Seq<u8>|
        #[trigger] removed_from(pre, post, n, k) && 0 <= li < pre.desc_of(n).children@.len()
            && (#[trigger] pre.desc_of(n).children@[li]).behaviour == DeletionBehaviour::Cascade
            && (#[trigger] post.store_contents(pre.desc_of(n).children@[li].target@).contains_key(
            ck,
        )) ==> !has_prefix(ck, k))
    &&& (forall|n: Seq<char>, k: Seq<u8>, rk: Seq<u8>|
        #[trigger] removed_from(pre, post, n, k) && #[trigger] post.rel_contents().contains_key(rk)
            ==> !has_prefix(rk, rel_prefix(n, k)))
    &&& (forall|n: Seq<char>, k: Seq<u8>, os: Seq<char>, ok: Seq<u8>|
        #[trigger] removed_from(pre, post, n, k) && #[trigger] pre.rel_contents().contains_key(
            rel_prefix(n, k) + rel_prefix(os, ok),
        ) && pre.rel_contents()[rel_prefix(n, k) + rel_prefix(os, ok)][0] == 0 ==> !post
            .store_contents(os).contains_key(ok))
    // no removed record had a live Error link: one would have made
    // the whole delete fail with no mutation instead
    &&& (forall|n: Seq<char>, k: Seq<u8>, li: int|
        #[trigger] removed_from(pre, post, n, k) && 0 <= li < pre.desc_of(n).siblings@.len()
            && (#[trigger] pre.desc_of(n).siblings@[li]).behaviour == DeletionBehaviour::Error
            ==> !pre.store_contents(pre.desc_of(n).siblings@[li].target@).contains_key(k))
    &&& (forall|n: Seq<char>, k: Seq<u8>, li: int, ck: Seq<u8>|
        #[trigger] removed_from(pre, post, n, k) && 0 <= li < pre.desc_of(n).children@.len()
            && (#[trigger] pre.desc_of(n).children@[li]).behaviour == DeletionBehaviour::Error
            && (#[trigger] pre.store_contents(pre.desc_of(n).children@[li].target@).contains_key(
            ck,
        )) ==> !has_prefix(ck, k))
    &&& (forall|n: Seq<char>, k: Seq<u8>, os: Seq<char>, ok: Seq<u8>|
        #[trigger] removed_from(pre, post, n, k) && #[trigger] pre.rel_contents().contains_key(
            rel_prefix(n, k) + rel_prefix(os, ok),
        ) && pre.rel_contents()[rel_prefix(n, k) + rel_prefix(os, ok)][0] == 1 ==> !pre
            .store_contents(os).contains_key(ok))
    // and nothing else: every removed record lies in the cascade
    // closure of the target, and every removed relation record
    // belongs to a record in that closure
    &&& (forall|n: Seq<char>, k: Seq<u8>|
        #[trigger] removed_from(pre, post, n, k) ==> reaches(pre, root_store, root_key, n, k))
    &&& (forall|rk: Seq<u8>|
        #[trigger] pre.rel_contents().contains_key(rk) && !post.rel_contents().contains_key(rk)
            ==> exists|n: Seq<char>, k: Seq<u8>|
            #[trigger] reaches(pre, root_store, root_key, n, k) && rel_removal_for(pre, n, k, rk))
}

/// Whether the plan's work list already carries `(s, k)`.
fn visited_contains(visited: &Vec<Target>, s: &String, k: &Vec<u8>) -> (r: bool)
    ensures
        r == exists|i: int|
            0 <= i < visited@.len() && (#[trigger] visited@[i]).store@ == s@ && visited@[i].key@
                == k@,
{
    let mut i: usize = 0;
    while i < visited.len()
        invariant
            i <= visited@.len(),
            forall|j: int|
                0 <= j < i ==> !((#[trigger] visited@[j]).store@ == s@ && visited@[j].key@ == k@),
        decreases visited@.len() - i,
    {
        if visited[i].store == *s && visited[i].key == *k {
            proof {
                let a = visited@[i as int].key@;
                let b = k@;
                assert(a =~= b);
            }
            return true;
        }
        proof {
            if visited@[i as int].store@ == s@ && visited@[i as int].key@ == k@ {
                assert(visited@[i as int].key@ =~= k@);
                assert(false);
            }
        }
        i = i + 1;
    }
    false
}

impl Db {
    /// Parses the far endpoint out of a relation record key, from
    /// byte `start` on: the other store's name and encoded key.
    fn parse_rel_endpoint(&self, rk: &Vec<u8>, start: usize) -> (r: Result<(String, Vec<u8>), Error>)
        requires
            start <= rk@.len(),
        ensures
            r matches Ok(oe) ==> rk@.skip(start as int) == rel_prefix(oe.0@, oe.1@),
            r matches Err(e) ==> e is KeyEncodingError,
    {
        let (osb, mid) = match read_escaped(rk.as_slice(), start) {
            Some(x) => x,
            None => return Err(Error::KeyEncodingError),
        };
        let (okb, end) = match read_escaped(rk.as_slice(), mid) {
            Some(x) => x,
            None => return Err(Error::KeyEncodingError),
        };
        if end != rk.len() {
            return Err(Error::KeyEncodingError);
        }
        let os = string_from_utf8(osb)?;
        proof {
            let tail = rk@.skip(start as int);
            lemma_unesc_reconstruct(tail);
            let (r1, c1) = spec_unesc(tail)->Some_0;
            assert(tail.take(c1) == esc_bytes(r1));
            let tail2 = rk@.skip(mid as int);
            lemma_unesc_reconstruct(tail2);
            let (r2, c2) = spec_unesc(tail2)->Some_0;
            assert(tail2.take(c2) == esc_bytes(r2));
            assert(tail2 =~= tail.skip(c1));
            assert(c2 == rk@.len() - mid);
            assert(tail2.take(c2) =~= tail2);
            assert(tail =~= tail.take(c1) + tail.skip(c1));
            assert(tail == esc_bytes(encode_utf8(os@)) + esc_bytes(okb@));
        }
        Ok((os, okb))
    }

    /// Expands one planned removal: plans the record itself and every
    /// relation record touching it, aborts on a live `Error` link,
    /// and queues what `Cascade` links point at.
    #[verifier::loop_isolation(false)]
    #[verifier::rlimit(100)]
    fn expand_one(
        &self,
        s: &String,
        kb: &Vec<u8>,
        dels: &mut Vec<DelOp>,
        pending: &mut Vec<Target>,
    ) -> (r: Result<(), Error>)
        requires
            self.wf(),
        ensures
            r is Ok ==> old(dels)@.len() <= final(dels)@.len() && (forall|i: int|
                0 <= i < old(dels)@.len() ==> final(dels)@[i] == #[trigger] old(dels)@[i]),
            r is Ok ==> old(pending)@.len() <= final(pending)@.len() && (forall|i: int|
                0 <= i < old(pending)@.len() ==> final(pending)@[i] == #[trigger] old(pending)@[i]),
            r is Ok ==> forall|i: int|
                old(dels)@.len() <= i < final(dels)@.len() ==> ((#[trigger] final(dels)@[i]).store@
                    == rel_chars() && rel_removal_for(*self, s@, kb@, final(dels)@[i].key@) || (
                final(dels)@[i].store@ == user_chars(s@) && final(dels)@[i].key@ == kb@)),
            r is Ok ==> forall|i: int|
                old(pending)@.len() <= i < final(pending)@.len() ==> cascade_step(
                    *self,
                    s@,
                    kb@,
                    (#[trigger] final(pending)@[i]).store@,
                    final(pending)@[i].key@,
                ),
            r is Ok ==> cascade_expanded(*self, final(dels)@, final(pending)@, s@, kb@),
            r is Ok ==> listed(final(dels)@, user_chars(s@), kb@),
            r matches Err(e) ==> (e is NotRegistered || e is StorageEngineError
                || e is KeyEncodingError || e is ReferentialIntegrity),
            r matches Err(e) && e is NotRegistered ==> !self.registered(s@),
            r matches Err(e) ==> blames_live_record(*self, e),
    {
        let di = match self.find_desc(s) {
            Some(di) => di,
            None => return Err(Error::NotRegistered),
        };
        proof {
            let i = choose|i: int|
                0 <= i < self.descs@.len() && (#[trigger] self.descs@[i].name@) == s@;
            assert(self.desc_of(s@) == self.descs@[i]);
            assert(self.descs@[di as int].name@ == s@);
            if di as int != i {
                assert(false);
            }
        }
        dels.push(DelOp { store: user_store_name(s.as_str()), key: clone_bytes(kb) });
        proof {
            assert(dels@.last().store@ == user_chars(s@) && dels@.last().key@ == kb@);
            assert(listed(dels@, user_chars(s@), kb@));
        }
        let ghost dels0 = dels@;
        let ghost pend0 = pending@;
        let desc = &self.descs[di];

        // Sibling links share this record's key value.
        let mut li: usize = 0;
        while li < desc.siblings.len()
            invariant
                dels@ == dels0,
                pend0.len() <= pending@.len(),
                forall|i: int| 0 <= i < pend0.len() ==> pending@[i] == #[trigger] pend0[i],
                li <= desc.siblings@.len(),
                forall|j: int|
                    0 <= j < li && (#[trigger] desc.siblings@[j]).behaviour
                        == DeletionBehaviour::Cascade && self.store_contents(
                        desc.siblings@[j].target@,
                    ).contains_key(kb@) ==> reach(dels@, pending@, desc.siblings@[j].target@, kb@),
                forall|j: int|
                    0 <= j < li && (#[trigger] desc.siblings@[j]).behaviour
                        == DeletionBehaviour::Error ==> !self.store_contents(
                        desc.siblings@[j].target@,
                    ).contains_key(kb@),
                forall|i: int|
                    pend0.len() <= i < pending@.len() ==> cascade_step(
                        *self,
                        s@,
                        kb@,
                        (#[trigger] pending@[i]).store@,
                        pending@[i].key@,
                    ),
            decreases desc.siblings@.len() - li,
        {
            let ghost p_iter = pending@;
            let link = &desc.siblings[li];
            if link.behaviour == DeletionBehaviour::BreakLink {
                li = li + 1;
                continue;
            }
            let engine = user_store_name(link.target.as_str());
            let exists_r = match self.storage.get(engine.as_str(), kb.as_slice()) {
                Ok(o) => o.is_some(),
                Err(e) => return Err(e),
            };
            if exists_r {
                match link.behaviour {
                    DeletionBehaviour::Error => {
                        let bstore = link.target.clone();
                        let bkey = clone_bytes(kb);
                        proof {
                            assert(bstore@ == desc.siblings@[li as int].target@);
                            assert(bkey@ == kb@);
                            assert(kb@.subrange(0, kb@.len() as int) =~= kb@);
                            assert(has_prefix(kb@, kb@));
                            assert(self.store_contents(bstore@).contains_key(kb@));
                            assert(exists|ck: Seq<u8>|
                                #[trigger] self.store_contents(bstore@).contains_key(ck)
                                    && has_prefix(ck, bkey@));
                        }
                        let err = Error::ReferentialIntegrity { store: bstore, key: bkey };
                        proof {
                            assert(err matches Error::ReferentialIntegrity { store: bs, key: bk }
                                && bs@ == bstore@ && bk@ == bkey@);
                            assert(blames_live_record(*self, err));
                        }
                        return Err(err);
                    },
                    DeletionBehaviour::Cascade => {
                        pending.push(Target { store: link.target.clone(), key: clone_bytes(kb) });
                        proof {
                            let wi = pending@.len() - 1;
                            assert(pending@[wi].store@ == desc.siblings@[li as int].target@
                                && pending@[wi].key@ == kb@);
                            assert(in_pending(pending@, desc.siblings@[li as int].target@, kb@));
                            lemma_pending_extend(p_iter, pending@);
                            assert(cascade_step(
                                *self,
                                s@,
                                kb@,
                                desc.siblings@[li as int].target@,
                                kb@,
                            ));
                        }
                    },
                    DeletionBehaviour::BreakLink => {},
                }
            }
            li = li + 1;
        }
        let ghost dels1 = dels@;
        let ghost p1 = pending@;

        // Child links own every record whose key this key prefixes.
        let mut ci: usize = 0;
        while ci < desc.children.len()
            invariant
                dels@ == dels1,
                p1.len() <= pending@.len(),
                forall|i: int| 0 <= i < p1.len() ==> pending@[i] == #[trigger] p1[i],
                ci <= desc.children@.len(),
                forall|j: int, ck: Seq<u8>|
                    0 <= j < ci && (#[trigger] desc.children@[j]).behaviour
                        == DeletionBehaviour::Cascade && (#[trigger] self.store_contents(
                        desc.children@[j].target@,
                    ).contains_key(ck)) && has_prefix(ck, kb@) ==> reach(
                        dels@,
                        pending@,
                        desc.children@[j].target@,
                        ck,
                    ),
                forall|j: int, ck: Seq<u8>|
                    0 <= j < ci && (#[trigger] desc.children@[j]).behaviour
                        == DeletionBehaviour::Error && (#[trigger] self.store_contents(
                        desc.children@[j].target@,
                    ).contains_key(ck)) ==> !has_prefix(ck, kb@),
                forall|i: int|
                    pend0.len() <= i < pending@.len() ==> cascade_step(
                        *self,
                        s@,
                        kb@,
                        (#[trigger] pending@[i]).store@,
                        pending@[i].key@,
                    ),
            decreases desc.children@.len() - ci,
        {
            let link = &desc.children[ci];
            if link.behaviour == DeletionBehaviour::BreakLink {
                ci = ci + 1;
                continue;
            }
            let engine = user_store_name(link.target.as_str());
            let found = match self.storage.scan_prefix(engine.as_str(), kb.as_slice()) {
                Ok(v) => v,
                Err(e) => return Err(e),
            };
            if link.behaviour == DeletionBehaviour::Error {
                if found.len() > 0 {
                    let bstore = link.target.clone();
                    let bkey = clone_bytes(kb);
                    proof {
                        assert(bstore@ == desc.children@[ci as int].target@);
                        assert(self.store_contents(bstore@).contains_key(found@[0].0@)
                            && has_prefix(found@[0].0@, bkey@));
                        assert(exists|ck: Seq<u8>|
                            #[trigger] self.store_contents(bstore@).contains_key(ck)
                                && has_prefix(ck, bkey@));
                    }
                    let err = Error::ReferentialIntegrity { store: bstore, key: bkey };
                    proof {
                        assert(err matches Error::ReferentialIntegrity { store: bs, key: bk }
                            && bs@ == bstore@ && bk@ == bkey@);
                        assert(blames_live_record(*self, err));
                    }
                    return Err(err);
                }
                proof {
                    assert forall|ck: Seq<u8>|
                        (#[trigger] self.store_contents(
                            desc.children@[ci as int].target@,
                        ).contains_key(ck)) implies !has_prefix(ck, kb@) by {
                        if has_prefix(ck, kb@) {
                            let jj = choose|jj: int|
                                0 <= jj < found@.len() && (#[trigger] found@[jj]).0@ == ck;
                        }
                    }
                }
            } else {
                let mut fi: usize = 0;
                while fi < found.len()
                    invariant
                        fi <= found@.len(),
                        dels@ == dels1,
                        p1.len() <= pending@.len(),
                        forall|i: int| 0 <= i < p1.len() ==> pending@[i] == #[trigger] p1[i],
                        forall|j: int, ck: Seq<u8>|
                            0 <= j < ci && (#[trigger] desc.children@[j]).behaviour
                                == DeletionBehaviour::Cascade && (
                            #[trigger] self.store_contents(
                                desc.children@[j].target@,
                            ).contains_key(ck)) && has_prefix(ck, kb@) ==> reach(
                                dels@,
                                pending@,
                                desc.children@[j].target@,
                                ck,
                            ),
                        forall|jj: int|
                            0 <= jj < fi ==> in_pending(
                                pending@,
                                desc.children@[ci as int].target@,
                                (#[trigger] found@[jj]).0@,
                            ),
                        forall|i: int|
                            pend0.len() <= i < pending@.len() ==> cascade_step(
                                *self,
                                s@,
                                kb@,
                                (#[trigger] pending@[i]).store@,
                                pending@[i].key@,
                            ),
                    decreases found@.len() - fi,
                {
                    let ghost p_iter = pending@;
                    pending.push(Target { store: link.target.clone(), key: clone_bytes(&found[fi].0) });
                    proof {
                        let wi = pending@.len() - 1;
                        assert(pending@[wi].store@ == desc.children@[ci as int].target@
                            && pending@[wi].key@ == found@[fi as int].0@);
                        assert(in_pending(
                            pending@,
                            desc.children@[ci as int].target@,
                            found@[fi as int].0@,
                        ));
                        lemma_pending_extend(p_iter, pending@);
                        assert(cascade_step(
                            *self,
                            s@,
                            kb@,
                            desc.children@[ci as int].target@,
                            found@[fi as int].0@,
                        ));
                    }
                    fi = fi + 1;
                }
                proof {
                    assert forall|ck: Seq<u8>|
                        (#[trigger] self.store_contents(
                            desc.children@[ci as int].target@,
                        ).contains_key(ck)) && has_prefix(ck, kb@) implies reach(
                        dels@,
                        pending@,
                        desc.children@[ci as int].target@,
                        ck,
                    ) by {
                        let jj = choose|jj: int|
                            0 <= jj < found@.len() && (#[trigger] found@[jj]).0@ == ck;
                        assert(in_pending(pending@, desc.children@[ci as int].target@, ck));
                    }
                }
            }
            ci = ci + 1;
        }
        let ghost dels2 = dels@;
        let ghost p2 = pending@;

        // Relation records touching this record from its side.
        let pre = rel_prefix_bytes(s.as_str(), kb.as_slice());
        let rel_name = rel_store_name();
        let found = match self.storage.scan_prefix(rel_name.as_str(), pre.as_slice()) {
            Ok(v) => v,
            Err(e) => return Err(e),
        };
        let mut ri: usize = 0;
        while ri < found.len()
            invariant
                ri <= found@.len(),
                dels2.len() <= dels@.len(),
                forall|i: int| 0 <= i < dels2.len() ==> dels@[i] == #[trigger] dels2[i],
                forall|i: int|
                    dels2.len() <= i < dels@.len() ==> (#[trigger] dels@[i]).store@ == rel_chars()
                        && rel_removal_for(*self, s@, kb@, dels@[i].key@),
                p2.len() <= pending@.len(),
                forall|i: int| 0 <= i < p2.len() ==> pending@[i] == #[trigger] p2[i],
                forall|jj: int|
                    0 <= jj < ri ==> listed(dels@, rel_chars(), (#[trigger] found@[jj]).0@),
                forall|jj: int, os: Seq<char>, ok: Seq<u8>|
                    #![trigger found@[jj].0@, rel_prefix(os, ok)]
                    0 <= jj < ri && found@[jj].0@ == rel_prefix(s@, kb@) + rel_prefix(os, ok)
                        && found@[jj].1@[0] == 0 && self.store_contents(os).contains_key(ok)
                        ==> reach(dels@, pending@, os, ok),
                forall|jj: int, os: Seq<char>, ok: Seq<u8>|
                    #![trigger found@[jj].0@, rel_prefix(os, ok)]
                    0 <= jj < ri && found@[jj].0@ == rel_prefix(s@, kb@) + rel_prefix(os, ok)
                        && found@[jj].1@[0] == 1 ==> !self.store_contents(os).contains_key(ok),
                forall|i: int|
                    pend0.len() <= i < pending@.len() ==> cascade_step(
                        *self,
                        s@,
                        kb@,
                        (#[trigger] pending@[i]).store@,
                        pending@[i].key@,
                    ),
            decreases found@.len() - ri,
        {
            let ghost dels_iter = dels@;
            let ghost p_iter = pending@;
            let rk = clone_bytes(&found[ri].0);
            proof {
                assert(has_prefix(rk@, pre@));
            }
            let (os, okb) = match self.parse_rel_endpoint(&rk, pre.len()) {
                Ok(x) => x,
                Err(e) => return Err(e),
            };
            dels.push(DelOp { store: rel_store_name(), key: clone_bytes(&rk) });
            let mut rev = rel_prefix_bytes(os.as_str(), okb.as_slice());
            let mut pre2 = clone_bytes(&pre);
            rev.append(&mut pre2);
            let ghost rev_view = rev@;
            dels.push(DelOp { store: rel_store_name(), key: rev });
            proof {
                assert(dels@[dels_iter.len() as int].store@ == rel_chars());
                assert(dels@[dels_iter.len() as int].key@ == rk@);
                assert(listed(dels@, rel_chars(), rk@));
                lemma_listed_extend(dels_iter, dels@);
                assert(rel_removal_for(*self, s@, kb@, rk@));
                assert(rk@.subrange(0, pre@.len() as int) == pre@);
                assert(rk@ =~= pre@ + rk@.skip(pre@.len() as int));
                assert(self.rel_contents().contains_key(
                    rel_prefix(s@, kb@) + rel_prefix(os@, okb@),
                ));
                assert(rev_view == rel_prefix(os@, okb@) + rel_prefix(s@, kb@));
                assert(rel_removal_for(*self, s@, kb@, rev_view));
            }
            let value = &found[ri].1;
            if value.len() == 0 {
                return Err(Error::KeyEncodingError);
            }
            let beh = match byte_to_beh(value[0]) {
                Some(b) => b,
                None => return Err(Error::KeyEncodingError),
            };
            let other_engine = user_store_name(os.as_str());
            let other_exists = match self.storage.get(other_engine.as_str(), okb.as_slice()) {
                Ok(o) => o.is_some(),
                Err(e) => return Err(e),
            };
            match beh {
                DeletionBehaviour::Error => {
                    if other_exists {
                        let bstore = os.clone();
                        let bkey = clone_bytes(&okb);
                        proof {
                            assert(bstore@ == os@ && bkey@ == okb@);
                            assert(okb@.subrange(0, okb@.len() as int) =~= okb@);
                            assert(has_prefix(okb@, okb@));
                            assert(self.store_contents(bstore@).contains_key(okb@));
                            assert(exists|ck: Seq<u8>|
                                #[trigger] self.store_contents(bstore@).contains_key(ck)
                                    && has_prefix(ck, bkey@));
                        }
                        let err = Error::ReferentialIntegrity { store: bstore, key: bkey };
                        proof {
                            assert(err matches Error::ReferentialIntegrity { store: bs, key: bk }
                                && bs@ == bstore@ && bk@ == bkey@);
                            assert(blames_live_record(*self, err));
                        }
                        return Err(err);
                    }
                },
                DeletionBehaviour::Cascade => {
                    if other_exists {
                        pending.push(Target { store: os.clone(), key: clone_bytes(&okb) });
                        proof {
                            let wi = pending@.len() - 1;
                            assert(pending@[wi].store@ == os@ && pending@[wi].key@ == okb@);
                            assert(in_pending(pending@, os@, okb@));
                            lemma_pending_extend(p_iter, pending@);
                            assert(rk@.subrange(0, pre@.len() as int) == pre@);
                            assert(rk@ =~= pre@ + rk@.skip(pre@.len() as int));
                            assert(self.rel_contents().contains_key(
                                rel_prefix(s@, kb@) + rel_prefix(os@, okb@),
                            ));
                            assert(self.rel_contents()[rel_prefix(s@, kb@) + rel_prefix(os@, okb@)]
                                == value@);
                            assert(cascade_step(*self, s@, kb@, os@, okb@));
                        }
                    }
                },
                DeletionBehaviour::BreakLink => {},
            }
            proof {
                let ghost prefix_full = rel_prefix(s@, kb@);
                assert(rk@.subrange(0, pre@.len() as int) == pre@);
                assert(rk@ =~= pre@ + rk@.skip(pre@.len() as int));
                assert forall|jj: int, os2: Seq<char>, ok2: Seq<u8>|
                    #![trigger found@[jj].0@, rel_prefix(os2, ok2)]
                    0 <= jj < ri + 1 && found@[jj].0@ == prefix_full + rel_prefix(os2, ok2)
                        && found@[jj].1@[0] == 0 && self.store_contents(os2).contains_key(ok2)
                        implies reach(dels@, pending@, os2, ok2) by {
                    if jj == ri {
                        assert(rk@ == prefix_full + rel_prefix(os2, ok2));
                        assert((prefix_full + rel_prefix(os2, ok2)).skip(prefix_full.len() as int)
                            =~= rel_prefix(os2, ok2));
                        assert(rk@.skip(pre@.len() as int) == rel_prefix(os2, ok2));
                        lemma_rel_prefix_inj(os2, ok2, os@, okb@);
                        assert(value@[0] == 0);
                        assert(beh_byte(beh) == 0);
                        assert(beh == DeletionBehaviour::Cascade);
                        assert(in_pending(pending@, os@, okb@));
                    }
                }
                assert forall|jj: int, os2: Seq<char>, ok2: Seq<u8>|
                    #![trigger found@[jj].0@, rel_prefix(os2, ok2)]
                    0 <= jj < ri + 1 && found@[jj].0@ == prefix_full + rel_prefix(os2, ok2)
                        && found@[jj].1@[0] == 1 implies !self.store_contents(os2).contains_key(
                    ok2,
                ) by {
                    if jj == ri {
                        assert(rk@ == prefix_full + rel_prefix(os2, ok2));
                        assert((prefix_full + rel_prefix(os2, ok2)).skip(prefix_full.len() as int)
                            =~= rel_prefix(os2, ok2));
                        assert(rk@.skip(pre@.len() as int) == rel_prefix(os2, ok2));
                        lemma_rel_prefix_inj(os2, ok2, os@, okb@);
                        assert(value@[0] == 1);
                        assert(beh_byte(beh) == 1);
                        assert(beh == DeletionBehaviour::Error);
                        assert(!other_exists);
                    }
                }
                assert forall|jj: int| 0 <= jj < ri + 1 implies listed(
                    dels@,
                    rel_chars(),
                    (#[trigger] found@[jj]).0@,
                ) by {
                    if jj < ri {
                        assert(listed(dels_iter, rel_chars(), found@[jj].0@));
                    }
                }
            }
            ri = ri + 1;
        }
        proof {
            lemma_listed_extend(dels1, dels@);
            lemma_listed_extend(dels2, dels@);
            lemma_pending_extend(p1, pending@);
            lemma_pending_extend(p2, pending@);
            assert(self.registered(s@));
            // relation completeness: every relation record with our
            // prefix was scanned, so it is planned for removal
            assert forall|rk2: Seq<u8>|
                #[trigger] self.rel_contents().contains_key(rk2) && has_prefix(
                    rk2,
                    rel_prefix(s@, kb@),
                ) implies listed(dels@, rel_chars(), rk2) by {
                let jj = choose|jj: int|
                    0 <= jj < found@.len() && (#[trigger] found@[jj]).0@ == rk2;
            }
            assert forall|os2: Seq<char>, ok2: Seq<u8>|
                #[trigger] self.rel_contents().contains_key(
                    rel_prefix(s@, kb@) + rel_prefix(os2, ok2),
                ) && self.rel_contents()[rel_prefix(s@, kb@) + rel_prefix(os2, ok2)][0] == 0
                    && self.store_contents(os2).contains_key(ok2) implies reach(
                dels@,
                pending@,
                os2,
                ok2,
            ) by {
                let key2 = rel_prefix(s@, kb@) + rel_prefix(os2, ok2);
                lemma_has_prefix_concat(rel_prefix(s@, kb@), rel_prefix(os2, ok2));
                let jj = choose|jj: int|
                    0 <= jj < found@.len() && (#[trigger] found@[jj]).0@ == key2;
                assert(found@[jj].1@ == self.rel_contents()[key2]);
            }
            assert forall|os2: Seq<char>, ok2: Seq<u8>|
                #[trigger] self.rel_contents().contains_key(
                    rel_prefix(s@, kb@) + rel_prefix(os2, ok2),
                ) && self.rel_contents()[rel_prefix(s@, kb@) + rel_prefix(os2, ok2)][0] == 1
                    implies !self.store_contents(os2).contains_key(ok2) by {
                let key2 = rel_prefix(s@, kb@) + rel_prefix(os2, ok2);
                lemma_has_prefix_concat(rel_prefix(s@, kb@), rel_prefix(os2, ok2));
                let jj = choose|jj: int|
                    0 <= jj < found@.len() && (#[trigger] found@[jj]).0@ == key2;
                assert(found@[jj].1@ == self.rel_contents()[key2]);
            }
            assert(cascade_expanded(*self, dels@, pending@, s@, kb@));
            assert(dels1 == dels0 && dels2 == dels0);
            assert(old(dels)@.len() < dels0.len());
            assert forall|i: int| 0 <= i < old(dels)@.len() implies dels@[i] == #[trigger] old(
                dels,
            )@[i] by {
                assert(dels0[i] == old(dels)@[i]);
                assert(dels@[i] == dels2[i]);
            }
            assert forall|i: int|
                old(dels)@.len() <= i < dels@.len() implies ((#[trigger] dels@[i]).store@
                    == rel_chars() && rel_removal_for(*self, s@, kb@, dels@[i].key@) || (
                dels@[i].store@ == user_chars(s@) && dels@[i].key@ == kb@)) by {
                if i < dels0.len() {
                    assert(dels@[i] == dels2[i]);
                    assert(dels0[i].store@ == user_chars(s@) && dels0[i].key@ == kb@);
                }
            }
            assert(pend0 == old(pending)@);
            assert forall|i: int| 0 <= i < old(pending)@.len() implies pending@[i] == #[trigger] old(
                pending,
            )@[i] by {
                assert(p1[i] == pend0[i]);
                assert(p2[i] == p1[i]);
                assert(pending@[i] == p2[i]);
            }
            assert(listed(dels0, user_chars(s@), kb@));
            lemma_listed_extend(dels0, dels@);
        }
        Ok(())
    }

}

/// With unique names, looking a name up in the registry finds the
/// entry that carries it.
proof fn lemma_desc_of_index(db: Db, i: int)
    requires
        db.wf(),
        0 <= i < db.registry().len(),
    ensures
        db.desc_of(db.registry()[i].name@) == db.registry()[i],
        db.registered(db.registry()[i].name@),
{
    let n = db.registry()[i].name@;
    assert(db.registry()[i].name@ == n);
    let j = choose|j: int|
        0 <= j < db.registry().len() && (#[trigger] db.registry()[j].name@) == n;
    if i != j {
        assert(db.registry()[i].name@ != db.registry()[j].name@ || db.registry()[j].name@
            != db.registry()[i].name@);
    }
}

impl Db {
    /// Store names in the registry are unique.
    pub closed spec fn wf(&self) -> bool {
        forall|i: int, j: int|
            0 <= i < j < self.descs@.len() ==> (#[trigger] self.descs@[i].name@)
                != (#[trigger] self.descs@[j].name@)
    }

    /// The records of the user store called `name`: encoded key to
    /// payload bytes.
    pub closed spec fn store_contents(&self, name: Seq<char>) -> Map<Seq<u8>, Seq<u8>> {
        store_at(self.storage, user_chars(name))
    }

    /// The relation records, from both endpoints.
    pub closed spec fn rel_contents(&self) -> Map<Seq<u8>, Seq<u8>> {
        store_at(self.storage, rel_chars())
    }

    /// The auto-increment counters, keyed by scope.
    pub closed spec fn counter_contents(&self) -> Map<Seq<u8>, Seq<u8>> {
        store_at(self.storage, counter_chars())
    }

    /// A store called `name` has been registered.
    pub closed spec fn registered(&self, name: Seq<char>) -> bool {
        exists|i: int| 0 <= i < self.descs@.len() && (#[trigger] self.descs@[i].name@) == name
    }

    /// The registry's descriptors, in registration order.
    pub closed spec fn registry(&self) -> Seq<StoreDesc> {
        self.descs@
    }

    /// The descriptor registered under `name`.
    pub closed spec fn desc_of(&self, name: Seq<char>) -> StoreDesc {
        self.descs@[choose|i: int|
            0 <= i < self.descs@.len() && (#[trigger] self.descs@[i].name@) == name]
    }

    /// Every store of the database is empty, counters included.
    pub open spec fn all_empty(&self) -> bool {
        (forall|n: Seq<char>|
            #[trigger] self.store_contents(n) =~= Map::<Seq<u8>, Seq<u8>>::empty())
            && self.rel_contents() =~= Map::<Seq<u8>, Seq<u8>>::empty()
            && self.counter_contents() =~= Map::<Seq<u8>, Seq<u8>>::empty()
    }

    /// Opens a fresh, empty database backed by a temporary directory
    /// that the engine removes again on drop.
    pub fn open_temporary() -> (r: Result<Db, Error>)
        ensures
            r matches Ok(db) ==> db.wf() && db.registry().len() == 0 && db.all_empty(),
    {
        let storage = Storage::open_temporary()?;
        Ok(Db { storage, descs: Vec::new() })
    }

    /// Opens (creating on first use) the database persisted at `path`.
    /// Its stores hold whatever the directory holds; every store must
    /// be registered again before use.
    pub fn open(path: &str) -> (r: Result<Db, Error>)
        ensures
            r matches Ok(db) ==> db.wf() && db.registry().len() == 0,
    {
        let storage = Storage::open(path)?;
        Ok(Db { storage, descs: Vec::new() })
    }

    /// The position of `store`'s descriptor in the registry.
    fn find_desc(&self, store: &String) -> (r: Option<usize>)
        ensures
            r matches Some(i) ==> i < self.descs@.len() && self.descs@[i as int].name@ == store@,
            r is None ==> !self.registered(store@),
            r is Some <==> self.registered(store@),
    {
        let mut i: usize = 0;
        while i < self.descs.len()
            invariant
                i <= self.descs@.len(),
                forall|j: int| 0 <= j < i ==> (#[trigger] self.descs@[j].name@) != store@,
            decreases self.descs@.len() - i,
        {
            if self.descs[i].name == *store {
                return Some(i);
            }
            i = i + 1;
        }
        None
    }

    /// Installs a store: records its descriptor for the cascade
    /// engine. Idempotent — registering a name again is a no-op that
    /// keeps the registry entry and every record of every store.
    pub fn register(&mut self, desc: StoreDesc) -> (r: Result<(), Error>)
        requires
            old(self).wf(),
        ensures
            r is Ok,
            final(self).wf(),
            final(self).registered(desc.name@),
            final(self).unchanged_from(*old(self)),
            old(self).registered(desc.name@) ==> final(self).registry() == old(self).registry(),
            !old(self).registered(desc.name@) ==> final(self).registry() == old(
                self,
            ).registry().push(desc),
            forall|n: Seq<char>| old(self).registered(n) ==> final(self).registered(n),
            forall|n: Seq<char>|
                old(self).registered(n) ==> final(self).desc_of(n) == old(self).desc_of(n),
            !old(self).registered(desc.name@) ==> final(self).desc_of(desc.name@) == desc,
    {
        let name = desc.name.clone();
        match self.find_desc(&name) {
            Some(_) => Ok(()),
            None => {
                let ghost prev = self.descs@;
                self.descs.push(desc);
                proof {
                    assert(self.descs@ == prev.push(desc));
                    assert(self.descs@[prev.len() as int].name@ == desc.name@);
                    assert forall|i: int, j: int| 0 <= i < j < self.descs@.len() implies (
                    #[trigger] self.descs@[i].name@) != (#[trigger] self.descs@[j].name@) by {
                        if j < prev.len() {
                            assert(old(self).descs@[i].name@ != old(self).descs@[j].name@);
                        } else {
                            assert(self.descs@[j].name@ == desc.name@);
                            assert(!old(self).registered(desc.name@));
                            assert(self.descs@[i] == old(self).descs@[i]);
                        }
                    }
                    assert forall|n: Seq<char>| old(self).registered(n) implies self.registered(
                        n,
                    ) && self.desc_of(n) == old(self).desc_of(n) by {
                        let i = choose|i: int|
                            0 <= i < old(self).descs@.len() && (#[trigger] old(
                                self,
                            ).descs@[i].name@) == n;
                        assert(self.descs@[i] == old(self).descs@[i]);
                        lemma_desc_of_index(*self, i);
                        lemma_desc_of_index(*old(self), i);
                    }
                    lemma_desc_of_index(*self, prev.len() as int);
                }
                Ok(())
            },
        }
    }

    /// Writes one record through the engine, naming the user store.
    fn put_record(&mut self, store: &str, kb: Vec<u8>, payload: &Vec<u8>) -> (r: Result<
        (),
        Error,
    >)
        requires
            old(self).wf(),
        ensures
            final(self).wf(),
            final(self).registry() == old(self).registry(),
            r matches Err(e) ==> e is StorageEngineError,
            r is Err ==> final(self).unchanged_from(*old(self)),
            r is Ok ==> final(self).store_contents(store@) =~= old(self).store_contents(
                store@,
            ).insert(kb@, payload@),
            r is Ok ==> forall|n: Seq<char>|
                n != store@ ==> #[trigger] final(self).store_contents(n) =~= old(
                    self,
                ).store_contents(n),
            r is Ok ==> final(self).rel_contents() =~= old(self).rel_contents(),
            r is Ok ==> final(self).counter_contents() =~= old(self).counter_contents(),
    {
        let engine = user_store_name(store);
        let ghost kbv = kb@;
        let mut puts: Vec<PutOp> = Vec::new();
        puts.push(PutOp { store: engine, key: kb, value: clone_bytes(payload) });
        let r = self.storage.put_many(&puts);
        proof {
            let ops = puts@;
            assert(ops.len() == 1);
            assert(ops.last().store@ == user_chars(store@));
            assert(ops.last().key@ == kbv);
            assert(ops.last().value@ == payload@);
            if r is Ok {
                let en = user_chars(store@);
                lemma_puts_applied_singleton(old(self).store_contents(store@), en, ops);
                assert(self.store_contents(store@) =~= old(self).store_contents(store@).insert(
                    kbv,
                    payload@,
                ));
                assert forall|n: Seq<char>| n != store@ implies #[trigger] self.store_contents(n)
                    =~= old(self).store_contents(n) by {
                    lemma_user_chars_inj(n, store@);
                    lemma_puts_applied_singleton(old(self).store_contents(n), user_chars(n), ops);
                }
                lemma_user_not_rel(store@);
                lemma_puts_applied_singleton(old(self).rel_contents(), rel_chars(), ops);
                assert(self.rel_contents() =~= old(self).rel_contents());
                lemma_counter_distinct(store@);
                lemma_puts_applied_singleton(old(self).counter_contents(), counter_chars(), ops);
                assert(self.counter_contents() =~= old(self).counter_contents());
            } else {
                assert(self.unchanged_from(*old(self)));
            }
        }
        match r {
            Ok(()) => Ok(()),
            Err(_) => Err(Error::StorageEngineError),
        }
    }

    /// Upserts the record at `key` in `store`.
    pub fn save(&mut self, store: &str, key: &Key, payload: &Vec<u8>) -> (r: Result<(), Error>)
        requires
            old(self).wf(),
        ensures
            final(self).wf(),
            final(self).registry() == old(self).registry(),
            !old(self).registered(store@) ==> r == Err::<(), Error>(Error::NotRegistered),
            old(self).registered(store@) ==> (r matches Err(e) ==> e is StorageEngineError),
            r is Err ==> final(self).unchanged_from(*old(self)),
            r is Ok ==> final(self).store_contents(store@) =~= old(self).store_contents(
                store@,
            ).insert(key_enc(*key), payload@),
            r is Ok ==> forall|n: Seq<char>|
                n != store@ ==> #[trigger] final(self).store_contents(n) =~= old(
                    self,
                ).store_contents(n),
            r is Ok ==> final(self).rel_contents() =~= old(self).rel_contents(),
            r is Ok ==> final(self).counter_contents() =~= old(self).counter_contents(),
    {
        let store_string = store.to_owned();
        if self.find_desc(&store_string).is_none() {
            return Err(Error::NotRegistered);
        }
        let kb = key.encode();
        self.put_record(store, kb, payload)
    }

    /// Saves under the next auto-increment number of the store's own
    /// scope. The scope's counter record and the new record are
    /// written in one atomic commit, so numbers are handed out once:
    /// monotonic per scope and never reused, even after deletion.
    /// Fails with `KeyEncodingError` when the stored counter is
    /// malformed and with `StorageEngineError` when the number space
    /// is exhausted.
    pub fn save_next(&mut self, store: &str, payload: &Vec<u8>) -> (r: Result<u32, Error>)
        requires
            old(self).wf(),
        ensures
            final(self).wf(),
            final(self).registry() == old(self).registry(),
            !old(self).registered(store@) ==> r == Err::<u32, Error>(Error::NotRegistered),
            old(self).registered(store@) ==> (r matches Err(e) ==> e is StorageEngineError
                || e is KeyEncodingError),
            r matches Err(e) && e is KeyEncodingError ==> counter_next(
                old(self).counter_contents(),
                counter_key(store@, Seq::<u8>::empty()),
            ) is None,
            r is Err ==> final(self).unchanged_from(*old(self)),
            r matches Ok(n) ==> counter_next(
                old(self).counter_contents(),
                counter_key(store@, Seq::<u8>::empty()),
            ) == Some(n) && n < u32::MAX,
            r matches Ok(n) ==> final(self).counter_contents() =~= old(
                self,
            ).counter_contents().insert(
                counter_key(store@, Seq::<u8>::empty()),
                be4((n + 1) as u32),
            ),
            r matches Ok(n) ==> final(self).store_contents(store@) =~= old(self).store_contents(
                store@,
            ).insert(key_enc(Key::Int(n)), payload@),
            r matches Ok(n) ==> forall|m: Seq<char>|
                m != store@ ==> #[trigger] final(self).store_contents(m) =~= old(
                    self,
                ).store_contents(m),
            r is Ok ==> final(self).rel_contents() =~= old(self).rel_contents(),
    {
        let store_string = store.to_owned();
        if self.find_desc(&store_string).is_none() {
            return Err(Error::NotRegistered);
        }
        let prefix: Vec<u8> = Vec::new();
        let r = self.alloc_and_put(store, &prefix, payload);
        proof {
            if r is Ok {
                let n = r->Ok_0;
                assert(Seq::<u8>::empty() + enc_int(n) =~= enc_int(n));
                assert(key_enc(Key::Int(n)) == enc_int(n));
            }
        }
        r
    }

    /// Saves under the next auto-increment number scoped to `parent`:
    /// the child's key is the parent's key paired with a local number
    /// that starts at zero per distinct parent, so the record lands at
    /// `key_enc(*parent) + enc_int(n)`, the encoding of
    /// `Key::Child(parent, n)`. Counter update and record write are
    /// one atomic commit; numbers are never reused.
    pub fn save_next_child(&mut self, store: &str, parent: &Key, payload: &Vec<u8>) -> (r: Result<
        u32,
        Error,
    >)
        requires
            old(self).wf(),
        ensures
            final(self).wf(),
            final(self).registry() == old(self).registry(),
            !old(self).registered(store@) ==> r == Err::<u32, Error>(Error::NotRegistered),
            old(self).registered(store@) ==> (r matches Err(e) ==> e is StorageEngineError
                || e is KeyEncodingError),
            r matches Err(e) && e is KeyEncodingError ==> counter_next(
                old(self).counter_contents(),
                counter_key(store@, key_enc(*parent)),
            ) is None,
            r is Err ==> final(self).unchanged_from(*old(self)),
            r matches Ok(n) ==> counter_next(
                old(self).counter_contents(),
                counter_key(store@, key_enc(*parent)),
            ) == Some(n) && n < u32::MAX,
            r matches Ok(n) ==> final(self).counter_contents() =~= old(
                self,
            ).counter_contents().insert(counter_key(store@, key_enc(*parent)), be4((n + 1) as u32)),
            r matches Ok(n) ==> final(self).store_contents(store@) =~= old(self).store_contents(
                store@,
            ).insert(key_enc(*parent) + enc_int(n), payload@),
            r matches Ok(n) ==> forall|m: Seq<char>|
                m != store@ ==> #[trigger] final(self).store_contents(m) =~= old(
                    self,
                ).store_contents(m),
            r is Ok ==> final(self).rel_contents() =~= old(self).rel_contents(),
    {
        let store_string = store.to_owned();
        if self.find_desc(&store_string).is_none() {
            return Err(Error::NotRegistered);
        }
        let prefix = parent.encode();
        self.alloc_and_put(store, &prefix, payload)
    }

    /// Mints the next number of the scope of `store` under `prefix`
    /// and writes the record at `prefix + enc_int(n)`, committing the
    /// advanced counter and the record atomically.
    fn alloc_and_put(&mut self, store: &str, prefix: &Vec<u8>, payload: &Vec<u8>) -> (r: Result<
        u32,
        Error,
    >)
        requires
            old(self).wf(),
        ensures
            final(self).wf(),
            final(self).registry() == old(self).registry(),
            r matches Err(e) ==> (e is StorageEngineError || e is KeyEncodingError),
            r matches Err(e) && e is KeyEncodingError ==> counter_next(
                old(self).counter_contents(),
                counter_key(store@, prefix@),
            ) is None,
            r is Err ==> final(self).unchanged_from(*old(self)),
            r matches Ok(n) ==> counter_next(
                old(self).counter_contents(),
                counter_key(store@, prefix@),
            ) == Some(n) && n < u32::MAX,
            r matches Ok(n) ==> final(self).counter_contents() =~= old(
                self,
            ).counter_contents().insert(counter_key(store@, prefix@), be4((n + 1) as u32)),
            r matches Ok(n) ==> final(self).store_contents(store@) =~= old(self).store_contents(
                store@,
            ).insert(prefix@ + enc_int(n), payload@),
            r matches Ok(n) ==> forall|m: Seq<char>|
                m != store@ ==> #[trigger] final(self).store_contents(m) =~= old(
                    self,
                ).store_contents(m),
            r is Ok ==> final(self).rel_contents() =~= old(self).rel_contents(),
    {
        let ckb = rel_prefix_bytes(store, prefix.as_slice());
        let counter_name = counter_store_name();
        let cur: u32 = match self.storage.get(counter_name.as_str(), ckb.as_slice()) {
            Ok(Some(v)) => {
                if v.len() != 4 {
                    return Err(Error::KeyEncodingError);
                }
                read_be4(&v)
            },
            Ok(None) => 0,
            Err(e) => return Err(e),
        };
        if cur == u32::MAX {
            return Err(Error::StorageEngineError);
        }
        let kb = compose(prefix.as_slice(), cur);
        let engine = user_store_name(store);
        let mut puts: Vec<PutOp> = Vec::new();
        puts.push(PutOp { store: counter_name, key: ckb, value: be4_vec(cur + 1) });
        puts.push(PutOp { store: engine, key: kb, value: clone_bytes(payload) });
        let r = self.storage.put_many(&puts);
        proof {
            let ops = puts@;
            assert(ops.len() == 2);
            assert(ops[0].store@ == counter_chars());
            assert(ops[0].key@ == counter_key(store@, prefix@));
            assert(ops[0].value@ == be4((cur + 1) as u32));
            assert(ops[1].store@ == user_chars(store@));
            assert(ops[1].key@ == prefix@ + enc_int(cur));
            assert(ops[1].value@ == payload@);
            lemma_counter_distinct(store@);
            if r is Ok {
                lemma_puts_applied_two(old(self).counter_contents(), counter_chars(), ops);
                assert(self.counter_contents() =~= old(self).counter_contents().insert(
                    counter_key(store@, prefix@),
                    be4((cur + 1) as u32),
                ));
                lemma_puts_applied_two(old(self).store_contents(store@), user_chars(store@), ops);
                assert(self.store_contents(store@) =~= old(self).store_contents(store@).insert(
                    prefix@ + enc_int(cur),
                    payload@,
                ));
                assert forall|m: Seq<char>| m != store@ implies #[trigger] self.store_contents(m)
                    =~= old(self).store_contents(m) by {
                    lemma_user_chars_inj(m, store@);
                    lemma_counter_distinct(m);
                    lemma_puts_applied_two(old(self).store_contents(m), user_chars(m), ops);
                }
                lemma_user_not_rel(store@);
                lemma_puts_applied_two(old(self).rel_contents(), rel_chars(), ops);
                assert(self.rel_contents() =~= old(self).rel_contents());
            } else {
                assert(self.unchanged_from(*old(self)));
            }
        }
        match r {
            Ok(()) => Ok(cur),
            Err(_) => Err(Error::StorageEngineError),
        }
    }

    /// Links two entities. Writes a forward record keyed by the pair
    /// of endpoints and a reverse index record keyed the other way
    /// round, atomically, so the relation is discoverable from either
    /// endpoint. Each direction carries its own deletion behaviour;
    /// `metadata` rides along opaquely.
    pub fn create_relation(
        &mut self,
        store_a: &str,
        key_a: &Key,
        store_b: &str,
        key_b: &Key,
        behaviour_a: DeletionBehaviour,
        behaviour_b: DeletionBehaviour,
        metadata: &Vec<u8>,
    ) -> (r: Result<RelationId, Error>)
        requires
            old(self).wf(),
        ensures
            final(self).wf(),
            final(self).registry() == old(self).registry(),
            !old(self).registered(store_a@) || !old(self).registered(store_b@) ==> (r matches
            Err(e) && e is NotRegistered),
            old(self).registered(store_a@) && old(self).registered(store_b@) ==> (r matches Err(e)
                ==> e is StorageEngineError),
            r is Err ==> final(self).unchanged_from(*old(self)),
            r matches Ok(id) ==> id.forward@ == rel_prefix(store_a@, key_enc(*key_a)) + rel_prefix(
                store_b@,
                key_enc(*key_b),
            ) && id.reverse@ == rel_prefix(store_b@, key_enc(*key_b)) + rel_prefix(
                store_a@,
                key_enc(*key_a),
            ),
            r matches Ok(id) ==> final(self).rel_contents() =~= old(self).rel_contents().insert(
                id.forward@,
                rel_value(behaviour_a, behaviour_b, metadata@),
            ).insert(id.reverse@, rel_value(behaviour_b, behaviour_a, metadata@)),
            r is Ok ==> forall|n: Seq<char>|
                #[trigger] final(self).store_contents(n) =~= old(self).store_contents(n),
            r is Ok ==> final(self).counter_contents() =~= old(self).counter_contents(),
    {
        let sa = store_a.to_owned();
        let sb = store_b.to_owned();
        if self.find_desc(&sa).is_none() || self.find_desc(&sb).is_none() {
            return Err(Error::NotRegistered);
        }
        let ka = key_a.encode();
        let kb = key_b.encode();
        let pa = rel_prefix_bytes(store_a, ka.as_slice());
        let pb = rel_prefix_bytes(store_b, kb.as_slice());
        let mut forward = clone_bytes(&pa);
        forward.append(&mut clone_bytes(&pb));
        let mut reverse = clone_bytes(&pb);
        reverse.append(&mut clone_bytes(&pa));
        let ba = beh_to_byte(behaviour_a);
        let bb = beh_to_byte(behaviour_b);
        let mut value_fwd: Vec<u8> = Vec::new();
        value_fwd.push(ba);
        value_fwd.push(bb);
        value_fwd.append(&mut clone_bytes(metadata));
        let mut value_rev: Vec<u8> = Vec::new();
        value_rev.push(bb);
        value_rev.push(ba);
        value_rev.append(&mut clone_bytes(metadata));
        proof {
            assert(value_fwd@ =~= rel_value(behaviour_a, behaviour_b, metadata@));
            assert(value_rev@ =~= rel_value(behaviour_b, behaviour_a, metadata@));
        }
        let mut puts: Vec<PutOp> = Vec::new();
        puts.push(PutOp { store: rel_store_name(), key: clone_bytes(&forward), value: value_fwd });
        puts.push(PutOp { store: rel_store_name(), key: clone_bytes(&reverse), value: value_rev });
        let r = self.storage.put_many(&puts);
        proof {
            let ops = puts@;
            assert(ops.len() == 2 && ops[0].store@ == ops[1].store@);
            if r is Ok {
                lemma_puts_applied_pair(old(self).rel_contents(), rel_chars(), ops);
                assert forall|n: Seq<char>| true implies #[trigger] self.store_contents(n)
                    =~= old(self).store_contents(n) by {
                    lemma_user_not_rel(n);
                    lemma_puts_applied_pair(old(self).store_contents(n), user_chars(n), ops);
                }
                lemma_counter_distinct(Seq::<char>::empty());
                lemma_puts_applied_pair(old(self).counter_contents(), counter_chars(), ops);
                assert(self.counter_contents() =~= old(self).counter_contents());
            } else {
                assert(self.unchanged_from(*old(self)));
            }
        }
        match r {
            Ok(()) => Ok(RelationId { forward, reverse }),
            Err(_) => Err(Error::StorageEngineError),
        }
    }

    /// Removes a relation: deletes both of its index records
    /// atomically and touches nothing else.
    pub fn remove_relation(&mut self, id: &RelationId) -> (r: Result<(), Error>)
        requires
            old(self).wf(),
        ensures
            final(self).wf(),
            final(self).registry() == old(self).registry(),
            r matches Err(e) ==> e is StorageEngineError,
            r is Err ==> final(self).unchanged_from(*old(self)),
            r is Ok ==> final(self).rel_contents() =~= old(self).rel_contents().remove(
                id.forward@,
            ).remove(id.reverse@),
            r is Ok ==> forall|n: Seq<char>|
                #[trigger] final(self).store_contents(n) =~= old(self).store_contents(n),
            r is Ok ==> final(self).counter_contents() =~= old(self).counter_contents(),
    {
        let mut dels: Vec<DelOp> = Vec::new();
        dels.push(DelOp { store: rel_store_name(), key: clone_bytes(&id.forward) });
        dels.push(DelOp { store: rel_store_name(), key: clone_bytes(&id.reverse) });
        let r = self.storage.del_many(&dels);
        proof {
            let ops = dels@;
            assert(ops.len() == 2 && ops[0].store@ == ops[1].store@);
            if r is Ok {
                lemma_dels_applied_pair(old(self).rel_contents(), rel_chars(), ops);
                assert forall|n: Seq<char>| true implies #[trigger] self.store_contents(n)
                    =~= old(self).store_contents(n) by {
                    lemma_user_not_rel(n);
                    lemma_dels_applied_pair(old(self).store_contents(n), user_chars(n), ops);
                }
                lemma_counter_distinct(Seq::<char>::empty());
                lemma_dels_applied_pair(old(self).counter_contents(), counter_chars(), ops);
                assert(self.counter_contents() =~= old(self).counter_contents());
            } else {
                assert(self.unchanged_from(*old(self)));
            }
        }
        match r {
            Ok(()) => Ok(()),
            Err(_) => Err(Error::StorageEngineError),
        }
    }

    /// Computes the full removal plan for a cascading delete: the
    /// record, everything `Cascade` links reach transitively, and
    /// every relation record touching a planned record, aborting with
    /// `ReferentialIntegrity` when a live `Error` link is found.
    #[verifier::loop_isolation(false)]
    #[verifier::rlimit(100)]
    fn plan_delete(&self, store: &String, kb: Vec<u8>) -> (r: Result<Vec<DelOp>, Error>)
        requires
            self.wf(),
        ensures
            r matches Ok(dels) ==> listed(dels@, user_chars(store@), kb@) && (forall|
                n: Seq<char>,
                k: Seq<u8>,
            |
                #[trigger] listed(dels@, user_chars(n), k) ==> cascade_expanded(
                    *self,
                    dels@,
                    Seq::<Target>::empty(),
                    n,
                    k,
                )),
            r matches Ok(dels) ==> forall|i: int|
                0 <= i < dels@.len() ==> (#[trigger] dels@[i]).store@ != counter_chars(),
            r matches Ok(dels) ==> forall|n: Seq<char>, k: Seq<u8>|
                #[trigger] listed(dels@, user_chars(n), k) ==> reaches(*self, store@, kb@, n, k),
            r matches Ok(dels) ==> forall|i: int|
                0 <= i < dels@.len() && (#[trigger] dels@[i]).store@ == rel_chars() ==> exists|
                    n: Seq<char>,
                    k: Seq<u8>,
                |
                    #[trigger] reaches(*self, store@, kb@, n, k) && rel_removal_for(
                        *self,
                        n,
                        k,
                        dels@[i].key@,
                    ),
            r matches Err(e) ==> (e is NotRegistered || e is StorageEngineError
                || e is KeyEncodingError || e is ReferentialIntegrity),
            r matches Err(e) ==> blames_live_record(*self, e),
    {
        let ghost root_kb = kb@;
        let mut dels: Vec<DelOp> = Vec::new();
        let mut pending: Vec<Target> = Vec::new();
        let mut visited: Vec<Target> = Vec::new();
        pending.push(Target { store: store.clone(), key: kb });
        proof {
            assert(pending@[0].store@ == store@ && pending@[0].key@ == root_kb);
            assert(in_pending(pending@, store@, root_kb));
            assert(cascade_reach(*self, store@, root_kb, store@, root_kb, 0nat));
            assert(reaches(*self, store@, root_kb, store@, root_kb));
        }
        let mut fuel: usize = usize::MAX;
        while pending.len() > 0
            invariant
                forall|n: Seq<char>, k: Seq<u8>|
                    #[trigger] listed(dels@, user_chars(n), k) ==> cascade_expanded(
                        *self,
                        dels@,
                        pending@,
                        n,
                        k,
                    ),
                reach(dels@, pending@, store@, root_kb),
                forall|i: int|
                    0 <= i < visited@.len() ==> listed(
                        dels@,
                        user_chars((#[trigger] visited@[i]).store@),
                        visited@[i].key@,
                    ),
                forall|i: int|
                    0 <= i < dels@.len() ==> (#[trigger] dels@[i]).store@ != counter_chars(),
                forall|i: int|
                    0 <= i < pending@.len() ==> reaches(
                        *self,
                        store@,
                        root_kb,
                        (#[trigger] pending@[i]).store@,
                        pending@[i].key@,
                    ),
                forall|n: Seq<char>, k: Seq<u8>|
                    #[trigger] listed(dels@, user_chars(n), k) ==> reaches(
                        *self,
                        store@,
                        root_kb,
                        n,
                        k,
                    ),
                forall|i: int|
                    0 <= i < dels@.len() && (#[trigger] dels@[i]).store@ == rel_chars()
                        ==> exists|n: Seq<char>, k: Seq<u8>|
                        #[trigger] reaches(*self, store@, root_kb, n, k) && rel_removal_for(
                            *self,
                            n,
                            k,
                            dels@[i].key@,
                        ),
            decreases fuel,
        {
            if fuel == 0 {
                return Err(Error::StorageEngineError);
            }
            fuel = fuel - 1;
            let ghost p_before = pending@;
            let ghost d_before = dels@;
            let t = match pending.pop() {
                Some(t) => t,
                None => return Err(Error::StorageEngineError),
            };
            proof {
                assert(pending@ == p_before.drop_last());
                assert(t == p_before.last());
            }
            if visited_contains(&visited, &t.store, &t.key) {
                proof {
                    let vi = choose|i: int|
                        0 <= i < visited@.len() && (#[trigger] visited@[i]).store@ == t.store@
                            && visited@[i].key@ == t.key@;
                    assert(listed(dels@, user_chars(t.store@), t.key@));
                    assert forall|x: Seq<char>, y: Seq<u8>| #[trigger] in_pending(
                        p_before,
                        x,
                        y,
                    ) implies listed(dels@, user_chars(x), y) || in_pending(pending@, x, y) by {
                        let i = choose|i: int|
                            0 <= i < p_before.len() && (#[trigger] p_before[i]).store@ == x
                                && p_before[i].key@ == y;
                        if i < p_before.len() - 1 {
                            assert(pending@[i] == p_before[i]);
                            assert(in_pending(pending@, x, y));
                        } else {
                            assert(p_before[i] == t);
                        }
                    }
                    assert forall|n: Seq<char>, k: Seq<u8>| #[trigger] listed(
                        dels@,
                        user_chars(n),
                        k,
                    ) implies cascade_expanded(*self, dels@, pending@, n, k) by {
                        lemma_expanded_mono(*self, dels@, p_before, dels@, pending@, n, k);
                    }
                    assert forall|i: int| 0 <= i < pending@.len() implies reaches(
                        *self,
                        store@,
                        root_kb,
                        (#[trigger] pending@[i]).store@,
                        pending@[i].key@,
                    ) by {
                        assert(pending@[i] == p_before[i]);
                    }
                }
            } else {
                visited.push(Target { store: t.store.clone(), key: clone_bytes(&t.key) });
                let ghost p_popped = pending@;
                match self.expand_one(&t.store, &t.key, &mut dels, &mut pending) {
                    Ok(()) => {},
                    Err(e) => return Err(e),
                }
                proof {
                    lemma_listed_extend(d_before, dels@);
                    lemma_pending_extend(p_popped, pending@);
                    assert(listed(dels@, user_chars(t.store@), t.key@));
                    assert forall|i: int| 0 <= i < dels@.len() implies (#[trigger] dels@[i]).store@
                        != counter_chars() by {
                        lemma_counter_distinct(t.store@);
                        if i < d_before.len() {
                            assert(dels@[i] == d_before[i]);
                        }
                    }
                    assert forall|x: Seq<char>, y: Seq<u8>| #[trigger] in_pending(
                        p_before,
                        x,
                        y,
                    ) implies listed(dels@, user_chars(x), y) || in_pending(pending@, x, y) by {
                        let i = choose|i: int|
                            0 <= i < p_before.len() && (#[trigger] p_before[i]).store@ == x
                                && p_before[i].key@ == y;
                        if i < p_before.len() - 1 {
                            assert(p_popped[i] == p_before[i]);
                            assert(in_pending(p_popped, x, y));
                        } else {
                            assert(p_before[i] == t);
                        }
                    }
                    assert forall|n: Seq<char>, k: Seq<u8>| #[trigger] listed(
                        dels@,
                        user_chars(n),
                        k,
                    ) implies cascade_expanded(*self, dels@, pending@, n, k) by {
                        let i = choose|i: int|
                            0 <= i < dels@.len() && (#[trigger] dels@[i]).store@ == user_chars(n)
                                && dels@[i].key@ == k;
                        if i < d_before.len() {
                            assert(dels@[i] == d_before[i]);
                            assert(listed(d_before, user_chars(n), k));
                            lemma_expanded_mono(*self, d_before, p_before, dels@, pending@, n, k);
                        } else {
                            lemma_user_not_rel(n);
                            assert(dels@[i].store@ == user_chars(t.store@) && dels@[i].key@
                                == t.key@);
                            lemma_user_chars_inj(n, t.store@);
                            assert(n == t.store@ && k == t.key@);
                        }
                    }
                    assert forall|i: int| 0 <= i < visited@.len() implies listed(
                        dels@,
                        user_chars((#[trigger] visited@[i]).store@),
                        visited@[i].key@,
                    ) by {
                        if i < visited@.len() - 1 {
                            assert(listed(d_before, user_chars(visited@[i].store@),
                                visited@[i].key@));
                        }
                    }
                    assert(p_before[p_before.len() - 1] == t);
                    assert(reaches(*self, store@, root_kb, t.store@, t.key@));
                    let jt = choose|j: nat|
                        cascade_reach(*self, store@, root_kb, t.store@, t.key@, j);
                    assert(cascade_reach(*self, store@, root_kb, t.store@, t.key@, jt));
                    assert forall|i: int| 0 <= i < pending@.len() implies reaches(
                        *self,
                        store@,
                        root_kb,
                        (#[trigger] pending@[i]).store@,
                        pending@[i].key@,
                    ) by {
                        if i < p_popped.len() {
                            assert(pending@[i] == p_popped[i]);
                            assert(p_popped[i] == p_before[i]);
                        } else {
                            assert(cascade_step(
                                *self,
                                t.store@,
                                t.key@,
                                pending@[i].store@,
                                pending@[i].key@,
                            ));
                            let j2: nat = (jt + 1) as nat;
                            assert((j2 - 1) as nat == jt);
                            assert(exists|n1: Seq<char>, k1: Seq<u8>|
                                cascade_reach(*self, store@, root_kb, n1, k1, (j2 - 1) as nat)
                                    && #[trigger] cascade_step(
                                    *self,
                                    n1,
                                    k1,
                                    pending@[i].store@,
                                    pending@[i].key@,
                                ));
                            assert(cascade_reach(
                                *self,
                                store@,
                                root_kb,
                                pending@[i].store@,
                                pending@[i].key@,
                                j2,
                            ));
                            assert(reaches(
                                *self,
                                store@,
                                root_kb,
                                pending@[i].store@,
                                pending@[i].key@,
                            ));
                        }
                    }
                    assert forall|n: Seq<char>, k: Seq<u8>| #[trigger] listed(
                        dels@,
                        user_chars(n),
                        k,
                    ) implies reaches(*self, store@, root_kb, n, k) by {
                        let i = choose|i: int|
                            0 <= i < dels@.len() && (#[trigger] dels@[i]).store@ == user_chars(n)
                                && dels@[i].key@ == k;
                        if i < d_before.len() {
                            assert(dels@[i] == d_before[i]);
                            assert(listed(d_before, user_chars(n), k));
                        } else {
                            lemma_user_not_rel(n);
                            assert(dels@[i].store@ == user_chars(t.store@) && dels@[i].key@
                                == t.key@);
                            lemma_user_chars_inj(n, t.store@);
                            assert(cascade_reach(*self, store@, root_kb, n, k, jt));
                            assert(reaches(*self, store@, root_kb, n, k));
                        }
                    }
                    assert forall|i: int|
                        0 <= i < dels@.len() && (#[trigger] dels@[i]).store@ == rel_chars()
                            implies exists|n: Seq<char>, k: Seq<u8>|
                        #[trigger] reaches(*self, store@, root_kb, n, k) && rel_removal_for(
                            *self,
                            n,
                            k,
                            dels@[i].key@,
                        ) by {
                        if i < d_before.len() {
                            assert(dels@[i] == d_before[i]);
                        } else {
                            lemma_user_not_rel(t.store@);
                            assert(rel_removal_for(*self, t.store@, t.key@, dels@[i].key@));
                            assert(reaches(*self, store@, root_kb, t.store@, t.key@));
                        }
                    }
                }
            }
        }
        proof {
            assert(pending@ =~= Seq::<Target>::empty());
            assert(listed(dels@, user_chars(store@), root_kb));
        }
        Ok(dels)
    }

    /// Cascading delete of the record at `key` in `store`, inside one
    /// atomic commit. It first plans, by pure reads, everything the
    /// declared sibling and child links and the stored relations
    /// reach through `Cascade` behaviours; a live `Error` link aborts
    /// the call before anything is written, with the blocking record
    /// named in `ReferentialIntegrity`. `BreakLink` relations lose
    /// only their relation records. On success every planned record
    /// and every relation record touching one is removed, atomically.
    #[verifier::rlimit(100)]
    pub fn delete(&mut self, store: &str, key: &Key) -> (r: Result<(), Error>)
        requires
            old(self).wf(),
        ensures
            final(self).wf(),
            final(self).registry() == old(self).registry(),
            !old(self).registered(store@) ==> (r matches Err(e) && e is NotRegistered),
            r is Err ==> final(self).unchanged_from(*old(self)),
            r is Ok ==> delete_post(*old(self), *final(self), store@, key_enc(*key)),
            r is Ok ==> final(self).counter_contents() =~= old(self).counter_contents(),
            r matches Err(e) ==> (e is NotRegistered || e is NotFound
                || e is ReferentialIntegrity || e is KeyEncodingError
                || e is StorageEngineError),
            r matches Err(e) && e is NotFound ==> !old(self).store_contents(store@).contains_key(
                key_enc(*key),
            ),
            old(self).registered(store@) && !old(self).store_contents(store@).contains_key(
                key_enc(*key),
            ) ==> (r matches Err(e) && (e is NotFound || e is StorageEngineError)),
            r matches Err(e) ==> (e is ReferentialIntegrity ==> blames_live_record(
                *old(self),
                e,
            )),
    {
        let store_string = store.to_owned();
        if self.find_desc(&store_string).is_none() {
            return Err(Error::NotRegistered);
        }
        let kb = key.encode();
        let engine = user_store_name(store);
        match self.storage.get(engine.as_str(), kb.as_slice()) {
            Ok(Some(_)) => {},
            Ok(None) => return Err(Error::NotFound),
            Err(e) => return Err(e),
        }
        let dels = match self.plan_delete(&store_string, kb) {
            Ok(d) => d,
            Err(e) => return Err(e),
        };
        let r = self.storage.del_many(&dels);
        proof {
            let pre = *old(self);
            let post = *self;
            if r is Ok {
                lemma_dels_applied_other_store(pre.counter_contents(), counter_chars(), dels@);
                assert(self.counter_contents() =~= old(self).counter_contents());
                assert forall|n: Seq<char>, k: Seq<u8>| #[trigger] post.store_contents(
                    n,
                ).contains_key(k) implies pre.store_contents(n).contains_key(k)
                    && post.store_contents(n)[k] == pre.store_contents(n)[k] by {
                    lemma_dels_applied_membership(
                        pre.store_contents(n),
                        user_chars(n),
                        dels@,
                        k,
                    );
                }
                assert forall|rk: Seq<u8>| #[trigger] post.rel_contents().contains_key(
                    rk,
                ) implies pre.rel_contents().contains_key(rk) && post.rel_contents()[rk]
                    == pre.rel_contents()[rk] by {
                    lemma_dels_applied_membership(pre.rel_contents(), rel_chars(), dels@, rk);
                }
                assert forall|n: Seq<char>, k: Seq<u8>| #[trigger] removed_from(
                    pre,
                    post,
                    n,
                    k,
                ) implies listed(dels@, user_chars(n), k) by {
                    lemma_dels_applied_membership(pre.store_contents(n), user_chars(n), dels@, k);
                }
                assert forall|n: Seq<char>, k: Seq<u8>| #[trigger] removed_from(
                    pre,
                    post,
                    n,
                    k,
                ) implies reaches(pre, store@, key_enc(*key), n, k) by {
                    assert(listed(dels@, user_chars(n), k));
                }
                assert forall|rk: Seq<u8>|
                    #[trigger] pre.rel_contents().contains_key(rk)
                        && !post.rel_contents().contains_key(rk) implies exists|
                    n: Seq<char>,
                    k: Seq<u8>,
                |
                    #[trigger] reaches(pre, store@, key_enc(*key), n, k) && rel_removal_for(
                        pre,
                        n,
                        k,
                        rk,
                    ) by {
                    lemma_dels_applied_membership(pre.rel_contents(), rel_chars(), dels@, rk);
                    let i = choose|i: int|
                        0 <= i < dels@.len() && (#[trigger] dels@[i].store@) == rel_chars()
                            && dels@[i].key@ == rk;
                    assert(dels@[i].store@ == rel_chars());
                }
                lemma_dels_applied_membership(
                    pre.store_contents(store@),
                    user_chars(store@),
                    dels@,
                    key_enc(*key),
                );
                assert(!post.store_contents(store@).contains_key(key_enc(*key)));
                assert forall|n: Seq<char>, k: Seq<u8>, li: int|
                    #[trigger] removed_from(pre, post, n, k) && 0 <= li < pre.desc_of(
                        n,
                    ).siblings@.len() && (#[trigger] pre.desc_of(n).siblings@[li]).behaviour
                        == DeletionBehaviour::Cascade implies !post.store_contents(
                    pre.desc_of(n).siblings@[li].target@,
                ).contains_key(k) by {
                    let tgt = pre.desc_of(n).siblings@[li].target@;
                    lemma_dels_applied_membership(pre.store_contents(tgt), user_chars(tgt), dels@, k);
                    if pre.store_contents(tgt).contains_key(k) {
                        assert(cascade_expanded(pre, dels@, Seq::<Target>::empty(), n, k));
                        assert(reach(dels@, Seq::<Target>::empty(), tgt, k));
                    }
                }
                assert forall|n: Seq<char>, k: Seq<u8>, li: int, ck: Seq<u8>|
                    #[trigger] removed_from(pre, post, n, k) && 0 <= li < pre.desc_of(
                        n,
                    ).children@.len() && (#[trigger] pre.desc_of(n).children@[li]).behaviour
                        == DeletionBehaviour::Cascade && (#[trigger] post.store_contents(
                        pre.desc_of(n).children@[li].target@,
                    ).contains_key(ck)) implies !has_prefix(ck, k) by {
                    let tgt = pre.desc_of(n).children@[li].target@;
                    lemma_dels_applied_membership(
                        pre.store_contents(tgt),
                        user_chars(tgt),
                        dels@,
                        ck,
                    );
                    if has_prefix(ck, k) {
                        assert(cascade_expanded(pre, dels@, Seq::<Target>::empty(), n, k));
                        assert(pre.store_contents(tgt).contains_key(ck));
                        assert(reach(dels@, Seq::<Target>::empty(), tgt, ck));
                        assert(false);
                    }
                }
                assert forall|n: Seq<char>, k: Seq<u8>, rk: Seq<u8>|
                    #[trigger] removed_from(pre, post, n, k)
                        && #[trigger] post.rel_contents().contains_key(rk) implies !has_prefix(
                    rk,
                    rel_prefix(n, k),
                ) by {
                    lemma_dels_applied_membership(pre.rel_contents(), rel_chars(), dels@, rk);
                    if has_prefix(rk, rel_prefix(n, k)) {
                        assert(cascade_expanded(pre, dels@, Seq::<Target>::empty(), n, k));
                        assert(pre.rel_contents().contains_key(rk));
                        assert(listed(dels@, rel_chars(), rk));
                        assert(false);
                    }
                }
                assert forall|n: Seq<char>, k: Seq<u8>, os: Seq<char>, ok: Seq<u8>|
                    #[trigger] removed_from(pre, post, n, k)
                        && #[trigger] pre.rel_contents().contains_key(
                        rel_prefix(n, k) + rel_prefix(os, ok),
                    ) && pre.rel_contents()[rel_prefix(n, k) + rel_prefix(os, ok)][0] == 0 implies
                    !post.store_contents(os).contains_key(ok) by {
                    lemma_dels_applied_membership(pre.store_contents(os), user_chars(os), dels@, ok);
                    if pre.store_contents(os).contains_key(ok) {
                        assert(cascade_expanded(pre, dels@, Seq::<Target>::empty(), n, k));
                        assert(reach(dels@, Seq::<Target>::empty(), os, ok));
                    }
                }
                assert(delete_post(pre, post, store@, key_enc(*key)));
            } else {
                assert(self.unchanged_from(*old(self)));
            }
        }
        match r {
            Ok(()) => Ok(()),
            Err(_) => Err(Error::StorageEngineError),
        }
    }

    /// Every relation touching `(store, key)`, seen from its side:
    /// the far endpoint, the deletion behaviour of each direction,
    /// and the metadata. Every relation record whose key starts with
    /// this endpoint's prefix is returned, and each returned entry
    /// restates one such record exactly.
    #[verifier::loop_isolation(false)]
    #[verifier::rlimit(50)]
    pub fn relations_of(&self, store: &str, key: &Key) -> (r: Result<Vec<RelationEntry>, Error>)
        ensures
            r matches Ok(v) ==> forall|i: int|
                0 <= i < v@.len() ==> self.rel_contents().contains_key(
                    rel_prefix(store@, key_enc(*key)) + rel_prefix(
                        (#[trigger] v@[i]).other_store@,
                        v@[i].other_key@,
                    ),
                ) && self.rel_contents()[rel_prefix(store@, key_enc(*key)) + rel_prefix(
                    v@[i].other_store@,
                    v@[i].other_key@,
                )] == rel_value(v@[i].on_self_delete, v@[i].on_other_delete, v@[i].metadata@),
            r matches Ok(v) ==> forall|rk: Seq<u8>|
                #[trigger] self.rel_contents().contains_key(rk) && has_prefix(
                    rk,
                    rel_prefix(store@, key_enc(*key)),
                ) ==> exists|i: int|
                    0 <= i < v@.len() && rk == rel_prefix(store@, key_enc(*key)) + rel_prefix(
                        (#[trigger] v@[i]).other_store@,
                        v@[i].other_key@,
                    ),
            r matches Ok(v) ==> forall|i: int, j: int|
                0 <= i < j < v@.len() ==> !((#[trigger] v@[i]).other_store@ == (
                #[trigger] v@[j]).other_store@ && v@[i].other_key@ == v@[j].other_key@),
    {
        let kb = key.encode();
        let pre = rel_prefix_bytes(store, kb.as_slice());
        let rel_name = rel_store_name();
        let found = match self.storage.scan_prefix(rel_name.as_str(), pre.as_slice()) {
            Ok(v) => v,
            Err(e) => return Err(e),
        };
        let mut out: Vec<RelationEntry> = Vec::new();
        let mut i: usize = 0;
        while i < found.len()
            invariant
                i <= found@.len(),
                out@.len() == i,
                forall|j: int|
                    0 <= j < i ==> (#[trigger] found@[j]).0@ == rel_prefix(store@, key_enc(*key))
                        + rel_prefix(out@[j].other_store@, out@[j].other_key@) && found@[j].1@
                        == rel_value(
                        out@[j].on_self_delete,
                        out@[j].on_other_delete,
                        out@[j].metadata@,
                    ),
            decreases found@.len() - i,
        {
            let rk = clone_bytes(&found[i].0);
            proof {
                assert(has_prefix(rk@, pre@));
            }
            let (os, okb) = match self.parse_rel_endpoint(&rk, pre.len()) {
                Ok(x) => x,
                Err(e) => return Err(e),
            };
            let value = &found[i].1;
            if value.len() < 2 {
                return Err(Error::KeyEncodingError);
            }
            let b1 = match byte_to_beh(value[0]) {
                Some(b) => b,
                None => return Err(Error::KeyEncodingError),
            };
            let b2 = match byte_to_beh(value[1]) {
                Some(b) => b,
                None => return Err(Error::KeyEncodingError),
            };
            let meta = tail_rel_bytes(value, 2);
            proof {
                assert(rk@.subrange(0, pre@.len() as int) == pre@);
                assert(rk@ =~= pre@ + rk@.skip(pre@.len() as int));
                assert(found@[i as int].1@ =~= rel_value(b1, b2, meta@));
            }
            out.push(
                RelationEntry {
                    other_store: os,
                    other_key: okb,
                    on_self_delete: b1,
                    on_other_delete: b2,
                    metadata: meta,
                },
            );
            i = i + 1;
        }
        proof {
            assert forall|j: int| 0 <= j < out@.len() implies self.rel_contents().contains_key(
                rel_prefix(store@, key_enc(*key)) + rel_prefix(
                    (#[trigger] out@[j]).other_store@,
                    out@[j].other_key@,
                ),
            ) && self.rel_contents()[rel_prefix(store@, key_enc(*key)) + rel_prefix(
                out@[j].other_store@,
                out@[j].other_key@,
            )] == rel_value(out@[j].on_self_delete, out@[j].on_other_delete, out@[j].metadata@) by {
                assert(self.rel_contents().contains_key(found@[j].0@));
                assert(found@[j].1@ == self.rel_contents()[found@[j].0@]);
            }
            assert forall|i: int, j: int|
                0 <= i < j < out@.len() implies !((#[trigger] out@[i]).other_store@ == (
            #[trigger] out@[j]).other_store@ && out@[i].other_key@ == out@[j].other_key@) by {
                if out@[i].other_store@ == out@[j].other_store@ && out@[i].other_key@
                    == out@[j].other_key@ {
                    assert(found@[i].0@ == found@[j].0@);
                    assert(found@[i].0@ != found@[j].0@);
                }
            }
            assert forall|rk: Seq<u8>|
                #[trigger] self.rel_contents().contains_key(rk) && has_prefix(
                    rk,
                    rel_prefix(store@, key_enc(*key)),
                ) implies exists|j: int|
                0 <= j < out@.len() && rk == rel_prefix(store@, key_enc(*key)) + rel_prefix(
                    (#[trigger] out@[j]).other_store@,
                    out@[j].other_key@,
                ) by {
                let jj = choose|jj: int|
                    0 <= jj < found@.len() && (#[trigger] found@[jj]).0@ == rk;
                assert(found@[jj].0@ == rel_prefix(store@, key_enc(*key)) + rel_prefix(
                    out@[jj].other_store@,
                    out@[jj].other_key@,
                ));
            }
        }
        Ok(out)
    }

    /// Nothing in the engine changed.
    pub open spec fn unchanged_from(&self, o: Db) -> bool {
        (forall|n: Seq<char>|
            #[trigger] self.store_contents(n) =~= o.store_contents(n)) && self.rel_contents()
            =~= o.rel_contents() && self.counter_contents() =~= o.counter_contents()
    }

    /// Point lookup: the payload stored at `key` in `store`, if any.
    pub fn get(&self, store: &str, key: &Key) -> (r: Result<Option<Vec<u8>>, Error>)
        ensures
            !self.registered(store@) ==> r == Err::<Option<Vec<u8>>, Error>(Error::NotRegistered),
            self.registered(store@) ==> (r matches Err(e) ==> e is StorageEngineError),
            r matches Ok(o) ==> (o is Some <==> self.store_contents(store@).contains_key(
                key_enc(*key),
            )),
            r matches Ok(Some(v)) ==> v@ == self.store_contents(store@)[key_enc(*key)],
    {
        let store_string = store.to_owned();
        if self.find_desc(&store_string).is_none() {
            return Err(Error::NotRegistered);
        }
        let kb = key.encode();
        let engine = user_store_name(store);
        self.storage.get(engine.as_str(), kb.as_slice())
    }
}

/// The save/get law: a successful save leaves the saved payload
/// retrievable under the entity's encoded key — the store's contents
/// after `save` hold exactly `payload` at `key_enc(key)`, which is
/// what `get` returns.
pub proof fn lemma_save_then_get(pre: Db, post: Db, store: Seq<char>, key: Key, payload: Seq<u8>)
    requires
        post.store_contents(store) == pre.store_contents(store).insert(key_enc(key), payload),
    ensures
        post.store_contents(store).contains_key(key_enc(key)),
        post.store_contents(store)[key_enc(key)] == payload,
{
}

/// The transitive cascade law: after a successful delete, a `Cascade`
/// child link's records are gone, and so are their own `Cascade`
/// children — no grandchild record keyed under a removed child
/// survives.
pub proof fn lemma_cascade_transitive(
    pre: Db,
    post: Db,
    root_store: Seq<char>,
    root_key: Seq<u8>,
    li: int,
    ck: Seq<u8>,
    li2: int,
    gk: Seq<u8>,
)
    requires
        delete_post(pre, post, root_store, root_key),
        pre.store_contents(root_store).contains_key(root_key),
        0 <= li < pre.desc_of(root_store).children@.len(),
        pre.desc_of(root_store).children@[li].behaviour == DeletionBehaviour::Cascade,
        pre.store_contents(pre.desc_of(root_store).children@[li].target@).contains_key(ck),
        has_prefix(ck, root_key),
        0 <= li2 < pre.desc_of(pre.desc_of(root_store).children@[li].target@).children@.len(),
        pre.desc_of(pre.desc_of(root_store).children@[li].target@).children@[li2].behaviour
            == DeletionBehaviour::Cascade,
        post.store_contents(
            pre.desc_of(pre.desc_of(root_store).children@[li].target@).children@[li2].target@,
        ).contains_key(gk),
    ensures
        !has_prefix(gk, ck),
{
    let t1 = pre.desc_of(root_store).children@[li].target@;
    assert(removed_from(pre, post, root_store, root_key));
    if post.store_contents(t1).contains_key(ck) {
        assert(!has_prefix(ck, root_key));
        assert(false);
    }
    assert(removed_from(pre, post, t1, ck));
    if has_prefix(gk, ck) {
        assert(!has_prefix(gk, ck));
    }
}

} // verus!
