//! Order-preserving key codec.
//!
//! A key is a primitive (integer or string) or a child key
//! `(parent, local sequence number)`. Keys encode to byte sequences
//! such that, among keys of one store, byte-lexicographic order
//! agrees with the logical order of the trailing integer component,
//! and no encoding of one key is a byte-prefix of an unrelated key's
//! encoding, so a prefix scan over a parent's encoding enumerates
//! exactly that parent's children.
//!
//! Integers encode as a tag byte followed by four big-endian bytes.
//! Strings encode as a tag byte, the UTF-8 bytes with every zero
//! byte escaped as `00 FF`, and a `00 00` terminator, which keeps
//! the encoding prefix-free.

use crate::errors::Error;
use vstd::prelude::*;
use vstd::utf8::encode_utf8;

verus! {

/// Tag byte that opens an integer component.
pub const TAG_INT: u8 = 1;

/// Tag byte that opens a string component.
pub const TAG_STR: u8 = 2;

/// A record key: an integer, a string, or a parent key paired with a
/// local sequence number minted by the auto-increment allocator.
#[derive(Debug)]
pub enum Key {
    Int(u32),
    Str(String),
    Child(Box<Key>, u32),
}

impl Clone for Key {
    fn clone(&self) -> (r: Self)
        ensures
            r == *self,
        decreases *self,
    {
        match self {
            Key::Int(n) => Key::Int(*n),
            Key::Str(s) => Key::Str(s.clone()),
            Key::Child(p, n) => Key::Child(Box::new((**p).clone()), *n),
        }
    }
}

/// The four big-endian bytes of `n`.
pub open spec fn be4(n: u32) -> Seq<u8> {
    seq![
        (n >> 24) as u8,
        ((n >> 16) & 0xff) as u8,
        ((n >> 8) & 0xff) as u8,
        (n & 0xff) as u8,
    ]
}

/// The integer a four-byte big-endian sequence denotes.
pub open spec fn be4_val(s: Seq<u8>) -> u32 {
    ((s[0] as u32) << 24) | ((s[1] as u32) << 16) | ((s[2] as u32) << 8) | (s[3] as u32)
}

/// Encoding of one integer key component.
pub open spec fn enc_int(n: u32) -> Seq<u8> {
    seq![TAG_INT] + be4(n)
}

/// String body escaping: every zero byte becomes `00 FF`.
pub open spec fn esc_body(b: Seq<u8>) -> Seq<u8>
    decreases b.len(),
{
    if b.len() == 0 {
        Seq::empty()
    } else {
        (if b[0] == 0 {
            seq![0u8, 0xffu8]
        } else {
            seq![b[0]]
        }) + esc_body(b.skip(1))
    }
}

/// Escaped bytes followed by the `00 00` terminator.
pub open spec fn esc_bytes(b: Seq<u8>) -> Seq<u8> {
    esc_body(b) + seq![0u8, 0u8]
}

/// Encoding of one string key component over its UTF-8 bytes.
pub open spec fn enc_str(b: Seq<u8>) -> Seq<u8> {
    seq![TAG_STR] + esc_bytes(b)
}

/// The byte encoding of a key: a child key is its parent's encoding
/// followed by one integer component, so the parent's encoding is a
/// byte-prefix of every child's.
pub open spec fn key_enc(k: Key) -> Seq<u8>
    decreases k,
{
    match k {
        Key::Int(n) => enc_int(n),
        Key::Str(s) => enc_str(encode_utf8(s@)),
        Key::Child(p, n) => key_enc(*p) + enc_int(n),
    }
}

/// `p` is a byte-prefix of `k`.
pub open spec fn has_prefix(k: Seq<u8>, p: Seq<u8>) -> bool {
    p.len() <= k.len() && k.subrange(0, p.len() as int) == p
}

/// Byte-lexicographic order, the order the storage engine scans in.
pub open spec fn lex_le(a: Seq<u8>, b: Seq<u8>) -> bool
    decreases a.len(),
{
    if a.len() == 0 {
        true
    } else if b.len() == 0 {
        false
    } else if a[0] < b[0] {
        true
    } else if a[0] > b[0] {
        false
    } else {
        lex_le(a.skip(1), b.skip(1))
    }
}

/// Appends the four big-endian bytes of `n`.
pub(crate) fn push_be4(out: &mut Vec<u8>, n: u32)
    ensures
        final(out)@ == old(out)@ + be4(n),
{
    let b0: u8 = (n >> 24) as u8;
    let b1: u8 = ((n >> 16) & 0xff) as u8;
    let b2: u8 = ((n >> 8) & 0xff) as u8;
    let b3: u8 = (n & 0xff) as u8;
    assert(n >> 24 <= 0xff) by (bit_vector);
    out.push(b0);
    out.push(b1);
    out.push(b2);
    out.push(b3);
    assert(final(out)@ =~= old(out)@ + be4(n));
}

/// Appends one integer key component.
fn push_int(out: &mut Vec<u8>, n: u32)
    ensures
        final(out)@ == old(out)@ + enc_int(n),
{
    out.push(TAG_INT);
    push_be4(out, n);
    assert(final(out)@ =~= old(out)@ + enc_int(n));
}

/// Appends one escaped, terminated string body.
pub(crate) fn push_esc(out: &mut Vec<u8>, b: &[u8])
    ensures
        final(out)@ == old(out)@ + esc_bytes(b@),
{
    let mut i: usize = 0;
    while i < b.len()
        invariant
            i <= b@.len(),
            out@ == old(out)@ + esc_body(b@.take(i as int)),
        decreases b@.len() - i,
    {
        let byte = b[i];
        if byte == 0 {
            out.push(0u8);
            out.push(0xffu8);
        } else {
            out.push(byte);
        }
        proof {
            lemma_esc_body_snoc(b@, i as int);
        }
        i = i + 1;
    }
    out.push(0u8);
    out.push(0u8);
    assert(b@.take(b@.len() as int) =~= b@);
    assert(final(out)@ =~= old(out)@ + esc_bytes(b@));
}

/// Escaping one more byte extends the escaped body.
proof fn lemma_esc_body_snoc(b: Seq<u8>, i: int)
    requires
        0 <= i < b.len(),
    ensures
        esc_body(b.take(i + 1)) == esc_body(b.take(i)) + (if b[i] == 0 {
            seq![0u8, 0xffu8]
        } else {
            seq![b[i]]
        }),
    decreases i,
{
    let step = if b[i] == 0 {
        seq![0u8, 0xffu8]
    } else {
        seq![b[i]]
    };
    if i == 0 {
        assert(b.take(1) =~= seq![b[0]]);
        assert(b.take(1).skip(1) =~= Seq::<u8>::empty());
        assert(b.take(0) =~= Seq::<u8>::empty());
        assert(esc_body(b.take(1)) =~= step);
    } else {
        lemma_esc_body_snoc(b.skip(1), i - 1);
        assert(b.take(i + 1).skip(1) =~= b.skip(1).take(i));
        assert(b.take(i).skip(1) =~= b.skip(1).take(i - 1));
        assert(b.take(i + 1)[0] == b[0]);
        assert(b.take(i)[0] == b[0]);
        assert(b.skip(1)[i - 1] == b[i]);
        let head = if b[0] == 0 {
            seq![0u8, 0xffu8]
        } else {
            seq![b[0]]
        };
        assert(esc_body(b.take(i + 1)) == head + esc_body(b.skip(1).take(i)));
        assert(esc_body(b.take(i)) == head + esc_body(b.skip(1).take(i - 1)));
        assert(esc_body(b.skip(1).take(i)) == esc_body(b.skip(1).take(i - 1)) + step);
        assert(esc_body(b.take(i + 1)) =~= esc_body(b.take(i)) + step);
    }
}

impl Key {
    /// The key's order-preserving byte encoding.
    pub fn encode(&self) -> (r: Vec<u8>)
        ensures
            r@ == key_enc(*self),
    {
        let mut out: Vec<u8> = Vec::new();
        self.encode_onto(&mut out);
        out
    }

    /// Appends the key's encoding to `out`.
    pub fn encode_onto(&self, out: &mut Vec<u8>)
        ensures
            final(out)@ == old(out)@ + key_enc(*self),
        decreases *self,
    {
        match self {
            Key::Int(n) => {
                push_int(out, *n);
            },
            Key::Str(s) => {
                out.push(TAG_STR);
                let bytes = s.as_str().as_bytes();
                push_esc(out, bytes);
                assert(final(out)@ =~= old(out)@ + key_enc(*self));
            },
            Key::Child(p, n) => {
                p.encode_onto(out);
                push_int(out, *n);
                assert(final(out)@ =~= old(out)@ + key_enc(*self));
            },
        }
    }

    /// Composes a child key under `self` with local sequence `n`.
    pub fn child(self, n: u32) -> (r: Key)
        ensures
            r == Key::Child(Box::new(self), n),
            key_enc(r) == key_enc(self) + enc_int(n),
    {
        Key::Child(Box::new(self), n)
    }
}

/// Byte-space composition: a child's encoded key is its parent's
/// encoded key followed by one integer component.
pub fn compose(parent: &[u8], local_seq: u32) -> (r: Vec<u8>)
    ensures
        r@ == parent@ + enc_int(local_seq),
{
    let mut out = vstd::slice::slice_to_vec(parent);
    push_int(&mut out, local_seq);
    out
}

/// Byte-space decomposition: splits an encoded child key into its
/// parent's encoding and the trailing local sequence number.
pub fn decompose(child: &[u8]) -> (r: Result<(Vec<u8>, u32), Error>)
    ensures
        r matches Ok((p, n)) ==> child@ == p@ + enc_int(n),
        r is Ok <==> trailing_int(child@) is Some,
        r matches Ok((p, n)) ==> trailing_int(child@) == Some(n),
{
    match read_trailing_int(child) {
        Some(n) => {
            let mut p: Vec<u8> = Vec::new();
            let mut i: usize = 0;
            let end = child.len() - 5;
            while i < end
                invariant
                    end == child@.len() - 5,
                    i <= end,
                    p@ == child@.take(i as int),
                decreases end - i,
            {
                p.push(child[i]);
                assert(p@ =~= child@.take(i + 1));
                i = i + 1;
            }
            proof {
                lemma_trailing_int_split(child@, n);
            }
            Ok((p, n))
        },
        None => Err(Error::KeyEncodingError),
    }
}

/// The trailing integer component of an encoded key, if its last
/// five bytes are a well-formed integer component.
pub open spec fn trailing_int(k: Seq<u8>) -> Option<u32> {
    if k.len() >= 5 && k[k.len() - 5] == TAG_INT {
        Some(be4_val(k.skip(k.len() - 4)))
    } else {
        None
    }
}

/// A key that ends in an integer component splits before it.
proof fn lemma_trailing_int_split(k: Seq<u8>, n: u32)
    requires
        trailing_int(k) == Some(n),
    ensures
        k == k.take(k.len() - 5) + enc_int(n),
{
    let tail = k.skip(k.len() - 4);
    assert(be4_val(tail) == n) by {
        assert(trailing_int(k) == Some(n));
    }
    assert(tail.len() == 4);
    lemma_be4_val_inverse(tail);
    assert(k =~= k.take(k.len() - 5) + enc_int(n));
}

/// A four-byte sequence is the big-endian encoding of its value.
pub proof fn lemma_be4_val_inverse(s: Seq<u8>)
    requires
        s.len() == 4,
    ensures
        be4(be4_val(s)) == s,
{
    let n = be4_val(s);
    let a = s[0];
    let b = s[1];
    let c = s[2];
    let d = s[3];
    let m: u32 = ((a as u32) << 24) | ((b as u32) << 16) | ((c as u32) << 8) | (d as u32);
    assert((m >> 24) as u8 == a
        && ((m >> 16) & 0xff) as u8 == b
        && ((m >> 8) & 0xff) as u8 == c
        && (m & 0xff) as u8 == d) by (bit_vector)
        requires
            m == ((a as u32) << 24) | ((b as u32) << 16) | ((c as u32) << 8) | (d as u32),
    ;
    assert(be4(n) =~= s);
}

/// Lexicographic order under a common prefix reduces to the tails.
pub proof fn lemma_lex_le_common(p: Seq<u8>, a: Seq<u8>, b: Seq<u8>)
    ensures
        lex_le(p + a, p + b) == lex_le(a, b),
    decreases p.len(),
{
    if p.len() == 0 {
        assert(p + a =~= a);
        assert(p + b =~= b);
    } else {
        lemma_lex_le_common(p.skip(1), a, b);
        assert((p + a).len() > 0 && (p + b).len() > 0);
        assert((p + a)[0] == p[0] && (p + b)[0] == p[0]);
        assert((p + a).skip(1) =~= p.skip(1) + a);
        assert((p + b).skip(1) =~= p.skip(1) + b);
    }
}

/// Lexicographic order on four-byte sequences, spelt out.
proof fn lemma_lex_le_len4(a: Seq<u8>, b: Seq<u8>)
    requires
        a.len() == 4,
        b.len() == 4,
    ensures
        lex_le(a, b) == (a[0] < b[0] || (a[0] == b[0] && (a[1] < b[1] || (a[1] == b[1] && (a[2]
            < b[2] || (a[2] == b[2] && a[3] <= b[3])))))),
{
    let a1 = a.skip(1);
    let b1 = b.skip(1);
    let a2 = a1.skip(1);
    let b2 = b1.skip(1);
    let a3 = a2.skip(1);
    let b3 = b2.skip(1);
    assert(a1[0] == a[1] && a2[0] == a[2] && a3[0] == a[3]);
    assert(b1[0] == b[1] && b2[0] == b[2] && b3[0] == b[3]);
    assert(a3.skip(1).len() == 0 && b3.skip(1).len() == 0);
    assert(lex_le(a3.skip(1), b3.skip(1)));
    assert(lex_le(a3, b3) == (a[3] <= b[3]));
    assert(lex_le(a2, b2) == (a[2] < b[2] || (a[2] == b[2] && a[3] <= b[3])));
    assert(lex_le(a1, b1) == (a[1] < b[1] || (a[1] == b[1] && (a[2] < b[2] || (a[2] == b[2] && a[3]
        <= b[3])))));
}

/// The big-endian encoding is order-preserving: byte order equals
/// numeric order.
pub proof fn lemma_be4_order(i: u32, j: u32)
    ensures
        lex_le(be4(i), be4(j)) == (i <= j),
{
    lemma_lex_le_len4(be4(i), be4(j));
    let a0 = (i >> 24) as u8;
    let a1 = ((i >> 16) & 0xff) as u8;
    let a2 = ((i >> 8) & 0xff) as u8;
    let a3 = (i & 0xff) as u8;
    let b0 = (j >> 24) as u8;
    let b1 = ((j >> 16) & 0xff) as u8;
    let b2 = ((j >> 8) & 0xff) as u8;
    let b3 = (j & 0xff) as u8;
    assert((i <= j) == (a0 < b0 || (a0 == b0 && (a1 < b1 || (a1 == b1 && (a2 < b2 || (a2 == b2
        && a3 <= b3)))))) ) by (bit_vector)
        requires
            a0 == (i >> 24) as u8 && a1 == ((i >> 16) & 0xff) as u8 && a2 == ((i >> 8)
                & 0xff) as u8 && a3 == (i & 0xff) as u8 && b0 == (j >> 24) as u8 && b1 == ((j
                >> 16) & 0xff) as u8 && b2 == ((j >> 8) & 0xff) as u8 && b3 == (j & 0xff) as u8,
    ;
}

/// Integer key components encode order-preservingly.
pub proof fn lemma_enc_int_order(i: u32, j: u32)
    ensures
        lex_le(enc_int(i), enc_int(j)) == (i <= j),
{
    lemma_be4_order(i, j);
    lemma_lex_le_common(seq![TAG_INT], be4(i), be4(j));
    assert(enc_int(i) == seq![TAG_INT] + be4(i));
    assert(enc_int(j) == seq![TAG_INT] + be4(j));
}

/// A key built as `prefix + integer component` ends in that integer.
pub proof fn lemma_trailing_int_of_composed(p: Seq<u8>, n: u32)
    ensures
        trailing_int(p + enc_int(n)) == Some(n),
{
    let k = p + enc_int(n);
    assert(k.len() == p.len() + 5);
    assert(k[k.len() - 5] == TAG_INT);
    assert(k.skip(k.len() - 4) =~= be4(n));
    lemma_be4_val_roundtrip(n);
}

/// Reading back the big-endian bytes of `n` gives `n`.
pub proof fn lemma_be4_val_roundtrip(n: u32)
    ensures
        be4_val(be4(n)) == n,
{
    let a0 = (n >> 24) as u8;
    let a1 = ((n >> 16) & 0xff) as u8;
    let a2 = ((n >> 8) & 0xff) as u8;
    let a3 = (n & 0xff) as u8;
    assert(((a0 as u32) << 24) | ((a1 as u32) << 16) | ((a2 as u32) << 8) | (a3 as u32)
        == n) by (bit_vector)
        requires
            a0 == (n >> 24) as u8 && a1 == ((n >> 16) & 0xff) as u8 && a2 == ((n >> 8)
                & 0xff) as u8 && a3 == (n & 0xff) as u8,
    ;
}

/// Parses one escaped, terminated byte-string component at the head
/// of `s`: the unescaped bytes and how many bytes of `s` they took.
pub open spec fn spec_unesc(s: Seq<u8>) -> Option<(Seq<u8>, int)>
    decreases s.len(),
{
    if s.len() >= 2 && s[0] == 0 && s[1] == 0 {
        Some((Seq::empty(), 2))
    } else if s.len() >= 2 && s[0] == 0 && s[1] == 0xff {
        match spec_unesc(s.skip(2)) {
            Some((r, c)) => Some((seq![0u8] + r, c + 2)),
            None => None,
        }
    } else if s.len() >= 1 && s[0] != 0 {
        match spec_unesc(s.skip(1)) {
            Some((r, c)) => Some((seq![s[0]] + r, c + 1)),
            None => None,
        }
    } else {
        None
    }
}

/// Parsing an escaped component back off the wire recovers exactly
/// the bytes that were escaped, whatever follows them.
pub proof fn lemma_unesc_esc(b: Seq<u8>, rest: Seq<u8>)
    ensures
        spec_unesc(esc_bytes(b) + rest) == Some((b, esc_bytes(b).len() as int)),
    decreases b.len(),
{
    let s = esc_bytes(b) + rest;
    if b.len() == 0 {
        assert(esc_body(b) =~= Seq::<u8>::empty());
        assert(esc_bytes(b) =~= seq![0u8, 0u8]);
        assert(s[0] == 0 && s[1] == 0);
        assert(spec_unesc(s) == Some((Seq::<u8>::empty(), 2int)));
        assert(b =~= Seq::<u8>::empty());
    } else {
        let b1 = b.skip(1);
        lemma_unesc_esc(b1, rest);
        if b[0] == 0 {
            assert(esc_body(b) == seq![0u8, 0xffu8] + esc_body(b1));
            assert(s =~= seq![0u8, 0xffu8] + (esc_bytes(b1) + rest));
            assert(s[0] == 0 && s[1] == 0xff);
            assert(s.skip(2) =~= esc_bytes(b1) + rest);
            assert(spec_unesc(s) == Some((seq![0u8] + b1, esc_bytes(b1).len() + 2int)));
            assert(seq![0u8] + b1 =~= b);
            assert(esc_bytes(b).len() == esc_bytes(b1).len() + 2);
        } else {
            assert(esc_body(b) == seq![b[0]] + esc_body(b1));
            assert(s =~= seq![b[0]] + (esc_bytes(b1) + rest));
            assert(s[0] == b[0] && b[0] != 0);
            assert(s.skip(1) =~= esc_bytes(b1) + rest);
            assert(spec_unesc(s) == Some((seq![s[0]] + b1, esc_bytes(b1).len() + 1int)));
            assert(seq![s[0]] + b1 =~= b);
            assert(esc_bytes(b).len() == esc_bytes(b1).len() + 1);
        }
    }
}

/// What a successful parse consumed is the escaping of its result.
pub proof fn lemma_unesc_reconstruct(s: Seq<u8>)
    requires
        spec_unesc(s) is Some,
    ensures
        ({
            let (r, c) = spec_unesc(s)->Some_0;
            2 <= c <= s.len() && s.take(c) == esc_bytes(r)
        }),
    decreases s.len(),
{
    let (r, c) = spec_unesc(s)->Some_0;
    if s.len() >= 2 && s[0] == 0 && s[1] == 0 {
        assert(esc_body(r) =~= Seq::<u8>::empty());
        assert(s.take(2) =~= esc_bytes(Seq::<u8>::empty()));
    } else if s.len() >= 2 && s[0] == 0 && s[1] == 0xff {
        lemma_unesc_reconstruct(s.skip(2));
        let (r2, c2) = spec_unesc(s.skip(2))->Some_0;
        assert(s.skip(2).take(c2) == esc_bytes(r2));
        assert(r == seq![0u8] + r2 && c == c2 + 2);
        assert(r[0] == 0);
        assert(r.skip(1) =~= r2);
        assert(esc_body(r) == seq![0u8, 0xffu8] + esc_body(r2));
        assert(s.take(c) =~= seq![0u8, 0xffu8] + s.skip(2).take(c2));
        assert(s.take(c) =~= esc_bytes(r));
    } else {
        lemma_unesc_reconstruct(s.skip(1));
        let (r2, c2) = spec_unesc(s.skip(1))->Some_0;
        assert(s.skip(1).take(c2) == esc_bytes(r2));
        assert(r == seq![s[0]] + r2 && c == c2 + 1);
        assert(r[0] == s[0] && s[0] != 0);
        assert(r.skip(1) =~= r2);
        assert(esc_body(r) == seq![r[0]] + esc_body(r2));
        assert(s.take(c) =~= seq![s[0]] + s.skip(1).take(c2));
        assert(s.take(c) =~= esc_bytes(r));
    }
}

/// Escaped components concatenate unambiguously.
pub proof fn lemma_esc_concat_inj(a: Seq<u8>, b: Seq<u8>, c: Seq<u8>, d: Seq<u8>)
    requires
        esc_bytes(a) + esc_bytes(b) == esc_bytes(c) + esc_bytes(d),
    ensures
        a == c,
        b == d,
{
    let s = esc_bytes(a) + esc_bytes(b);
    lemma_unesc_esc(a, esc_bytes(b));
    lemma_unesc_esc(c, esc_bytes(d));
    assert(spec_unesc(s) == Some((a, esc_bytes(a).len() as int)));
    assert(spec_unesc(s) == Some((c, esc_bytes(c).len() as int)));
    assert(a == c);
    assert(esc_bytes(a).len() == esc_bytes(c).len());
    assert((esc_bytes(a) + esc_bytes(b)).skip(esc_bytes(a).len() as int) =~= esc_bytes(b));
    assert((esc_bytes(c) + esc_bytes(d)).skip(esc_bytes(c).len() as int) =~= esc_bytes(d));
    assert(esc_bytes(b) =~= esc_bytes(d));
    lemma_unesc_esc(b, Seq::empty());
    lemma_unesc_esc(d, Seq::empty());
    assert(spec_unesc(esc_bytes(b) + Seq::empty()) == Some((b, esc_bytes(b).len() as int)));
    assert(esc_bytes(b) + Seq::<u8>::empty() =~= esc_bytes(d) + Seq::<u8>::empty());
    assert(b == d);
}

/// Parses one escaped component of `b` starting at `start`.
pub fn read_escaped(b: &[u8], start: usize) -> (r: Option<(Vec<u8>, usize)>)
    requires
        start <= b@.len(),
    ensures
        r matches Some(oe) ==> start < oe.1 <= b@.len() && spec_unesc(b@.skip(start as int))
            == Some((oe.0@, oe.1 - start)),
        r is None ==> spec_unesc(b@.skip(start as int)) is None,
{
    let mut out: Vec<u8> = Vec::new();
    let mut i: usize = start;
    proof {
        if spec_unesc(b@.skip(start as int)) is Some {
            let (r2, c2) = spec_unesc(b@.skip(start as int))->Some_0;
            assert(out@ + r2 =~= r2);
        }
    }
    loop
        invariant
            start <= i <= b@.len(),
            spec_unesc(b@.skip(start as int)) == (match spec_unesc(b@.skip(i as int)) {
                Some((r2, c2)) => Some::<(Seq<u8>, int)>((out@ + r2, i - start + c2)),
                None => None::<(Seq<u8>, int)>,
            }),
        decreases b@.len() - i,
    {
        if i >= b.len() {
            assert(b@.skip(i as int).len() == 0);
            return None;
        }
        let byte = b[i];
        proof {
            assert(b@.skip(i as int)[0] == b@[i as int]);
        }
        if byte == 0 {
            if i + 1 >= b.len() {
                assert(b@.skip(i as int).len() == 1);
                return None;
            }
            let byte2 = b[i + 1];
            proof {
                assert(b@.skip(i as int)[1] == b@[i + 1]);
            }
            if byte2 == 0 {
                proof {
                    assert(spec_unesc(b@.skip(i as int)) == Some((Seq::<u8>::empty(), 2int)));
                    assert(out@ + Seq::<u8>::empty() =~= out@);
                }
                return Some((out, i + 2));
            } else if byte2 == 0xff {
                let ghost prev_out = out@;
                out.push(0u8);
                proof {
                    assert(b@.skip(i as int).skip(2) =~= b@.skip(i + 2));
                    assert(out@ =~= prev_out + seq![0u8]);
                    if spec_unesc(b@.skip(i + 2)) is Some {
                        let (r2, c2) = spec_unesc(b@.skip(i + 2))->Some_0;
                        assert(spec_unesc(b@.skip(i as int)) == Some((seq![0u8] + r2, c2 + 2)));
                        assert(prev_out + (seq![0u8] + r2) =~= out@ + r2);
                    } else {
                        assert(spec_unesc(b@.skip(i as int)) is None);
                    }
                }
                i = i + 2;
            } else {
                return None;
            }
        } else {
            let ghost prev_out = out@;
            out.push(byte);
            proof {
                assert(b@.skip(i as int).skip(1) =~= b@.skip(i + 1));
                assert(out@ =~= prev_out + seq![byte]);
                if spec_unesc(b@.skip(i + 1)) is Some {
                    let (r2, c2) = spec_unesc(b@.skip(i + 1))->Some_0;
                    assert(spec_unesc(b@.skip(i as int)) == Some((seq![byte] + r2, c2 + 1)));
                    assert(prev_out + (seq![byte] + r2) =~= out@ + r2);
                } else {
                    assert(spec_unesc(b@.skip(i as int)) is None);
                }
            }
            i = i + 1;
        }
    }
}

/// Relies on String::from_utf8: succeeds exactly on valid UTF-8 and
/// returns the string with exactly those bytes.
#[verifier::external_body]
pub fn string_from_utf8(bytes: Vec<u8>) -> (r: Result<String, Error>)
    ensures
        r matches Ok(s) ==> vstd::utf8::encode_utf8(s@) == bytes@,
        (r is Ok) == vstd::utf8::valid_utf8(bytes@),
        r matches Err(e) ==> e is KeyEncodingError,
{
    match String::from_utf8(bytes) {
        Ok(s) => Ok(s),
        Err(_) => Err(Error::KeyEncodingError),
    }
}

/// The escaped encoding is order-preserving: byte order of two
/// escaped, terminated components equals byte order of the raw bytes.
pub proof fn lemma_esc_bytes_order(a: Seq<u8>, b: Seq<u8>)
    ensures
        lex_le(esc_bytes(a), esc_bytes(b)) == lex_le(a, b),
    decreases a.len() + b.len(),
{
    let ea = esc_bytes(a);
    let eb = esc_bytes(b);
    if a.len() == 0 && b.len() == 0 {
        assert(ea =~= seq![0u8, 0u8]);
        assert(eb =~= seq![0u8, 0u8]);
        assert(ea.skip(1) =~= seq![0u8]);
        assert(eb.skip(1) =~= seq![0u8]);
        assert(ea.skip(1).skip(1) =~= Seq::<u8>::empty());
        assert(lex_le(ea.skip(1).skip(1), eb.skip(1).skip(1)));
        assert(lex_le(ea.skip(1), eb.skip(1)));
        assert(lex_le(ea, eb));
    } else if a.len() == 0 {
        assert(ea =~= seq![0u8, 0u8]);
        assert(lex_le(a, b));
        if b[0] == 0 {
            assert(esc_body(b) == seq![0u8, 0xffu8] + esc_body(b.skip(1)));
            assert(eb[0] == 0 && eb[1] == 0xff);
            assert(ea.skip(1) =~= seq![0u8]);
            assert(eb.skip(1)[0] == 0xff);
            assert(lex_le(ea.skip(1), eb.skip(1)));
            assert(lex_le(ea, eb));
        } else {
            assert(esc_body(b) == seq![b[0]] + esc_body(b.skip(1)));
            assert(eb[0] == b[0] && ea[0] == 0);
            assert(lex_le(ea, eb));
        }
    } else if b.len() == 0 {
        assert(eb =~= seq![0u8, 0u8]);
        assert(!lex_le(a, b));
        if a[0] == 0 {
            assert(esc_body(a) == seq![0u8, 0xffu8] + esc_body(a.skip(1)));
            assert(ea[0] == 0 && ea[1] == 0xff);
            assert(eb.skip(1) =~= seq![0u8]);
            assert(ea.skip(1)[0] == 0xff);
            assert(!lex_le(ea.skip(1), eb.skip(1)));
            assert(!lex_le(ea, eb));
        } else {
            assert(esc_body(a) == seq![a[0]] + esc_body(a.skip(1)));
            assert(ea[0] == a[0] && eb[0] == 0);
            assert(!lex_le(ea, eb));
        }
    } else {
        lemma_esc_bytes_order(a.skip(1), b.skip(1));
        if a[0] == 0 && b[0] == 0 {
            assert(esc_body(a) == seq![0u8, 0xffu8] + esc_body(a.skip(1)));
            assert(esc_body(b) == seq![0u8, 0xffu8] + esc_body(b.skip(1)));
            assert(ea[0] == 0 && ea[1] == 0xff && eb[0] == 0 && eb[1] == 0xff);
            assert(ea.skip(1)[0] == 0xff && eb.skip(1)[0] == 0xff);
            assert(ea.skip(1).skip(1) =~= esc_bytes(a.skip(1)));
            assert(eb.skip(1).skip(1) =~= esc_bytes(b.skip(1)));
            assert(lex_le(ea, eb) == lex_le(ea.skip(1), eb.skip(1)));
            assert(lex_le(ea.skip(1), eb.skip(1)) == lex_le(
                esc_bytes(a.skip(1)),
                esc_bytes(b.skip(1)),
            ));
            assert(lex_le(a, b) == lex_le(a.skip(1), b.skip(1)));
        } else if a[0] == 0 {
            assert(esc_body(a) == seq![0u8, 0xffu8] + esc_body(a.skip(1)));
            assert(esc_body(b) == seq![b[0]] + esc_body(b.skip(1)));
            assert(ea[0] == 0 && eb[0] == b[0] && b[0] > 0);
            assert(lex_le(ea, eb));
            assert(lex_le(a, b));
        } else if b[0] == 0 {
            assert(esc_body(a) == seq![a[0]] + esc_body(a.skip(1)));
            assert(esc_body(b) == seq![0u8, 0xffu8] + esc_body(b.skip(1)));
            assert(ea[0] == a[0] && a[0] > 0 && eb[0] == 0);
            assert(!lex_le(ea, eb));
            assert(!lex_le(a, b));
        } else {
            assert(esc_body(a) == seq![a[0]] + esc_body(a.skip(1)));
            assert(esc_body(b) == seq![b[0]] + esc_body(b.skip(1)));
            assert(ea[0] == a[0] && eb[0] == b[0]);
            if a[0] == b[0] {
                assert(ea.skip(1) =~= esc_bytes(a.skip(1)));
                assert(eb.skip(1) =~= esc_bytes(b.skip(1)));
                assert(lex_le(ea, eb) == lex_le(ea.skip(1), eb.skip(1)));
                assert(lex_le(a, b) == lex_le(a.skip(1), b.skip(1)));
            }
        }
    }
}

/// String key components encode order-preservingly (spec 4.1): the
/// byte-lexicographic order of two encoded string components equals
/// the byte-lexicographic order of the strings' UTF-8 bytes.
pub proof fn lemma_enc_str_order(a: Seq<u8>, b: Seq<u8>)
    ensures
        lex_le(enc_str(a), enc_str(b)) == lex_le(a, b),
{
    lemma_esc_bytes_order(a, b);
    lemma_lex_le_common(seq![TAG_STR], esc_bytes(a), esc_bytes(b));
    assert(enc_str(a) == seq![TAG_STR] + esc_bytes(a));
    assert(enc_str(b) == seq![TAG_STR] + esc_bytes(b));
}

/// Reads a four-byte big-endian value.
pub(crate) fn read_be4(b: &Vec<u8>) -> (r: u32)
    requires
        b@.len() == 4,
    ensures
        r == be4_val(b@),
{
    let b0 = b[0];
    let b1 = b[1];
    let b2 = b[2];
    let b3 = b[3];
    let n: u32 = ((b0 as u32) << 24) | ((b1 as u32) << 16) | ((b2 as u32) << 8) | (b3 as u32);
    proof {
        assert(b@[0] == b0 && b@[1] == b1 && b@[2] == b2 && b@[3] == b3);
    }
    n
}

/// Writes a four-byte big-endian value.
pub(crate) fn be4_vec(n: u32) -> (r: Vec<u8>)
    ensures
        r@ == be4(n),
{
    let mut out: Vec<u8> = Vec::new();
    push_be4(&mut out, n);
    assert(out@ =~= be4(n));
    out
}

/// Reads the trailing integer component of an encoded key.
pub fn read_trailing_int(k: &[u8]) -> (r: Option<u32>)
    ensures
        r == trailing_int(k@),
{
    if k.len() < 5 {
        return None;
    }
    let base = k.len() - 5;
    if k[base] != TAG_INT {
        return None;
    }
    let b0 = k[base + 1];
    let b1 = k[base + 2];
    let b2 = k[base + 3];
    let b3 = k[base + 4];
    let n: u32 = ((b0 as u32) << 24) | ((b1 as u32) << 16) | ((b2 as u32) << 8) | (b3 as u32);
    proof {
        let tail = k@.skip(k@.len() - 4);
        assert(tail.len() == 4);
        assert(tail[0] == b0 && tail[1] == b1 && tail[2] == b2 && tail[3] == b3);
        assert(be4_val(tail) == n);
    }
    Some(n)
}

/// A run of zero or more integer key components.
pub open spec fn is_int_chain(b: Seq<u8>) -> bool
    decreases b.len(),
{
    b.len() == 0 || (b.len() >= 5 && b[0] == TAG_INT && is_int_chain(b.skip(5)))
}

/// `b` is the encoding of some key: one integer or string primitive
/// followed by the integer components of its child layers.
pub open spec fn is_key_encoding(b: Seq<u8>) -> bool {
    if b.len() > 0 && b[0] == TAG_INT {
        b.len() >= 5 && is_int_chain(b)
    } else if b.len() > 0 && b[0] == TAG_STR {
        match spec_unesc(b.skip(1)) {
            Some((x, c)) => vstd::utf8::valid_utf8(x) && is_int_chain(b.skip(1 + c)),
            None => false,
        }
    } else {
        false
    }
}

/// A chain stays a chain when one more integer component follows it.
proof fn lemma_int_chain_extend(b: Seq<u8>, n: u32)
    requires
        is_int_chain(b),
    ensures
        is_int_chain(b + enc_int(n)),
    decreases b.len(),
{
    if b.len() == 0 {
        assert(b + enc_int(n) =~= enc_int(n));
        assert(enc_int(n).skip(5) =~= Seq::<u8>::empty());
        assert(is_int_chain(enc_int(n).skip(5)));
        assert(enc_int(n)[0] == TAG_INT);
        assert(is_int_chain(enc_int(n)));
    } else {
        lemma_int_chain_extend(b.skip(5), n);
        assert((b + enc_int(n)).skip(5) =~= b.skip(5) + enc_int(n));
        assert(is_int_chain((b + enc_int(n)).skip(5)));
        assert((b + enc_int(n))[0] == TAG_INT);
        assert((b + enc_int(n)).len() >= 5);
        assert(is_int_chain(b + enc_int(n)));
    }
}

/// Every key's encoding is a key encoding.
pub proof fn lemma_enc_is_key_encoding(k: Key)
    ensures
        is_key_encoding(key_enc(k)),
    decreases k,
{
    match k {
        Key::Int(n) => {
            assert(enc_int(n)[0] == TAG_INT);
            assert(enc_int(n).skip(5) =~= Seq::<u8>::empty());
            assert(is_int_chain(enc_int(n).skip(5)));
            assert(is_int_chain(enc_int(n)));
        },
        Key::Str(s) => {
            let sb = encode_utf8(s@);
            let b = enc_str(sb);
            assert(b[0] == TAG_STR);
            assert(b.skip(1) =~= esc_bytes(sb) + Seq::<u8>::empty());
            lemma_unesc_esc(sb, Seq::empty());
            vstd::utf8::encode_utf8_valid_utf8(s@);
            assert(b.skip(1 + esc_bytes(sb).len() as int) =~= Seq::<u8>::empty());
        },
        Key::Child(p, n) => {
            lemma_enc_is_key_encoding(*p);
            let e = key_enc(*p);
            let b = e + enc_int(n);
            assert(b[0] == e[0]);
            if e[0] == TAG_INT {
                lemma_int_chain_extend(e, n);
                assert(is_int_chain(b));
            } else {
                let sb = spec_unesc(e.skip(1))->Some_0;
                assert(b.skip(1) =~= e.skip(1) + enc_int(n));
                lemma_unesc_reconstruct(e.skip(1));
                assert(e.skip(1).take(sb.1) == esc_bytes(sb.0));
                lemma_unesc_esc(sb.0, e.skip(1).skip(sb.1) + enc_int(n));
                assert(b.skip(1) =~= esc_bytes(sb.0) + (e.skip(1).skip(sb.1) + enc_int(n)));
                assert(spec_unesc(b.skip(1)) == Some((sb.0, esc_bytes(sb.0).len() as int)));
                assert(b.skip(1 + sb.1) =~= e.skip(1 + sb.1) + enc_int(n));
                lemma_int_chain_extend(e.skip(1 + sb.1), n);
            }
        },
    }
}

/// Decodes an encoded key: the exact inverse of `Key::encode`, and
/// it succeeds on exactly the byte sequences of the encoding's shape.
pub fn decode(bytes: &[u8]) -> (r: Result<Key, Error>)
    ensures
        r matches Ok(k) ==> key_enc(k) == bytes@,
        (r is Ok) == is_key_encoding(bytes@),
{
    if bytes.len() == 0 {
        return Err(Error::KeyEncodingError);
    }
    let tag = bytes[0];
    let mut pos: usize;
    let mut key: Key;
    if tag == TAG_INT {
        proof {
            if bytes@.len() < 5 {
                assert(!is_key_encoding(bytes@));
            }
        }
        match read_int_at(bytes, 0) {
            Some(n) => {
                key = Key::Int(n);
                pos = 5;
            },
            None => {
                return Err(Error::KeyEncodingError);
            },
        }
        proof {
            assert(is_int_chain(bytes@) == is_int_chain(bytes@.skip(5)));
            assert(key_enc(key) =~= bytes@.take(5));
        }
    } else if tag == TAG_STR {
        let (sb, end) = match read_escaped(bytes, 1) {
            Some(x) => x,
            None => {
                proof {
                    assert(bytes@.skip(1int) == bytes@.skip(1));
                }
                return Err(Error::KeyEncodingError);
            },
        };
        proof {
            lemma_unesc_reconstruct(bytes@.skip(1));
        }
        let st = match string_from_utf8(sb) {
            Ok(s) => s,
            Err(_) => {
                return Err(Error::KeyEncodingError);
            },
        };
        key = Key::Str(st);
        pos = end;
        proof {
            assert(bytes@.skip(1).take(end - 1) == esc_bytes(encode_utf8(key->Str_0@)));
            assert(bytes@.take(pos as int) =~= seq![TAG_STR] + bytes@.skip(1).take(end - 1));
            assert(key_enc(key) == bytes@.take(pos as int));
            assert(bytes@.skip(1).skip(end - 1) =~= bytes@.skip(pos as int));
            assert(is_key_encoding(bytes@) == is_int_chain(bytes@.skip(pos as int)));
        }
    } else {
        proof {
            assert(!is_key_encoding(bytes@));
        }
        return Err(Error::KeyEncodingError);
    }
    while pos < bytes.len()
        invariant
            0 < pos <= bytes@.len(),
            key_enc(key) == bytes@.take(pos as int),
            is_key_encoding(bytes@) == is_int_chain(bytes@.skip(pos as int)),
        decreases bytes@.len() - pos,
    {
        proof {
            if bytes@.len() - pos < 5 || bytes@.skip(pos as int)[0] != TAG_INT {
                assert(!is_int_chain(bytes@.skip(pos as int)));
            }
        }
        match read_int_at(bytes, pos) {
            Some(n) => {
                proof {
                    assert(bytes@.skip(pos as int)[0] == bytes@[pos as int]);
                    assert(bytes@.skip(pos as int).skip(5) =~= bytes@.skip(pos + 5));
                    assert(bytes@.take(pos + 5) =~= bytes@.take(pos as int) + bytes@.subrange(
                        pos as int,
                        pos + 5,
                    ));
                }
                key = Key::Child(Box::new(key), n);
                pos = pos + 5;
            },
            None => {
                return Err(Error::KeyEncodingError);
            },
        }
    }
    proof {
        assert(bytes@.skip(pos as int).len() == 0);
        assert(is_int_chain(bytes@.skip(pos as int)));
        assert(bytes@.take(pos as int) =~= bytes@);
    }
    Ok(key)
}

/// Reads one integer component at `off`: five bytes, the integer tag
/// then the big-endian value.
fn read_int_at(b: &[u8], off: usize) -> (r: Option<(u32)>)
    requires
        off <= b@.len(),
    ensures
        r matches Some(n) ==> off + 5 <= b@.len() && b@.subrange(off as int, off + 5) == enc_int(
            n,
        ),
        r is None ==> b@.len() - off < 5 || b@[off as int] != TAG_INT,
{
    if b.len() - off < 5 || b[off] != TAG_INT {
        return None;
    }
    let b0 = b[off + 1];
    let b1 = b[off + 2];
    let b2 = b[off + 3];
    let b3 = b[off + 4];
    let n: u32 = ((b0 as u32) << 24) | ((b1 as u32) << 16) | ((b2 as u32) << 8) | (b3 as u32);
    proof {
        let w = b@.subrange(off as int, off + 5);
        assert(w[0] == TAG_INT && w[1] == b0 && w[2] == b1 && w[3] == b2 && w[4] == b3);
        lemma_be4_val_inverse(w.skip(1));
        assert(be4_val(w.skip(1)) == n);
        assert(w =~= seq![TAG_INT] + w.skip(1));
        assert(w == enc_int(n));
    }
    Some(n)
}

} // verus!
