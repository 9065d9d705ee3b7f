//! Node identities and the capability bundle the quorum-set code needs from them.
//!
//! Two concrete identities coexist: [`NodeId`], the strong handle carrying a
//! public key, and [`ResponderId`], the lightweight `host:port`-like handle it
//! projects to. Everything else in the crate is generic over the [`Identity`]
//! trait.

use vstd::prelude::*;
use vstd::string::*;
use crate::codec::{le_bytes, le_value, lemma_le_bytes_len, lemma_le_bytes_of_value,
    lemma_le_roundtrip, lemma_pow256_int_width, push_le_int, read_le_int, INT_WIDTH};

verus! {

/// The lightweight network handle of a node: a `host:port`-like ASCII string.
#[derive(Debug, PartialEq, Eq, Hash)]
pub struct ResponderId {
    host_port: String,
}

impl View for ResponderId {
    type V = Seq<char>;

    closed spec fn view(&self) -> Seq<char> {
        self.host_port@
    }
}

impl ResponderId {
    /// Well-formed responder identities hold bounded ASCII text.
    #[verifier::type_invariant]
    spec fn ascii_bounded(&self) -> bool {
        vstd::utf8::is_ascii_chars(self.host_port@) && self.host_port@.len() <= usize::MAX
    }

    /// Accepts exactly the ASCII strings as responder identities.
    pub fn new(host_port: String) -> (r: Option<ResponderId>)
        ensures
            r matches Some(id) ==> id@ == host_port@,
            r is Some <==> vstd::utf8::is_ascii_chars(host_port@),
    {
        let _n = host_port.as_str().unicode_len();
        if host_port.is_ascii() {
            Some(ResponderId { host_port })
        } else {
            None
        }
    }

    /// The identity as text.
    pub fn as_string(&self) -> (r: String)
        ensures
            r@ == self@,
    {
        self.host_port.clone()
    }
}

/// The mathematical content of a [`NodeId`]: its responder text and the bytes
/// of its public key.
pub struct NodeIdView {
    pub responder: Seq<char>,
    pub public_key: Seq<u8>,
}

/// The strong handle of a node: its responder identity plus the bytes of its
/// message-signing public key.
#[derive(Debug, PartialEq, Eq, Hash)]
pub struct NodeId {
    /// The `host:port`-like handle the node answers on.
    pub responder_id: ResponderId,
    /// The bytes of the node's public key.
    pub public_key: Vec<u8>,
}

impl View for NodeId {
    type V = NodeIdView;

    open spec fn view(&self) -> NodeIdView {
        NodeIdView { responder: self.responder_id@, public_key: self.public_key@ }
    }
}

impl NodeId {
    /// Pairs a responder identity with the bytes of a public key.
    pub fn new(responder_id: ResponderId, public_key: Vec<u8>) -> (r: NodeId)
        ensures
            r@ == (NodeIdView { responder: responder_id@, public_key: public_key@ }),
    {
        NodeId { responder_id, public_key }
    }
}

/// Compares two byte vectors by contents.
fn bytes_eq(a: &Vec<u8>, b: &Vec<u8>) -> (r: bool)
    ensures
        r == (a@ == b@),
{
    if a.len() != b.len() {
        return false;
    }
    let mut i: usize = 0;
    while i < a.len()
        invariant
            i <= a.len(),
            a@.len() == b@.len(),
            forall|j: int| 0 <= j < i ==> a@[j] == b@[j],
        decreases a.len() - i,
    {
        if a[i] != b[i] {
            return false;
        }
        i += 1;
    }
    proof {
        assert(a@ =~= b@);
    }
    true
}

/// What any node identifier must support: an abstract view, equality and
/// duplication that observe exactly that view, a projection to the
/// lightweight responder identity, and a canonical byte form.
pub trait Identity: View + Sized {
    /// The responder text an identity with view `v` projects to.
    spec fn responder_view(v: Self::V) -> Seq<char>;

    /// The canonical byte form of an identity with view `v`.
    spec fn enc_view(v: Self::V) -> Seq<u8>;

    /// The identity view a byte sequence decodes to, if any.
    spec fn dec_view(b: Seq<u8>) -> Option<Self::V>;

    /// Equality of the identities' views.
    fn id_eq(&self, other: &Self) -> (r: bool)
        ensures
            r == (self@ == other@);

    /// A copy with the same view.
    fn id_clone(&self) -> (r: Self)
        ensures
            r@ == self@;

    /// The lightweight responder identity this identity projects to.
    fn as_responder(&self) -> (r: ResponderId)
        ensures
            r@ == Self::responder_view(self@);

    /// The decoder accepts only canonical byte forms.
    proof fn lemma_enc_canonical(b: Seq<u8>)
        requires
            Self::dec_view(b) is Some,
        ensures
            Self::enc_view(Self::dec_view(b)->Some_0) == b;

    /// Appends the identity's canonical byte form, which decodes back to the
    /// identity's view.
    fn id_to_bytes(&self, out: &mut Vec<u8>)
        ensures
            final(out)@ == old(out)@ + Self::enc_view(self@),
            Self::dec_view(Self::enc_view(self@)) == Some(self@),
            Self::enc_view(self@).len() <= u128::MAX;

    /// Reads an identity back from exactly its canonical byte form.
    fn id_from_bytes(bytes: &Vec<u8>) -> (r: Option<Self>)
        ensures
            r is Some <==> Self::dec_view(bytes@) is Some,
            r matches Some(id) ==> id@ == Self::dec_view(bytes@)->Some_0;
}

/// A view that decodes back from its own byte form, which fits a stream
/// length field.
pub open spec fn valid_id_view<ID: Identity>(v: ID::V) -> bool {
    ID::dec_view(ID::enc_view(v)) == Some(v) && ID::enc_view(v).len() <= u128::MAX
}

/// Relies on String::from_utf8: it succeeds exactly on valid UTF-8 and
/// returns the characters those bytes encode.
#[verifier::external_body]
fn string_from_utf8(bytes: Vec<u8>) -> (r: Option<String>)
    ensures
        r matches Some(s) ==> vstd::utf8::encode_utf8(s@) == bytes@,
        forall|cs: Seq<char>| vstd::utf8::encode_utf8(cs) == bytes@ ==> r is Some,
{
    String::from_utf8(bytes).ok()
}

impl Identity for ResponderId {
    open spec fn responder_view(v: Seq<char>) -> Seq<char> {
        v
    }

    open spec fn enc_view(v: Seq<char>) -> Seq<u8> {
        Seq::new(v.len(), |i: int| v[i] as u8)
    }

    open spec fn dec_view(b: Seq<u8>) -> Option<Seq<char>> {
        if forall|i: int| 0 <= i < b.len() ==> b[i] < 128 {
            Some(Seq::new(b.len(), |i: int| b[i] as char))
        } else {
            None
        }
    }

    fn id_eq(&self, other: &Self) -> (r: bool) {
        self.host_port == other.host_port
    }

    fn id_clone(&self) -> (r: Self) {
        proof {
            use_type_invariant(self);
        }
        ResponderId { host_port: self.host_port.clone() }
    }

    fn as_responder(&self) -> (r: ResponderId) {
        self.id_clone()
    }

    proof fn lemma_enc_canonical(b: Seq<u8>) {
        let cs = Self::dec_view(b)->Some_0;
        assert(Self::enc_view(cs) =~= b);
    }

    fn id_to_bytes(&self, out: &mut Vec<u8>) {
        proof {
            use_type_invariant(self);
            let v = self@;
            let e = Self::enc_view(v);
            assert forall|i: int| 0 <= i < e.len() implies e[i] < 128 by {
                assert('\0' <= v[i] <= '\u{7f}');
            }
            assert(Self::dec_view(e) == Some(Seq::new(e.len(), |i: int| e[i] as char)));
            assert(Seq::new(e.len(), |i: int| e[i] as char) =~= v);
        }
        let bv = self.host_port.as_str().as_bytes_vec();
        proof {
            vstd::utf8::is_ascii_chars_encode_utf8(self.host_port@);
            assert(bv@ =~= Self::enc_view(self@));
        }
        let mut i: usize = 0;
        while i < bv.len()
            invariant
                i <= bv@.len(),
                out@ == old(out)@ + bv@.take(i as int),
            decreases bv@.len() - i,
        {
            out.push(bv[i]);
            proof {
                assert(out@ =~= old(out)@ + bv@.take(i + 1));
            }
            i += 1;
        }
        proof {
            assert(bv@.take(bv@.len() as int) =~= bv@);
        }
    }

    fn id_from_bytes(bytes: &Vec<u8>) -> (r: Option<Self>) {
        let n = bytes.len();
        let mut i: usize = 0;
        while i < n
            invariant
                i <= n,
                n == bytes@.len(),
                forall|j: int| 0 <= j < i ==> bytes@[j] < 128,
            decreases n - i,
        {
            if bytes[i] >= 128 {
                proof {
                    assert(!(bytes@[i as int] < 128));
                }
                return None;
            }
            i += 1;
        }
        let mut own: Vec<u8> = Vec::new();
        let mut k: usize = 0;
        while k < n
            invariant
                k <= n,
                n == bytes@.len(),
                own@ == bytes@.take(k as int),
            decreases n - k,
        {
            own.push(bytes[k]);
            proof {
                assert(own@ =~= bytes@.take(k + 1));
            }
            k += 1;
        }
        proof {
            assert(own@ =~= bytes@);
        }
        let ghost cs = Seq::new(bytes@.len(), |i: int| bytes@[i] as char);
        proof {
            assert(vstd::utf8::is_ascii_chars(cs));
            vstd::utf8::is_ascii_chars_encode_utf8(cs);
            assert(vstd::utf8::encode_utf8(cs) =~= bytes@);
        }
        match string_from_utf8(own) {
            Some(s) => {
                proof {
                    vstd::utf8::encode_utf8_decode_utf8(cs);
                    vstd::utf8::encode_utf8_decode_utf8(s@);
                    assert(s@ == cs);
                    assert(vstd::utf8::is_ascii_chars(s@));
                }
                Some(ResponderId { host_port: s })
            },
            None => {
                proof {
                    assert(false);
                }
                None
            },
        }
    }
}

impl Identity for NodeId {
    open spec fn responder_view(v: NodeIdView) -> Seq<char> {
        v.responder
    }

    open spec fn enc_view(v: NodeIdView) -> Seq<u8> {
        let rb = <ResponderId as Identity>::enc_view(v.responder);
        le_bytes(rb.len() as int, INT_WIDTH as int) + rb + le_bytes(
            v.public_key.len() as int,
            INT_WIDTH as int,
        ) + v.public_key
    }

    open spec fn dec_view(b: Seq<u8>) -> Option<NodeIdView> {
        if b.len() < 2 * INT_WIDTH {
            None
        } else {
            let l1 = le_value(b.subrange(0, INT_WIDTH as int));
            if INT_WIDTH + l1 + INT_WIDTH > b.len() {
                None
            } else {
                let rb = b.subrange(INT_WIDTH as int, INT_WIDTH + l1);
                match <ResponderId as Identity>::dec_view(rb) {
                    None => None,
                    Some(resp) => {
                        let l2 = le_value(b.subrange(INT_WIDTH + l1, 2 * INT_WIDTH + l1));
                        if b.len() != 2 * INT_WIDTH + l1 + l2 {
                            None
                        } else {
                            Some(
                                NodeIdView {
                                    responder: resp,
                                    public_key: b.subrange(2 * INT_WIDTH + l1, b.len() as int),
                                },
                            )
                        }
                    },
                }
            }
        }
    }

    fn id_eq(&self, other: &Self) -> (r: bool) {
        self.responder_id.id_eq(&other.responder_id) && bytes_eq(&self.public_key, &other.public_key)
    }

    fn id_clone(&self) -> (r: Self) {
        let mut key: Vec<u8> = Vec::new();
        let mut i: usize = 0;
        while i < self.public_key.len()
            invariant
                i <= self.public_key.len(),
                key@ == self.public_key@.take(i as int),
            decreases self.public_key.len() - i,
        {
            key.push(self.public_key[i]);
            proof {
                assert(key@ =~= self.public_key@.take(i + 1));
            }
            i += 1;
        }
        proof {
            assert(key@ =~= self.public_key@);
        }
        NodeId { responder_id: self.responder_id.id_clone(), public_key: key }
    }

    fn as_responder(&self) -> (r: ResponderId) {
        self.responder_id.id_clone()
    }

    proof fn lemma_enc_canonical(b: Seq<u8>) {
        let l1 = le_value(b.subrange(0, INT_WIDTH as int));
        let w = INT_WIDTH as int;
        let rb = b.subrange(w, w + l1);
        ResponderId::lemma_enc_canonical(rb);
        let resp = <ResponderId as Identity>::dec_view(rb)->Some_0;
        let l2 = le_value(b.subrange(w + l1, 2 * w + l1));
        let kb = b.subrange(2 * w + l1, b.len() as int);
        crate::codec::lemma_le_value_bound(b.subrange(0, w));
        crate::codec::lemma_le_value_bound(b.subrange(w + l1, 2 * w + l1));
        lemma_le_bytes_of_value(b.subrange(0, w));
        lemma_le_bytes_of_value(b.subrange(w + l1, 2 * w + l1));
        let v = Self::dec_view(b)->Some_0;
        assert(v == NodeIdView { responder: resp, public_key: kb });
        assert(<ResponderId as Identity>::enc_view(resp) == rb);
        assert(rb.len() == l1 && kb.len() == l2);
        assert(Self::enc_view(v) =~= b);
    }

    fn id_to_bytes(&self, out: &mut Vec<u8>) {
        let mut rb: Vec<u8> = Vec::new();
        self.responder_id.id_to_bytes(&mut rb);
        proof {
            assert(rb@ =~= <ResponderId as Identity>::enc_view(self@.responder));
            vstd::std_specs::vec::axiom_spec_len(&self.public_key);
            vstd::std_specs::vec::axiom_spec_len(&rb);
            lemma_pow256_int_width();
            let v = self@;
            let rbs = <ResponderId as Identity>::enc_view(v.responder);
            let kb = v.public_key;
            let w = INT_WIDTH as int;
            assert(usize::MAX <= u128::MAX);
            lemma_le_bytes_len(rbs.len() as int, w);
            lemma_le_bytes_len(kb.len() as int, w);
            lemma_le_roundtrip(rbs.len() as int, w);
            lemma_le_roundtrip(kb.len() as int, w);
            let e = Self::enc_view(v);
            assert(e.len() == 2 * w + rbs.len() + kb.len());
            assert(e.subrange(0, w) =~= le_bytes(rbs.len() as int, w));
            assert(e.subrange(w, w + rbs.len()) =~= rbs);
            assert(e.subrange(w + rbs.len(), 2 * w + rbs.len()) =~= le_bytes(kb.len() as int, w));
            assert(e.subrange(2 * w + rbs.len(), e.len() as int) =~= kb);
            assert(Self::dec_view(e) == Some(
                NodeIdView { responder: v.responder, public_key: kb },
            ));
            assert(NodeIdView { responder: v.responder, public_key: kb } == v);
        }
        push_le_int(out, rb.len() as u128);
        let mut i: usize = 0;
        let ghost mid1 = out@;
        while i < rb.len()
            invariant
                i <= rb@.len(),
                out@ == mid1 + rb@.take(i as int),
            decreases rb@.len() - i,
        {
            out.push(rb[i]);
            proof {
                assert(out@ =~= mid1 + rb@.take(i + 1));
            }
            i += 1;
        }
        proof {
            assert(rb@.take(rb@.len() as int) =~= rb@);
        }
        push_le_int(out, self.public_key.len() as u128);
        let ghost mid2 = out@;
        let mut k: usize = 0;
        while k < self.public_key.len()
            invariant
                k <= self.public_key@.len(),
                out@ == mid2 + self.public_key@.take(k as int),
            decreases self.public_key@.len() - k,
        {
            out.push(self.public_key[k]);
            proof {
                assert(out@ =~= mid2 + self.public_key@.take(k + 1));
            }
            k += 1;
        }
        proof {
            assert(self.public_key@.take(self.public_key@.len() as int) =~= self.public_key@);
            assert(out@ =~= old(out)@ + Self::enc_view(self@));
        }
    }

    fn id_from_bytes(bytes: &Vec<u8>) -> (r: Option<Self>) {
        proof {
            lemma_pow256_int_width();
        }
        let n = bytes.len();
        if n < 2 * INT_WIDTH {
            return None;
        }
        let l1 = read_le_int(bytes, 0);
        if l1 > ((n - 2 * INT_WIDTH) as u128) {
            return None;
        }
        let l1u = l1 as usize;
        let mut rb: Vec<u8> = Vec::new();
        let mut i: usize = 0;
        while i < l1u
            invariant
                i <= l1u,
                INT_WIDTH + l1u <= bytes@.len(),
                rb@ == bytes@.subrange(INT_WIDTH as int, INT_WIDTH + i),
            decreases l1u - i,
        {
            proof {
                vstd::std_specs::vec::axiom_spec_len(bytes);
            }
            rb.push(bytes[INT_WIDTH + i]);
            proof {
                assert(rb@ =~= bytes@.subrange(INT_WIDTH as int, INT_WIDTH + i + 1));
            }
            i += 1;
        }
        let resp = match ResponderId::id_from_bytes(&rb) {
            Some(resp) => resp,
            None => {
                return None;
            },
        };
        let l2 = read_le_int(bytes, INT_WIDTH + l1u);
        if l2 != ((n - 2 * INT_WIDTH - l1u) as u128) {
            return None;
        }
        let start = 2 * INT_WIDTH + l1u;
        let mut kb: Vec<u8> = Vec::new();
        let mut k: usize = 0;
        while k < n - start
            invariant
                start == 2 * INT_WIDTH + l1u,
                start <= n,
                k <= n - start,
                n == bytes@.len(),
                kb@ == bytes@.subrange(start as int, start + k),
            decreases n - start - k,
        {
            proof {
                vstd::std_specs::vec::axiom_spec_len(bytes);
            }
            kb.push(bytes[start + k]);
            proof {
                assert(kb@ =~= bytes@.subrange(start as int, start + k + 1));
            }
            k += 1;
        }
        proof {
            assert(kb@ =~= bytes@.subrange(2 * INT_WIDTH + l1u, bytes@.len() as int));
        }
        Some(NodeId { responder_id: resp, public_key: kb })
    }
}

} // verus!
