//! The deterministic binary form of quorum sets.
//!
//! Fields come in a stable order — threshold first, members second — and each
//! member carries its discriminator before its payload. Every integer in the
//! stream (thresholds, member counts, byte lengths) is a 16-byte
//! little-endian value, so any length that fits in memory encodes losslessly.

use vstd::prelude::*;
use crate::identity::{valid_id_view, Identity};
use crate::quorum_set::{
    lemma_members_view_index, member_view, members_view, qs_view, QuorumSet, QuorumSetMember,
    QuorumSetMemberView, QuorumSetView,
};

verus! {

/// The width of every integer in the stream, in bytes.
pub const INT_WIDTH: usize = 16;

/// `256^k`.
pub open spec fn pow256(k: int) -> int
    decreases k,
{
    if k <= 0 {
        1
    } else {
        256 * pow256(k - 1)
    }
}

/// The `k` little-endian base-256 digits of `n`.
pub open spec fn le_bytes(n: int, k: int) -> Seq<u8>
    decreases k,
{
    if k <= 0 {
        Seq::empty()
    } else {
        seq![(n % 256) as u8] + le_bytes(n / 256, k - 1)
    }
}

/// The number a byte sequence denotes in little-endian base 256.
pub open spec fn le_value(b: Seq<u8>) -> int
    decreases b.len(),
{
    if b.len() == 0 {
        0
    } else {
        b[0] + 256 * le_value(b.drop_first())
    }
}

/// `le_bytes` always yields exactly `k` digits.
pub proof fn lemma_le_bytes_len(n: int, k: int)
    requires
        k >= 0,
    ensures
        le_bytes(n, k).len() == k,
    decreases k,
{
    if k > 0 {
        lemma_le_bytes_len(n / 256, k - 1);
    }
}

/// Powers of 256 are positive.
pub proof fn lemma_pow256_pos(k: int)
    ensures
        pow256(k) >= 1,
    decreases k,
{
    if k > 0 {
        lemma_pow256_pos(k - 1);
    }
}

/// Reading back the digits of `n` yields `n` whenever `n` fits in `k` digits.
pub proof fn lemma_le_roundtrip(n: int, k: int)
    requires
        0 <= n < pow256(k),
    ensures
        le_value(le_bytes(n, k)) == n,
    decreases k,
{
    if k <= 0 {
    } else {
        lemma_pow256_pos(k - 1);
        assert(n / 256 < pow256(k - 1)) by (nonlinear_arith)
            requires
                n < 256 * pow256(k - 1),
                pow256(k - 1) >= 1,
                n >= 0,
        ;
        lemma_le_roundtrip(n / 256, k - 1);
        let b = le_bytes(n, k);
        assert(b[0] == (n % 256) as u8);
        assert(b.drop_first() =~= le_bytes(n / 256, k - 1));
    }
}

/// What any `k` digits denote is below `256^k`.
pub proof fn lemma_le_value_bound(b: Seq<u8>)
    ensures
        0 <= le_value(b) < pow256(b.len() as int),
    decreases b.len(),
{
    if b.len() > 0 {
        lemma_le_value_bound(b.drop_first());
        let v = le_value(b.drop_first());
        assert(b[0] + 256 * v < 256 * pow256(b.len() - 1)) by (nonlinear_arith)
            requires
                0 <= v < pow256(b.len() - 1),
                0 <= b[0] < 256,
        ;
        assert(0 <= b[0] + 256 * v) by (nonlinear_arith)
            requires
                v >= 0,
                b[0] >= 0,
        ;
    }
}

/// `u128::MAX` is `256^16 - 1`, so every stream integer fits its digits.
pub proof fn lemma_pow256_int_width()
    ensures
        pow256(INT_WIDTH as int) == 0x100000000000000000000000000000000,
{
    assert(pow256(0) == 1);
    assert(pow256(1) == 0x100);
    assert(pow256(2) == 0x10000);
    assert(pow256(3) == 0x1000000);
    assert(pow256(4) == 0x100000000);
    assert(pow256(5) == 0x10000000000);
    assert(pow256(6) == 0x1000000000000);
    assert(pow256(7) == 0x100000000000000);
    assert(pow256(8) == 0x10000000000000000);
    assert(pow256(9) == 0x1000000000000000000);
    assert(pow256(10) == 0x100000000000000000000);
    assert(pow256(11) == 0x10000000000000000000000);
    assert(pow256(12) == 0x1000000000000000000000000);
    assert(pow256(13) == 0x100000000000000000000000000);
    assert(pow256(14) == 0x10000000000000000000000000000);
    assert(pow256(15) == 0x1000000000000000000000000000000);
    assert(pow256(16) == 0x100000000000000000000000000000000);
}

/// Appends the 16 little-endian digits of `n`.
pub fn push_le_int(out: &mut Vec<u8>, n: u128)
    ensures
        final(out)@ == old(out)@ + le_bytes(n as int, INT_WIDTH as int),
{
    proof {
        lemma_pow256_int_width();
        lemma_le_bytes_len(n as int, INT_WIDTH as int);
    }
    let ghost start = out@;
    let mut cur: u128 = n;
    let mut i: usize = 0;
    while i < INT_WIDTH
        invariant
            i <= INT_WIDTH,
            out@ + le_bytes(cur as int, INT_WIDTH - i) == start + le_bytes(
                n as int,
                INT_WIDTH as int,
            ),
        decreases INT_WIDTH - i,
    {
        let ghost before = out@;
        let ghost cur0 = cur as int;
        out.push((cur % 256) as u8);
        cur = cur / 256;
        proof {
            assert(le_bytes(cur0, INT_WIDTH - i) == seq![(cur0 % 256) as u8] + le_bytes(
                cur0 / 256,
                INT_WIDTH - i - 1,
            ));
            assert(out@ + le_bytes(cur as int, INT_WIDTH - (i + 1)) =~= before + le_bytes(
                cur0,
                INT_WIDTH - i,
            ));
        }
        i += 1;
    }
    proof {
        assert(le_bytes(cur as int, 0).len() == 0);
        assert(out@ =~= out@ + le_bytes(cur as int, 0));
    }
}

/// Reads the 16-digit little-endian integer at `at`.
pub fn read_le_int(bytes: &Vec<u8>, at: usize) -> (r: u128)
    requires
        at + INT_WIDTH <= bytes@.len(),
    ensures
        r as int == le_value(bytes@.subrange(at as int, at + INT_WIDTH)),
{
    proof {
        lemma_pow256_int_width();
    }
    let mut acc: u128 = 0;
    let mut i: usize = INT_WIDTH;
    while i > 0
        invariant
            i <= INT_WIDTH,
            at + INT_WIDTH <= bytes@.len(),
            acc as int == le_value(bytes@.subrange(at + i, at + INT_WIDTH)),
            (acc as int) < pow256(INT_WIDTH - i),
        decreases i,
    {
        proof {
            lemma_pow256_int_width();
            lemma_le_value_bound(bytes@.subrange(at + i, at + INT_WIDTH));
            let whole = bytes@.subrange(at + i - 1, at + INT_WIDTH);
            assert(whole.drop_first() =~= bytes@.subrange(at + i, at + INT_WIDTH));
            assert(whole[0] == bytes@[at + i - 1]);
            lemma_pow256_pos((INT_WIDTH - i) as int);
            let a = acc as int;
            let p = pow256(INT_WIDTH - i);
            assert(256 * a + 255 < 256 * p) by (nonlinear_arith)
                requires
                    a < p,
            ;
            assert(256 * pow256(INT_WIDTH - i) == pow256(INT_WIDTH - i + 1));
            assert(pow256(INT_WIDTH - i + 1) <= pow256(INT_WIDTH as int)) by {
                lemma_pow256_monotone(INT_WIDTH - i + 1, INT_WIDTH as int);
            }
        }
        proof {
            assert(256 * (acc as int) + 255 <= u128::MAX);
        }
        i -= 1;
        proof {
            vstd::std_specs::vec::axiom_spec_len(bytes);
            assert(at + i < bytes@.len());
        }
        let b = bytes[at + i];
        acc = acc * 256 + (b as u128);
    }
    proof {
        assert(bytes@.subrange(at as int, at + INT_WIDTH) == bytes@.subrange(
            at + 0,
            at + INT_WIDTH,
        ));
    }
    acc
}

/// The digits of what a byte sequence denotes are that sequence.
pub proof fn lemma_le_bytes_of_value(b: Seq<u8>)
    ensures
        le_bytes(le_value(b), b.len() as int) == b,
    decreases b.len(),
{
    if b.len() > 0 {
        lemma_le_bytes_of_value(b.drop_first());
        lemma_le_value_bound(b.drop_first());
        let v = le_value(b);
        let rest = le_value(b.drop_first());
        assert(v == b[0] + 256 * rest);
        assert(v % 256 == b[0] && v / 256 == rest) by (nonlinear_arith)
            requires
                v == b[0] + 256 * rest,
                0 <= b[0] < 256,
                rest >= 0,
        ;
        assert(le_bytes(v, b.len() as int) =~= b);
    }
}

/// Powers of 256 grow with the exponent.
proof fn lemma_pow256_monotone(a: int, b: int)
    requires
        a <= b,
    ensures
        pow256(a) <= pow256(b),
    decreases b - a,
{
    if a < b {
        lemma_pow256_monotone(a, b - 1);
        lemma_pow256_pos(b - 1);
    }
}

/// The byte form of one member: its discriminator, then its payload. A node
/// carries its identity bytes behind their length; an inner set carries its
/// own encoding.
pub open spec fn enc_member<ID: Identity>(m: QuorumSetMemberView<ID::V>) -> Seq<u8>
    decreases m,
{
    match m {
        QuorumSetMemberView::Node(v) => seq![0u8] + le_bytes(
            ID::enc_view(v).len() as int,
            INT_WIDTH as int,
        ) + ID::enc_view(v),
        QuorumSetMemberView::InnerSet(q) => seq![1u8] + enc_qs::<ID>(q),
    }
}

/// The byte form of a member list, in order.
pub open spec fn enc_members<ID: Identity>(ms: Seq<QuorumSetMemberView<ID::V>>) -> Seq<u8>
    decreases ms,
{
    if ms.len() == 0 {
        Seq::empty()
    } else {
        enc_member::<ID>(ms[0]) + enc_members::<ID>(ms.drop_first())
    }
}

/// The byte form of a quorum set: threshold first, members second.
pub open spec fn enc_qs<ID: Identity>(q: QuorumSetView<ID::V>) -> Seq<u8>
    decreases q,
{
    le_bytes(q.threshold as int, INT_WIDTH as int) + le_bytes(
        q.members.len() as int,
        INT_WIDTH as int,
    ) + enc_members::<ID>(q.members)
}

/// A member view the codec can reproduce: identities decode back from their
/// byte forms and all sizes fit the stream's fields.
pub open spec fn member_wf<ID: Identity>(m: QuorumSetMemberView<ID::V>) -> bool
    decreases m,
{
    match m {
        QuorumSetMemberView::Node(v) => valid_id_view::<ID>(v),
        QuorumSetMemberView::InnerSet(q) => qs_wf::<ID>(q),
    }
}

/// Every member of the list is well formed.
pub open spec fn members_wf<ID: Identity>(ms: Seq<QuorumSetMemberView<ID::V>>) -> bool
    decreases ms,
{
    ms.len() == 0 || (member_wf::<ID>(ms[0]) && members_wf::<ID>(ms.drop_first()))
}

/// A quorum-set view the codec can reproduce.
pub open spec fn qs_wf<ID: Identity>(q: QuorumSetView<ID::V>) -> bool
    decreases q,
{
    q.threshold <= u32::MAX && q.members.len() <= u64::MAX && members_wf::<ID>(q.members)
}

/// What decoding one member at offset `at` yields: the member's view and the
/// offset just past it.
pub open spec fn dec_member<ID: Identity>(b: Seq<u8>, at: int) -> Option<
    (QuorumSetMemberView<ID::V>, int),
>
    decreases b.len() - at, 0int,
{
    let w = INT_WIDTH as int;
    if at < 0 || at + 1 > b.len() {
        None
    } else if b[at] == 0 {
        if at + 1 + w > b.len() {
            None
        } else {
            let l = le_value(b.subrange(at + 1, at + 1 + w));
            if at + 1 + w + l > b.len() {
                None
            } else {
                match ID::dec_view(b.subrange(at + 1 + w, at + 1 + w + l)) {
                    None => None,
                    Some(v) => Some((QuorumSetMemberView::Node(v), at + 1 + w + l)),
                }
            }
        }
    } else if b[at] == 1 {
        match dec_qs::<ID>(b, at + 1) {
            None => None,
            Some((q, at2)) => Some((QuorumSetMemberView::InnerSet(q), at2)),
        }
    } else {
        None
    }
}

/// What decoding `n` members at offset `at` yields.
pub open spec fn dec_members<ID: Identity>(b: Seq<u8>, at: int, n: int) -> Option<
    (Seq<QuorumSetMemberView<ID::V>>, int),
>
    decreases b.len() - at, 1int,
{
    if n <= 0 {
        Some((Seq::empty(), at))
    } else if at < 0 || at > b.len() {
        None
    } else {
        match dec_member::<ID>(b, at) {
            None => None,
            Some((m, at2)) => if !(at < at2 <= b.len()) {
                None
            } else {
                match dec_members::<ID>(b, at2, n - 1) {
                    None => None,
                    Some((ms, at3)) => Some((seq![m] + ms, at3)),
                }
            },
        }
    }
}

/// What decoding a quorum set at offset `at` yields.
pub open spec fn dec_qs<ID: Identity>(b: Seq<u8>, at: int) -> Option<(QuorumSetView<ID::V>, int)>
    decreases b.len() - at, 2int,
{
    let w = INT_WIDTH as int;
    if at < 0 || at + 2 * w > b.len() {
        None
    } else {
        let t = le_value(b.subrange(at, at + w));
        if t > u32::MAX {
            None
        } else {
            let n = le_value(b.subrange(at + w, at + 2 * w));
            match dec_members::<ID>(b, at + 2 * w, n) {
                None => None,
                Some((ms, at2)) => Some(
                    (QuorumSetView { threshold: t as nat, members: ms }, at2),
                ),
            }
        }
    }
}

/// Decoding at the start of a well-formed member's byte form yields exactly
/// that member and stops exactly past it.
proof fn lemma_dec_enc_member<ID: Identity>(m: QuorumSetMemberView<ID::V>, b: Seq<u8>, at: int)
    requires
        member_wf::<ID>(m),
        0 <= at,
        at + enc_member::<ID>(m).len() <= b.len(),
        b.subrange(at, at + enc_member::<ID>(m).len()) == enc_member::<ID>(m),
    ensures
        dec_member::<ID>(b, at) == Some((m, at + enc_member::<ID>(m).len())),
    decreases m,
{
    let w = INT_WIDTH as int;
    let e = enc_member::<ID>(m);
    assert(b[at] == e[0]) by {
        assert(b.subrange(at, at + e.len())[0] == b[at]);
    }
    match m {
        QuorumSetMemberView::Node(v) => {
            let iv = ID::enc_view(v);
            lemma_le_bytes_len(iv.len() as int, w);
            lemma_pow256_int_width();
            assert(e[0] == 0);
            assert(e.len() == 1 + w + iv.len());
            assert(b.subrange(at + 1, at + 1 + w) =~= le_bytes(iv.len() as int, w)) by {
                assert forall|i: int| 0 <= i < w implies b.subrange(at + 1, at + 1 + w)[i] == le_bytes(
                    iv.len() as int,
                    w,
                )[i] by {
                    assert(b.subrange(at, at + e.len())[1 + i] == b[at + 1 + i]);
                    assert(e[1 + i] == le_bytes(iv.len() as int, w)[i]);
                }
            }
            lemma_le_roundtrip(iv.len() as int, w);
            let l = le_value(b.subrange(at + 1, at + 1 + w));
            assert(l == iv.len());
            assert(b.subrange(at + 1 + w, at + 1 + w + l) =~= iv) by {
                assert forall|i: int| 0 <= i < l implies b.subrange(at + 1 + w, at + 1 + w + l)[i]
                    == iv[i] by {
                    assert(b.subrange(at, at + e.len())[1 + w + i] == b[at + 1 + w + i]);
                    assert(e[1 + w + i] == iv[i]);
                }
            }
            assert(ID::dec_view(iv) == Some(v));
        },
        QuorumSetMemberView::InnerSet(q) => {
            let eq = enc_qs::<ID>(q);
            assert(e[0] == 1);
            assert(e.len() == 1 + eq.len());
            assert(b.subrange(at + 1, at + 1 + eq.len()) =~= eq) by {
                assert forall|i: int| 0 <= i < eq.len() implies b.subrange(
                    at + 1,
                    at + 1 + eq.len(),
                )[i] == eq[i] by {
                    assert(b.subrange(at, at + e.len())[1 + i] == b[at + 1 + i]);
                    assert(e[1 + i] == eq[i]);
                }
            }
            lemma_dec_enc_qs::<ID>(q, b, at + 1);
        },
    }
}

/// Decoding a well-formed member list's byte form yields exactly that list.
proof fn lemma_dec_enc_members<ID: Identity>(
    ms: Seq<QuorumSetMemberView<ID::V>>,
    b: Seq<u8>,
    at: int,
)
    requires
        members_wf::<ID>(ms),
        0 <= at,
        at + enc_members::<ID>(ms).len() <= b.len(),
        b.subrange(at, at + enc_members::<ID>(ms).len()) == enc_members::<ID>(ms),
    ensures
        dec_members::<ID>(b, at, ms.len() as int) == Some(
            (ms, at + enc_members::<ID>(ms).len()),
        ),
    decreases ms,
{
    if ms.len() == 0 {
        assert(ms =~= Seq::<QuorumSetMemberView<ID::V>>::empty());
    } else {
        let e0 = enc_member::<ID>(ms[0]);
        let rest = enc_members::<ID>(ms.drop_first());
        let e = enc_members::<ID>(ms);
        assert(e == e0 + rest);
        assert(e0.len() >= 1) by {
            match ms[0] {
                QuorumSetMemberView::Node(v) => {
                    lemma_le_bytes_len(ID::enc_view(v).len() as int, INT_WIDTH as int);
                },
                QuorumSetMemberView::InnerSet(_) => {},
            }
        }
        assert(b.subrange(at, at + e0.len()) =~= e0) by {
            assert forall|i: int| 0 <= i < e0.len() implies b.subrange(at, at + e0.len())[i]
                == e0[i] by {
                assert(b.subrange(at, at + e.len())[i] == b[at + i]);
                assert(e[i] == e0[i]);
            }
        }
        assert(b.subrange(at + e0.len(), at + e.len()) =~= rest) by {
            assert forall|i: int| 0 <= i < rest.len() implies b.subrange(
                at + e0.len(),
                at + e.len(),
            )[i] == rest[i] by {
                assert(b.subrange(at, at + e.len())[e0.len() + i] == b[at + e0.len() + i]);
                assert(e[e0.len() + i] == rest[i]);
            }
        }
        lemma_dec_enc_member::<ID>(ms[0], b, at);
        lemma_dec_enc_members::<ID>(ms.drop_first(), b, at + e0.len());
        assert(seq![ms[0]] + ms.drop_first() =~= ms);
    }
}

/// Decoding a well-formed quorum set's byte form yields exactly that set.
proof fn lemma_dec_enc_qs<ID: Identity>(q: QuorumSetView<ID::V>, b: Seq<u8>, at: int)
    requires
        qs_wf::<ID>(q),
        0 <= at,
        at + enc_qs::<ID>(q).len() <= b.len(),
        b.subrange(at, at + enc_qs::<ID>(q).len()) == enc_qs::<ID>(q),
    ensures
        dec_qs::<ID>(b, at) == Some((q, at + enc_qs::<ID>(q).len())),
    decreases q,
{
    let w = INT_WIDTH as int;
    let e = enc_qs::<ID>(q);
    let tb = le_bytes(q.threshold as int, w);
    let nb = le_bytes(q.members.len() as int, w);
    let body = enc_members::<ID>(q.members);
    lemma_le_bytes_len(q.threshold as int, w);
    lemma_le_bytes_len(q.members.len() as int, w);
    lemma_pow256_int_width();
    assert(e == tb + nb + body);
    assert(e.len() == 2 * w + body.len());
    assert(b.subrange(at, at + w) =~= tb) by {
        assert forall|i: int| 0 <= i < w implies b.subrange(at, at + w)[i] == tb[i] by {
            assert(b.subrange(at, at + e.len())[i] == b[at + i]);
            assert(e[i] == tb[i]);
        }
    }
    assert(b.subrange(at + w, at + 2 * w) =~= nb) by {
        assert forall|i: int| 0 <= i < w implies b.subrange(at + w, at + 2 * w)[i] == nb[i] by {
            assert(b.subrange(at, at + e.len())[w + i] == b[at + w + i]);
            assert(e[w + i] == nb[i]);
        }
    }
    assert(b.subrange(at + 2 * w, at + e.len()) =~= body) by {
        assert forall|i: int| 0 <= i < body.len() implies b.subrange(at + 2 * w, at + e.len())[i]
            == body[i] by {
            assert(b.subrange(at, at + e.len())[2 * w + i] == b[at + 2 * w + i]);
            assert(e[2 * w + i] == body[i]);
        }
    }
    lemma_le_roundtrip(q.threshold as int, w);
    lemma_le_roundtrip(q.members.len() as int, w);
    lemma_dec_enc_members::<ID>(q.members, b, at + 2 * w);
    assert((QuorumSetView { threshold: ((q.threshold as int) as nat), members: q.members }) == q);
}

/// What one decoded member re-encodes to: exactly the bytes it was read from.
proof fn lemma_enc_dec_member<ID: Identity>(b: Seq<u8>, at: int)
    requires
        dec_member::<ID>(b, at) is Some,
    ensures
        ({
            let (m, at2) = dec_member::<ID>(b, at)->Some_0;
            &&& at < at2 <= b.len()
            &&& enc_member::<ID>(m) == b.subrange(at, at2)
        }),
    decreases b.len() - at, 0int,
{
    let w = INT_WIDTH as int;
    let (m, at2) = dec_member::<ID>(b, at)->Some_0;
    if b[at] == 0 {
        let l = le_value(b.subrange(at + 1, at + 1 + w));
        let ib = b.subrange(at + 1 + w, at + 1 + w + l);
        lemma_le_value_bound(b.subrange(at + 1, at + 1 + w));
        ID::lemma_enc_canonical(ib);
        let v = ID::dec_view(ib)->Some_0;
        assert(ID::enc_view(v) == ib);
        assert(ib.len() == l);
        lemma_le_bytes_of_value(b.subrange(at + 1, at + 1 + w));
        assert(le_bytes(l, w) == b.subrange(at + 1, at + 1 + w));
        assert(enc_member::<ID>(m) =~= b.subrange(at, at2));
    } else {
        lemma_enc_dec_qs::<ID>(b, at + 1);
        let (q, _) = dec_qs::<ID>(b, at + 1)->Some_0;
        assert(enc_member::<ID>(m) =~= seq![1u8] + enc_qs::<ID>(q));
        assert(enc_member::<ID>(m) =~= b.subrange(at, at2));
    }
}

/// What a decoded member list re-encodes to: exactly the bytes it was read
/// from, one member per count.
proof fn lemma_enc_dec_members<ID: Identity>(b: Seq<u8>, at: int, n: int)
    requires
        0 <= at <= b.len(),
        n >= 0,
        dec_members::<ID>(b, at, n) is Some,
    ensures
        ({
            let (ms, at2) = dec_members::<ID>(b, at, n)->Some_0;
            &&& ms.len() == n
            &&& at <= at2 <= b.len()
            &&& at2 == at + enc_members::<ID>(ms).len()
            &&& enc_members::<ID>(ms) == b.subrange(at, at2)
        }),
    decreases b.len() - at, 1int,
{
    let (ms, at2) = dec_members::<ID>(b, at, n)->Some_0;
    if n <= 0 {
        assert(ms =~= Seq::<QuorumSetMemberView<ID::V>>::empty());
        assert(enc_members::<ID>(ms).len() == 0);
        assert(enc_members::<ID>(ms) =~= b.subrange(at, at));
    } else {
        let (m, atm) = dec_member::<ID>(b, at)->Some_0;
        lemma_enc_dec_member::<ID>(b, at);
        lemma_enc_dec_members::<ID>(b, atm, n - 1);
        let (ms2, _) = dec_members::<ID>(b, atm, n - 1)->Some_0;
        assert(ms == seq![m] + ms2);
        assert(ms[0] == m);
        assert(ms.drop_first() =~= ms2);
        assert(enc_members::<ID>(ms) == enc_member::<ID>(m) + enc_members::<ID>(ms2));
        assert(enc_members::<ID>(ms) =~= b.subrange(at, at2));
    }
}

/// What a decoded quorum set re-encodes to: exactly the bytes it was read
/// from.
proof fn lemma_enc_dec_qs<ID: Identity>(b: Seq<u8>, at: int)
    requires
        dec_qs::<ID>(b, at) is Some,
    ensures
        ({
            let (q, at2) = dec_qs::<ID>(b, at)->Some_0;
            &&& at < at2 <= b.len()
            &&& enc_qs::<ID>(q) == b.subrange(at, at2)
        }),
    decreases b.len() - at, 2int,
{
    let w = INT_WIDTH as int;
    let (q, at2) = dec_qs::<ID>(b, at)->Some_0;
    let t = le_value(b.subrange(at, at + w));
    let n = le_value(b.subrange(at + w, at + 2 * w));
    lemma_le_value_bound(b.subrange(at, at + w));
    lemma_le_value_bound(b.subrange(at + w, at + 2 * w));
    lemma_le_bytes_of_value(b.subrange(at, at + w));
    lemma_le_bytes_of_value(b.subrange(at + w, at + 2 * w));
    lemma_enc_dec_members::<ID>(b, at + 2 * w, n);
    let (ms, _) = dec_members::<ID>(b, at + 2 * w, n)->Some_0;
    assert(q.members == ms && q.threshold as int == t);
    assert(le_bytes(q.threshold as int, w) == b.subrange(at, at + w));
    assert(le_bytes(q.members.len() as int, w) == b.subrange(at + w, at + 2 * w));
    assert(enc_qs::<ID>(q) =~= b.subrange(at, at2));
}

/// Byte-for-byte stability: re-encoding whatever a byte string decodes to
/// yields that byte string unchanged.
pub proof fn lemma_encode_decode<ID: Identity>(b: Seq<u8>)
    requires
        spec_decode::<ID>(b) is Some,
    ensures
        enc_qs::<ID>(spec_decode::<ID>(b)->Some_0) == b,
{
    lemma_enc_dec_qs::<ID>(b, 0);
    assert(b.subrange(0, b.len() as int) =~= b);
}

/// Encode/decode round trip: decoding the byte form of any well-formed
/// quorum-set view yields exactly that view.
pub proof fn lemma_decode_encode<ID: Identity>(v: QuorumSetView<ID::V>)
    requires
        qs_wf::<ID>(v),
    ensures
        spec_decode::<ID>(enc_qs::<ID>(v)) == Some(v),
{
    let b = enc_qs::<ID>(v);
    assert(b.subrange(0, b.len() as int) =~= b);
    lemma_dec_enc_qs::<ID>(v, b, 0);
}

/// What decoding a whole byte string yields: one quorum set and nothing else.
pub open spec fn spec_decode<ID: Identity>(b: Seq<u8>) -> Option<QuorumSetView<ID::V>> {
    match dec_qs::<ID>(b, 0) {
        None => None,
        Some((v, at)) => if at == b.len() {
            Some(v)
        } else {
            None
        },
    }
}

/// `enc_members` appends one member's bytes at a time.
proof fn lemma_enc_members_snoc<ID: Identity>(ms: Seq<QuorumSetMemberView<ID::V>>)
    requires
        ms.len() > 0,
    ensures
        enc_members::<ID>(ms) == enc_members::<ID>(ms.drop_last()) + enc_member::<ID>(ms.last()),
    decreases ms,
{
    if ms.len() == 1 {
        assert(ms.drop_first() =~= Seq::<QuorumSetMemberView<ID::V>>::empty());
        assert(ms.drop_last() =~= Seq::<QuorumSetMemberView<ID::V>>::empty());
        assert(enc_members::<ID>(ms) =~= enc_members::<ID>(ms.drop_last()) + enc_member::<ID>(
            ms.last(),
        ));
    } else {
        let df = ms.drop_first();
        lemma_enc_members_snoc::<ID>(df);
        assert(ms.drop_last()[0] == ms[0]);
        assert(ms.drop_last().drop_first() =~= df.drop_last());
        assert(df.last() == ms.last());
        assert(enc_members::<ID>(ms) =~= enc_members::<ID>(ms.drop_last()) + enc_member::<ID>(
            ms.last(),
        ));
    }
}

/// `members_wf` extends one member at a time.
proof fn lemma_members_wf_snoc<ID: Identity>(ms: Seq<QuorumSetMemberView<ID::V>>)
    requires
        ms.len() > 0,
        members_wf::<ID>(ms.drop_last()),
        member_wf::<ID>(ms.last()),
    ensures
        members_wf::<ID>(ms),
    decreases ms,
{
    if ms.len() == 1 {
        assert(ms.drop_first() =~= Seq::<QuorumSetMemberView<ID::V>>::empty());
        assert(ms.last() == ms[0]);
        assert(members_wf::<ID>(Seq::<QuorumSetMemberView<ID::V>>::empty()));
        assert(members_wf::<ID>(ms.drop_first()));
    } else {
        let df = ms.drop_first();
        assert(ms.drop_last()[0] == ms[0]);
        assert(ms.drop_last().drop_first() =~= df.drop_last());
        assert(df.last() == ms.last());
        assert(member_wf::<ID>(ms[0]));
        assert(members_wf::<ID>(df.drop_last()));
        lemma_members_wf_snoc::<ID>(df);
        assert(members_wf::<ID>(df));
    }
}

impl<ID: Identity> QuorumSet<ID> {
    /// Appends this set's deterministic byte form; the view is fit for the
    /// codec.
    fn encode_to(&self, out: &mut Vec<u8>)
        ensures
            final(out)@ == old(out)@ + enc_qs::<ID>(self@),
            qs_wf::<ID>(self@),
        decreases *self,
    {
        proof {
            lemma_members_view_index(self.members@);
            vstd::std_specs::vec::axiom_spec_len(&self.members);
            assert(usize::MAX <= u64::MAX);
        }
        push_le_int(out, self.threshold as u128);
        push_le_int(out, self.members.len() as u128);
        let ghost head = out@;
        proof {
            assert(self@.members.take(0) =~= Seq::<QuorumSetMemberView<ID::V>>::empty());
        }
        let mut i: usize = 0;
        while i < self.members.len()
            invariant
                i <= self.members@.len(),
                out@ == head + enc_members::<ID>(self@.members.take(i as int)),
                members_wf::<ID>(self@.members.take(i as int)),
            decreases self.members@.len() - i,
        {
            let ghost prefix = self@.members.take(i as int);
            let m = &self.members[i];
            proof {
                lemma_members_view_index(self.members@);
                assert(self@.members.take(i + 1).drop_last() =~= prefix);
                assert(self@.members.take(i + 1).last() == member_view(self.members@[i as int]));
            }
            let ghost mid = out@;
            match m {
                QuorumSetMember::Node(id) => {
                    out.push(0u8);
                    let mut ib: Vec<u8> = Vec::new();
                    id.id_to_bytes(&mut ib);
                    push_le_int(out, ib.len() as u128);
                    let mut k: usize = 0;
                    let ghost mid2 = out@;
                    while k < ib.len()
                        invariant
                            k <= ib@.len(),
                            out@ == mid2 + ib@.take(k as int),
                        decreases ib@.len() - k,
                    {
                        out.push(ib[k]);
                        proof {
                            assert(out@ =~= mid2 + ib@.take(k + 1));
                        }
                        k += 1;
                    }
                    proof {
                        assert(ib@.take(ib@.len() as int) =~= ib@);
                        assert(out@ =~= mid + enc_member::<ID>(member_view(
                            self.members@[i as int],
                        )));
                    }
                },
                QuorumSetMember::InnerSet(q) => {
                    proof {
                        assert(decreases_to!(*self => *q));
                    }
                    out.push(1u8);
                    q.encode_to(out);
                    proof {
                        assert(out@ =~= mid + enc_member::<ID>(member_view(
                            self.members@[i as int],
                        )));
                    }
                },
            }
            proof {
                lemma_enc_members_snoc::<ID>(self@.members.take(i + 1));
                assert(out@ =~= head + enc_members::<ID>(self@.members.take(i + 1)));
                lemma_members_wf_snoc::<ID>(self@.members.take(i + 1));
            }
            i += 1;
        }
        proof {
            assert(self@.members.take(self.members@.len() as int) =~= self@.members);
            assert(out@ =~= old(out)@ + enc_qs::<ID>(self@));
        }
    }

    /// This set's deterministic byte form: threshold first, members second,
    /// each member's discriminator before its payload.
    pub fn encode(&self) -> (r: Vec<u8>)
        ensures
            r@ == enc_qs::<ID>(self@),
            qs_wf::<ID>(self@),
    {
        let mut out: Vec<u8> = Vec::new();
        self.encode_to(&mut out);
        out
    }

    /// Decodes one member at `at`.
    fn decode_member_at(bytes: &Vec<u8>, at: usize) -> (r: Option<(QuorumSetMember<ID>, usize)>)
        requires
            at <= bytes@.len(),
        ensures
            ({
                let s = dec_member::<ID>(bytes@, at as int);
                match r {
                    None => s is None,
                    Some(p) => s == Some((member_view(p.0), p.1 as int)),
                }
            }),
        decreases bytes@.len() - at, 0int,
    {
        let n = bytes.len();
        if at >= n {
            return None;
        }
        let tag = bytes[at];
        if tag == 0 {
            if n - (at + 1) < INT_WIDTH {
                return None;
            }
            let l = read_le_int(bytes, at + 1);
            if l > ((n - at - 1 - INT_WIDTH) as u128) {
                return None;
            }
            let lu = l as usize;
            let start = at + 1 + INT_WIDTH;
            let mut ib: Vec<u8> = Vec::new();
            let mut k: usize = 0;
            while k < lu
                invariant
                    k <= lu,
                    start == at + 1 + INT_WIDTH,
                    start + lu <= bytes@.len(),
                    ib@ == bytes@.subrange(start as int, start + k),
                decreases lu - k,
            {
                proof {
                    vstd::std_specs::vec::axiom_spec_len(bytes);
                }
                ib.push(bytes[start + k]);
                proof {
                    assert(ib@ =~= bytes@.subrange(start as int, start + k + 1));
                }
                k += 1;
            }
            match ID::id_from_bytes(&ib) {
                None => None,
                Some(id) => Some((QuorumSetMember::Node(id), start + lu)),
            }
        } else if tag == 1 {
            match Self::decode_qs_at(bytes, at + 1) {
                None => None,
                Some((q, at2)) => Some((QuorumSetMember::InnerSet(q), at2)),
            }
        } else {
            None
        }
    }

    /// Decodes a quorum set at `at`.
    fn decode_qs_at(bytes: &Vec<u8>, at: usize) -> (r: Option<(QuorumSet<ID>, usize)>)
        requires
            at <= bytes@.len(),
        ensures
            ({
                let s = dec_qs::<ID>(bytes@, at as int);
                match r {
                    None => s is None,
                    Some(p) => s == Some((qs_view(p.0), p.1 as int)),
                }
            }),
        decreases bytes@.len() - at, 2int,
    {
        let n = bytes.len();
        if n - at < 2 * INT_WIDTH {
            return None;
        }
        let t = read_le_int(bytes, at);
        if t > (u32::MAX as u128) {
            return None;
        }
        let cnt = read_le_int(bytes, at + INT_WIDTH);
        let ghost at0 = (at + 2 * INT_WIDTH) as int;
        let mut cur: usize = at + 2 * INT_WIDTH;
        let mut rem: u128 = cnt;
        let mut members: Vec<QuorumSetMember<ID>> = Vec::new();
        proof {
            assert(members_view(members@) =~= Seq::<QuorumSetMemberView<ID::V>>::empty());
        }
        while rem > 0
            invariant
                cur <= bytes@.len(),
                at + 2 * INT_WIDTH <= cur,
                at0 == at + 2 * INT_WIDTH,
                t as int == le_value(bytes@.subrange(at as int, at + INT_WIDTH)),
                t as int <= u32::MAX,
                cnt as int == le_value(
                    bytes@.subrange(at + INT_WIDTH, at + 2 * INT_WIDTH),
                ),
                dec_members::<ID>(bytes@, at0, cnt as int) == (match dec_members::<ID>(
                    bytes@,
                    cur as int,
                    rem as int,
                ) {
                    None => None,
                    Some((ms2, e)) => Some((members_view(members@) + ms2, e)),
                }),
            decreases rem,
        {
            let step = Self::decode_member_at(bytes, cur);
            match step {
                None => {
                    proof {
                        assert(dec_members::<ID>(bytes@, cur as int, rem as int) is None);
                    }
                    return None;
                },
                Some((m, at2)) => {
                    if !(cur < at2 && at2 <= bytes.len()) {
                        return None;
                    }
                    let ghost prev = members@;
                    members.push(m);
                    proof {
                        assert(members@.drop_last() =~= prev);
                        assert(members_view(members@) =~= members_view(prev).push(member_view(m)));
                        let sub = dec_members::<ID>(bytes@, at2 as int, rem - 1);
                        match sub {
                            None => {},
                            Some((ms2, e)) => {
                                assert(members_view(prev) + (seq![member_view(m)] + ms2)
                                    =~= members_view(members@) + ms2);
                            },
                        }
                    }
                    cur = at2;
                    rem = rem - 1;
                },
            }
        }
        let q = QuorumSet { threshold: t as u32, members };
        proof {
            assert(members_view(members@) + Seq::<QuorumSetMemberView<ID::V>>::empty()
                =~= members_view(members@));
            assert(qs_view(q) == (QuorumSetView {
                threshold: (t as u32) as nat,
                members: members_view(members@),
            }));
        }
        Some((q, cur))
    }

    /// Reads a quorum set back from exactly its byte form, as produced by
    /// [`QuorumSet::encode`].
    pub fn decode(bytes: &Vec<u8>) -> (r: Option<QuorumSet<ID>>)
        ensures
            ({
                let s = spec_decode::<ID>(bytes@);
                match r {
                    None => s is None,
                    Some(q) => s == Some(qs_view(q)),
                }
            }),
    {
        match Self::decode_qs_at(bytes, 0) {
            None => None,
            Some((q, at2)) => if at2 == bytes.len() {
                Some(q)
            } else {
                None
            },
        }
    }
}

} // verus!
