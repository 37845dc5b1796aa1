//! The compact binary encoding of a post record used by the persisted
//! store: length-prefixed UTF-8 strings, a little-endian URL count and
//! timestamp, and a read-flag byte. Encoding is injective, and decoding
//! accepts exactly the encodings and inverts them.

use vstd::prelude::*;

verus! {

use vstd::arithmetic::div_mod::lemma_mod_breakdown;
use vstd::utf8::{decode_utf8, encode_utf8, valid_utf8};
use vstd::string::StringSliceAdditionalSpecFns;
use crate::post::{Post, PostId, PostView};
use crate::text::string_from_utf8;

/// 256 to the power `k`: the number of values a `k`-byte field can carry.
pub open spec fn pow256(k: nat) -> nat
    decreases k,
{
    if k == 0 {
        1
    } else {
        256 * pow256((k - 1) as nat)
    }
}

/// The `k` little-endian bytes of `n`.
pub open spec fn le_bytes(n: nat, k: nat) -> Seq<u8>
    decreases k,
{
    if k == 0 {
        Seq::empty()
    } else {
        seq![(n % 256) as u8] + le_bytes(n / 256, (k - 1) as nat)
    }
}

/// The number encoded by a little-endian byte sequence.
pub open spec fn from_le(b: Seq<u8>) -> nat
    decreases b.len(),
{
    if b.len() == 0 {
        0
    } else {
        (b[0] + 256 * from_le(b.drop_first())) as nat
    }
}

/// A string whose UTF-8 length fits the 8-byte length prefix. Every string
/// that exists in memory satisfies this.
pub open spec fn str_ok(s: Seq<char>) -> bool {
    encode_utf8(s).len() < pow256(8)
}

/// A length-prefixed string: 8 little-endian length bytes, then the UTF-8
/// bytes themselves.
pub open spec fn enc_str(s: Seq<char>) -> Seq<u8> {
    le_bytes(encode_utf8(s).len(), 8) + encode_utf8(s)
}

/// The concatenated encodings of a sequence of strings.
pub open spec fn enc_strs(us: Seq<Seq<char>>) -> Seq<u8>
    decreases us.len(),
{
    if us.len() == 0 {
        Seq::empty()
    } else {
        enc_str(us[0]) + enc_strs(us.drop_first())
    }
}

/// A post whose parts fit their length fields. Every post that exists in
/// memory satisfies this.
pub open spec fn post_ok(p: PostView) -> bool {
    &&& str_ok(p.id)
    &&& str_ok(p.title)
    &&& p.urls.len() < pow256(8)
    &&& forall|i: int| 0 <= i < p.urls.len() ==> str_ok(#[trigger] p.urls[i])
}

/// The value stored for a post: its identifier, title, URL count and URLs,
/// its timestamp as unsigned little-endian bytes, and a read-flag byte.
pub open spec fn enc_post(p: PostView) -> Seq<u8> {
    enc_str(p.id) + enc_str(p.title) + le_bytes(p.urls.len(), 8) + enc_strs(p.urls) + le_bytes(
        (p.published as u64) as nat,
        8,
    ) + seq![
        if p.read {
            1u8
        } else {
            0u8
        },
    ]
}

pub proof fn lemma_le_bytes_len(n: nat, k: nat)
    ensures
        le_bytes(n, k).len() == k,
    decreases k,
{
    if k > 0 {
        lemma_le_bytes_len(n / 256, (k - 1) as nat);
    }
}

proof fn lemma_from_le_bytes(n: nat, k: nat)
    ensures
        from_le(le_bytes(n, k)) == n % pow256(k),
    decreases k,
{
    if k == 0 {
        assert(n % 1 == 0) by (nonlinear_arith);
    } else {
        let b = le_bytes(n, k);
        assert(b.drop_first() =~= le_bytes(n / 256, (k - 1) as nat));
        lemma_from_le_bytes(n / 256, (k - 1) as nat);
        lemma_pow256_pos((k - 1) as nat);
        lemma_mod_breakdown(n as int, 256, pow256((k - 1) as nat) as int);
    }
}

/// The length prefix pins the number down: encoding then decoding a value
/// below the field's capacity returns it.
pub proof fn lemma_le_roundtrip(n: nat, k: nat)
    requires
        n < pow256(k),
    ensures
        from_le(le_bytes(n, k)) == n,
{
    lemma_from_le_bytes(n, k);
    assert(n % pow256(k) == n) by (nonlinear_arith)
        requires
            n < pow256(k),
            pow256(k) > 0,
    {
    }
    assert(pow256(k) > 0) by {
        lemma_pow256_pos(k);
    }
}

/// The capacity of the 8-byte length field, written out.
proof fn lemma_pow256_8()
    ensures
        pow256(8) == 0x1_0000_0000_0000_0000,
{
    reveal_with_fuel(pow256, 9);
}

proof fn lemma_pow256_pos(k: nat)
    ensures
        pow256(k) >= 1,
    decreases k,
{
    if k > 0 {
        lemma_pow256_pos((k - 1) as nat);
    }
}

/// Decoding then encoding a `k`-byte field returns the same bytes.
pub proof fn lemma_le_bytes_of_from_le(b: Seq<u8>)
    ensures
        le_bytes(from_le(b), b.len()) =~= b,
    decreases b.len(),
{
    if b.len() > 0 {
        let n = from_le(b);
        assert(n == b[0] + 256 * from_le(b.drop_first()));
        assert(n % 256 == b[0] && n / 256 == from_le(b.drop_first())) by (nonlinear_arith)
            requires
                n == b[0] + 256 * from_le(b.drop_first()),
                0 <= b[0] < 256,
        {
        }
        lemma_le_bytes_of_from_le(b.drop_first());
    }
}

/// UTF-8 encoding is injective: no two character sequences share an
/// encoding.
pub proof fn lemma_utf8_injective(s1: Seq<char>, s2: Seq<char>)
    requires
        encode_utf8(s1) == encode_utf8(s2),
    ensures
        s1 == s2,
{
    vstd::utf8::encode_utf8_decode_utf8(s1);
    vstd::utf8::encode_utf8_decode_utf8(s2);
}

/// A length-prefixed string at the front of a byte sequence determines the
/// string and the remainder.
proof fn lemma_enc_str_chop(s1: Seq<char>, r1: Seq<u8>, s2: Seq<char>, r2: Seq<u8>)
    requires
        str_ok(s1),
        str_ok(s2),
        enc_str(s1) + r1 == enc_str(s2) + r2,
    ensures
        s1 == s2,
        r1 == r2,
{
    let u1 = encode_utf8(s1);
    let u2 = encode_utf8(s2);
    let b = enc_str(s1) + r1;
    lemma_le_bytes_len(u1.len(), 8);
    lemma_le_bytes_len(u2.len(), 8);
    assert(b.subrange(0, 8) =~= le_bytes(u1.len(), 8));
    assert(b.subrange(0, 8) =~= le_bytes(u2.len(), 8));
    lemma_from_le_bytes(u1.len(), 8);
    lemma_from_le_bytes(u2.len(), 8);
    assert(u1.len() % pow256(8) == u2.len() % pow256(8));
    lemma_pow256_pos(8);
    assert(u1.len() % pow256(8) == u1.len()) by (nonlinear_arith)
        requires
            u1.len() < pow256(8),
            pow256(8) > 0,
    {
    }
    assert(u2.len() % pow256(8) == u2.len()) by (nonlinear_arith)
        requires
            u2.len() < pow256(8),
            pow256(8) > 0,
    {
    }
    assert(u1.len() == u2.len());
    assert(b.subrange(8, 8 + u1.len() as int) =~= u1);
    assert(b.subrange(8, 8 + u2.len() as int) =~= u2);
    lemma_utf8_injective(s1, s2);
    assert(r1 =~= b.subrange(8 + u1.len() as int, b.len() as int));
    assert(r2 =~= b.subrange(8 + u2.len() as int, b.len() as int));
}

/// A run of length-prefixed strings of known count determines the strings
/// and the remainder.
proof fn lemma_enc_strs_chop(u1: Seq<Seq<char>>, r1: Seq<u8>, u2: Seq<Seq<char>>, r2: Seq<u8>)
    requires
        u1.len() == u2.len(),
        forall|i: int| 0 <= i < u1.len() ==> str_ok(#[trigger] u1[i]),
        forall|i: int| 0 <= i < u2.len() ==> str_ok(#[trigger] u2[i]),
        enc_strs(u1) + r1 == enc_strs(u2) + r2,
    ensures
        u1 == u2,
        r1 == r2,
    decreases u1.len(),
{
    if u1.len() == 0 {
        assert(enc_strs(u1) + r1 =~= r1);
        assert(enc_strs(u2) + r2 =~= r2);
    } else {
        assert(enc_str(u1[0]) + (enc_strs(u1.drop_first()) + r1) =~= enc_strs(u1) + r1);
        assert(enc_str(u2[0]) + (enc_strs(u2.drop_first()) + r2) =~= enc_strs(u2) + r2);
        lemma_enc_str_chop(u1[0], enc_strs(u1.drop_first()) + r1, u2[0], enc_strs(u2.drop_first()) + r2);
        assert forall|i: int| 0 <= i < u1.drop_first().len() implies str_ok(
            #[trigger] u1.drop_first()[i],
        ) by {
            assert(u1.drop_first()[i] == u1[i + 1]);
        }
        assert forall|i: int| 0 <= i < u2.drop_first().len() implies str_ok(
            #[trigger] u2.drop_first()[i],
        ) by {
            assert(u2.drop_first()[i] == u2[i + 1]);
        }
        lemma_enc_strs_chop(u1.drop_first(), r1, u2.drop_first(), r2);
        assert forall|i: int| 0 <= i < u1.len() implies u1[i] == u2[i] by {
            if i > 0 {
                assert(u1[i] == u1.drop_first()[i - 1]);
                assert(u2[i] == u2.drop_first()[i - 1]);
            }
        }
        assert(u1 =~= u2);
    }
}

/// Law: the post encoding is injective. Two posts with one encoding are one
/// post, so the store can tell posts apart by their stored values.
#[verifier::rlimit(60)]
pub proof fn lemma_enc_post_injective(p: PostView, q: PostView)
    requires
        post_ok(p),
        post_ok(q),
        enc_post(p) == enc_post(q),
    ensures
        p == q,
{
    let rest_p = enc_str(p.title) + le_bytes(p.urls.len(), 8) + enc_strs(p.urls) + le_bytes(
        (p.published as u64) as nat,
        8,
    ) + seq![
        if p.read {
            1u8
        } else {
            0u8
        },
    ];
    let rest_q = enc_str(q.title) + le_bytes(q.urls.len(), 8) + enc_strs(q.urls) + le_bytes(
        (q.published as u64) as nat,
        8,
    ) + seq![
        if q.read {
            1u8
        } else {
            0u8
        },
    ];
    assert(enc_str(p.id) + rest_p =~= enc_post(p));
    assert(enc_str(q.id) + rest_q =~= enc_post(q));
    lemma_enc_str_chop(p.id, rest_p, q.id, rest_q);
    let rest2_p = le_bytes(p.urls.len(), 8) + enc_strs(p.urls) + le_bytes(
        (p.published as u64) as nat,
        8,
    ) + seq![
        if p.read {
            1u8
        } else {
            0u8
        },
    ];
    let rest2_q = le_bytes(q.urls.len(), 8) + enc_strs(q.urls) + le_bytes(
        (q.published as u64) as nat,
        8,
    ) + seq![
        if q.read {
            1u8
        } else {
            0u8
        },
    ];
    assert(enc_str(p.title) + rest2_p =~= rest_p);
    assert(enc_str(q.title) + rest2_q =~= rest_q);
    lemma_enc_str_chop(p.title, rest2_p, q.title, rest2_q);
    let rest3_p = enc_strs(p.urls) + le_bytes((p.published as u64) as nat, 8) + seq![
        if p.read {
            1u8
        } else {
            0u8
        },
    ];
    let rest3_q = enc_strs(q.urls) + le_bytes((q.published as u64) as nat, 8) + seq![
        if q.read {
            1u8
        } else {
            0u8
        },
    ];
    lemma_le_bytes_len(p.urls.len(), 8);
    lemma_le_bytes_len(q.urls.len(), 8);
    assert(le_bytes(p.urls.len(), 8) + rest3_p =~= rest2_p);
    assert(le_bytes(q.urls.len(), 8) + rest3_q =~= rest2_q);
    assert(rest2_p.subrange(0, 8) =~= le_bytes(p.urls.len(), 8));
    assert(rest2_p.subrange(0, 8) =~= le_bytes(q.urls.len(), 8));
    lemma_from_le_bytes(p.urls.len(), 8);
    lemma_from_le_bytes(q.urls.len(), 8);
    lemma_pow256_pos(8);
    lemma_seq_lt_pow256(p.urls);
    lemma_seq_lt_pow256(q.urls);
    assert(p.urls.len() % pow256(8) == p.urls.len()) by (nonlinear_arith)
        requires
            p.urls.len() < pow256(8),
            pow256(8) > 0,
    {
    }
    assert(q.urls.len() % pow256(8) == q.urls.len()) by (nonlinear_arith)
        requires
            q.urls.len() < pow256(8),
            pow256(8) > 0,
    {
    }
    assert(p.urls.len() == q.urls.len());
    assert(rest3_p =~= rest2_p.subrange(8, rest2_p.len() as int));
    assert(rest3_q =~= rest2_q.subrange(8, rest2_q.len() as int));
    let rest4_p = le_bytes((p.published as u64) as nat, 8) + seq![
        if p.read {
            1u8
        } else {
            0u8
        },
    ];
    let rest4_q = le_bytes((q.published as u64) as nat, 8) + seq![
        if q.read {
            1u8
        } else {
            0u8
        },
    ];
    assert(enc_strs(p.urls) + rest4_p =~= rest3_p);
    assert(enc_strs(q.urls) + rest4_q =~= rest3_q);
    lemma_enc_strs_chop(p.urls, rest4_p, q.urls, rest4_q);
    lemma_le_bytes_len((p.published as u64) as nat, 8);
    lemma_le_bytes_len((q.published as u64) as nat, 8);
    assert(rest4_p.subrange(0, 8) =~= le_bytes((p.published as u64) as nat, 8));
    assert(rest4_p.subrange(0, 8) =~= le_bytes((q.published as u64) as nat, 8));
    lemma_from_le_bytes((p.published as u64) as nat, 8);
    lemma_from_le_bytes((q.published as u64) as nat, 8);
    let pu = p.published as u64;
    let qu = q.published as u64;
    assert(pu as nat % pow256(8) == pu as nat && qu as nat % pow256(8) == qu as nat) by {
        lemma_pow256_8();
        assert(pu as nat % 0x1_0000_0000_0000_0000 == pu as nat) by (nonlinear_arith);
        assert(qu as nat % 0x1_0000_0000_0000_0000 == qu as nat) by (nonlinear_arith);
    }
    assert(pu == qu);
    let px = p.published;
    let qx = q.published;
    assert(px == qx) by (bit_vector)
        requires
            px as u64 == qx as u64,
    ;
    assert(rest4_p[8] == rest4_q[8]);
    assert(p.read == q.read);
    assert(p =~= q);
}

/// Any sequence a program can hold fits the 8-byte count field.
proof fn lemma_seq_lt_pow256(u: Seq<Seq<char>>)
    ensures
        u.len() < pow256(8) || u.len() >= 0x1_0000_0000_0000_0000,
{
    lemma_pow256_8();
}

/// Appends the bytes of `src` to `dst`.
pub(crate) fn push_bytes(dst: &mut Vec<u8>, src: &[u8])
    ensures
        final(dst)@ =~= old(dst)@ + src@,
{
    let mut i: usize = 0;
    while i < src.len()
        invariant
            i <= src@.len(),
            dst@ =~= old(dst)@ + src@.take(i as int),
        decreases src@.len() - i,
    {
        let b = src[i];
        dst.push(b);
        proof {
            assert(dst@ =~= old(dst)@ + src@.take(i + 1));
        }
        i = i + 1;
    }
    proof {
        assert(src@.take(src@.len() as int) =~= src@);
    }
}

/// Appends the 8 little-endian bytes of `n` to `dst`.
fn push_le8(dst: &mut Vec<u8>, n: u64)
    ensures
        final(dst)@ =~= old(dst)@ + le_bytes(n as nat, 8),
{
    let mut m: u64 = n;
    let mut k: usize = 0;
    while k < 8
        invariant
            k <= 8,
            dst@ + le_bytes(m as nat, (8 - k) as nat) =~= old(dst)@ + le_bytes(n as nat, 8),
        decreases 8 - k,
    {
        let ghost pre = dst@;
        let ghost mpre = m as nat;
        let b = (m % 256) as u8;
        dst.push(b);
        m = m / 256;
        k = k + 1;
        proof {
            assert(le_bytes(mpre, (8 - k + 1) as nat) =~= seq![(mpre % 256) as u8] + le_bytes(
                mpre / 256,
                (8 - k) as nat,
            ));
            assert(dst@ + le_bytes(m as nat, (8 - k) as nat) =~= pre + le_bytes(
                mpre,
                (8 - k + 1) as nat,
            ));
        }
    }
    proof {
        assert(le_bytes(m as nat, 0) =~= Seq::<u8>::empty());
        assert(dst@ + le_bytes(m as nat, 0) =~= dst@);
    }
}

/// Reads the 8-byte little-endian field of `b` at `pos`.
fn read_le8(b: &[u8], pos: usize) -> (r: Option<u64>)
    ensures
        match r {
            Some(n) => pos + 8 <= b@.len() && n as nat == from_le(b@.subrange(pos as int, pos + 8)),
            None => pos + 8 > b@.len(),
        },
{
    if pos >= b.len() || b.len() - pos < 8 {
        return None;
    }
    let blen = b.len();
    let ghost window = b@.subrange(pos as int, pos + 8);
    let mut n: u64 = 0;
    let mut k: usize = 8;
    while k > 0
        invariant
            k <= 8,
            pos + 8 <= blen,
            blen == b@.len(),
            window =~= b@.subrange(pos as int, pos + 8),
            n as nat == from_le(window.skip(k as int)),
            (n as nat) < pow256((8 - k) as nat),
        decreases k,
    {
        k = k - 1;
        let byte = b[pos + k];
        proof {
            lemma_pow256_pos((8 - k - 1) as nat);
            assert(pow256((8 - k) as nat) == 256 * pow256((8 - k - 1) as nat));
            assert(256 * (n as nat) + byte < 256 * pow256((8 - k - 1) as nat)) by (nonlinear_arith)
                requires
                    (n as nat) < pow256((8 - k - 1) as nat),
                    byte < 256,
                    pow256((8 - k - 1) as nat) >= 1,
            {
            }
            lemma_pow256_8();
            lemma_pow256_mono((8 - k) as nat, 8);
            assert(window.skip(k as int).drop_first() =~= window.skip(k + 1));
            assert(window.skip(k as int)[0] == window[k as int]);
            assert(window[k as int] == b@[pos + k]);
        }
        n = n * 256 + (byte as u64);
    }
    proof {
        assert(window.skip(0) =~= window);
    }
    Some(n)
}

proof fn lemma_pow256_mono(a: nat, b: nat)
    requires
        a <= b,
    ensures
        pow256(a) <= pow256(b),
    decreases b,
{
    if a < b {
        lemma_pow256_mono(a, (b - 1) as nat);
        lemma_pow256_pos((b - 1) as nat);
    }
}

/// `enc_strs` over one more string appends that string's encoding.
proof fn lemma_enc_strs_push(us: Seq<Seq<char>>, u: Seq<char>)
    ensures
        enc_strs(us.push(u)) =~= enc_strs(us) + enc_str(u),
    decreases us.len(),
{
    if us.len() == 0 {
        reveal_with_fuel(enc_strs, 3);
        assert(us.push(u)[0] == u);
        assert(us.push(u).drop_first() =~= Seq::<Seq<char>>::empty());
        assert(enc_strs(us.push(u)) =~= enc_str(u) + Seq::<u8>::empty());
    } else {
        assert(us.push(u)[0] == us[0]);
        assert(us.push(u).drop_first() =~= us.drop_first().push(u));
        lemma_enc_strs_push(us.drop_first(), u);
        assert(enc_strs(us.push(u)) =~= enc_str(us[0]) + (enc_strs(us.drop_first()) + enc_str(u)));
    }
}

/// Encode a post into the store's value bytes.
pub fn encode_post(p: &Post) -> (r: Vec<u8>)
    ensures
        r@ == enc_post(p@),
        post_ok(p@),
{
    proof {
        lemma_pow256_8();
    }
    let mut out: Vec<u8> = Vec::new();
    let id_bytes = p.id.0.as_str().as_bytes();
    push_le8(&mut out, id_bytes.len() as u64);
    push_bytes(&mut out, id_bytes);
    proof {
        assert(out@ =~= enc_str(p@.id));
    }
    let title_bytes = p.title.as_str().as_bytes();
    push_le8(&mut out, title_bytes.len() as u64);
    push_bytes(&mut out, title_bytes);
    proof {
        assert(out@ =~= enc_str(p@.id) + enc_str(p@.title));
    }
    push_le8(&mut out, p.urls.len() as u64);
    let ghost head = out@;
    let mut i: usize = 0;
    while i < p.urls.len()
        invariant
            i <= p.urls@.len(),
            out@ =~= head + enc_strs(p@.urls.take(i as int)),
            forall|j: int| 0 <= j < i ==> str_ok(#[trigger] p@.urls[j]),
            p@.urls.len() == p.urls@.len(),
        decreases p.urls@.len() - i,
    {
        let ghost pre = out@;
        let url_bytes = p.urls[i].as_str().as_bytes();
        let ulen = url_bytes.len();
        proof {
            lemma_pow256_8();
            assert(url_bytes@ == encode_utf8(p@.urls[i as int]));
            assert(encode_utf8(p@.urls[i as int]).len() == ulen);
            assert(str_ok(p@.urls[i as int]));
        }
        push_le8(&mut out, ulen as u64);
        push_bytes(&mut out, url_bytes);
        proof {
            assert(out@ =~= pre + enc_str(p@.urls[i as int]));
            lemma_enc_strs_push(p@.urls.take(i as int), p@.urls[i as int]);
            assert(p@.urls.take(i + 1) =~= p@.urls.take(i as int).push(p@.urls[i as int]));
            assert(out@ =~= head + enc_strs(p@.urls.take(i + 1)));
        }
        i = i + 1;
    }
    proof {
        assert(p@.urls.take(p@.urls.len() as int) =~= p@.urls);
    }
    push_le8(&mut out, #[verifier::truncate] (p.published as u64));
    if p.read {
        out.push(1u8);
    } else {
        out.push(0u8);
    }
    proof {
        assert(out@ =~= enc_post(p@));
    }
    out
}

/// The tail of a post encoding after the identifier.
spec fn enc_tail1(p: PostView) -> Seq<u8> {
    enc_str(p.title) + enc_tail2(p)
}

/// The tail of a post encoding after the title.
spec fn enc_tail2(p: PostView) -> Seq<u8> {
    le_bytes(p.urls.len(), 8) + enc_tail3(p, 0)
}

/// The tail of a post encoding after the URL count, with the first `j`
/// URLs already consumed.
spec fn enc_tail3(p: PostView, j: int) -> Seq<u8> {
    enc_strs(p.urls.skip(j)) + enc_tail4(p)
}

/// The timestamp and read-flag bytes that end a post encoding.
spec fn enc_tail4(p: PostView) -> Seq<u8> {
    le_bytes((p.published as u64) as nat, 8) + seq![
        if p.read {
            1u8
        } else {
            0u8
        },
    ]
}

proof fn lemma_enc_post_parts(p: PostView)
    ensures
        enc_post(p) =~= enc_str(p.id) + enc_tail1(p),
        enc_tail1(p) =~= enc_str(p.title) + enc_tail2(p),
        enc_tail2(p) =~= le_bytes(p.urls.len(), 8) + enc_tail3(p, 0),
        p.urls.skip(0) =~= p.urls,
{
    assert(p.urls.skip(0) =~= p.urls);
    assert(enc_strs(p.urls.skip(0)) == enc_strs(p.urls));
    assert(enc_tail3(p, 0) =~= enc_strs(p.urls) + enc_tail4(p));
    assert(enc_tail2(p) =~= le_bytes(p.urls.len(), 8) + (enc_strs(p.urls) + enc_tail4(p)));
    assert(enc_tail1(p) =~= enc_str(p.title) + (le_bytes(p.urls.len(), 8) + (enc_strs(p.urls)
        + enc_tail4(p))));
    assert(enc_str(p.id) + enc_tail1(p) =~= enc_str(p.id) + (enc_str(p.title) + (le_bytes(
        p.urls.len(),
        8,
    ) + (enc_strs(p.urls) + enc_tail4(p)))));
    assert(enc_post(p) =~= enc_str(p.id) + (enc_str(p.title) + (le_bytes(p.urls.len(), 8) + (
    enc_strs(p.urls) + enc_tail4(p)))));
}

/// Consuming one URL encoding advances the tail by one string.
proof fn lemma_enc_tail3_step(p: PostView, j: int)
    requires
        0 <= j < p.urls.len(),
    ensures
        enc_tail3(p, j) =~= enc_str(p.urls[j]) + enc_tail3(p, j + 1),
{
    assert(p.urls.skip(j)[0] == p.urls[j]);
    assert(p.urls.skip(j).drop_first() =~= p.urls.skip(j + 1));
    assert(enc_strs(p.urls.skip(j)) =~= enc_str(p.urls[j]) + enc_strs(p.urls.skip(j + 1)));
}

/// Reads the length-prefixed string of `b` at `pos`: its text and the
/// position just past it. Returns `None` when no well-formed string
/// encoding starts there.
fn read_str(b: &[u8], pos: usize) -> (r: Option<(String, usize)>)
    requires
        pos <= b@.len(),
    ensures
        match r {
            Some(se) => {
                &&& str_ok(se.0@)
                &&& pos + 8 + encode_utf8(se.0@).len() == se.1
                &&& se.1 <= b@.len()
                &&& b@.subrange(pos as int, se.1 as int) == enc_str(se.0@)
            },
            None => forall|s: Seq<char>, rest: Seq<u8>|
                str_ok(s) ==> b@.skip(pos as int) != #[trigger] (enc_str(s) + rest),
        },
{
    let blen = b.len();
    let n = match read_le8(b, pos) {
        Some(n) => n,
        None => {
            proof {
                assert forall|s: Seq<char>, rest: Seq<u8>| str_ok(s) implies b@.skip(pos as int)
                    != #[trigger] (enc_str(s) + rest) by {
                    lemma_le_bytes_len(encode_utf8(s).len(), 8);
                    assert((enc_str(s) + rest).len() >= 8);
                    assert(b@.skip(pos as int).len() == b@.len() - pos);
                    assert(b@.skip(pos as int).len() < 8);
                }
            }
            return None;
        },
    };
    let avail = (blen - pos - 8) as u64;
    if n > avail {
        proof {
            let win = b@.subrange(pos as int, pos + 8);
            assert forall|s: Seq<char>, rest: Seq<u8>| str_ok(s) implies b@.skip(pos as int)
                != #[trigger] (enc_str(s) + rest) by {
                if b@.skip(pos as int) == enc_str(s) + rest {
                    let ulen = encode_utf8(s).len();
                    lemma_le_bytes_len(ulen, 8);
                    assert(b@.skip(pos as int).subrange(0, 8) =~= le_bytes(ulen, 8));
                    assert(win =~= le_bytes(ulen, 8));
                    lemma_le_roundtrip(ulen, 8);
                    assert(n as nat == ulen);
                    assert(b@.skip(pos as int).len() >= 8 + ulen);
                }
            }
        }
        return None;
    }
    let nu = n as usize;
    let seg = vstd::slice::slice_subrange(b, pos + 8, pos + 8 + nu);
    let seg_vec = vstd::slice::slice_to_vec(seg);
    match string_from_utf8(seg_vec) {
        Some(s) => {
            proof {
                assert(valid_utf8(seg@));
                vstd::utf8::decode_utf8_encode_utf8(seg@);
                assert(encode_utf8(s@) == seg@);
                lemma_pow256_8();
                assert(str_ok(s@));
                lemma_le_bytes_of_from_le(b@.subrange(pos as int, pos + 8));
                lemma_le_bytes_len(from_le(b@.subrange(pos as int, pos + 8)), 8);
                assert(b@.subrange(pos as int, pos + 8 + nu) =~= le_bytes(n as nat, 8)
                    + encode_utf8(s@));
            }
            Some((s, pos + 8 + nu))
        },
        None => {
            proof {
                assert(!valid_utf8(seg@));
                assert forall|s: Seq<char>, rest: Seq<u8>| str_ok(s) implies b@.skip(pos as int)
                    != #[trigger] (enc_str(s) + rest) by {
                    if b@.skip(pos as int) == enc_str(s) + rest {
                        let ulen = encode_utf8(s).len();
                        lemma_le_bytes_len(ulen, 8);
                        assert(b@.skip(pos as int).subrange(0, 8) =~= le_bytes(ulen, 8));
                        assert(b@.subrange(pos as int, pos + 8) =~= le_bytes(ulen, 8));
                        lemma_le_roundtrip(ulen, 8);
                        assert(n as nat == ulen);
                        assert(b@.skip(pos as int).subrange(8, 8 + ulen as int) =~= encode_utf8(
                            s,
                        ));
                        assert(seg@ =~= encode_utf8(s));
                        vstd::utf8::encode_utf8_valid_utf8(s);
                    }
                }
            }
            None
        },
    }
}

/// Decode the store's value bytes back into a post. Accepts exactly the
/// encodings: on anything else it returns `None`, and on `enc_post(p)` it
/// returns the post `p`.
#[verifier::rlimit(80)]
pub fn decode_post(b: &[u8]) -> (r: Option<Post>)
    ensures
        match r {
            Some(q) => post_ok(q@) && enc_post(q@) == b@,
            None => forall|p: PostView| post_ok(p) ==> enc_post(p) != b@,
        },
{
    let blen = b.len();
    proof {
        assert(b@.skip(0) =~= b@);
    }
    let (id_s, pos1) = match read_str(b, 0) {
        Some(se) => se,
        None => {
            proof {
                assert forall|p: PostView| post_ok(p) implies enc_post(p) != b@ by {
                    lemma_enc_post_parts(p);
                }
            }
            return None;
        },
    };
    proof {
        assert forall|p: PostView| post_ok(p) && enc_post(p) == b@ implies p.id == id_s@
            && b@.skip(pos1 as int) == enc_tail1(p) by {
            lemma_enc_post_parts(p);
            assert(enc_str(id_s@) + b@.skip(pos1 as int) =~= b@);
            lemma_enc_str_chop(id_s@, b@.skip(pos1 as int), p.id, enc_tail1(p));
        }
    }
    let (title_s, pos2) = match read_str(b, pos1) {
        Some(se) => se,
        None => {
            proof {
                assert forall|p: PostView| post_ok(p) implies enc_post(p) != b@ by {
                    if enc_post(p) == b@ {
                        assert(b@.skip(pos1 as int) == enc_tail1(p));
                        assert(b@.skip(pos1 as int) == enc_str(p.title) + enc_tail2(p));
                    }
                }
            }
            return None;
        },
    };
    proof {
        assert forall|p: PostView| post_ok(p) && enc_post(p) == b@ implies p.title == title_s@
            && b@.skip(pos2 as int) == enc_tail2(p) by {
            assert(enc_str(title_s@) + b@.skip(pos2 as int) =~= b@.skip(pos1 as int));
            lemma_enc_str_chop(title_s@, b@.skip(pos2 as int), p.title, enc_tail2(p));
        }
    }
    let count = match read_le8(b, pos2) {
        Some(n) => n,
        None => {
            proof {
                assert forall|p: PostView| post_ok(p) implies enc_post(p) != b@ by {
                    if enc_post(p) == b@ {
                        lemma_le_bytes_len(p.urls.len(), 8);
                        assert(b@.skip(pos2 as int).len() >= 8);
                    }
                }
            }
            return None;
        },
    };
    let pos3 = pos2 + 8;
    proof {
        assert forall|p: PostView| post_ok(p) && enc_post(p) == b@ implies p.urls.len()
            == count as nat && b@.skip(pos3 as int) == enc_tail3(p, 0) by {
            lemma_le_bytes_len(p.urls.len(), 8);
            assert(b@.skip(pos2 as int).subrange(0, 8) =~= le_bytes(p.urls.len(), 8));
            assert(b@.subrange(pos2 as int, pos2 + 8) =~= le_bytes(p.urls.len(), 8));
            lemma_le_roundtrip(p.urls.len(), 8);
            assert(count as nat == from_le(b@.subrange(pos2 as int, pos2 + 8)));
            assert(b@.skip(pos3 as int) =~= b@.skip(pos2 as int).skip(8));
            assert(b@.skip(pos2 as int).skip(8) =~= enc_tail3(p, 0));
        }
    }
    let mut urls: Vec<String> = Vec::new();
    let mut pos: usize = pos3;
    let mut j: u64 = 0;
    let ghost mut consumed: Seq<u8> = b@.subrange(0, pos3 as int);
    while j < count
        invariant
            j <= count,
            pos <= b@.len(),
            blen == b@.len(),
            urls@.len() == j,
            forall|i: int| 0 <= i < j ==> str_ok(#[trigger] urls@[i]@),
            b@.subrange(pos3 as int, pos as int) == enc_strs(
                Seq::new(urls@.len(), |i: int| urls@[i]@),
            ),
            pos3 <= pos,
            forall|p: PostView|
                post_ok(p) && enc_post(p) == b@ ==> p.urls.len() == count as nat && (p.urls.take(
                    j as int,
                ) == Seq::new(urls@.len(), |i: int| urls@[i]@)) && b@.skip(pos as int)
                    == enc_tail3(p, j as int),
        decreases count - j,
    {
        let (u, np) = match read_str(b, pos) {
            Some(se) => se,
            None => {
                proof {
                    assert forall|p: PostView| post_ok(p) implies enc_post(p) != b@ by {
                        if enc_post(p) == b@ {
                            lemma_enc_tail3_step(p, j as int);
                            assert(b@.skip(pos as int) == enc_str(p.urls[j as int]) + enc_tail3(
                                p,
                                j + 1,
                            ));
                        }
                    }
                }
                return None;
            },
        };
        let ghost upre = Seq::new(urls@.len(), |i: int| urls@[i]@);
        urls.push(u);
        proof {
            let unow = Seq::new(urls@.len(), |i: int| urls@[i]@);
            assert(unow =~= upre.push(urls@[j as int]@));
            lemma_enc_strs_push(upre, urls@[j as int]@);
            assert(b@.subrange(pos3 as int, np as int) =~= b@.subrange(pos3 as int, pos as int)
                + b@.subrange(pos as int, np as int));
            assert(b@.subrange(pos3 as int, np as int) =~= enc_strs(unow));
            assert forall|p: PostView| post_ok(p) && enc_post(p) == b@ implies p.urls.len()
                == count as nat && (p.urls.take(j + 1) == unow) && b@.skip(np as int) == enc_tail3(
                p,
                j + 1,
            ) by {
                lemma_enc_tail3_step(p, j as int);
                assert(enc_str(urls@[j as int]@) + b@.skip(np as int) =~= b@.skip(pos as int));
                lemma_enc_str_chop(
                    urls@[j as int]@,
                    b@.skip(np as int),
                    p.urls[j as int],
                    enc_tail3(p, j + 1),
                );
                assert(p.urls.take(j + 1) =~= p.urls.take(j as int).push(p.urls[j as int]));
            }
        }
        pos = np;
        j = j + 1;
    }
    let ts = match read_le8(b, pos) {
        Some(n) => n,
        None => {
            proof {
                assert forall|p: PostView| post_ok(p) implies enc_post(p) != b@ by {
                    if enc_post(p) == b@ {
                        assert(p.urls.skip(count as int) =~= Seq::<Seq<char>>::empty());
                        assert(enc_tail3(p, count as int) =~= enc_tail4(p));
                        lemma_le_bytes_len((p.published as u64) as nat, 8);
                    }
                }
            }
            return None;
        },
    };
    let pos4 = pos + 8;
    proof {
        assert forall|p: PostView| post_ok(p) && enc_post(p) == b@ implies (p.published as u64)
            == ts && b@.skip(pos4 as int) == seq![
            if p.read {
                1u8
            } else {
                0u8
            },
        ] by {
            assert(p.urls.skip(count as int) =~= Seq::<Seq<char>>::empty());
            assert(enc_tail3(p, count as int) =~= enc_tail4(p));
            lemma_le_bytes_len((p.published as u64) as nat, 8);
            assert(b@.skip(pos as int).subrange(0, 8) =~= le_bytes((p.published as u64) as nat, 8));
            assert(b@.subrange(pos as int, pos + 8) =~= le_bytes((p.published as u64) as nat, 8));
            lemma_pow256_8();
            lemma_le_roundtrip((p.published as u64) as nat, 8);
            assert(b@.skip(pos4 as int) =~= b@.skip(pos as int).skip(8));
            assert(b@.skip(pos as int).skip(8) =~= seq![
                if p.read {
                    1u8
                } else {
                    0u8
                },
            ]);
        }
    }
    if pos4 >= blen || blen - pos4 != 1 {
        proof {
            assert forall|p: PostView| post_ok(p) implies enc_post(p) != b@ by {
                if enc_post(p) == b@ {
                    assert(b@.skip(pos4 as int).len() == 1);
                }
            }
        }
        return None;
    }
    let flag = b[pos4];
    if flag > 1 {
        proof {
            assert forall|p: PostView| post_ok(p) implies enc_post(p) != b@ by {
                if enc_post(p) == b@ {
                    assert(b@.skip(pos4 as int)[0] == b@[pos4 as int]);
                }
            }
        }
        return None;
    }
    let read = flag == 1;
    let q = Post {
        id: PostId(id_s),
        title: title_s,
        urls,
        published: #[verifier::truncate] (ts as i64),
        read,
    };
    proof {
        let ghost qv = q@;
        assert(qv.urls =~= Seq::new(urls@.len(), |i: int| urls@[i]@));
        lemma_pow256_8();
        assert(post_ok(qv));
        let tsb: u64 = ts;
        assert((#[verifier::truncate] (tsb as i64)) as u64 == tsb) by (bit_vector);
        assert(b@ =~= b@.subrange(0, pos3 as int) + b@.subrange(pos3 as int, pos as int)
            + b@.subrange(pos as int, pos4 as int) + b@.subrange(pos4 as int, blen as int));
        assert(b@.subrange(0, pos1 as int) == enc_str(id_s@));
        assert(b@.subrange(pos1 as int, pos2 as int) == enc_str(title_s@));
        assert(b@.subrange(pos2 as int, pos3 as int) =~= le_bytes(count as nat, 8)) by {
            lemma_le_bytes_of_from_le(b@.subrange(pos2 as int, pos3 as int));
        }
        assert(b@.subrange(pos as int, pos4 as int) =~= le_bytes(ts as nat, 8)) by {
            lemma_le_bytes_of_from_le(b@.subrange(pos as int, pos4 as int));
        }
        assert(b@.subrange(pos4 as int, blen as int) =~= seq![
            if read {
                1u8
            } else {
                0u8
            },
        ]);
        assert(b@.subrange(0, pos3 as int) =~= b@.subrange(0, pos1 as int) + b@.subrange(
            pos1 as int,
            pos2 as int,
        ) + b@.subrange(pos2 as int, pos3 as int));
        assert(enc_post(qv) =~= enc_str(qv.id) + enc_str(qv.title) + le_bytes(qv.urls.len(), 8)
            + enc_strs(qv.urls) + le_bytes((qv.published as u64) as nat, 8) + seq![
            if qv.read {
                1u8
            } else {
                0u8
            },
        ]);
        assert(enc_post(qv) =~= b@);
    }
    Some(q)
}

} // verus!
