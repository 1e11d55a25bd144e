use vstd::prelude::*;

use crate::record::Quiz;
use crate::record::QuizView;

verus! {

/// `Vec<u8>::deep_view` and `Vec<u8>::view` name one sequence.
pub broadcast proof fn lemma_bytes_deep_view(v: Vec<u8>)
    ensures
        #[trigger] v.deep_view() == v@,
{
    assert(v.deep_view() =~= v@);
}

/// Indexing the deep view of a vector of byte vectors is indexing the vector.
pub broadcast proof fn lemma_blobs_deep_view_index(v: Vec<Vec<u8>>, i: int)
    requires
        0 <= i < v@.len(),
    ensures
        #[trigger] v.deep_view()[i] == v@[i]@,
{
    assert(v@[i].deep_view() =~= v@[i]@);
}

/// The eight little-endian bytes of a 64-bit integer.
pub open spec fn le64(x: u64) -> Seq<u8> {
    seq![
        (x & 0xff) as u8,
        ((x >> 8) & 0xff) as u8,
        ((x >> 16) & 0xff) as u8,
        ((x >> 24) & 0xff) as u8,
        ((x >> 32) & 0xff) as u8,
        ((x >> 40) & 0xff) as u8,
        ((x >> 48) & 0xff) as u8,
        ((x >> 56) & 0xff) as u8,
    ]
}

/// The four little-endian bytes of a 32-bit integer.
pub open spec fn le32(x: u32) -> Seq<u8> {
    seq![
        (x & 0xff) as u8,
        ((x >> 8) & 0xff) as u8,
        ((x >> 16) & 0xff) as u8,
        ((x >> 24) & 0xff) as u8,
    ]
}

/// The 64-bit integer eight little-endian bytes hold.
pub open spec fn from_le64(s: Seq<u8>) -> u64 {
    ((s[0] as u64) | ((s[1] as u64) << 8) | ((s[2] as u64) << 16) | ((s[3] as u64) << 24)
        | ((s[4] as u64) << 32) | ((s[5] as u64) << 40) | ((s[6] as u64) << 48)
        | ((s[7] as u64) << 56)) as u64
}

/// The 32-bit integer four little-endian bytes hold.
pub open spec fn from_le32(s: Seq<u8>) -> u32 {
    ((s[0] as u32) | ((s[1] as u32) << 8) | ((s[2] as u32) << 16) | ((s[3] as u32) << 24)) as u32
}

pub proof fn lemma_le64_roundtrip(x: u64)
    ensures
        from_le64(le64(x)) == x,
{
    assert((((x & 0xff) as u8) as u64) | ((((x >> 8) & 0xff) as u8) as u64) << 8
        | ((((x >> 16) & 0xff) as u8) as u64) << 16 | ((((x >> 24) & 0xff) as u8) as u64) << 24
        | ((((x >> 32) & 0xff) as u8) as u64) << 32 | ((((x >> 40) & 0xff) as u8) as u64) << 40
        | ((((x >> 48) & 0xff) as u8) as u64) << 48 | ((((x >> 56) & 0xff) as u8) as u64) << 56
        == x) by (bit_vector);
}

pub proof fn lemma_le32_roundtrip(x: u32)
    ensures
        from_le32(le32(x)) == x,
{
    assert((((x & 0xff) as u8) as u32) | ((((x >> 8) & 0xff) as u8) as u32) << 8
        | ((((x >> 16) & 0xff) as u8) as u32) << 16 | ((((x >> 24) & 0xff) as u8) as u32) << 24
        == x) by (bit_vector);
}

/// A length-prefixed byte string: four length bytes, then the bytes.
pub open spec fn enc_blob(b: Seq<u8>) -> Seq<u8> {
    le32(b.len() as u32) + b
}

/// The update time as one tag byte and eight value bytes; an absent time
/// is a zero tag over zero bytes, so the field is always nine bytes wide.
pub open spec fn enc_updated(u: Option<u64>) -> Seq<u8> {
    match u {
        None => seq![0u8] + le64(0),
        Some(t) => seq![1u8] + le64(t),
    }
}

/// The option labels, one length-prefixed string after the other.
pub open spec fn enc_options(s: Seq<Seq<u8>>) -> Seq<u8>
    decreases s.len(),
{
    if s.len() == 0 {
        Seq::empty()
    } else {
        enc_blob(s[0]) + enc_options(s.skip(1))
    }
}

/// The tallies, four bytes each, in option order.
pub open spec fn enc_counts(c: Seq<u32>) -> Seq<u8>
    decreases c.len(),
{
    if c.len() == 0 {
        Seq::empty()
    } else {
        le32(c[0]) + enc_counts(c.skip(1))
    }
}

/// How many bytes the labels occupy once encoded.
pub open spec fn options_len(s: Seq<Seq<u8>>) -> int
    decreases s.len(),
{
    if s.len() == 0 {
        0
    } else {
        4 + s[0].len() + options_len(s.skip(1))
    }
}

/// How many bytes a record occupies once encoded.
pub open spec fn encoded_len(q: QuizView) -> int {
    8 + 8 + 9 + (4 + q.question.len()) + 4 + options_len(q.options) + 4 * q.answers.len()
}

/// The byte encoding of a record: identity, creation time, update time,
/// prompt, labels, tallies, in that order.
pub open spec fn encode_spec(q: QuizView) -> Seq<u8> {
    le64(q.id) + le64(q.created_at) + enc_updated(q.updated_at) + enc_blob(q.question)
        + le32(q.options.len() as u32) + enc_options(q.options) + enc_counts(q.answers)
}

pub proof fn lemma_options_len_nonneg(s: Seq<Seq<u8>>)
    ensures
        options_len(s) >= 0,
    decreases s.len(),
{
    if s.len() > 0 {
        lemma_options_len_nonneg(s.skip(1));
    }
}

/// Each label accounts for part of the total label length.
pub proof fn lemma_options_len_bound(s: Seq<Seq<u8>>, i: int)
    requires
        0 <= i < s.len(),
    ensures
        4 + s[i].len() <= options_len(s),
    decreases s.len(),
{
    if i == 0 {
        lemma_options_len_nonneg(s.skip(1));
    } else {
        lemma_options_len_bound(s.skip(1), i - 1);
        assert(s.skip(1)[i - 1] == s[i]);
    }
}

pub proof fn lemma_enc_options_len(s: Seq<Seq<u8>>)
    ensures
        enc_options(s).len() == options_len(s),
    decreases s.len(),
{
    if s.len() > 0 {
        lemma_enc_options_len(s.skip(1));
    }
}

pub proof fn lemma_enc_counts_len(c: Seq<u32>)
    ensures
        enc_counts(c).len() == 4 * c.len(),
    decreases c.len(),
{
    if c.len() > 0 {
        lemma_enc_counts_len(c.skip(1));
    }
}

/// An encoded record is exactly `encoded_len` bytes long.
pub proof fn lemma_encode_len(q: QuizView)
    ensures
        encode_spec(q).len() == encoded_len(q),
{
    lemma_enc_options_len(q.options);
    lemma_enc_counts_len(q.answers);
}

pub proof fn lemma_enc_options_take_succ(s: Seq<Seq<u8>>, i: int)
    requires
        0 <= i < s.len(),
    ensures
        enc_options(s.take(i + 1)) == enc_options(s.take(i)) + enc_blob(s[i]),
    decreases i,
{
    let t = s.take(i + 1);
    assert(t[0] == s[0]);
    if i == 0 {
        assert(t.skip(1) =~= Seq::<Seq<u8>>::empty());
        assert(s.take(0) =~= Seq::<Seq<u8>>::empty());
        assert(enc_options(Seq::<Seq<u8>>::empty()) == Seq::<u8>::empty());
        assert(enc_options(t) == enc_blob(t[0]) + enc_options(t.skip(1)));
        assert(enc_options(t) =~= enc_blob(s[0]));
        assert(enc_options(s.take(0)) + enc_blob(s[0]) =~= enc_blob(s[0]));
    } else {
        lemma_enc_options_take_succ(s.skip(1), i - 1);
        assert(t.skip(1) =~= s.skip(1).take(i));
        assert(s.take(i).skip(1) =~= s.skip(1).take(i - 1));
        assert(s.skip(1)[i - 1] == s[i]);
        assert(enc_options(t) == enc_blob(s[0]) + (enc_options(s.skip(1).take(i - 1)) + enc_blob(
            s[i],
        )));
        assert(enc_options(s.take(i)) == enc_blob(s[0]) + enc_options(s.skip(1).take(i - 1)));
        assert(enc_blob(s[0]) + (enc_options(s.skip(1).take(i - 1)) + enc_blob(s[i])) =~= (enc_blob(
            s[0],
        ) + enc_options(s.skip(1).take(i - 1))) + enc_blob(s[i]));
    }
}

pub proof fn lemma_enc_counts_take_succ(c: Seq<u32>, i: int)
    requires
        0 <= i < c.len(),
    ensures
        enc_counts(c.take(i + 1)) == enc_counts(c.take(i)) + le32(c[i]),
    decreases i,
{
    let t = c.take(i + 1);
    assert(t[0] == c[0]);
    if i == 0 {
        assert(t.skip(1) =~= Seq::<u32>::empty());
        assert(c.take(0) =~= Seq::<u32>::empty());
        assert(enc_counts(Seq::<u32>::empty()) == Seq::<u8>::empty());
        assert(enc_counts(t) == le32(t[0]) + enc_counts(t.skip(1)));
        assert(enc_counts(t) =~= le32(c[0]));
        assert(enc_counts(c.take(0)) + le32(c[0]) =~= le32(c[0]));
    } else {
        lemma_enc_counts_take_succ(c.skip(1), i - 1);
        assert(t.skip(1) =~= c.skip(1).take(i));
        assert(c.take(i).skip(1) =~= c.skip(1).take(i - 1));
        assert(c.skip(1)[i - 1] == c[i]);
        assert(enc_counts(t) == le32(c[0]) + (enc_counts(c.skip(1).take(i - 1)) + le32(c[i])));
        assert(enc_counts(c.take(i)) == le32(c[0]) + enc_counts(c.skip(1).take(i - 1)));
        assert(le32(c[0]) + (enc_counts(c.skip(1).take(i - 1)) + le32(c[i])) =~= (le32(c[0])
            + enc_counts(c.skip(1).take(i - 1))) + le32(c[i]));
    }
}

/// Appends the eight little-endian bytes of `x`.
pub fn push_u64_le(out: &mut Vec<u8>, x: u64)
    ensures
        final(out)@ == old(out)@ + le64(x),
{
    out.push((x & 0xff) as u8);
    out.push(((x >> 8) & 0xff) as u8);
    out.push(((x >> 16) & 0xff) as u8);
    out.push(((x >> 24) & 0xff) as u8);
    out.push(((x >> 32) & 0xff) as u8);
    out.push(((x >> 40) & 0xff) as u8);
    out.push(((x >> 48) & 0xff) as u8);
    out.push(((x >> 56) & 0xff) as u8);
    proof {
        assert(out@ =~= old(out)@ + le64(x));
    }
}

/// Appends the four little-endian bytes of `x`.
pub fn push_u32_le(out: &mut Vec<u8>, x: u32)
    ensures
        final(out)@ == old(out)@ + le32(x),
{
    out.push((x & 0xff) as u8);
    out.push(((x >> 8) & 0xff) as u8);
    out.push(((x >> 16) & 0xff) as u8);
    out.push(((x >> 24) & 0xff) as u8);
    proof {
        assert(out@ =~= old(out)@ + le32(x));
    }
}

/// Appends a copy of `b`.
pub fn extend_bytes(out: &mut Vec<u8>, b: &Vec<u8>)
    ensures
        final(out)@ == old(out)@ + b@,
{
    let mut i: usize = 0;
    while i < b.len()
        invariant
            i <= b@.len(),
            out@ == old(out)@ + b@.take(i as int),
        decreases b@.len() - i,
    {
        out.push(b[i]);
        proof {
            assert(out@ =~= old(out)@ + b@.take(i + 1));
        }
        i = i + 1;
    }
    proof {
        assert(b@.take(b@.len() as int) =~= b@);
    }
}

/// Encodes a record as flat bytes; total for well-formed records and
/// deterministic: equal records give equal bytes.
pub fn encode(q: &Quiz) -> (r: Vec<u8>)
    requires
        q@.wf(),
    ensures
        r@ == encode_spec(q@),
        r@.len() == encoded_len(q@),
{
    broadcast use lemma_bytes_deep_view, lemma_blobs_deep_view_index;

    let mut out: Vec<u8> = Vec::new();
    push_u64_le(&mut out, q.id);
    push_u64_le(&mut out, q.created_at);
    match q.updated_at {
        None => {
            out.push(0u8);
            push_u64_le(&mut out, 0);
        },
        Some(t) => {
            out.push(1u8);
            push_u64_le(&mut out, t);
        },
    }
    proof {
        assert(out@ =~= le64(q@.id) + le64(q@.created_at) + enc_updated(q@.updated_at));
    }
    push_u32_le(&mut out, q.question.len() as u32);
    extend_bytes(&mut out, &q.question);
    push_u32_le(&mut out, q.options.len() as u32);
    let ghost head: Seq<u8> = out@;
    let mut i: usize = 0;
    while i < q.options.len()
        invariant
            q@.wf(),
            i <= q.options@.len(),
            q@.options == q.options.deep_view(),
            out@ == head + enc_options(q@.options.take(i as int)),
        decreases q.options@.len() - i,
    {
        broadcast use lemma_bytes_deep_view, lemma_blobs_deep_view_index;

        let opt = &q.options[i];
        push_u32_le(&mut out, opt.len() as u32);
        extend_bytes(&mut out, opt);
        proof {
            lemma_enc_options_take_succ(q@.options, i as int);
            assert(q@.options[i as int] == q.options@[i as int]@);
            assert(out@ =~= head + enc_options(q@.options.take(i + 1)));
        }
        i = i + 1;
    }
    proof {
        assert(q@.options.take(q@.options.len() as int) =~= q@.options);
    }
    let ghost head2: Seq<u8> = out@;
    let mut j: usize = 0;
    while j < q.answers.len()
        invariant
            j <= q.answers@.len(),
            q@.answers == q.answers@,
            out@ == head2 + enc_counts(q@.answers.take(j as int)),
        decreases q.answers@.len() - j,
    {
        push_u32_le(&mut out, q.answers[j]);
        proof {
            lemma_enc_counts_take_succ(q@.answers, j as int);
            assert(out@ =~= head2 + enc_counts(q@.answers.take(j + 1)));
        }
        j = j + 1;
    }
    proof {
        assert(q@.answers.take(q@.answers.len() as int) =~= q@.answers);
        assert(out@ =~= encode_spec(q@));
        lemma_encode_len(q@);
    }
    out
}

/// Reads a 64-bit integer at `p`, or nothing if fewer than eight bytes remain.
pub open spec fn parse_u64(b: Seq<u8>, p: int) -> Option<(u64, int)> {
    if 0 <= p && p + 8 <= b.len() {
        Some((from_le64(b.subrange(p, p + 8)), p + 8))
    } else {
        None
    }
}

/// Reads a 32-bit integer at `p`, or nothing if fewer than four bytes remain.
pub open spec fn parse_u32(b: Seq<u8>, p: int) -> Option<(u32, int)> {
    if 0 <= p && p + 4 <= b.len() {
        Some((from_le32(b.subrange(p, p + 4)), p + 4))
    } else {
        None
    }
}

/// Reads the update-time field at `p`: one tag byte over eight value bytes.
/// Only the two shapes `enc_updated` emits are accepted.
pub open spec fn parse_updated(b: Seq<u8>, p: int) -> Option<(Option<u64>, int)> {
    if 0 <= p && p + 9 <= b.len() {
        let tag = b[p];
        let v = from_le64(b.subrange(p + 1, p + 9));
        if tag == 0 && v == 0 {
            Some((None, p + 9))
        } else if tag == 1 {
            Some((Some(v), p + 9))
        } else {
            None
        }
    } else {
        None
    }
}

/// Reads a length-prefixed byte string at `p`.
pub open spec fn parse_blob(b: Seq<u8>, p: int) -> Option<(Seq<u8>, int)> {
    match parse_u32(b, p) {
        Some((n, p1)) => if p1 + n <= b.len() {
            Some((b.subrange(p1, p1 + n), p1 + n))
        } else {
            None
        },
        None => None,
    }
}

/// Reads `n` length-prefixed byte strings at `p`.
pub open spec fn parse_options(b: Seq<u8>, p: int, n: nat) -> Option<(Seq<Seq<u8>>, int)>
    decreases n,
{
    if n == 0 {
        Some((Seq::empty(), p))
    } else {
        match parse_blob(b, p) {
            Some((x, p1)) => match parse_options(b, p1, (n - 1) as nat) {
                Some((xs, p2)) => Some((seq![x] + xs, p2)),
                None => None,
            },
            None => None,
        }
    }
}

/// Reads `n` 32-bit tallies at `p`.
pub open spec fn parse_counts(b: Seq<u8>, p: int, n: nat) -> Option<(Seq<u32>, int)>
    decreases n,
{
    if n == 0 {
        Some((Seq::empty(), p))
    } else {
        match parse_u32(b, p) {
            Some((x, p1)) => match parse_counts(b, p1, (n - 1) as nat) {
                Some((xs, p2)) => Some((seq![x] + xs, p2)),
                None => None,
            },
            None => None,
        }
    }
}

/// The record a byte string holds, if it is the encoding of one: the
/// fields in encoding order, with no bytes left over.
pub open spec fn decode_spec(b: Seq<u8>) -> Option<QuizView> {
    match parse_u64(b, 0) {
        Some((id, p1)) => match parse_u64(b, p1) {
            Some((created_at, p2)) => match parse_updated(b, p2) {
                Some((updated_at, p3)) => match parse_blob(b, p3) {
                    Some((question, p4)) => match parse_u32(b, p4) {
                        Some((n, p5)) => match parse_options(b, p5, n as nat) {
                            Some((options, p6)) => match parse_counts(b, p6, n as nat) {
                                Some((answers, p7)) => if p7 == b.len() {
                                    Some(
                                        QuizView {
                                            id,
                                            question,
                                            options,
                                            answers,
                                            created_at,
                                            updated_at,
                                        },
                                    )
                                } else {
                                    None
                                },
                                None => None,
                            },
                            None => None,
                        },
                        None => None,
                    },
                    None => None,
                },
                None => None,
            },
            None => None,
        },
        None => None,
    }
}

pub proof fn lemma_parse_options_shape(b: Seq<u8>, p: int, n: nat)
    requires
        0 <= p <= b.len(),
    ensures
        parse_options(b, p, n) matches Some(t) ==> t.0.len() == n && p <= t.1 <= b.len()
            && forall|i: int| 0 <= i < n ==> (#[trigger] t.0[i]).len() < 0x1_0000_0000,
    decreases n,
{
    if n > 0 {
        if let Some((x, p1)) = parse_blob(b, p) {
            lemma_parse_options_shape(b, p1, (n - 1) as nat);
            assert(p <= p1 <= b.len());
            assert(x.len() < 0x1_0000_0000);
            if let Some((xs, p2)) = parse_options(b, p1, (n - 1) as nat) {
                let t0 = seq![x] + xs;
                assert(t0.len() == n);
                assert(forall|i: int|
                    0 <= i < n ==> (#[trigger] t0[i]).len() < 0x1_0000_0000) by {
                    assert(forall|i: int| 0 <= i < n ==> t0[i] == (if i == 0 {
                        x
                    } else {
                        xs[i - 1]
                    }));
                }
            }
        }
    }
}

pub proof fn lemma_parse_counts_shape(b: Seq<u8>, p: int, n: nat)
    requires
        0 <= p <= b.len(),
    ensures
        parse_counts(b, p, n) matches Some(t) ==> t.0.len() == n && p <= t.1 <= b.len(),
    decreases n,
{
    if n > 0 {
        if let Some((x, p1)) = parse_u32(b, p) {
            lemma_parse_counts_shape(b, p1, (n - 1) as nat);
            assert(p <= p1 <= b.len());
            if let Some((xs, p2)) = parse_counts(b, p1, (n - 1) as nat) {
                assert((seq![x] + xs).len() == n);
            }
        }
    }
}

/// Whatever decodes is well formed.
pub proof fn lemma_decode_wf(b: Seq<u8>)
    ensures
        decode_spec(b) matches Some(q) ==> q.wf(),
{
    if let Some((id, p1)) = parse_u64(b, 0) {
        if let Some((created_at, p2)) = parse_u64(b, p1) {
            if let Some((updated_at, p3)) = parse_updated(b, p2) {
                if let Some((question, p4)) = parse_blob(b, p3) {
                    if let Some((n, p5)) = parse_u32(b, p4) {
                        lemma_parse_options_shape(b, p5, n as nat);
                        if let Some((options, p6)) = parse_options(b, p5, n as nat) {
                            lemma_parse_counts_shape(b, p6, n as nat);
                        }
                    }
                }
            }
        }
    }
}

pub proof fn lemma_parse_u64_at(b: Seq<u8>, p: int, x: u64)
    requires
        0 <= p,
        p + 8 <= b.len(),
        b.subrange(p, p + 8) == le64(x),
    ensures
        parse_u64(b, p) == Some((x, p + 8)),
{
    lemma_le64_roundtrip(x);
}

pub proof fn lemma_parse_u32_at(b: Seq<u8>, p: int, x: u32)
    requires
        0 <= p,
        p + 4 <= b.len(),
        b.subrange(p, p + 4) == le32(x),
    ensures
        parse_u32(b, p) == Some((x, p + 4)),
{
    lemma_le32_roundtrip(x);
}

pub proof fn lemma_parse_updated_at(b: Seq<u8>, p: int, u: Option<u64>)
    requires
        0 <= p,
        p + 9 <= b.len(),
        b.subrange(p, p + 9) == enc_updated(u),
    ensures
        parse_updated(b, p) == Some((u, p + 9)),
{
    let e = enc_updated(u);
    assert(b[p] == e[0]);
    assert(b.subrange(p + 1, p + 9) =~= e.subrange(1, 9));
    match u {
        None => {
            assert(e.subrange(1, 9) =~= le64(0));
            lemma_le64_roundtrip(0);
        },
        Some(t) => {
            assert(e.subrange(1, 9) =~= le64(t));
            lemma_le64_roundtrip(t);
        },
    }
}

pub proof fn lemma_parse_blob_at(b: Seq<u8>, p: int, blob: Seq<u8>)
    requires
        0 <= p,
        blob.len() < 0x1_0000_0000,
        p + 4 + blob.len() <= b.len(),
        b.subrange(p, p + 4) == le32(blob.len() as u32),
        b.subrange(p + 4, p + 4 + blob.len()) == blob,
    ensures
        parse_blob(b, p) == Some((blob, p + 4 + blob.len())),
{
    lemma_parse_u32_at(b, p, blob.len() as u32);
}

pub proof fn lemma_parse_options_exact(b: Seq<u8>, pre: Seq<u8>, s: Seq<Seq<u8>>, rest: Seq<u8>)
    requires
        b == pre + enc_options(s) + rest,
        forall|i: int| 0 <= i < s.len() ==> (#[trigger] s[i]).len() < 0x1_0000_0000,
    ensures
        parse_options(b, pre.len() as int, s.len()) == Some(
            (s, pre.len() + options_len(s)),
        ),
    decreases s.len(),
{
    lemma_options_len_nonneg(s);
    lemma_enc_options_len(s);
    if s.len() == 0 {
        assert(parse_options(b, pre.len() as int, 0) == Some(
            (Seq::<Seq<u8>>::empty(), pre.len() as int),
        ));
        assert(s =~= Seq::<Seq<u8>>::empty());
    } else {
        let s0 = s[0];
        let p = pre.len() as int;
        lemma_options_len_nonneg(s.skip(1));
        lemma_enc_options_len(s.skip(1));
        assert(enc_options(s) == enc_blob(s0) + enc_options(s.skip(1)));
        assert(b.subrange(p, p + 4) =~= le32(s0.len() as u32));
        assert(b.subrange(p + 4, p + 4 + s0.len()) =~= s0);
        lemma_parse_blob_at(b, p, s0);
        let pre2 = pre + enc_blob(s0);
        assert(b =~= pre2 + enc_options(s.skip(1)) + rest);
        lemma_parse_options_exact(b, pre2, s.skip(1), rest);
        assert(pre2.len() == p + 4 + s0.len());
        assert(seq![s0] + s.skip(1) =~= s);
        assert(pre2.len() + options_len(s.skip(1)) == pre.len() + options_len(s));
    }
}

pub proof fn lemma_parse_counts_exact(b: Seq<u8>, pre: Seq<u8>, c: Seq<u32>, rest: Seq<u8>)
    requires
        b == pre + enc_counts(c) + rest,
    ensures
        parse_counts(b, pre.len() as int, c.len()) == Some((c, pre.len() + 4 * c.len() as int)),
    decreases c.len(),
{
    lemma_enc_counts_len(c);
    if c.len() == 0 {
        assert(parse_counts(b, pre.len() as int, 0) == Some(
            (Seq::<u32>::empty(), pre.len() as int),
        ));
        assert(c =~= Seq::<u32>::empty());
    } else {
        let c0 = c[0];
        let p = pre.len() as int;
        lemma_enc_counts_len(c.skip(1));
        assert(enc_counts(c) == le32(c0) + enc_counts(c.skip(1)));
        assert(b.subrange(p, p + 4) =~= le32(c0));
        lemma_parse_u32_at(b, p, c0);
        let pre2 = pre + le32(c0);
        assert(b =~= pre2 + enc_counts(c.skip(1)) + rest);
        lemma_parse_counts_exact(b, pre2, c.skip(1), rest);
        assert(seq![c0] + c.skip(1) =~= c);
    }
}

/// Reads the eight little-endian bytes at `p` as one 64-bit integer.
pub fn read_u64_at(b: &Vec<u8>, p: usize) -> (r: u64)
    requires
        p + 8 <= b@.len(),
    ensures
        r == from_le64(b@.subrange(p as int, p as int + 8)),
{
    let l = b.len();
    let r = (b[p] as u64) | ((b[p + 1] as u64) << 8) | ((b[p + 2] as u64) << 16) | ((b[p + 3]
        as u64) << 24) | ((b[p + 4] as u64) << 32) | ((b[p + 5] as u64) << 40) | ((b[p + 6] as u64)
        << 48) | ((b[p + 7] as u64) << 56);
    proof {
        let s = b@.subrange(p as int, p as int + 8);
        assert(s[0] == b@[p as int] && s[1] == b@[p as int + 1] && s[2] == b@[p as int + 2] && s[3]
            == b@[p as int + 3] && s[4] == b@[p as int + 4] && s[5] == b@[p as int + 5] && s[6]
            == b@[p as int + 6] && s[7] == b@[p as int + 7]);
    }
    r
}

/// Reads the four little-endian bytes at `p` as one 32-bit integer.
pub fn read_u32_at(b: &Vec<u8>, p: usize) -> (r: u32)
    requires
        p + 4 <= b@.len(),
    ensures
        r == from_le32(b@.subrange(p as int, p as int + 4)),
{
    let l = b.len();
    let r = (b[p] as u32) | ((b[p + 1] as u32) << 8) | ((b[p + 2] as u32) << 16) | ((b[p + 3]
        as u32) << 24);
    proof {
        let s = b@.subrange(p as int, p as int + 4);
        assert(s[0] == b@[p as int] && s[1] == b@[p as int + 1] && s[2] == b@[p as int + 2] && s[3]
            == b@[p as int + 3]);
    }
    r
}

/// Copies the bytes of `b` from `from` up to `to`.
pub fn copy_range(b: &Vec<u8>, from: usize, to: usize) -> (r: Vec<u8>)
    requires
        from <= to <= b@.len(),
    ensures
        r@ == b@.subrange(from as int, to as int),
{
    let mut r: Vec<u8> = Vec::new();
    proof {
        assert(r@ =~= b@.subrange(from as int, from as int));
    }
    let mut i: usize = from;
    while i < to
        invariant
            from <= i <= to <= b@.len(),
            r@ == b@.subrange(from as int, i as int),
        decreases to - i,
    {
        r.push(b[i]);
        proof {
            assert(r@ =~= b@.subrange(from as int, i + 1));
        }
        i = i + 1;
    }
    r
}

/// Reads one length-prefixed byte string, as `parse_blob` describes it.
pub fn parse_blob_exec(b: &Vec<u8>, p0: usize) -> (r: Option<(Vec<u8>, usize)>)
    requires
        p0 <= b@.len(),
    ensures
        match r {
            Some(t) => parse_blob(b@, p0 as int) == Some((t.0@, t.1 as int)) && p0 <= t.1
                <= b@.len(),
            None => parse_blob(b@, p0 as int) is None,
        },
{
    if b.len() - p0 < 4 {
        return None;
    }
    let n = read_u32_at(b, p0);
    let p1 = p0 + 4;
    let nn = n as usize;
    if b.len() - p1 < nn {
        return None;
    }
    let blob = copy_range(b, p1, p1 + nn);
    Some((blob, p1 + nn))
}

/// Reads `n` length-prefixed byte strings, as `parse_options` describes them.
pub fn parse_options_exec(b: &Vec<u8>, p0: usize, n: u32) -> (r: Option<(Vec<Vec<u8>>, usize)>)
    requires
        p0 <= b@.len(),
    ensures
        match r {
            Some(t) => parse_options(b@, p0 as int, n as nat) == Some(
                (t.0.deep_view(), t.1 as int),
            ) && p0 <= t.1 <= b@.len(),
            None => parse_options(b@, p0 as int, n as nat) is None,
        },
{
    let mut out: Vec<Vec<u8>> = Vec::new();
    let mut p: usize = p0;
    let mut i: u32 = 0;
    proof {
        assert(out.deep_view() =~= Seq::<Seq<u8>>::empty());
    }
    while i < n
        invariant
            i <= n,
            p0 <= p <= b@.len(),
            match parse_options(b@, p as int, (n - i) as nat) {
                Some(t) => parse_options(b@, p0 as int, n as nat) == Some(
                    (out.deep_view() + t.0, t.1),
                ),
                None => parse_options(b@, p0 as int, n as nat) is None,
            },
        decreases n - i,
    {
        let ghost old_out = out.deep_view();
        let ghost old_p = p as int;
        let ghost m = (n - i) as nat;
        match parse_blob_exec(b, p) {
            None => {
                proof {
                    assert(parse_options(b@, old_p, m) is None);
                }
                return None;
            },
            Some(t) => {
                let p_next = t.1;
                out.push(t.0);
                p = p_next;
                i = i + 1;
                proof {
                    broadcast use lemma_bytes_deep_view, lemma_blobs_deep_view_index;

                    let x = out@[out@.len() - 1]@;
                    assert(out.deep_view() =~= old_out + seq![x]);
                    if let Some(t2) = parse_options(b@, p as int, (n - i) as nat) {
                        assert(parse_options(b@, old_p, m) == Some((seq![x] + t2.0, t2.1)));
                        assert(old_out + (seq![x] + t2.0) =~= out.deep_view() + t2.0);
                    } else {
                        assert(parse_options(b@, old_p, m) is None);
                    }
                }
            },
        }
    }
    proof {
        assert(parse_options(b@, p as int, 0) == Some((Seq::<Seq<u8>>::empty(), p as int)));
        assert(out.deep_view() + Seq::<Seq<u8>>::empty() =~= out.deep_view());
    }
    Some((out, p))
}

/// Reads `n` tallies, as `parse_counts` describes them.
pub fn parse_counts_exec(b: &Vec<u8>, p0: usize, n: u32) -> (r: Option<(Vec<u32>, usize)>)
    requires
        p0 <= b@.len(),
    ensures
        match r {
            Some(t) => parse_counts(b@, p0 as int, n as nat) == Some((t.0@, t.1 as int)) && p0
                <= t.1 <= b@.len(),
            None => parse_counts(b@, p0 as int, n as nat) is None,
        },
{
    let mut out: Vec<u32> = Vec::new();
    let mut p: usize = p0;
    let mut i: u32 = 0;
    while i < n
        invariant
            i <= n,
            p0 <= p <= b@.len(),
            match parse_counts(b@, p as int, (n - i) as nat) {
                Some(t) => parse_counts(b@, p0 as int, n as nat) == Some((out@ + t.0, t.1)),
                None => parse_counts(b@, p0 as int, n as nat) is None,
            },
        decreases n - i,
    {
        let ghost old_out = out@;
        let ghost old_p = p as int;
        let ghost m = (n - i) as nat;
        if b.len() - p < 4 {
            proof {
                assert(parse_counts(b@, old_p, m) is None);
            }
            return None;
        }
        let x = read_u32_at(b, p);
        out.push(x);
        p = p + 4;
        i = i + 1;
        proof {
            assert(out@ =~= old_out + seq![x]);
            if let Some(t2) = parse_counts(b@, p as int, (n - i) as nat) {
                assert(parse_counts(b@, old_p, m) == Some((seq![x] + t2.0, t2.1)));
                assert(old_out + (seq![x] + t2.0) =~= out@ + t2.0);
            } else {
                assert(parse_counts(b@, old_p, m) is None);
            }
        }
    }
    proof {
        assert(parse_counts(b@, p as int, 0) == Some((Seq::<u32>::empty(), p as int)));
        assert(out@ + Seq::<u32>::empty() =~= out@);
    }
    Some((out, p))
}

/// Decodes flat bytes back into a record, or reports nothing when the
/// bytes are not the encoding of any record: truncated, mis-tagged or
/// trailing input is rejected rather than patched over.
pub fn decode(b: &Vec<u8>) -> (r: Option<Quiz>)
    ensures
        match r {
            Some(q) => decode_spec(b@) == Some(q@),
            None => decode_spec(b@) is None,
        },
{
    broadcast use lemma_bytes_deep_view, lemma_blobs_deep_view_index;

    let len = b.len();
    if len < 8 {
        return None;
    }
    let id = read_u64_at(b, 0);
    if len < 16 {
        return None;
    }
    let created_at = read_u64_at(b, 8);
    if len < 25 {
        return None;
    }
    let tag = b[16];
    let tv = read_u64_at(b, 17);
    proof {
        assert(b@.subrange(17, 25) =~= b@.subrange(16int + 1, 16int + 9));
    }
    let updated_at: Option<u64> = if tag == 0 && tv == 0 {
        None
    } else if tag == 1 {
        Some(tv)
    } else {
        proof {
            assert(parse_updated(b@, 16) is None);
        }
        return None;
    };
    let (question, p4) = match parse_blob_exec(b, 25) {
        Some(t) => t,
        None => {
            return None;
        },
    };
    if len - p4 < 4 {
        return None;
    }
    let n = read_u32_at(b, p4);
    let p5 = p4 + 4;
    let (options, p6) = match parse_options_exec(b, p5, n) {
        Some(t) => t,
        None => {
            return None;
        },
    };
    let (answers, p7) = match parse_counts_exec(b, p6, n) {
        Some(t) => t,
        None => {
            return None;
        },
    };
    if p7 != len {
        return None;
    }
    let q = Quiz { id, question, options, answers, created_at, updated_at };
    proof {
        assert(decode_spec(b@) matches Some(v) && v =~~= q@);
    }
    Some(q)
}

/// Decoding inverts encoding: every well-formed record comes back from
/// its own bytes.
pub proof fn lemma_round_trip(q: QuizView)
    requires
        q.wf(),
    ensures
        decode_spec(encode_spec(q)) == Some(q),
{
    let b = encode_spec(q);
    lemma_encode_len(q);
    lemma_options_len_nonneg(q.options);
    lemma_enc_options_len(q.options);
    lemma_enc_counts_len(q.answers);
    let qn: int = q.question.len() as int;
    let on: int = options_len(q.options);
    let an: int = q.answers.len() as int;

    assert(b.subrange(0, 8) =~= le64(q.id));
    lemma_parse_u64_at(b, 0, q.id);
    assert(b.subrange(8, 16) =~= le64(q.created_at));
    lemma_parse_u64_at(b, 8, q.created_at);
    assert(b.subrange(16, 25) =~= enc_updated(q.updated_at));
    lemma_parse_updated_at(b, 16, q.updated_at);
    assert(b.subrange(25, 29) =~= le32(q.question.len() as u32));
    assert(b.subrange(29, 29 + qn) =~= q.question);
    lemma_parse_blob_at(b, 25, q.question);
    assert(b.subrange(29 + qn, 33 + qn) =~= le32(q.options.len() as u32));
    lemma_parse_u32_at(b, 29 + qn, q.options.len() as u32);

    let pre = le64(q.id) + le64(q.created_at) + enc_updated(q.updated_at) + enc_blob(q.question)
        + le32(q.options.len() as u32);
    assert(pre.len() == 33 + qn);
    assert(b =~= pre + enc_options(q.options) + enc_counts(q.answers));
    lemma_parse_options_exact(b, pre, q.options, enc_counts(q.answers));
    assert((q.options.len() as u32) as nat == q.options.len());

    let pre2 = pre + enc_options(q.options);
    assert(pre2.len() == 33 + qn + on);
    assert(b =~= pre2 + enc_counts(q.answers) + Seq::<u8>::empty());
    lemma_parse_counts_exact(b, pre2, q.answers, Seq::<u8>::empty());
    assert(q.answers.len() == q.options.len());
    assert(33 + qn + on + 4 * an == b.len());

    assert(decode_spec(b) == Some(
        QuizView {
            id: q.id,
            question: q.question,
            options: q.options,
            answers: q.answers,
            created_at: q.created_at,
            updated_at: q.updated_at,
        },
    ));
    assert(QuizView {
        id: q.id,
        question: q.question,
        options: q.options,
        answers: q.answers,
        created_at: q.created_at,
        updated_at: q.updated_at,
    } =~~= q);
}

} // verus!
