//! The byte layout of the format as specification: encoders of every field
//! and section, the lists they are made of, and the facts that tie each
//! encoder to the parser of the same field.

use crate::error::ErrorCase;
use crate::index::u64_item;
use crate::reader::{
    parse_bytes_u32, parse_string_u16, parse_string_u32, parse_take, parse_u16, parse_u32,
    parse_u64, parse_u8,
};
use vstd::bytes::*;
use vstd::prelude::*;
use vstd::utf8::*;

verus! {

/// The bytes of `s` at `pos` are exactly `e`.
pub open spec fn at(s: Seq<u8>, pos: int, e: Seq<u8>) -> bool {
    0 <= pos && pos + e.len() <= s.len() && s.subrange(pos, pos + e.len()) == e
}

/// `a + b` at `pos` is `a` at `pos` followed by `b`.
pub proof fn lemma_at_split(s: Seq<u8>, pos: int, a: Seq<u8>, b: Seq<u8>)
    requires
        at(s, pos, a + b),
    ensures
        at(s, pos, a),
        at(s, pos + a.len(), b),
{
    let w = s.subrange(pos, pos + a.len() + b.len());
    assert(w == a + b);
    assert(s.subrange(pos, pos + a.len()) =~= w.subrange(0, a.len() as int));
    assert(w.subrange(0, a.len() as int) =~= a);
    assert(s.subrange(pos + a.len(), pos + a.len() + b.len()) =~= w.subrange(
        a.len() as int,
        w.len() as int,
    ));
    assert(w.subrange(a.len() as int, w.len() as int) =~= b);
}

/// Bytes are at their own start.
pub proof fn lemma_at_self(e: Seq<u8>, rest: Seq<u8>)
    ensures
        at(e + rest, 0, e),
{
    assert((e + rest).subrange(0, e.len() as int) =~= e);
}

pub open spec fn enc_u8(v: u8) -> Seq<u8> {
    seq![v]
}

pub open spec fn enc_u16(v: u16) -> Seq<u8> {
    spec_u16_to_le_bytes(v)
}

pub open spec fn enc_u32(v: u32) -> Seq<u8> {
    spec_u32_to_le_bytes(v)
}

pub open spec fn enc_u64(v: u64) -> Seq<u8> {
    spec_u64_to_le_bytes(v)
}

/// Bytes with a `u32` length prefix; the length is written modulo 2^32.
pub open spec fn enc_bytes_u32(b: Seq<u8>) -> Seq<u8> {
    enc_u32(b.len() as u32) + b
}

/// A string as UTF-8 with a `u16` length prefix; the length is written
/// modulo 2^16.
pub open spec fn enc_string_u16(c: Seq<char>) -> Seq<u8> {
    enc_u16(encode_utf8(c).len() as u16) + encode_utf8(c)
}

/// A string as UTF-8 with a `u32` length prefix; the length is written
/// modulo 2^32.
pub open spec fn enc_string_u32(c: Seq<char>) -> Seq<u8> {
    enc_bytes_u32(encode_utf8(c))
}

/// The encodings of the items, one after the other.
pub open spec fn enc_repeat<T>(xs: Seq<T>, enc: spec_fn(T) -> Seq<u8>) -> Seq<u8>
    decreases xs.len(),
{
    if xs.len() == 0 {
        Seq::empty()
    } else {
        enc_repeat(xs.drop_last(), enc) + enc(xs.last())
    }
}

/// `n` items, each parsed by `item` where the previous one ended.
pub open spec fn parse_repeat<T>(
    s: Seq<u8>,
    pos: int,
    n: nat,
    item: spec_fn(Seq<u8>, int) -> Result<(T, int), ErrorCase>,
) -> Result<(Seq<T>, int), ErrorCase>
    decreases n,
{
    if n == 0 {
        Ok((Seq::empty(), pos))
    } else {
        match parse_repeat(s, pos, (n - 1) as nat, item) {
            Ok((xs, p)) => match item(s, p) {
                Ok((x, q)) => Ok((xs.push(x), q)),
                Err(e) => Err(e),
            },
            Err(e) => Err(e),
        }
    }
}

// ── Each parser reads back what its encoder wrote ─────────────────────────

pub proof fn lemma_take_at(s: Seq<u8>, pos: int, e: Seq<u8>)
    requires
        at(s, pos, e),
    ensures
        parse_take(s, pos, e.len() as int) == Ok::<_, ErrorCase>((e, pos + e.len())),
{
}

pub proof fn lemma_u8_at(s: Seq<u8>, pos: int, v: u8)
    requires
        at(s, pos, enc_u8(v)),
    ensures
        parse_u8(s, pos) == Ok::<_, ErrorCase>((v, pos + 1)),
{
    assert(s.subrange(pos, pos + 1)[0] == enc_u8(v)[0]);
}

pub proof fn lemma_u16_at(s: Seq<u8>, pos: int, v: u16)
    requires
        at(s, pos, enc_u16(v)),
    ensures
        enc_u16(v).len() == 2,
        parse_u16(s, pos) == Ok::<_, ErrorCase>((v, pos + 2)),
{
    lemma_auto_spec_u16_to_from_le_bytes();
}

pub proof fn lemma_u32_at(s: Seq<u8>, pos: int, v: u32)
    requires
        at(s, pos, enc_u32(v)),
    ensures
        enc_u32(v).len() == 4,
        parse_u32(s, pos) == Ok::<_, ErrorCase>((v, pos + 4)),
{
    lemma_auto_spec_u32_to_from_le_bytes();
}

pub proof fn lemma_u64_at(s: Seq<u8>, pos: int, v: u64)
    requires
        at(s, pos, enc_u64(v)),
    ensures
        enc_u64(v).len() == 8,
        parse_u64(s, pos) == Ok::<_, ErrorCase>((v, pos + 8)),
{
    lemma_auto_spec_u64_to_from_le_bytes();
}

pub proof fn lemma_enc_lens(v16: u16, v32: u32, v64: u64)
    ensures
        enc_u16(v16).len() == 2,
        enc_u32(v32).len() == 4,
        enc_u64(v64).len() == 8,
        forall|x: u16| #[trigger] enc_u16(x).len() == 2,
        forall|x: u32| #[trigger] enc_u32(x).len() == 4,
        forall|x: u64| #[trigger] enc_u64(x).len() == 8,
{
    lemma_auto_spec_u16_to_from_le_bytes();
    lemma_auto_spec_u32_to_from_le_bytes();
    lemma_auto_spec_u64_to_from_le_bytes();
}

pub proof fn lemma_bytes_u32_at(s: Seq<u8>, pos: int, b: Seq<u8>)
    requires
        at(s, pos, enc_bytes_u32(b)),
        b.len() <= u32::MAX,
    ensures
        parse_bytes_u32(s, pos) == Ok::<_, ErrorCase>((b, pos + enc_bytes_u32(b).len())),
{
    lemma_at_split(s, pos, enc_u32(b.len() as u32), b);
    lemma_u32_at(s, pos, b.len() as u32);
}

pub proof fn lemma_string_u16_at(s: Seq<u8>, pos: int, c: Seq<char>)
    requires
        at(s, pos, enc_string_u16(c)),
        encode_utf8(c).len() <= u16::MAX,
    ensures
        parse_string_u16(s, pos) == Ok::<_, ErrorCase>((c, pos + enc_string_u16(c).len())),
{
    let b = encode_utf8(c);
    lemma_at_split(s, pos, enc_u16(b.len() as u16), b);
    lemma_u16_at(s, pos, b.len() as u16);
    encode_utf8_valid_utf8(c);
    encode_utf8_decode_utf8(c);
}

pub proof fn lemma_string_u32_at(s: Seq<u8>, pos: int, c: Seq<char>)
    requires
        at(s, pos, enc_string_u32(c)),
        encode_utf8(c).len() <= u32::MAX,
    ensures
        parse_string_u32(s, pos) == Ok::<_, ErrorCase>((c, pos + enc_string_u32(c).len())),
{
    lemma_bytes_u32_at(s, pos, encode_utf8(c));
    encode_utf8_valid_utf8(c);
    encode_utf8_decode_utf8(c);
}

/// A list of items reads back when each of its items does.
pub proof fn lemma_repeat_at<T>(
    s: Seq<u8>,
    pos: int,
    xs: Seq<T>,
    enc: spec_fn(T) -> Seq<u8>,
    item: spec_fn(Seq<u8>, int) -> Result<(T, int), ErrorCase>,
)
    requires
        at(s, pos, enc_repeat(xs, enc)),
        forall|i: int, p: int|
            0 <= i < xs.len() && #[trigger] at(s, p, enc(xs[i])) ==> item(s, p) == Ok::<
                _,
                ErrorCase,
            >((xs[i], p + enc(xs[i]).len())),
    ensures
        parse_repeat(s, pos, xs.len(), item) == Ok::<_, ErrorCase>(
            (xs, pos + enc_repeat(xs, enc).len()),
        ),
    decreases xs.len(),
{
    if xs.len() > 0 {
        let init = xs.drop_last();
        lemma_at_split(s, pos, enc_repeat(init, enc), enc(xs.last()));
        assert forall|i: int, p: int|
            0 <= i < init.len() && #[trigger] at(s, p, enc(init[i])) implies item(s, p) == Ok::<
                _,
                ErrorCase,
            >((init[i], p + enc(init[i]).len())) by {
            assert(init[i] == xs[i]);
            assert(item(s, p) == Ok::<_, ErrorCase>((xs[i], p + enc(xs[i]).len())));
        }
        lemma_repeat_at(s, pos, init, enc, item);
        let p = pos + enc_repeat(init, enc).len();
        let last = xs.len() - 1;
        assert(xs.last() == xs[last]);
        assert(at(s, p, enc(xs[last])));
        assert(item(s, p) == Ok::<_, ErrorCase>((xs[last], p + enc(xs[last]).len())));
        assert(init.push(xs.last()) =~= xs);
    } else {
        assert(xs =~= Seq::<T>::empty());
    }
}

/// A list that reads has as many items as were asked for.
pub proof fn lemma_repeat_len<T>(
    s: Seq<u8>,
    pos: int,
    n: nat,
    item: spec_fn(Seq<u8>, int) -> Result<(T, int), ErrorCase>,
)
    ensures
        parse_repeat(s, pos, n, item) matches Ok((xs, _)) ==> xs.len() == n,
    decreases n,
{
    if n > 0 {
        lemma_repeat_len(s, pos, (n - 1) as nat, item);
    }
}

/// `n` little-endian `u64` values read from `pos` exactly when `8 * n`
/// bytes are there, and the read ends after them.
pub proof fn lemma_u64_list(s: Seq<u8>, pos: int, n: nat)
    requires
        0 <= pos <= s.len(),
    ensures
        (parse_repeat(s, pos, n, u64_item()) is Ok) <==> pos + 8 * n
            <= s.len(),
        parse_repeat(s, pos, n, u64_item()) matches Ok((_, q)) ==> q
            == pos + 8 * n,
    decreases n,
{
    if n > 0 {
        lemma_u64_list(s, pos, (n - 1) as nat);
        if let Ok((_, p)) = parse_repeat(s, pos, (n - 1) as nat, u64_item()) {
            assert(u64_item()(s, p) == parse_u64(s, p));
        }
    }
}

/// Bytes at `a` that a write at `pos` does not touch are still there after it.
pub proof fn lemma_overwrite_at(s: Seq<u8>, pos: int, p: Seq<u8>, a: int, e: Seq<u8>)
    requires
        0 <= pos,
        pos + p.len() <= s.len(),
        at(s, a, e),
        a >= pos + p.len() || a + e.len() <= pos,
    ensures
        at(s.take(pos) + p + s.skip(pos + p.len()), a, e),
{
    let t = s.take(pos) + p + s.skip(pos + p.len());
    assert(t.len() == s.len());
    assert forall|k: int| a <= k < a + e.len() implies t[k] == s[k] by {
        if k < pos {
            assert(t[k] == s.take(pos)[k]);
        } else {
            assert(t[k] == s.skip(pos + p.len())[k - pos - p.len()]);
        }
    }
    assert(t.subrange(a, a + e.len()) =~= s.subrange(a, a + e.len()));
}

/// A write at `pos` leaves its bytes there and the length unchanged.
pub proof fn lemma_overwrite_self(s: Seq<u8>, pos: int, p: Seq<u8>)
    requires
        0 <= pos,
        pos + p.len() <= s.len(),
    ensures
        (s.take(pos) + p + s.skip(pos + p.len())).len() == s.len(),
        at(s.take(pos) + p + s.skip(pos + p.len()), pos, p),
{
    let t = s.take(pos) + p + s.skip(pos + p.len());
    assert(t.subrange(pos, pos + p.len()) =~= p);
}

/// The encodings of the first `j` items begin the encodings of all of them.
pub proof fn lemma_repeat_prefix_at<T>(
    s: Seq<u8>,
    pos: int,
    xs: Seq<T>,
    enc: spec_fn(T) -> Seq<u8>,
    j: int,
)
    requires
        at(s, pos, enc_repeat(xs, enc)),
        0 <= j <= xs.len(),
    ensures
        at(s, pos, enc_repeat(xs.take(j), enc)),
        enc_repeat(xs.take(j), enc).len() <= enc_repeat(xs, enc).len(),
    decreases xs.len(),
{
    if j == xs.len() {
        assert(xs.take(j) =~= xs);
    } else {
        let init = xs.drop_last();
        lemma_at_split(s, pos, enc_repeat(init, enc), enc(xs.last()));
        lemma_repeat_prefix_at(s, pos, init, enc, j);
        assert(init.take(j) =~= xs.take(j));
    }
}

/// Item `i` stands right after the encodings of the items before it.
pub proof fn lemma_repeat_item_at<T>(
    s: Seq<u8>,
    pos: int,
    xs: Seq<T>,
    enc: spec_fn(T) -> Seq<u8>,
    i: int,
)
    requires
        at(s, pos, enc_repeat(xs, enc)),
        0 <= i < xs.len(),
    ensures
        at(s, pos + enc_repeat(xs.take(i), enc).len(), enc(xs[i])),
        enc_repeat(xs.take(i), enc).len() + enc(xs[i]).len() <= enc_repeat(xs, enc).len(),
{
    lemma_repeat_prefix_at(s, pos, xs, enc, i + 1);
    let t = xs.take(i + 1);
    assert(t.drop_last() =~= xs.take(i));
    assert(t.last() == xs[i]);
    lemma_at_split(s, pos, enc_repeat(xs.take(i), enc), enc(xs[i]));
}

/// Items of `k` bytes each take `k` bytes apiece.
pub proof fn lemma_repeat_fixed_len<T>(xs: Seq<T>, enc: spec_fn(T) -> Seq<u8>, k: nat)
    requires
        forall|x: T| #[trigger] enc(x).len() == k,
    ensures
        enc_repeat(xs, enc).len() == k * xs.len(),
    decreases xs.len(),
{
    if xs.len() > 0 {
        lemma_repeat_fixed_len(xs.drop_last(), enc, k);
        assert(enc(xs.last()).len() == k);
        assert(k * (xs.len() - 1) + k == k * xs.len()) by (nonlinear_arith);
    }
}

} // verus!
