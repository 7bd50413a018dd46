//! Byte-level encoding helpers.
//!
//! Instance ids cross the host boundary as 16 little-endian bytes, and the
//! host's script replies are read back the same way.

use vstd::prelude::*;
use crate::table::KeyTable;

verus! {

/// Byte `i` of the little-endian encoding of `x`.
pub open spec fn le_byte(x: u128, i: int) -> u8 {
    ((x >> (8 * i) as u128) & 0xff) as u8
}

/// The value read from the first `n` little-endian bytes of `s`.
pub open spec fn le_value(s: Seq<u8>, n: int) -> u128
    decreases n,
{
    if n <= 0 {
        0
    } else {
        le_value(s, n - 1) | ((s[n - 1] as u128) << (8 * (n - 1)) as u128)
    }
}

/// Copy a byte string.
pub fn copy_bytes(v: &Vec<u8>) -> (r: Vec<u8>)
    ensures
        r@ == v@,
{
    let mut r: Vec<u8> = Vec::new();
    let mut i: usize = 0;
    while i < v.len()
        invariant
            i <= v@.len(),
            r@ == v@.subrange(0, i as int),
        decreases v@.len() - i,
    {
        r.push(v[i]);
        i += 1;
    }
    assert(r@ =~= v@);
    r
}

/// The 16 little-endian bytes of `x`.
pub fn u128_to_le_bytes(x: u128) -> (r: Vec<u8>)
    ensures
        r@.len() == 16,
        forall|i: int| 0 <= i < 16 ==> r@[i] == le_byte(x, i),
{
    let mut r: Vec<u8> = Vec::new();
    let mut i: usize = 0;
    while i < 16
        invariant
            i <= 16,
            r@.len() == i,
            forall|j: int| 0 <= j < i ==> r@[j] == le_byte(x, j),
        decreases 16 - i,
    {
        let shift: u32 = 8 * (i as u32);
        let b: u8 = ((x >> shift as u128) & 0xff) as u8;
        r.push(b);
        i += 1;
    }
    r
}

/// Read a `u128` from the first 16 bytes of `bytes`; `None` when fewer than
/// 16 bytes arrived. Extra bytes are ignored, as the wire format allows.
pub fn u128_from_le_bytes(bytes: &Vec<u8>) -> (r: Option<u128>)
    ensures
        bytes@.len() < 16 ==> r == Option::<u128>::None,
        bytes@.len() >= 16 ==> r == Some(le_value(bytes@, 16)),
{
    if bytes.len() < 16 {
        return None;
    }
    let mut v: u128 = 0;
    let mut i: usize = 0;
    while i < 16
        invariant
            i <= 16,
            bytes@.len() >= 16,
            v == le_value(bytes@, i as int),
        decreases 16 - i,
    {
        let shift: u32 = 8 * (i as u32);
        v = v | ((bytes[i] as u128) << shift as u128);
        i += 1;
    }
    Some(v)
}

/// The encoding of one `u128`: its 16 little-endian bytes.
pub open spec fn spec_enc_u128(x: u128) -> Seq<u8> {
    Seq::new(16, |i: int| le_byte(x, i))
}

/// Read one `u128` at `pos`.
pub open spec fn spec_dec_u128(b: Seq<u8>, pos: int) -> Option<(u128, int)> {
    if pos < 0 || pos + 16 > b.len() {
        None
    } else {
        Some((le_value(b.subrange(pos, pos + 16), 16), pos + 16))
    }
}

/// A `u128` written at `pos` reads back unchanged.
pub proof fn lemma_dec_enc_u128(b: Seq<u8>, pos: int, x: u128)
    requires
        0 <= pos,
        pos + 16 <= b.len(),
        b.subrange(pos, pos + 16) == spec_enc_u128(x),
    ensures
        spec_dec_u128(b, pos) == Some((x, pos + 16)),
{
    lemma_le_round_trip(x, b.subrange(pos, pos + 16));
}

/// The encoding of an optional `u128`: a tag byte, then the value if any.
pub open spec fn spec_enc_opt(o: Option<u128>) -> Seq<u8> {
    match o {
        None => seq![0u8],
        Some(x) => seq![1u8] + spec_enc_u128(x),
    }
}

/// Read an optional `u128` at `pos`.
pub open spec fn spec_dec_opt(b: Seq<u8>, pos: int) -> Option<(Option<u128>, int)> {
    if pos < 0 || pos >= b.len() {
        None
    } else if b[pos] == 0 {
        Some((None, pos + 1))
    } else if b[pos] == 1 {
        match spec_dec_u128(b, pos + 1) {
            Some((x, p)) => Some((Some(x), p)),
            None => None,
        }
    } else {
        None
    }
}

/// An optional `u128` written at `pos` reads back unchanged.
pub proof fn lemma_dec_enc_opt(b: Seq<u8>, pos: int, o: Option<u128>)
    requires
        0 <= pos,
        pos + spec_enc_opt(o).len() <= b.len(),
        b.subrange(pos, pos + spec_enc_opt(o).len() as int) == spec_enc_opt(o),
    ensures
        spec_dec_opt(b, pos) == Some((o, pos + spec_enc_opt(o).len() as int)),
{
    match o {
        None => {
            assert(b[pos] == spec_enc_opt(o)[0]);
        },
        Some(x) => {
            let e = spec_enc_opt(o);
            assert(b[pos] == e[0]);
            assert forall|i: int| 0 <= i < 16 implies b.subrange(pos + 1, pos + 17)[i]
                == spec_enc_u128(x)[i] by {
                assert(b.subrange(pos, pos + 17)[i + 1] == e[i + 1]);
            }
            assert(b.subrange(pos + 1, pos + 17) =~= spec_enc_u128(x));
            lemma_dec_enc_u128(b, pos + 1, x);
        },
    }
}

/// The encoding of the items of a list, without its length.
pub open spec fn spec_enc_items(s: Seq<u128>) -> Seq<u8>
    decreases s.len(),
{
    if s.len() == 0 {
        Seq::empty()
    } else {
        spec_enc_items(s.drop_last()) + spec_enc_u128(s.last())
    }
}

/// The encoding of a list of `u128`: its length, then its items.
pub open spec fn spec_enc_u128_seq(s: Seq<u128>) -> Seq<u8> {
    spec_enc_u128(s.len() as u128) + spec_enc_items(s)
}

/// Read `n` consecutive `u128` items at `pos`.
pub open spec fn spec_dec_items(b: Seq<u8>, pos: int, n: int) -> Option<(Seq<u128>, int)>
    decreases n,
{
    if n <= 0 {
        Some((Seq::empty(), pos))
    } else {
        match spec_dec_items(b, pos, n - 1) {
            Some((s, p)) => match spec_dec_u128(b, p) {
                Some((x, q)) => Some((s.push(x), q)),
                None => None,
            },
            None => None,
        }
    }
}

/// Read a length-prefixed list of `u128` at `pos`.
pub open spec fn spec_dec_u128_seq(b: Seq<u8>, pos: int) -> Option<(Seq<u128>, int)> {
    match spec_dec_u128(b, pos) {
        Some((n, p)) => spec_dec_items(b, p, n as int),
        None => None,
    }
}

/// Items written at `pos` read back unchanged.
pub proof fn lemma_dec_enc_items(b: Seq<u8>, pos: int, s: Seq<u128>)
    requires
        0 <= pos,
        pos + spec_enc_items(s).len() <= b.len(),
        b.subrange(pos, pos + spec_enc_items(s).len() as int) == spec_enc_items(s),
    ensures
        spec_dec_items(b, pos, s.len() as int) == Some((s, pos + spec_enc_items(s).len() as int)),
    decreases s.len(),
{
    if s.len() == 0 {
    } else {
        let head = spec_enc_items(s.drop_last());
        let tail = spec_enc_u128(s.last());
        let e = spec_enc_items(s);
        let hl = head.len() as int;
        assert(e == head + tail);
        assert forall|i: int| 0 <= i < hl implies b.subrange(pos, pos + hl)[i] == head[i] by {
            assert(b.subrange(pos, pos + e.len() as int)[i] == e[i]);
            assert(e[i] == head[i]);
        }
        assert(b.subrange(pos, pos + hl) =~= head);
        lemma_dec_enc_items(b, pos, s.drop_last());
        assert forall|i: int| 0 <= i < 16 implies b.subrange(pos + hl, pos + hl + 16)[i]
            == tail[i] by {
            assert(b.subrange(pos, pos + e.len() as int)[hl + i] == e[hl + i]);
            assert(e[hl + i] == tail[i]);
        }
        assert(b.subrange(pos + hl, pos + hl + 16) =~= tail);
        lemma_dec_enc_u128(b, pos + hl, s.last());
        assert(s.drop_last().push(s.last()) =~= s);
    }
}

/// A length-prefixed list written at `pos` reads back unchanged.
pub proof fn lemma_dec_enc_u128_seq(b: Seq<u8>, pos: int, s: Seq<u128>)
    requires
        0 <= pos,
        s.len() <= u64::MAX,
        pos + spec_enc_u128_seq(s).len() <= b.len(),
        b.subrange(pos, pos + spec_enc_u128_seq(s).len() as int) == spec_enc_u128_seq(s),
    ensures
        spec_dec_u128_seq(b, pos) == Some((s, pos + spec_enc_u128_seq(s).len() as int)),
{
    let e = spec_enc_u128_seq(s);
    let lenc = spec_enc_u128(s.len() as u128);
    let items = spec_enc_items(s);
    assert(e == lenc + items);
    assert forall|i: int| 0 <= i < 16 implies b.subrange(pos, pos + 16)[i] == lenc[i] by {
        assert(b.subrange(pos, pos + e.len() as int)[i] == e[i]);
        assert(e[i] == lenc[i]);
    }
    assert(b.subrange(pos, pos + 16) =~= lenc);
    lemma_dec_enc_u128(b, pos, s.len() as u128);
    assert forall|i: int| 0 <= i < items.len() implies b.subrange(
        pos + 16,
        pos + 16 + items.len() as int,
    )[i] == items[i] by {
        assert(b.subrange(pos, pos + e.len() as int)[16 + i] == e[16 + i]);
        assert(e[16 + i] == items[i]);
    }
    assert(b.subrange(pos + 16, pos + 16 + items.len() as int) =~= items);
    lemma_dec_enc_items(b, pos + 16, s);
    assert((s.len() as u128) as int == s.len() as int);
}

/// Reading back the 16 bytes of `u128_to_le_bytes` returns the value that
/// was written.
pub proof fn lemma_le_round_trip(x: u128, s: Seq<u8>)
    requires
        s.len() >= 16,
        forall|i: int| 0 <= i < 16 ==> s[i] == le_byte(x, i),
    ensures
        le_value(s, 16) == x,
{
    lemma_le_round_trip_partial(x, s, 16);
}

/// The first `n` bytes reassemble the low `8 * n` bits of `x`.
proof fn lemma_le_round_trip_partial(x: u128, s: Seq<u8>, n: int)
    requires
        0 <= n <= 16,
        s.len() >= 16,
        forall|i: int| 0 <= i < 16 ==> s[i] == le_byte(x, i),
    ensures
        n < 16 ==> le_value(s, n) == x & (((1u128 << (8 * n) as u128) - 1) as u128),
        n == 16 ==> le_value(s, n) == x,
    decreases n,
{
    if n == 0 {
        assert((x & (((1u128 << 0u128) - 1) as u128)) == 0) by (bit_vector);
    } else {
        lemma_le_round_trip_partial(x, s, n - 1);
        let m = n - 1;
        let mk: u128 = m as u128;
        let sh: u128 = (8 * m) as u128;
        assert(sh == 8 * mk);
        let y = le_value(s, m);
        assert(s[m] == ((x >> sh) & 0xff) as u8);
        let b: u128 = s[m] as u128;
        assert(((x >> sh) & 0xff) <= 0xff) by (bit_vector);
        assert(b == (x >> sh) & 0xff);
        assert(le_value(s, n) == y | (b << sh));
        if n < 16 {
            assert(mk < 15);
            assert(y == x & (((1u128 << (8 * mk)) - 1) as u128));
            assert(mk < 15 && y == x & (((1u128 << (8 * mk)) - 1) as u128) && b == (x >> (8 * mk))
                & 0xff ==> (y | (b << (8 * mk))) == x & (((1u128 << (8 * mk + 8)) - 1) as u128))
                by (bit_vector);
            assert(8 * mk + 8 == (8 * n) as u128);
        } else {
            assert(mk == 15);
            assert(y == x & (((1u128 << 120u128) - 1) as u128));
            assert(y == x & (((1u128 << 120u128) - 1) as u128) && b == (x >> 120u128) & 0xff ==> (y
                | (b << 120u128)) == x) by (bit_vector);
            assert(sh == 120);
        }
    }
}

/// Whether some entry of `s` carries key `k`.
pub open spec fn has_key<V>(s: Seq<(u128, V)>, k: u128) -> bool {
    exists|i: int| 0 <= i < s.len() && (#[trigger] s[i]).0 == k
}

/// Keys are pairwise distinct.
pub open spec fn keys_unique<V>(s: Seq<(u128, V)>) -> bool {
    forall|i: int, j: int| 0 <= i < j < s.len() ==> (#[trigger] s[i]).0 != (#[trigger] s[j]).0
}

/// A unique-keyed list never repeats its last key earlier.
pub proof fn lemma_unique_last_fresh<V>(s: Seq<(u128, V)>)
    requires
        s.len() > 0,
        keys_unique(s),
    ensures
        !has_key(s.drop_last(), s.last().0),
        keys_unique(s.drop_last()),
{
    if has_key(s.drop_last(), s.last().0) {
        let i = choose|i: int| 0 <= i < s.drop_last().len() && (#[trigger] s.drop_last()[i]).0 == s.last().0;
        assert(s[i].0 == s[s.len() - 1].0);
        assert(false);
    }
    assert forall|i: int, j: int| 0 <= i < j < s.drop_last().len() implies (
    #[trigger] s.drop_last()[i]).0 != (#[trigger] s.drop_last()[j]).0 by {
        assert(s[i].0 != s[j].0);
    }
}

/// The items of a key-value list, without the outer length.
pub open spec fn spec_enc_pair_items(s: Seq<(u128, u128)>) -> Seq<u8>
    decreases s.len(),
{
    if s.len() == 0 {
        Seq::empty()
    } else {
        spec_enc_pair_items(s.drop_last()) + spec_enc_u128(s.last().0) + spec_enc_u128(s.last().1)
    }
}

/// The encoding of a list of key-value pairs: its length, then its items.
pub open spec fn spec_enc_u128_pairs(s: Seq<(u128, u128)>) -> Seq<u8> {
    spec_enc_u128(s.len() as u128) + spec_enc_pair_items(s)
}

/// Read `n` key-value pairs at `pos`; a repeated key rejects the input.
pub open spec fn spec_dec_keyed_pairs(b: Seq<u8>, pos: int, n: int) -> Option<
    (Seq<(u128, u128)>, int),
>
    decreases n,
{
    if n <= 0 {
        Some((Seq::empty(), pos))
    } else {
        match spec_dec_keyed_pairs(b, pos, n - 1) {
            Some((s, p)) => match spec_dec_u128(b, p) {
                Some((k, q)) => match spec_dec_u128(b, q) {
                    Some((v, r)) => if has_key(s, k) {
                        None
                    } else {
                        Some((s.push((k, v)), r))
                    },
                    None => None,
                },
                None => None,
            },
            None => None,
        }
    }
}

/// Read a length-prefixed list of key-value pairs at `pos`.
pub open spec fn spec_dec_u128_pairs(b: Seq<u8>, pos: int) -> Option<(Seq<(u128, u128)>, int)> {
    match spec_dec_u128(b, pos) {
        Some((n, p)) => spec_dec_keyed_pairs(b, p, n as int),
        None => None,
    }
}

/// Unique-keyed pair items written at `pos` read back unchanged.
pub proof fn lemma_dec_enc_pair_items(b: Seq<u8>, pos: int, s: Seq<(u128, u128)>)
    requires
        0 <= pos,
        keys_unique(s),
        pos + spec_enc_pair_items(s).len() <= b.len(),
        b.subrange(pos, pos + spec_enc_pair_items(s).len() as int) == spec_enc_pair_items(s),
    ensures
        spec_dec_keyed_pairs(b, pos, s.len() as int) == Some(
            (s, pos + spec_enc_pair_items(s).len() as int),
        ),
    decreases s.len(),
{
    if s.len() == 0 {
    } else {
        let head = spec_enc_pair_items(s.drop_last());
        let kenc = spec_enc_u128(s.last().0);
        let venc = spec_enc_u128(s.last().1);
        let e = spec_enc_pair_items(s);
        let hl = head.len() as int;
        assert(e == head + kenc + venc);
        assert forall|i: int| 0 <= i < hl implies b.subrange(pos, pos + hl)[i] == head[i] by {
            assert(b.subrange(pos, pos + e.len() as int)[i] == e[i]);
            assert(e[i] == head[i]);
        }
        assert(b.subrange(pos, pos + hl) =~= head);
        lemma_unique_last_fresh(s);
        lemma_dec_enc_pair_items(b, pos, s.drop_last());
        assert forall|i: int| 0 <= i < 16 implies b.subrange(pos + hl, pos + hl + 16)[i]
            == kenc[i] by {
            assert(b.subrange(pos, pos + e.len() as int)[hl + i] == e[hl + i]);
            assert(e[hl + i] == kenc[i]);
        }
        assert(b.subrange(pos + hl, pos + hl + 16) =~= kenc);
        lemma_dec_enc_u128(b, pos + hl, s.last().0);
        assert forall|i: int| 0 <= i < 16 implies b.subrange(pos + hl + 16, pos + hl + 32)[i]
            == venc[i] by {
            assert(b.subrange(pos, pos + e.len() as int)[hl + 16 + i] == e[hl + 16 + i]);
            assert(e[hl + 16 + i] == venc[i]);
        }
        assert(b.subrange(pos + hl + 16, pos + hl + 32) =~= venc);
        lemma_dec_enc_u128(b, pos + hl + 16, s.last().1);
        assert(s.drop_last().push(s.last()) =~= s);
    }
}

/// A length-prefixed unique-keyed pair list reads back unchanged.
pub proof fn lemma_dec_enc_u128_pairs(b: Seq<u8>, pos: int, s: Seq<(u128, u128)>)
    requires
        0 <= pos,
        s.len() <= u64::MAX,
        keys_unique(s),
        pos + spec_enc_u128_pairs(s).len() <= b.len(),
        b.subrange(pos, pos + spec_enc_u128_pairs(s).len() as int) == spec_enc_u128_pairs(s),
    ensures
        spec_dec_u128_pairs(b, pos) == Some((s, pos + spec_enc_u128_pairs(s).len() as int)),
{
    let e = spec_enc_u128_pairs(s);
    let lenc = spec_enc_u128(s.len() as u128);
    let items = spec_enc_pair_items(s);
    assert(e == lenc + items);
    assert forall|i: int| 0 <= i < 16 implies b.subrange(pos, pos + 16)[i] == lenc[i] by {
        assert(b.subrange(pos, pos + e.len() as int)[i] == e[i]);
        assert(e[i] == lenc[i]);
    }
    assert(b.subrange(pos, pos + 16) =~= lenc);
    lemma_dec_enc_u128(b, pos, s.len() as u128);
    assert forall|i: int| 0 <= i < items.len() implies b.subrange(
        pos + 16,
        pos + 16 + items.len() as int,
    )[i] == items[i] by {
        assert(b.subrange(pos, pos + e.len() as int)[16 + i] == e[16 + i]);
        assert(e[16 + i] == items[i]);
    }
    assert(b.subrange(pos + 16, pos + 16 + items.len() as int) =~= items);
    lemma_dec_enc_pair_items(b, pos + 16, s);
    assert((s.len() as u128) as int == s.len() as int);
}

/// The items of a list of keyed lists, without the outer length.
pub open spec fn spec_enc_list_items(s: Seq<(u128, Seq<u128>)>) -> Seq<u8>
    decreases s.len(),
{
    if s.len() == 0 {
        Seq::empty()
    } else {
        spec_enc_list_items(s.drop_last()) + spec_enc_u128(s.last().0) + spec_enc_u128_seq(
            s.last().1,
        )
    }
}

/// The encoding of a list of keyed lists: its length, then its items.
pub open spec fn spec_enc_list_pairs(s: Seq<(u128, Seq<u128>)>) -> Seq<u8> {
    spec_enc_u128(s.len() as u128) + spec_enc_list_items(s)
}

/// Read `n` keyed lists at `pos`; a repeated key rejects the input.
pub open spec fn spec_dec_list_items(b: Seq<u8>, pos: int, n: int) -> Option<
    (Seq<(u128, Seq<u128>)>, int),
>
    decreases n,
{
    if n <= 0 {
        Some((Seq::empty(), pos))
    } else {
        match spec_dec_list_items(b, pos, n - 1) {
            Some((s, p)) => match spec_dec_u128(b, p) {
                Some((k, q)) => match spec_dec_u128_seq(b, q) {
                    Some((v, r)) => if has_key(s, k) {
                        None
                    } else {
                        Some((s.push((k, v)), r))
                    },
                    None => None,
                },
                None => None,
            },
            None => None,
        }
    }
}

/// Read a length-prefixed list of keyed lists at `pos`.
pub open spec fn spec_dec_list_pairs(b: Seq<u8>, pos: int) -> Option<(Seq<(u128, Seq<u128>)>, int)> {
    match spec_dec_u128(b, pos) {
        Some((n, p)) => spec_dec_list_items(b, p, n as int),
        None => None,
    }
}

/// Every inner list is short enough for its length prefix.
pub open spec fn list_pairs_bounded(s: Seq<(u128, Seq<u128>)>) -> bool {
    forall|i: int| 0 <= i < s.len() ==> (#[trigger] s[i]).1.len() <= u64::MAX
}

/// Keyed lists written at `pos` read back unchanged.
pub proof fn lemma_dec_enc_list_items(b: Seq<u8>, pos: int, s: Seq<(u128, Seq<u128>)>)
    requires
        0 <= pos,
        keys_unique(s),
        list_pairs_bounded(s),
        pos + spec_enc_list_items(s).len() <= b.len(),
        b.subrange(pos, pos + spec_enc_list_items(s).len() as int) == spec_enc_list_items(s),
    ensures
        spec_dec_list_items(b, pos, s.len() as int) == Some(
            (s, pos + spec_enc_list_items(s).len() as int),
        ),
    decreases s.len(),
{
    if s.len() == 0 {
    } else {
        let head = spec_enc_list_items(s.drop_last());
        let kenc = spec_enc_u128(s.last().0);
        let venc = spec_enc_u128_seq(s.last().1);
        let e = spec_enc_list_items(s);
        let hl = head.len() as int;
        let kl = 16int;
        assert(e == head + kenc + venc);
        assert forall|i: int| 0 <= i < hl implies b.subrange(pos, pos + hl)[i] == head[i] by {
            assert(b.subrange(pos, pos + e.len() as int)[i] == e[i]);
            assert(e[i] == head[i]);
        }
        assert(b.subrange(pos, pos + hl) =~= head);
        assert forall|i: int| 0 <= i < s.drop_last().len() implies (#[trigger] s.drop_last()[i]).1.len()
            <= u64::MAX by {
            assert(s[i] == s.drop_last()[i]);
        }
        lemma_unique_last_fresh(s);
        lemma_dec_enc_list_items(b, pos, s.drop_last());
        assert forall|i: int| 0 <= i < 16 implies b.subrange(pos + hl, pos + hl + 16)[i]
            == kenc[i] by {
            assert(b.subrange(pos, pos + e.len() as int)[hl + i] == e[hl + i]);
            assert(e[hl + i] == kenc[i]);
        }
        assert(b.subrange(pos + hl, pos + hl + 16) =~= kenc);
        lemma_dec_enc_u128(b, pos + hl, s.last().0);
        assert forall|i: int| 0 <= i < venc.len() implies b.subrange(
            pos + hl + 16,
            pos + hl + 16 + venc.len() as int,
        )[i] == venc[i] by {
            assert(b.subrange(pos, pos + e.len() as int)[hl + 16 + i] == e[hl + 16 + i]);
            assert(e[hl + 16 + i] == venc[i]);
        }
        assert(b.subrange(pos + hl + 16, pos + hl + 16 + venc.len() as int) =~= venc);
        assert(s.last().1.len() <= u64::MAX);
        lemma_dec_enc_u128_seq(b, pos + hl + 16, s.last().1);
        assert(s.drop_last().push(s.last()) =~= s);
    }
}

/// A length-prefixed list of keyed lists reads back unchanged.
pub proof fn lemma_dec_enc_list_pairs(b: Seq<u8>, pos: int, s: Seq<(u128, Seq<u128>)>)
    requires
        0 <= pos,
        s.len() <= u64::MAX,
        keys_unique(s),
        list_pairs_bounded(s),
        pos + spec_enc_list_pairs(s).len() <= b.len(),
        b.subrange(pos, pos + spec_enc_list_pairs(s).len() as int) == spec_enc_list_pairs(s),
    ensures
        spec_dec_list_pairs(b, pos) == Some((s, pos + spec_enc_list_pairs(s).len() as int)),
{
    let e = spec_enc_list_pairs(s);
    let lenc = spec_enc_u128(s.len() as u128);
    let items = spec_enc_list_items(s);
    assert(e == lenc + items);
    assert forall|i: int| 0 <= i < 16 implies b.subrange(pos, pos + 16)[i] == lenc[i] by {
        assert(b.subrange(pos, pos + e.len() as int)[i] == e[i]);
        assert(e[i] == lenc[i]);
    }
    assert(b.subrange(pos, pos + 16) =~= lenc);
    lemma_dec_enc_u128(b, pos, s.len() as u128);
    assert forall|i: int| 0 <= i < items.len() implies b.subrange(
        pos + 16,
        pos + 16 + items.len() as int,
    )[i] == items[i] by {
        assert(b.subrange(pos, pos + e.len() as int)[16 + i] == e[16 + i]);
        assert(e[16 + i] == items[i]);
    }
    assert(b.subrange(pos + 16, pos + 16 + items.len() as int) =~= items);
    lemma_dec_enc_list_items(b, pos + 16, s);
    assert((s.len() as u128) as int == s.len() as int);
}

/// Append the encoding of one `u128`.
pub fn enc_u128_into(out: &mut Vec<u8>, x: u128)
    ensures
        final(out)@ == old(out)@ + spec_enc_u128(x),
{
    let mut i: usize = 0;
    while i < 16
        invariant
            i <= 16,
            out@.len() == old(out)@.len() + i,
            out@ == old(out)@ + spec_enc_u128(x).subrange(0, i as int),
        decreases 16 - i,
    {
        let shift: u32 = 8 * (i as u32);
        let b: u8 = ((x >> shift as u128) & 0xff) as u8;
        out.push(b);
        proof {
            assert(out@ =~= old(out)@ + spec_enc_u128(x).subrange(0, i + 1));
        }
        i += 1;
    }
    proof {
        assert(spec_enc_u128(x).subrange(0, 16) =~= spec_enc_u128(x));
    }
}

/// Append the encoding of an optional `u128`.
pub fn enc_opt_into(out: &mut Vec<u8>, o: Option<u128>)
    ensures
        final(out)@ == old(out)@ + spec_enc_opt(o),
{
    match o {
        None => {
            out.push(0);
            proof {
                assert(out@ =~= old(out)@ + spec_enc_opt(o));
            }
        },
        Some(x) => {
            out.push(1);
            let ghost mid = out@;
            enc_u128_into(out, x);
            proof {
                assert(out@ =~= old(out)@ + spec_enc_opt(o));
            }
        },
    }
}

/// Append the encoding of a list of `u128`.
pub fn enc_u128_seq_into(out: &mut Vec<u8>, v: &Vec<u128>)
    ensures
        final(out)@ == old(out)@ + spec_enc_u128_seq(v@),
{
    enc_u128_into(out, v.len() as u128);
    let mut i: usize = 0;
    while i < v.len()
        invariant
            i <= v@.len(),
            out@ == old(out)@ + spec_enc_u128(v@.len() as u128) + spec_enc_items(
                v@.subrange(0, i as int),
            ),
        decreases v@.len() - i,
    {
        let ghost pre = v@.subrange(0, i as int);
        enc_u128_into(out, v[i]);
        proof {
            let cur = v@.subrange(0, i + 1);
            assert(cur.drop_last() =~= pre);
            assert(cur.last() == v@[i as int]);
            assert(out@ =~= old(out)@ + spec_enc_u128(v@.len() as u128) + spec_enc_items(cur));
        }
        i += 1;
    }
    proof {
        assert(v@.subrange(0, v@.len() as int) =~= v@);
        assert(out@ =~= old(out)@ + spec_enc_u128_seq(v@));
    }
}

/// Read one `u128` at `pos`, advancing the cursor.
pub fn dec_u128_at(bytes: &Vec<u8>, pos: usize) -> (r: Option<(u128, usize)>)
    ensures
        match r {
            Some((x, p)) => spec_dec_u128(bytes@, pos as int) == Some((x, p as int)),
            None => spec_dec_u128(bytes@, pos as int) is None,
        },
{
    if pos >= bytes.len() || bytes.len() - pos < 16 {
        return None;
    }
    let end: usize = pos + 16;
    let mut v: u128 = 0;
    let mut i: usize = 0;
    while i < 16
        invariant
            i <= 16,
            end == pos + 16,
            end <= bytes@.len(),
            bytes@.len() <= usize::MAX,
            v == le_value(bytes@.subrange(pos as int, pos + 16), i as int),
        decreases 16 - i,
    {
        let shift: u32 = 8 * (i as u32);
        v = v | ((bytes[pos + i] as u128) << shift as u128);
        proof {
            assert(bytes@.subrange(pos as int, pos + 16)[i as int] == bytes@[pos + i]);
        }
        i += 1;
    }
    Some((v, end))
}

/// Read an optional `u128` at `pos`, advancing the cursor.
pub fn dec_opt_at(bytes: &Vec<u8>, pos: usize) -> (r: Option<(Option<u128>, usize)>)
    ensures
        match r {
            Some((o, p)) => spec_dec_opt(bytes@, pos as int) == Some((o, p as int)),
            None => spec_dec_opt(bytes@, pos as int) is None,
        },
{
    if pos >= bytes.len() {
        return None;
    }
    let tag = bytes[pos];
    if tag == 0 {
        Some((None, pos + 1))
    } else if tag == 1 {
        match dec_u128_at(bytes, pos + 1) {
            Some((x, p)) => Some((Some(x), p)),
            None => None,
        }
    } else {
        None
    }
}

/// Read a length-prefixed list of `u128` at `pos`, advancing the cursor.
pub fn dec_u128_seq_at(bytes: &Vec<u8>, pos: usize) -> (r: Option<(Vec<u128>, usize)>)
    ensures
        match r {
            Some((v, p)) => spec_dec_u128_seq(bytes@, pos as int) == Some((v@, p as int)),
            None => spec_dec_u128_seq(bytes@, pos as int) is None,
        },
{
    let (n, mut p) = match dec_u128_at(bytes, pos) {
        Some((n, p)) => (n, p),
        None => return None,
    };
    let ghost p0 = p as int;
    let mut v: Vec<u128> = Vec::new();
    let mut k: u128 = 0;
    while k < n
        invariant
            k <= n,
            spec_dec_u128(bytes@, pos as int) == Some((n, p0)),
            spec_dec_items(bytes@, p0, k as int) == Some((v@, p as int)),
        decreases n - k,
    {
        match dec_u128_at(bytes, p) {
            Some((x, q)) => {
                v.push(x);
                p = q;
            },
            None => {
                proof {
                    lemma_dec_items_extends(bytes@, p0, k as int, n as int);
                }
                return None;
            },
        }
        k = k + 1;
    }
    Some((v, p))
}

/// If the first `k` items decode but the next does not, no larger count
/// decodes either.
proof fn lemma_dec_items_extends(b: Seq<u8>, pos: int, k: int, n: int)
    requires
        0 <= k < n,
        match spec_dec_items(b, pos, k) {
            Some((s, p)) => spec_dec_u128(b, p) is None,
            None => false,
        },
    ensures
        spec_dec_items(b, pos, n) is None,
    decreases n - k,
{
    if n == k + 1 {
    } else {
        lemma_dec_items_extends(b, pos, k, n - 1);
    }
}

/// If `k` keyed pairs decode but the next step is stuck (cut short or a
/// repeated key), no larger count decodes either.
pub proof fn lemma_dec_keyed_pairs_stuck(b: Seq<u8>, pos: int, k: int, n: int)
    requires
        0 <= k < n,
        match spec_dec_keyed_pairs(b, pos, k) {
            Some((s, p)) => match spec_dec_u128(b, p) {
                Some((kk, q)) => match spec_dec_u128(b, q) {
                    Some((v, r)) => has_key(s, kk),
                    None => true,
                },
                None => true,
            },
            None => false,
        },
    ensures
        spec_dec_keyed_pairs(b, pos, n) is None,
    decreases n - k,
{
    if n == k + 1 {
    } else {
        lemma_dec_keyed_pairs_stuck(b, pos, k, n - 1);
    }
}

/// If `k` keyed lists decode but the next step is stuck, no larger count
/// decodes either.
pub proof fn lemma_dec_list_items_stuck(b: Seq<u8>, pos: int, k: int, n: int)
    requires
        0 <= k < n,
        match spec_dec_list_items(b, pos, k) {
            Some((s, p)) => match spec_dec_u128(b, p) {
                Some((kk, q)) => match spec_dec_u128_seq(b, q) {
                    Some((v, r)) => has_key(s, kk),
                    None => true,
                },
                None => true,
            },
            None => false,
        },
    ensures
        spec_dec_list_items(b, pos, n) is None,
    decreases n - k,
{
    if n == k + 1 {
    } else {
        lemma_dec_list_items_stuck(b, pos, k, n - 1);
    }
}

/// The encoding of a raw 32-byte block.
pub open spec fn spec_dec_b32(b: Seq<u8>, pos: int) -> Option<(Seq<u8>, int)> {
    if pos < 0 || pos + 32 > b.len() {
        None
    } else {
        Some((b.subrange(pos, pos + 32), pos + 32))
    }
}

/// A 32-byte block written at `pos` reads back unchanged.
pub proof fn lemma_dec_enc_b32(b: Seq<u8>, pos: int, s: Seq<u8>)
    requires
        0 <= pos,
        s.len() == 32,
        pos + 32 <= b.len(),
        b.subrange(pos, pos + 32) == s,
    ensures
        spec_dec_b32(b, pos) == Some((s, pos + 32)),
{
}

/// The encoding of a length-prefixed byte string.
pub open spec fn spec_enc_bytes(s: Seq<u8>) -> Seq<u8> {
    spec_enc_u128(s.len() as u128) + s
}

/// Read a length-prefixed byte string at `pos`.
pub open spec fn spec_dec_bytes(b: Seq<u8>, pos: int) -> Option<(Seq<u8>, int)> {
    match spec_dec_u128(b, pos) {
        Some((n, p)) => if p + n > b.len() {
            None
        } else {
            Some((b.subrange(p, p + n as int), p + n))
        },
        None => None,
    }
}

/// A byte string written at `pos` reads back unchanged.
pub proof fn lemma_dec_enc_bytes(b: Seq<u8>, pos: int, s: Seq<u8>)
    requires
        0 <= pos,
        s.len() <= u64::MAX,
        pos + spec_enc_bytes(s).len() <= b.len(),
        b.subrange(pos, pos + spec_enc_bytes(s).len() as int) == spec_enc_bytes(s),
    ensures
        spec_dec_bytes(b, pos) == Some((s, pos + spec_enc_bytes(s).len() as int)),
{
    let e = spec_enc_bytes(s);
    let lenc = spec_enc_u128(s.len() as u128);
    assert(e == lenc + s);
    assert forall|i: int| 0 <= i < 16 implies b.subrange(pos, pos + 16)[i] == lenc[i] by {
        assert(b.subrange(pos, pos + e.len() as int)[i] == e[i]);
        assert(e[i] == lenc[i]);
    }
    assert(b.subrange(pos, pos + 16) =~= lenc);
    lemma_dec_enc_u128(b, pos, s.len() as u128);
    assert((s.len() as u128) as int == s.len() as int);
    assert forall|i: int| 0 <= i < s.len() implies b.subrange(
        pos + 16,
        pos + 16 + s.len() as int,
    )[i] == s[i] by {
        assert(b.subrange(pos, pos + e.len() as int)[16 + i] == e[16 + i]);
        assert(e[16 + i] == s[i]);
    }
    assert(b.subrange(pos + 16, pos + 16 + s.len() as int) =~= s);
}

/// The items of a keyed list of condition triples.
pub open spec fn spec_enc_triple_items(s: Seq<(u128, (u128, u128, u128))>) -> Seq<u8>
    decreases s.len(),
{
    if s.len() == 0 {
        Seq::empty()
    } else {
        spec_enc_triple_items(s.drop_last()) + spec_enc_u128(s.last().0) + spec_enc_u128(
            s.last().1.0,
        ) + spec_enc_u128(s.last().1.1) + spec_enc_u128(s.last().1.2)
    }
}

/// The encoding of a keyed triple list: its length, then its items.
pub open spec fn spec_enc_triples(s: Seq<(u128, (u128, u128, u128))>) -> Seq<u8> {
    spec_enc_u128(s.len() as u128) + spec_enc_triple_items(s)
}

/// Read `n` keyed triples at `pos`; a repeated key rejects the input.
pub open spec fn spec_dec_keyed_triples(b: Seq<u8>, pos: int, n: int) -> Option<
    (Seq<(u128, (u128, u128, u128))>, int),
>
    decreases n,
{
    if n <= 0 {
        Some((Seq::empty(), pos))
    } else {
        match spec_dec_keyed_triples(b, pos, n - 1) {
            Some((s, p)) => match spec_dec_u128(b, p) {
                Some((k, q1)) => match spec_dec_u128(b, q1) {
                    Some((x, q2)) => match spec_dec_u128(b, q2) {
                        Some((y, q3)) => match spec_dec_u128(b, q3) {
                            Some((z, r)) => if has_key(s, k) {
                                None
                            } else {
                                Some((s.push((k, (x, y, z))), r))
                            },
                            None => None,
                        },
                        None => None,
                    },
                    None => None,
                },
                None => None,
            },
            None => None,
        }
    }
}

/// Read a length-prefixed keyed triple list at `pos`.
pub open spec fn spec_dec_triples(b: Seq<u8>, pos: int) -> Option<
    (Seq<(u128, (u128, u128, u128))>, int),
> {
    match spec_dec_u128(b, pos) {
        Some((n, p)) => spec_dec_keyed_triples(b, p, n as int),
        None => None,
    }
}

/// Unique-keyed triple items written at `pos` read back unchanged.
pub proof fn lemma_dec_enc_triple_items(b: Seq<u8>, pos: int, s: Seq<(u128, (u128, u128, u128))>)
    requires
        0 <= pos,
        keys_unique(s),
        pos + spec_enc_triple_items(s).len() <= b.len(),
        b.subrange(pos, pos + spec_enc_triple_items(s).len() as int) == spec_enc_triple_items(s),
    ensures
        spec_dec_keyed_triples(b, pos, s.len() as int) == Some(
            (s, pos + spec_enc_triple_items(s).len() as int),
        ),
    decreases s.len(),
{
    if s.len() == 0 {
    } else {
        let head = spec_enc_triple_items(s.drop_last());
        let e = spec_enc_triple_items(s);
        let hl = head.len() as int;
        let kenc = spec_enc_u128(s.last().0);
        let xenc = spec_enc_u128(s.last().1.0);
        let yenc = spec_enc_u128(s.last().1.1);
        let zenc = spec_enc_u128(s.last().1.2);
        assert(e == head + kenc + xenc + yenc + zenc);
        assert forall|i: int| 0 <= i < hl implies b.subrange(pos, pos + hl)[i] == head[i] by {
            assert(b.subrange(pos, pos + e.len() as int)[i] == e[i]);
            assert(e[i] == head[i]);
        }
        assert(b.subrange(pos, pos + hl) =~= head);
        lemma_unique_last_fresh(s);
        lemma_dec_enc_triple_items(b, pos, s.drop_last());
        assert forall|i: int| 0 <= i < 16 implies b.subrange(pos + hl, pos + hl + 16)[i] == kenc[i] by {
            assert(b.subrange(pos, pos + e.len() as int)[hl + i] == e[hl + i]);
            assert(e[hl + i] == kenc[i]);
        }
        assert(b.subrange(pos + hl, pos + hl + 16) =~= kenc);
        lemma_dec_enc_u128(b, pos + hl, s.last().0);
        assert forall|i: int| 0 <= i < 16 implies b.subrange(pos + hl + 16, pos + hl + 32)[i]
            == xenc[i] by {
            assert(b.subrange(pos, pos + e.len() as int)[hl + 16 + i] == e[hl + 16 + i]);
            assert(e[hl + 16 + i] == xenc[i]);
        }
        assert(b.subrange(pos + hl + 16, pos + hl + 32) =~= xenc);
        lemma_dec_enc_u128(b, pos + hl + 16, s.last().1.0);
        assert forall|i: int| 0 <= i < 16 implies b.subrange(pos + hl + 32, pos + hl + 48)[i]
            == yenc[i] by {
            assert(b.subrange(pos, pos + e.len() as int)[hl + 32 + i] == e[hl + 32 + i]);
            assert(e[hl + 32 + i] == yenc[i]);
        }
        assert(b.subrange(pos + hl + 32, pos + hl + 48) =~= yenc);
        lemma_dec_enc_u128(b, pos + hl + 32, s.last().1.1);
        assert forall|i: int| 0 <= i < 16 implies b.subrange(pos + hl + 48, pos + hl + 64)[i]
            == zenc[i] by {
            assert(b.subrange(pos, pos + e.len() as int)[hl + 48 + i] == e[hl + 48 + i]);
            assert(e[hl + 48 + i] == zenc[i]);
        }
        assert(b.subrange(pos + hl + 48, pos + hl + 64) =~= zenc);
        lemma_dec_enc_u128(b, pos + hl + 48, s.last().1.2);
        assert(s.drop_last().push(s.last()) =~= s);
    }
}

/// A length-prefixed keyed triple list reads back unchanged.
pub proof fn lemma_dec_enc_triples(b: Seq<u8>, pos: int, s: Seq<(u128, (u128, u128, u128))>)
    requires
        0 <= pos,
        s.len() <= u64::MAX,
        keys_unique(s),
        pos + spec_enc_triples(s).len() <= b.len(),
        b.subrange(pos, pos + spec_enc_triples(s).len() as int) == spec_enc_triples(s),
    ensures
        spec_dec_triples(b, pos) == Some((s, pos + spec_enc_triples(s).len() as int)),
{
    let e = spec_enc_triples(s);
    let lenc = spec_enc_u128(s.len() as u128);
    let items = spec_enc_triple_items(s);
    assert(e == lenc + items);
    assert forall|i: int| 0 <= i < 16 implies b.subrange(pos, pos + 16)[i] == lenc[i] by {
        assert(b.subrange(pos, pos + e.len() as int)[i] == e[i]);
        assert(e[i] == lenc[i]);
    }
    assert(b.subrange(pos, pos + 16) =~= lenc);
    lemma_dec_enc_u128(b, pos, s.len() as u128);
    assert forall|i: int| 0 <= i < items.len() implies b.subrange(
        pos + 16,
        pos + 16 + items.len() as int,
    )[i] == items[i] by {
        assert(b.subrange(pos, pos + e.len() as int)[16 + i] == e[16 + i]);
        assert(e[16 + i] == items[i]);
    }
    assert(b.subrange(pos + 16, pos + 16 + items.len() as int) =~= items);
    lemma_dec_enc_triple_items(b, pos + 16, s);
    assert((s.len() as u128) as int == s.len() as int);
}

/// The items of a keyed list of 32-byte codes.
pub open spec fn spec_enc_b32_items(s: Seq<(u128, Seq<u8>)>) -> Seq<u8>
    decreases s.len(),
{
    if s.len() == 0 {
        Seq::empty()
    } else {
        spec_enc_b32_items(s.drop_last()) + spec_enc_u128(s.last().0) + s.last().1
    }
}

/// The encoding of a keyed 32-byte-code list: its length, then its items.
pub open spec fn spec_enc_b32_pairs(s: Seq<(u128, Seq<u8>)>) -> Seq<u8> {
    spec_enc_u128(s.len() as u128) + spec_enc_b32_items(s)
}

/// Every code is exactly 32 bytes.
pub open spec fn b32_values(s: Seq<(u128, Seq<u8>)>) -> bool {
    forall|i: int| 0 <= i < s.len() ==> (#[trigger] s[i]).1.len() == 32
}

/// Read `n` keyed 32-byte codes at `pos`; a repeated key rejects the
/// input.
pub open spec fn spec_dec_keyed_b32s(b: Seq<u8>, pos: int, n: int) -> Option<
    (Seq<(u128, Seq<u8>)>, int),
>
    decreases n,
{
    if n <= 0 {
        Some((Seq::empty(), pos))
    } else {
        match spec_dec_keyed_b32s(b, pos, n - 1) {
            Some((s, p)) => match spec_dec_u128(b, p) {
                Some((k, q)) => match spec_dec_b32(b, q) {
                    Some((v, r)) => if has_key(s, k) {
                        None
                    } else {
                        Some((s.push((k, v)), r))
                    },
                    None => None,
                },
                None => None,
            },
            None => None,
        }
    }
}

/// Read a length-prefixed keyed 32-byte-code list at `pos`.
pub open spec fn spec_dec_b32_pairs(b: Seq<u8>, pos: int) -> Option<(Seq<(u128, Seq<u8>)>, int)> {
    match spec_dec_u128(b, pos) {
        Some((n, p)) => spec_dec_keyed_b32s(b, p, n as int),
        None => None,
    }
}

/// Unique-keyed 32-byte-code items written at `pos` read back unchanged.
pub proof fn lemma_dec_enc_b32_items(b: Seq<u8>, pos: int, s: Seq<(u128, Seq<u8>)>)
    requires
        0 <= pos,
        keys_unique(s),
        b32_values(s),
        pos + spec_enc_b32_items(s).len() <= b.len(),
        b.subrange(pos, pos + spec_enc_b32_items(s).len() as int) == spec_enc_b32_items(s),
    ensures
        spec_dec_keyed_b32s(b, pos, s.len() as int) == Some(
            (s, pos + spec_enc_b32_items(s).len() as int),
        ),
    decreases s.len(),
{
    if s.len() == 0 {
    } else {
        let head = spec_enc_b32_items(s.drop_last());
        let e = spec_enc_b32_items(s);
        let hl = head.len() as int;
        let kenc = spec_enc_u128(s.last().0);
        let venc = s.last().1;
        assert(e == head + kenc + venc);
        assert(venc.len() == 32);
        assert forall|i: int| 0 <= i < hl implies b.subrange(pos, pos + hl)[i] == head[i] by {
            assert(b.subrange(pos, pos + e.len() as int)[i] == e[i]);
            assert(e[i] == head[i]);
        }
        assert(b.subrange(pos, pos + hl) =~= head);
        lemma_unique_last_fresh(s);
        assert forall|i: int| 0 <= i < s.drop_last().len() implies (#[trigger] s.drop_last()[i]).1.len()
            == 32 by {
            assert(s[i] == s.drop_last()[i]);
        }
        lemma_dec_enc_b32_items(b, pos, s.drop_last());
        assert forall|i: int| 0 <= i < 16 implies b.subrange(pos + hl, pos + hl + 16)[i] == kenc[i] by {
            assert(b.subrange(pos, pos + e.len() as int)[hl + i] == e[hl + i]);
            assert(e[hl + i] == kenc[i]);
        }
        assert(b.subrange(pos + hl, pos + hl + 16) =~= kenc);
        lemma_dec_enc_u128(b, pos + hl, s.last().0);
        assert forall|i: int| 0 <= i < 32 implies b.subrange(pos + hl + 16, pos + hl + 48)[i]
            == venc[i] by {
            assert(b.subrange(pos, pos + e.len() as int)[hl + 16 + i] == e[hl + 16 + i]);
            assert(e[hl + 16 + i] == venc[i]);
        }
        assert(b.subrange(pos + hl + 16, pos + hl + 48) =~= venc);
        lemma_dec_enc_b32(b, pos + hl + 16, venc);
        assert(s.drop_last().push(s.last()) =~= s);
    }
}

/// A length-prefixed keyed 32-byte-code list reads back unchanged.
pub proof fn lemma_dec_enc_b32_pairs(b: Seq<u8>, pos: int, s: Seq<(u128, Seq<u8>)>)
    requires
        0 <= pos,
        s.len() <= u64::MAX,
        keys_unique(s),
        b32_values(s),
        pos + spec_enc_b32_pairs(s).len() <= b.len(),
        b.subrange(pos, pos + spec_enc_b32_pairs(s).len() as int) == spec_enc_b32_pairs(s),
    ensures
        spec_dec_b32_pairs(b, pos) == Some((s, pos + spec_enc_b32_pairs(s).len() as int)),
{
    let e = spec_enc_b32_pairs(s);
    let lenc = spec_enc_u128(s.len() as u128);
    let items = spec_enc_b32_items(s);
    assert(e == lenc + items);
    assert forall|i: int| 0 <= i < 16 implies b.subrange(pos, pos + 16)[i] == lenc[i] by {
        assert(b.subrange(pos, pos + e.len() as int)[i] == e[i]);
        assert(e[i] == lenc[i]);
    }
    assert(b.subrange(pos, pos + 16) =~= lenc);
    lemma_dec_enc_u128(b, pos, s.len() as u128);
    assert forall|i: int| 0 <= i < items.len() implies b.subrange(
        pos + 16,
        pos + 16 + items.len() as int,
    )[i] == items[i] by {
        assert(b.subrange(pos, pos + e.len() as int)[16 + i] == e[16 + i]);
        assert(e[16 + i] == items[i]);
    }
    assert(b.subrange(pos + 16, pos + 16 + items.len() as int) =~= items);
    lemma_dec_enc_b32_items(b, pos + 16, s);
    assert((s.len() as u128) as int == s.len() as int);
}

/// If `k` keyed triples decode but the next step is stuck, no larger
/// count decodes either.
pub proof fn lemma_dec_keyed_triples_stuck(b: Seq<u8>, pos: int, k: int, n: int)
    requires
        0 <= k < n,
        match spec_dec_keyed_triples(b, pos, k) {
            Some((s, p)) => match spec_dec_u128(b, p) {
                Some((kk, q1)) => match spec_dec_u128(b, q1) {
                    Some((x, q2)) => match spec_dec_u128(b, q2) {
                        Some((y, q3)) => match spec_dec_u128(b, q3) {
                            Some((z, r)) => has_key(s, kk),
                            None => true,
                        },
                        None => true,
                    },
                    None => true,
                },
                None => true,
            },
            None => false,
        },
    ensures
        spec_dec_keyed_triples(b, pos, n) is None,
    decreases n - k,
{
    if n == k + 1 {
    } else {
        lemma_dec_keyed_triples_stuck(b, pos, k, n - 1);
    }
}

/// If `k` keyed codes decode but the next step is stuck, no larger count
/// decodes either.
pub proof fn lemma_dec_keyed_b32s_stuck(b: Seq<u8>, pos: int, k: int, n: int)
    requires
        0 <= k < n,
        match spec_dec_keyed_b32s(b, pos, k) {
            Some((s, p)) => match spec_dec_u128(b, p) {
                Some((kk, q)) => match spec_dec_b32(b, q) {
                    Some((v, r)) => has_key(s, kk),
                    None => true,
                },
                None => true,
            },
            None => false,
        },
    ensures
        spec_dec_keyed_b32s(b, pos, n) is None,
    decreases n - k,
{
    if n == k + 1 {
    } else {
        lemma_dec_keyed_b32s_stuck(b, pos, k, n - 1);
    }
}

/// Append a raw 32-byte block.
pub fn enc_b32_into(out: &mut Vec<u8>, block: &[u8; 32])
    ensures
        final(out)@ == old(out)@ + block@,
{
    let mut i: usize = 0;
    while i < 32
        invariant
            i <= 32,
            out@ == old(out)@ + block@.subrange(0, i as int),
        decreases 32 - i,
    {
        out.push(block[i]);
        proof {
            assert(out@ =~= old(out)@ + block@.subrange(0, i + 1));
        }
        i += 1;
    }
    proof {
        assert(block@.subrange(0, 32) =~= block@);
    }
}

/// Append a length-prefixed byte string.
pub fn enc_bytes_into(out: &mut Vec<u8>, s: &Vec<u8>)
    ensures
        final(out)@ == old(out)@ + spec_enc_bytes(s@),
{
    enc_u128_into(out, s.len() as u128);
    let mut i: usize = 0;
    while i < s.len()
        invariant
            i <= s@.len(),
            out@ == old(out)@ + spec_enc_u128(s@.len() as u128) + s@.subrange(0, i as int),
        decreases s@.len() - i,
    {
        out.push(s[i]);
        proof {
            assert(out@ =~= old(out)@ + spec_enc_u128(s@.len() as u128) + s@.subrange(0, i + 1));
        }
        i += 1;
    }
    proof {
        assert(s@.subrange(0, s@.len() as int) =~= s@);
        assert(out@ =~= old(out)@ + spec_enc_bytes(s@));
    }
}

/// Read a raw 32-byte block at `pos`, advancing the cursor.
pub fn dec_b32_at(bytes: &Vec<u8>, pos: usize) -> (r: Option<([u8; 32], usize)>)
    ensures
        match r {
            Some((a, p)) => spec_dec_b32(bytes@, pos as int) == Some((a@, p as int)),
            None => spec_dec_b32(bytes@, pos as int) is None,
        },
{
    if pos >= bytes.len() || bytes.len() - pos < 32 {
        return None;
    }
    let end: usize = pos + 32;
    let mut a = [0u8; 32];
    let mut i: usize = 0;
    while i < 32
        invariant
            i <= 32,
            end == pos + 32,
            end <= bytes@.len(),
            bytes@.len() <= usize::MAX,
            a@.len() == 32,
            forall|j: int| 0 <= j < i ==> a@[j] == bytes@[pos + j],
        decreases 32 - i,
    {
        a[i] = bytes[pos + i];
        i += 1;
    }
    proof {
        assert(a@ =~= bytes@.subrange(pos as int, pos + 32));
    }
    Some((a, end))
}

/// Read a length-prefixed byte string at `pos`, advancing the cursor.
pub fn dec_bytes_at(bytes: &Vec<u8>, pos: usize) -> (r: Option<(Vec<u8>, usize)>)
    ensures
        match r {
            Some((v, p)) => spec_dec_bytes(bytes@, pos as int) == Some((v@, p as int)),
            None => spec_dec_bytes(bytes@, pos as int) is None,
        },
{
    let (n, p) = match dec_u128_at(bytes, pos) {
        Some(x) => x,
        None => return None,
    };
    if n > (bytes.len() - p) as u128 {
        return None;
    }
    let count = n as usize;
    let end: usize = p + count;
    let mut v: Vec<u8> = Vec::new();
    let mut i: usize = 0;
    while i < count
        invariant
            i <= count,
            end == p + count,
            end <= bytes@.len(),
            bytes@.len() <= usize::MAX,
            v@.len() == i,
            forall|j: int| 0 <= j < i ==> v@[j] == bytes@[p + j],
        decreases count - i,
    {
        v.push(bytes[p + i]);
        i += 1;
    }
    proof {
        assert(v@ =~= bytes@.subrange(p as int, p + count));
    }
    Some((v, end))
}

/// Read a length-prefixed key-value table at `pos`, advancing the cursor.
pub fn dec_u128_pairs_at(bytes: &Vec<u8>, pos: usize) -> (r: Option<(KeyTable<u128>, usize)>)
    ensures
        match r {
            Some((t, p)) => spec_dec_u128_pairs(bytes@, pos as int) == Some(
                (t.entries_seq(), p as int),
            ) && t.wf(),
            None => spec_dec_u128_pairs(bytes@, pos as int) is None,
        },
{
    let (n, mut p) = match dec_u128_at(bytes, pos) {
        Some(x) => x,
        None => return None,
    };
    let ghost p0 = p as int;
    let mut t: KeyTable<u128> = KeyTable::new();
    let mut k: u128 = 0;
    while k < n
        invariant
            k <= n,
            t.wf(),
            spec_dec_u128(bytes@, pos as int) == Some((n, p0)),
            spec_dec_keyed_pairs(bytes@, p0, k as int) == Some((t.entries_seq(), p as int)),
        decreases n - k,
    {
        let ghost sofar = t.entries_seq();
        match dec_u128_at(bytes, p) {
            Some((key, q)) => match dec_u128_at(bytes, q) {
                Some((v, r2)) => {
                    if t.contains_key(key) {
                        proof {
                            t.lemma_contains_iff(key);
                            lemma_dec_keyed_pairs_stuck(bytes@, p0, k as int, n as int);
                        }
                        return None;
                    }
                    proof {
                        t.lemma_contains_iff(key);
                        if has_key(sofar, key) {
                            let wi = choose|i: int|
                                0 <= i < sofar.len() && (#[trigger] sofar[i]).0 == key;
                            assert(t.entries_seq()[wi].0 == key);
                            assert(false);
                        }
                    }
                    t.insert(key, v);
                    p = r2;
                },
                None => {
                    proof {
                        lemma_dec_keyed_pairs_stuck(bytes@, p0, k as int, n as int);
                    }
                    return None;
                },
            },
            None => {
                proof {
                    lemma_dec_keyed_pairs_stuck(bytes@, p0, k as int, n as int);
                }
                return None;
            },
        }
        k = k + 1;
    }
    Some((t, p))
}

/// Read a length-prefixed keyed-list table at `pos`, advancing the
/// cursor.
pub fn dec_list_pairs_at(bytes: &Vec<u8>, pos: usize) -> (r: Option<(KeyTable<Vec<u128>>, usize)>)
    ensures
        match r {
            Some((t, p)) => spec_dec_list_pairs(bytes@, pos as int) == Some(
                (t.entries_seq().map_values(|q: (u128, Vec<u128>)| (q.0, q.1@)), p as int),
            ) && t.wf(),
            None => spec_dec_list_pairs(bytes@, pos as int) is None,
        },
{
    let (n, mut p) = match dec_u128_at(bytes, pos) {
        Some(x) => x,
        None => return None,
    };
    let ghost p0 = p as int;
    let mut t: KeyTable<Vec<u128>> = KeyTable::new();
    let mut k: u128 = 0;
    while k < n
        invariant
            k <= n,
            t.wf(),
            spec_dec_u128(bytes@, pos as int) == Some((n, p0)),
            spec_dec_list_items(bytes@, p0, k as int) == Some(
                (t.entries_seq().map_values(|q: (u128, Vec<u128>)| (q.0, q.1@)), p as int),
            ),
        decreases n - k,
    {
        let ghost sofar = t.entries_seq().map_values(|q: (u128, Vec<u128>)| (q.0, q.1@));
        match dec_u128_at(bytes, p) {
            Some((key, q)) => match dec_u128_seq_at(bytes, q) {
                Some((v, r2)) => {
                    if t.contains_key(key) {
                        proof {
                            t.lemma_contains_iff(key);
                            let wi = choose|i: int|
                                0 <= i < t.entries_seq().len() && (
                                #[trigger] t.entries_seq()[i]).0 == key;
                            assert(sofar[wi].0 == key);
                            assert(has_key(sofar, key));
                            lemma_dec_list_items_stuck(bytes@, p0, k as int, n as int);
                        }
                        return None;
                    }
                    proof {
                        t.lemma_contains_iff(key);
                        if has_key(sofar, key) {
                            let wi = choose|i: int|
                                0 <= i < sofar.len() && (#[trigger] sofar[i]).0 == key;
                            assert(t.entries_seq()[wi].0 == key);
                            assert(false);
                        }
                    }
                    t.insert(key, v);
                    proof {
                        assert(t.entries_seq().map_values(|q: (u128, Vec<u128>)| (q.0, q.1@))
                            =~= sofar.push((key, v@)));
                    }
                    p = r2;
                },
                None => {
                    proof {
                        lemma_dec_list_items_stuck(bytes@, p0, k as int, n as int);
                    }
                    return None;
                },
            },
            None => {
                proof {
                    lemma_dec_list_items_stuck(bytes@, p0, k as int, n as int);
                }
                return None;
            },
        }
        k = k + 1;
    }
    Some((t, p))
}

/// Read a length-prefixed keyed-triple table at `pos`, advancing the
/// cursor.
pub fn dec_triples_at(bytes: &Vec<u8>, pos: usize) -> (r: Option<
    (KeyTable<(u128, u128, u128)>, usize),
>)
    ensures
        match r {
            Some((t, p)) => spec_dec_triples(bytes@, pos as int) == Some(
                (t.entries_seq(), p as int),
            ) && t.wf(),
            None => spec_dec_triples(bytes@, pos as int) is None,
        },
{
    let (n, mut p) = match dec_u128_at(bytes, pos) {
        Some(x) => x,
        None => return None,
    };
    let ghost p0 = p as int;
    let mut t: KeyTable<(u128, u128, u128)> = KeyTable::new();
    let mut k: u128 = 0;
    while k < n
        invariant
            k <= n,
            t.wf(),
            spec_dec_u128(bytes@, pos as int) == Some((n, p0)),
            spec_dec_keyed_triples(bytes@, p0, k as int) == Some((t.entries_seq(), p as int)),
        decreases n - k,
    {
        let ghost sofar = t.entries_seq();
        match dec_u128_at(bytes, p) {
            Some((key, q1)) => match dec_u128_at(bytes, q1) {
                Some((x, q2)) => match dec_u128_at(bytes, q2) {
                    Some((y, q3)) => match dec_u128_at(bytes, q3) {
                        Some((z, r2)) => {
                            if t.contains_key(key) {
                                proof {
                                    t.lemma_contains_iff(key);
                                    lemma_dec_keyed_triples_stuck(bytes@, p0, k as int, n as int);
                                }
                                return None;
                            }
                            proof {
                                t.lemma_contains_iff(key);
                                if has_key(sofar, key) {
                                    let wi = choose|i: int|
                                        0 <= i < sofar.len() && (#[trigger] sofar[i]).0 == key;
                                    assert(t.entries_seq()[wi].0 == key);
                                    assert(false);
                                }
                            }
                            t.insert(key, (x, y, z));
                            p = r2;
                        },
                        None => {
                            proof {
                                lemma_dec_keyed_triples_stuck(bytes@, p0, k as int, n as int);
                            }
                            return None;
                        },
                    },
                    None => {
                        proof {
                            lemma_dec_keyed_triples_stuck(bytes@, p0, k as int, n as int);
                        }
                        return None;
                    },
                },
                None => {
                    proof {
                        lemma_dec_keyed_triples_stuck(bytes@, p0, k as int, n as int);
                    }
                    return None;
                },
            },
            None => {
                proof {
                    lemma_dec_keyed_triples_stuck(bytes@, p0, k as int, n as int);
                }
                return None;
            },
        }
        k = k + 1;
    }
    Some((t, p))
}

/// Read a length-prefixed keyed 32-byte-code table at `pos`, advancing
/// the cursor.
pub fn dec_b32_pairs_at(bytes: &Vec<u8>, pos: usize) -> (r: Option<(KeyTable<[u8; 32]>, usize)>)
    ensures
        match r {
            Some((t, p)) => spec_dec_b32_pairs(bytes@, pos as int) == Some(
                (t.entries_seq().map_values(|q: (u128, [u8; 32])| (q.0, q.1@)), p as int),
            ) && t.wf(),
            None => spec_dec_b32_pairs(bytes@, pos as int) is None,
        },
{
    let (n, mut p) = match dec_u128_at(bytes, pos) {
        Some(x) => x,
        None => return None,
    };
    let ghost p0 = p as int;
    let mut t: KeyTable<[u8; 32]> = KeyTable::new();
    let mut k: u128 = 0;
    while k < n
        invariant
            k <= n,
            t.wf(),
            spec_dec_u128(bytes@, pos as int) == Some((n, p0)),
            spec_dec_keyed_b32s(bytes@, p0, k as int) == Some(
                (t.entries_seq().map_values(|q: (u128, [u8; 32])| (q.0, q.1@)), p as int),
            ),
        decreases n - k,
    {
        let ghost sofar = t.entries_seq().map_values(|q: (u128, [u8; 32])| (q.0, q.1@));
        match dec_u128_at(bytes, p) {
            Some((key, q)) => match dec_b32_at(bytes, q) {
                Some((v, r2)) => {
                    if t.contains_key(key) {
                        proof {
                            t.lemma_contains_iff(key);
                            let wi = choose|i: int|
                                0 <= i < t.entries_seq().len() && (
                                #[trigger] t.entries_seq()[i]).0 == key;
                            assert(sofar[wi].0 == key);
                            assert(has_key(sofar, key));
                            lemma_dec_keyed_b32s_stuck(bytes@, p0, k as int, n as int);
                        }
                        return None;
                    }
                    proof {
                        t.lemma_contains_iff(key);
                        if has_key(sofar, key) {
                            let wi = choose|i: int|
                                0 <= i < sofar.len() && (#[trigger] sofar[i]).0 == key;
                            assert(t.entries_seq()[wi].0 == key);
                            assert(false);
                        }
                    }
                    t.insert(key, v);
                    proof {
                        assert(t.entries_seq().map_values(|q: (u128, [u8; 32])| (q.0, q.1@))
                            =~= sofar.push((key, v@)));
                    }
                    p = r2;
                },
                None => {
                    proof {
                        lemma_dec_keyed_b32s_stuck(bytes@, p0, k as int, n as int);
                    }
                    return None;
                },
            },
            None => {
                proof {
                    lemma_dec_keyed_b32s_stuck(bytes@, p0, k as int, n as int);
                }
                return None;
            },
        }
        k = k + 1;
    }
    Some((t, p))
}

/// Append a length-prefixed key-value table.
pub fn enc_pair_table_into(out: &mut Vec<u8>, t: &KeyTable<u128>)
    ensures
        final(out)@ == old(out)@ + spec_enc_u128_pairs(t.entries_seq()),
{
    let ghost m = t.entries_seq();
    enc_u128_into(out, t.len() as u128);
    let mut i: usize = 0;
    while i < t.len()
        invariant
            i <= m.len(),
            m == t.entries_seq(),
            out@ == old(out)@ + spec_enc_u128(m.len() as u128) + spec_enc_pair_items(
                m.subrange(0, i as int),
            ),
        decreases m.len() - i,
    {
        let ghost pre = m.subrange(0, i as int);
        let entry = t.entry_at(i);
        enc_u128_into(out, entry.0);
        enc_u128_into(out, entry.1);
        proof {
            let cur = m.subrange(0, i + 1);
            assert(cur.drop_last() =~= pre);
            assert(cur.last() == m[i as int]);
            assert(out@ =~= old(out)@ + spec_enc_u128(m.len() as u128) + spec_enc_pair_items(cur));
        }
        i += 1;
    }
    proof {
        assert(m.subrange(0, m.len() as int) =~= m);
    }
}

/// Append a length-prefixed keyed-list table.
pub fn enc_list_table_into(out: &mut Vec<u8>, t: &KeyTable<Vec<u128>>)
    ensures
        final(out)@ == old(out)@ + spec_enc_list_pairs(
            t.entries_seq().map_values(|q: (u128, Vec<u128>)| (q.0, q.1@)),
        ),
{
    let ghost m = t.entries_seq().map_values(|q: (u128, Vec<u128>)| (q.0, q.1@));
    enc_u128_into(out, t.len() as u128);
    let mut i: usize = 0;
    while i < t.len()
        invariant
            i <= m.len(),
            m == t.entries_seq().map_values(|q: (u128, Vec<u128>)| (q.0, q.1@)),
            m.len() == t.entries_seq().len(),
            out@ == old(out)@ + spec_enc_u128(m.len() as u128) + spec_enc_list_items(
                m.subrange(0, i as int),
            ),
        decreases m.len() - i,
    {
        let ghost pre = m.subrange(0, i as int);
        let entry = t.entry_at(i);
        enc_u128_into(out, entry.0);
        enc_u128_seq_into(out, &entry.1);
        proof {
            let cur = m.subrange(0, i + 1);
            assert(cur.drop_last() =~= pre);
            assert(cur.last() == m[i as int]);
            assert(m[i as int] == (entry.0, entry.1@));
            assert(out@ =~= old(out)@ + spec_enc_u128(m.len() as u128) + spec_enc_list_items(cur));
        }
        i += 1;
    }
    proof {
        assert(m.subrange(0, m.len() as int) =~= m);
    }
}

/// Append a length-prefixed keyed-triple table.
pub fn enc_triple_table_into(out: &mut Vec<u8>, t: &KeyTable<(u128, u128, u128)>)
    ensures
        final(out)@ == old(out)@ + spec_enc_triples(t.entries_seq()),
{
    let ghost m = t.entries_seq();
    enc_u128_into(out, t.len() as u128);
    let mut i: usize = 0;
    while i < t.len()
        invariant
            i <= m.len(),
            m == t.entries_seq(),
            out@ == old(out)@ + spec_enc_u128(m.len() as u128) + spec_enc_triple_items(
                m.subrange(0, i as int),
            ),
        decreases m.len() - i,
    {
        let ghost pre = m.subrange(0, i as int);
        let entry = t.entry_at(i);
        enc_u128_into(out, entry.0);
        enc_u128_into(out, entry.1.0);
        enc_u128_into(out, entry.1.1);
        enc_u128_into(out, entry.1.2);
        proof {
            let cur = m.subrange(0, i + 1);
            assert(cur.drop_last() =~= pre);
            assert(cur.last() == m[i as int]);
            assert(out@ =~= old(out)@ + spec_enc_u128(m.len() as u128) + spec_enc_triple_items(
                cur,
            ));
        }
        i += 1;
    }
    proof {
        assert(m.subrange(0, m.len() as int) =~= m);
    }
}

/// Append a length-prefixed keyed 32-byte-code table.
pub fn enc_b32_table_into(out: &mut Vec<u8>, t: &KeyTable<[u8; 32]>)
    ensures
        final(out)@ == old(out)@ + spec_enc_b32_pairs(
            t.entries_seq().map_values(|q: (u128, [u8; 32])| (q.0, q.1@)),
        ),
{
    let ghost m = t.entries_seq().map_values(|q: (u128, [u8; 32])| (q.0, q.1@));
    enc_u128_into(out, t.len() as u128);
    let mut i: usize = 0;
    while i < t.len()
        invariant
            i <= m.len(),
            m == t.entries_seq().map_values(|q: (u128, [u8; 32])| (q.0, q.1@)),
            m.len() == t.entries_seq().len(),
            out@ == old(out)@ + spec_enc_u128(m.len() as u128) + spec_enc_b32_items(
                m.subrange(0, i as int),
            ),
        decreases m.len() - i,
    {
        let ghost pre = m.subrange(0, i as int);
        let entry = t.entry_at(i);
        enc_u128_into(out, entry.0);
        enc_b32_into(out, &entry.1);
        proof {
            let cur = m.subrange(0, i + 1);
            assert(cur.drop_last() =~= pre);
            assert(cur.last() == m[i as int]);
            assert(m[i as int] == (entry.0, entry.1@));
            assert(out@ =~= old(out)@ + spec_enc_u128(m.len() as u128) + spec_enc_b32_items(cur));
        }
        i += 1;
    }
    proof {
        assert(m.subrange(0, m.len() as int) =~= m);
    }
}

} // verus!
