//! The order of texts: by the bytes of their UTF-8 encodings.

use std::cmp::Ordering;
use vstd::prelude::*;
use vstd::utf8::*;

verus! {

/// Whether `a` and `b` agree on their first `k` bytes, and `a` ends there
/// while `b` goes on, or has the lower byte there.
pub open spec fn parts_at(a: Seq<u8>, b: Seq<u8>, k: int) -> bool {
    &&& 0 <= k <= a.len()
    &&& k < b.len()
    &&& a.take(k) == b.take(k)
    &&& (k == a.len() || a[k] < b[k])
}

/// Whether the bytes `a` come before the bytes `b`: at the first place where
/// they differ `a` has the lower byte, or `a` ends there and `b` goes on.
pub open spec fn bytes_before(a: Seq<u8>, b: Seq<u8>) -> bool {
    exists|k: int| parts_at(a, b, k)
}

/// How two texts compare: by the bytes of their UTF-8 encodings.
pub open spec fn text_order(a: Seq<char>, b: Seq<char>) -> Ordering {
    if a == b {
        Ordering::Equal
    } else if bytes_before(encode_utf8(a), encode_utf8(b)) {
        Ordering::Less
    } else {
        Ordering::Greater
    }
}

/// Whether the first text comes before the second.
pub open spec fn text_before(a: Seq<char>, b: Seq<char>) -> bool {
    text_order(a, b) == Ordering::Less
}

/// `str::cmp` of std: texts are ordered by the bytes of their UTF-8
/// encodings, the shorter of two that agree as far as it goes first.
#[verifier::external_body]
pub(crate) fn text_cmp(a: &str, b: &str) -> (order: Ordering)
    ensures
        order == text_order(a@, b@),
{
    a.cmp(b)
}

/// Bytes that agree on their first `k` bytes agree on each of them.
proof fn lemma_take_agrees(a: Seq<u8>, b: Seq<u8>, k: int, i: int)
    requires
        0 <= i < k <= a.len(),
        k <= b.len(),
        a.take(k) == b.take(k),
    ensures
        a[i] == b[i],
{
    assert(a.take(k)[i] == a[i]);
    assert(b.take(k)[i] == b[i]);
}

/// Bytes that agree on their first `k` bytes agree on fewer.
proof fn lemma_take_shorter(a: Seq<u8>, b: Seq<u8>, k: int, j: int)
    requires
        0 <= j <= k <= a.len(),
        k <= b.len(),
        a.take(k) == b.take(k),
    ensures
        a.take(j) == b.take(j),
{
    assert(a.take(j) =~= a.take(k).take(j));
    assert(b.take(j) =~= b.take(k).take(j));
}

/// Of two runs of bytes at most one comes before the other, and none comes
/// before itself.
pub proof fn lemma_bytes_before_one_way(a: Seq<u8>, b: Seq<u8>)
    requires
        bytes_before(a, b),
    ensures
        !bytes_before(b, a),
        a != b,
{
    let k = choose|k: int| parts_at(a, b, k);
    if bytes_before(b, a) {
        let j = choose|j: int| parts_at(b, a, j);
        if k < j {
            lemma_take_agrees(b, a, j, k);
        } else if j < k {
            lemma_take_agrees(a, b, k, j);
        }
    }
}

/// Of two different runs of bytes one comes before the other.
pub proof fn lemma_bytes_before_total(a: Seq<u8>, b: Seq<u8>)
    requires
        a != b,
    ensures
        bytes_before(a, b) || bytes_before(b, a),
{
    assert(a.take(0) =~= b.take(0));
    lemma_parts_from(a, b, 0);
}

/// Different runs of bytes that agree on their first `k` bytes part
/// somewhere.
proof fn lemma_parts_from(a: Seq<u8>, b: Seq<u8>, k: int)
    requires
        a != b,
        0 <= k <= a.len(),
        k <= b.len(),
        a.take(k) == b.take(k),
    ensures
        bytes_before(a, b) || bytes_before(b, a),
    decreases a.len() - k,
{
    if k == a.len() {
        if k == b.len() {
            assert(a.take(k) =~= a);
            assert(b.take(k) =~= b);
        } else {
            assert(parts_at(a, b, k));
        }
    } else if k == b.len() {
        assert(parts_at(b, a, k));
    } else if a[k] < b[k] {
        assert(parts_at(a, b, k));
    } else if b[k] < a[k] {
        assert(parts_at(b, a, k));
    } else {
        assert(a.take(k + 1) =~= a.take(k).push(a[k]));
        assert(b.take(k + 1) =~= b.take(k).push(b[k]));
        lemma_parts_from(a, b, k + 1);
    }
}

/// What comes before bytes that come before others comes before those.
pub proof fn lemma_bytes_before_transitive(a: Seq<u8>, b: Seq<u8>, c: Seq<u8>)
    requires
        bytes_before(a, b),
        bytes_before(b, c),
    ensures
        bytes_before(a, c),
{
    let k = choose|k: int| parts_at(a, b, k);
    let j = choose|j: int| parts_at(b, c, j);
    if k < j {
        lemma_take_shorter(b, c, j, k);
        lemma_take_agrees(b, c, j, k);
        assert(parts_at(a, c, k));
    } else if k == j {
        assert(parts_at(a, c, k));
    } else {
        lemma_take_shorter(a, b, k, j);
        lemma_take_agrees(a, b, k, j);
        assert(parts_at(a, c, j));
    }
}

/// Texts are in a total order: a text compares equal to itself and to no
/// other, two texts compare one way as much as the other way round, and what
/// comes before a text that comes before another comes before that.
pub proof fn lemma_text_order_total(a: Seq<char>, b: Seq<char>, c: Seq<char>)
    ensures
        text_order(a, b) == Ordering::Equal <==> a == b,
        text_order(a, b) == Ordering::Less <==> text_order(b, a) == Ordering::Greater,
        text_order(a, b) == Ordering::Less && text_order(b, c) == Ordering::Less ==> text_order(
            a,
            c,
        ) == Ordering::Less,
{
    encode_utf8_decode_utf8(a);
    encode_utf8_decode_utf8(b);
    encode_utf8_decode_utf8(c);
    let ea = encode_utf8(a);
    let eb = encode_utf8(b);
    let ec = encode_utf8(c);
    if a != b {
        lemma_bytes_before_total(ea, eb);
        if bytes_before(ea, eb) {
            lemma_bytes_before_one_way(ea, eb);
        }
        if bytes_before(eb, ea) {
            lemma_bytes_before_one_way(eb, ea);
        }
    }
    if text_order(a, b) == Ordering::Less && text_order(b, c) == Ordering::Less {
        lemma_bytes_before_transitive(ea, eb, ec);
        lemma_bytes_before_one_way(ea, ec);
    }
}

/// Texts are in a strict total order: no text comes before itself, of two
/// different texts one comes before the other and not the other way round,
/// and what comes before a text that comes before another comes before that.
pub proof fn lemma_text_before_total(a: Seq<char>, b: Seq<char>, c: Seq<char>)
    ensures
        !text_before(a, a),
        a != b ==> text_before(a, b) || text_before(b, a),
        text_before(a, b) ==> !text_before(b, a),
        text_before(a, b) && text_before(b, c) ==> text_before(a, c),
{
    lemma_text_order_total(a, b, c);
    lemma_text_order_total(b, a, c);
    lemma_text_order_total(a, a, c);
}

/// A text of ASCII characters comes before another one that has a higher
/// character where they first differ.
pub proof fn lemma_ascii_before(a: Seq<char>, b: Seq<char>, k: int)
    requires
        is_ascii_chars(a),
        is_ascii_chars(b),
        0 <= k < a.len(),
        k < b.len(),
        a.take(k) == b.take(k),
        a[k] < b[k],
    ensures
        text_before(a, b),
{
    is_ascii_chars_encode_utf8(a);
    is_ascii_chars_encode_utf8(b);
    let ea = encode_utf8(a);
    let eb = encode_utf8(b);
    assert(ea.take(k) =~= eb.take(k)) by {
        assert forall|i: int| 0 <= i < k implies ea[i] == eb[i] by {
            assert(a.take(k)[i] == a[i]);
            assert(b.take(k)[i] == b[i]);
        }
    }
    assert(a[k] as u8 == ea[k]);
    assert(b[k] as u8 == eb[k]);
    assert(parts_at(ea, eb, k));
}

} // verus!
