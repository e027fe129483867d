//! What the parts that duplicate detection compares are like, and what does
//! not change them.
use vstd::prelude::*;
use crate::frame::{dash_base, duplicate_parts, innermost_packet, BRACE_CLOSE, COLON, DASH};
use crate::text::{
    find, first_at, is_lower, is_space, lemma_find_some, split_first, trim_end_by, upper,
    upper_seq,
};

verus! {

/// The first `b` in `p + w`: the first one in `p`, or, when `p` holds none,
/// none at all when `w` holds none either.
pub(crate) proof fn lemma_find_append(p: Seq<u8>, w: Seq<u8>, b: u8)
    requires
        forall|k: int| 0 <= k < w.len() ==> #[trigger] w[k] != b,
    ensures
        find(p + w, b) == find(p, b),
{
    lemma_find_some(p, b);
    lemma_find_some(p + w, b);
    match find(p, b) {
        Some(i) => {
            assert(first_at(p + w, b, i));
            let j = find(p + w, b)->Some_0;
            if j < i {
                assert((p + w)[j] == p[j]);
            }
        },
        None => {
            if find(p + w, b) is Some {
                let j = find(p + w, b)->Some_0;
                if j < p.len() {
                    assert((p + w)[j] == p[j]);
                } else {
                    assert((p + w)[j] == w[j - p.len()]);
                }
            }
        },
    }
}

/// Where `b` first occurs after a prefix without it.
pub(crate) proof fn lemma_find_after_prefix(h: Seq<u8>, rest: Seq<u8>, b: u8)
    requires
        !h.contains(b),
        rest.len() > 0,
        rest[0] == b,
    ensures
        find(h + rest, b) == Some(h.len() as int),
{
    let p = h + rest;
    assert(first_at(p, b, h.len() as int)) by {
        assert forall|j: int| 0 <= j < h.len() implies p[j] != b by {
            assert(p[j] == h[j]);
        }
    }
    lemma_find_some(p, b);
    let j = find(p, b)->Some_0;
    if j < h.len() {
        assert(p[j] == h[j]);
    }
}

/// Trailing bytes that are trimmed anyway do not change the trimmed bytes.
proof fn lemma_trim_end_append(s: Seq<u8>, w: Seq<u8>)
    requires
        forall|k: int| 0 <= k < w.len() ==> is_space(#[trigger] w[k]),
    ensures
        trim_end_by(s + w, |b: u8| is_space(b)) == trim_end_by(s, |b: u8| is_space(b)),
    decreases w.len(),
{
    if w.len() > 0 {
        lemma_trim_end_append(s, w.drop_last());
        assert((s + w).drop_last() =~= s + w.drop_last());
        assert((s + w).last() == w.last());
    } else {
        assert(s + w =~= s);
    }
}

/// Trailing ASCII whitespace follows the innermost packet of a chain.
proof fn lemma_innermost_append(p: Seq<u8>, w: Seq<u8>)
    requires
        forall|k: int| 0 <= k < w.len() ==> is_space(#[trigger] w[k]),
    ensures
        innermost_packet(p + w) == match innermost_packet(p) {
            Some(q) => Some(q + w),
            None => None::<Seq<u8>>,
        },
        innermost_packet(p) matches Some(q) ==> find(q, COLON) is Some,
    decreases p.len(),
{
    assert forall|k: int| 0 <= k < w.len() implies #[trigger] w[k] != COLON by {
        assert(is_space(w[k]));
    }
    lemma_find_append(p, w, COLON);
    lemma_find_some(p, COLON);
    match find(p, COLON) {
        None => {},
        Some(i) => {
            let pw = p + w;
            if i + 1 < p.len() {
                assert(pw[i + 1] == p[i + 1]);
                if i > 0 && p[i + 1] == BRACE_CLOSE {
                    assert(pw.skip(i + 2) =~= p.skip(i + 2) + w);
                    lemma_innermost_append(p.skip(i + 2), w);
                }
            } else if i + 1 < pw.len() {
                assert(pw[i + 1] == w[0]);
                assert(is_space(w[0]));
            }
        },
    }
}

/// Duplicate detection ignores third-party headers: a packet behind a
/// `HEADER:}` prefix (a non-empty header without `:`) gives the parts of
/// the packet itself.
pub proof fn lemma_duplicate_strips_third_party(h: Seq<u8>, inner: Seq<u8>)
    requires
        h.len() > 0,
        !h.contains(COLON),
    ensures
        duplicate_parts(h + seq![COLON, BRACE_CLOSE] + inner) == duplicate_parts(inner),
{
    let rest = seq![COLON, BRACE_CLOSE] + inner;
    let p = h + rest;
    assert(h + seq![COLON, BRACE_CLOSE] + inner =~= p);
    lemma_find_after_prefix(h, rest, COLON);
    let i = h.len() as int;
    assert(p[i + 1] == BRACE_CLOSE);
    assert(p.skip(i + 2) =~= inner);
    assert(innermost_packet(p) == innermost_packet(inner));
}

/// Duplicate detection ignores trailing ASCII whitespace after the packet.
pub proof fn lemma_duplicate_ignores_trailing_space(p: Seq<u8>, w: Seq<u8>)
    requires
        forall|k: int| 0 <= k < w.len() ==> is_space(#[trigger] w[k]),
    ensures
        duplicate_parts(p + w) == duplicate_parts(p),
{
    lemma_innermost_append(p, w);
    match innermost_packet(p) {
        None => {},
        Some(q) => {
            assert forall|k: int| 0 <= k < w.len() implies #[trigger] w[k] != COLON by {
                assert(is_space(w[k]));
            }
            lemma_find_append(q, w, COLON);
            lemma_find_some(q, COLON);
            let i = find(q, COLON)->Some_0;
            assert((q + w).take(i) =~= q.take(i));
            assert((q + w).skip(i + 1) =~= q.skip(i + 1) + w);
            lemma_trim_end_append(q.skip(i + 1), w);
            assert(split_first(q + w, COLON) == Some(
                (q.take(i), q.skip(i + 1) + w),
            ));
        },
    }
}

/// The parts duplicate detection compares: the source holds a `-` (an SSID
/// is added when it has none), the destination is a non-empty base without
/// `-`, neither holds a lowercase letter, and the payload does not end with
/// ASCII whitespace.
pub proof fn lemma_duplicate_parts_shape(p: Seq<u8>)
    ensures
        duplicate_parts(p) matches Some((s, d, b)) ==> {
            &&& s.contains(DASH)
            &&& forall|k: int| 0 <= k < s.len() ==> !is_lower(#[trigger] s[k])
            &&& d.len() > 0
            &&& !d.contains(DASH)
            &&& forall|k: int| 0 <= k < d.len() ==> !is_lower(#[trigger] d[k])
            &&& (b.len() == 0 || !is_space(b.last()))
        },
{
    if duplicate_parts(p) is Some {
        let q = innermost_packet(p)->Some_0;
        let (header, body) = split_first(q, COLON)->Some_0;
        let (source, route) = split_first(header, crate::frame::GT)->Some_0;
        let destination = crate::text::split_all(route, crate::frame::COMMA)[0];
        let (s, d, b) = duplicate_parts(p)->Some_0;
        let us = upper_seq(source);
        lemma_find_some(source, DASH);
        if find(source, DASH) is Some {
            let i = find(source, DASH)->Some_0;
            assert(s == us);
            assert(us[i] == upper(source[i]));
            assert(s[i] == DASH);
        } else {
            assert(s == us + seq![DASH, 48u8]);
            assert(s[us.len() as int] == DASH);
        }
        assert forall|k: int| 0 <= k < s.len() implies !is_lower(#[trigger] s[k]) by {
            if k < us.len() {
                assert(s[k] == upper(source[k]));
            }
        }
        let base = dash_base(destination);
        lemma_find_some(destination, DASH);
        assert(d == upper_seq(base));
        assert forall|k: int| 0 <= k < d.len() implies !is_lower(#[trigger] d[k]) && d[k] != DASH by {
            assert(d[k] == upper(base[k]));
            if find(destination, DASH) is Some {
                assert(base[k] == destination[k]);
            }
        }
        crate::text::lemma_trim_end_prefix(body, |c: u8| is_space(c));
        assert(b == trim_end_by(body, |c: u8| is_space(c)));
        lemma_trim_end_stops(body);
    }
}

/// What trimming trailing whitespace leaves does not end with whitespace.
proof fn lemma_trim_end_stops(s: Seq<u8>)
    ensures
        ({
            let t = trim_end_by(s, |c: u8| is_space(c));
            t.len() == 0 || !is_space(t.last())
        }),
    decreases s.len(),
{
    if s.len() > 0 && is_space(s.last()) {
        lemma_trim_end_stops(s.drop_last());
    }
}

} // verus!
