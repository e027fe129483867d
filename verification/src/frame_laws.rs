//! What a TNC2 frame becomes when it is converted to KISS and back.
use vstd::prelude::*;
use crate::frame::{
    address_chars, address_char_ok, address_field, ax25_frame, ax25_parts, call_text, COLON,
    COMMA, decode_address, digi_fields, digi_item, digi_text, extend_addresses, FEND, FESC, GT,
    kiss_frame_to_tnc2, parse_addresses, parse_digi, SPACE, STAR, strip_star, stuff, stuff_byte,
    TFEND, TFESC, tnc2_frame_to_kiss, tnc2_text, unstuff, upper_or_digits,
};
use crate::text::{
    all_alnum, find, is_digit, is_upper, lemma_find_some, split_all, split_first, trim_end_by,
};

verus! {

/// KISS unstuffing undoes KISS stuffing.
pub proof fn lemma_unstuff_stuff(b: Seq<u8>)
    ensures
        unstuff(stuff(b)) == b,
    decreases b.len(),
{
    if b.len() > 0 {
        lemma_unstuff_stuff(b.skip(1));
        let s = stuff(b);
        let tail = stuff(b.skip(1));
        assert(s == stuff_byte(b[0]) + tail);
        if b[0] == FEND {
            assert(s[0] == FESC && s[1] == TFEND);
            assert(s.skip(2) =~= tail);
        } else if b[0] == FESC {
            assert(s[0] == FESC && s[1] == TFESC);
            assert(s.skip(2) =~= tail);
        } else {
            assert(s[0] == b[0]);
            assert(s.skip(1) =~= tail);
        }
        assert(unstuff(s) =~= seq![b[0]] + b.skip(1));
        assert(seq![b[0]] + b.skip(1) =~= b);
    }
}

proof fn lemma_shift_char(c: u8)
    requires
        c < 128,
    ensures
        ((c << 1u8) as u8) >> 1u8 == c,
{
    assert(((c << 1u8) as u8) >> 1u8 == c) by (bit_vector)
        requires
            c < 128,
    ;
}

proof fn lemma_flags(ssid: u8, repeated: bool, last: bool)
    requires
        ssid <= 15,
    ensures
        ({
            let f = 0x60u8 | (ssid << 1u8) | (if last {
                1u8
            } else {
                0u8
            }) | (if repeated {
                0x80u8
            } else {
                0u8
            });
            &&& (f >> 1u8) & 0x0fu8 == ssid
            &&& ((f & 0x80u8) != 0) == repeated
            &&& ((f & 1u8) != 0) == last
        }),
{
    let l: u8 = if last {
        1u8
    } else {
        0u8
    };
    let r: u8 = if repeated {
        0x80u8
    } else {
        0u8
    };
    assert(((0x60u8 | (ssid << 1u8) | l | r) >> 1u8) & 0x0fu8 == ssid) by (bit_vector)
        requires
            ssid <= 15,
            l == 0 || l == 1,
            r == 0 || r == 0x80,
    ;
    assert((((0x60u8 | (ssid << 1u8) | l | r) & 0x80u8) != 0) == (r == 0x80)) by (bit_vector)
        requires
            ssid <= 15,
            l == 0 || l == 1,
            r == 0 || r == 0x80,
    ;
    assert((((0x60u8 | (ssid << 1u8) | l | r) & 1u8) != 0) == (l == 1)) by (bit_vector)
        requires
            ssid <= 15,
            l == 0 || l == 1,
            r == 0 || r == 0x80,
    ;
}

/// Spaces after a base without spaces are what trimming removes.
proof fn lemma_trim_base(base: Seq<u8>, n: nat)
    requires
        base.len() > 0,
        base.last() != SPACE,
    ensures
        trim_end_by(base + Seq::new(n, |i: int| SPACE), |c: u8| c == SPACE) == base,
    decreases n,
{
    let x = base + Seq::new(n, |i: int| SPACE);
    if n > 0 {
        assert(x.last() == SPACE);
        assert(x.drop_last() =~= base + Seq::new((n - 1) as nat, |i: int| SPACE));
        lemma_trim_base(base, (n - 1) as nat);
    } else {
        assert(x =~= base);
    }
}

/// An AX.25 address field decodes to the callsign text it was made from.
pub proof fn lemma_decode_field(base: Seq<u8>, ssid: u8, repeated: bool, last: bool)
    requires
        1 <= base.len() <= 6,
        upper_or_digits(base),
        ssid <= 15,
    ensures
        decode_address(address_field(base, ssid, repeated, last)) == Some(
            (call_text(base, ssid), repeated, last),
        ),
{
    let a = address_field(base, ssid, repeated, last);
    let chars = address_chars(a);
    assert forall|i: int| 0 <= i < 6 implies #[trigger] chars[i] == (if i < base.len() {
        base[i]
    } else {
        SPACE
    }) by {
        let c: u8 = if i < base.len() {
            base[i]
        } else {
            SPACE
        };
        if i < base.len() {
            assert(is_upper(base[i]) || is_digit(base[i]));
        }
        lemma_shift_char(c);
    }
    let pad = Seq::new((6 - base.len()) as nat, |i: int| SPACE);
    assert(chars =~= base + pad);
    assert(is_upper(base.last()) || is_digit(base.last()));
    lemma_trim_base(base, (6 - base.len()) as nat);
    assert(forall|i: int| 0 <= i < 6 ==> address_char_ok(#[trigger] chars[i]));
    assert(all_alnum(base));
    lemma_flags(ssid, repeated, last);
}

/// The addresses of a UI frame in wire order, destination first, then the
/// source and the digipeaters, each as callsign base, SSID and repeated bit.
pub open spec fn frame_addresses(
    src: (Seq<u8>, u8),
    dst: (Seq<u8>, u8),
    digis: Seq<Seq<u8>>,
) -> Seq<(Seq<u8>, u8, bool)> {
    seq![(dst.0, dst.1, true), (src.0, src.1, false)] + digis.map_values(
        |d: Seq<u8>| parse_digi(d).unwrap(),
    )
}

/// The address field of the `i`th of the addresses `l`.
pub open spec fn field_of(l: Seq<(Seq<u8>, u8, bool)>, i: int) -> Seq<u8> {
    address_field(l[i].0, l[i].1, l[i].2, i == l.len() - 1)
}

/// The callsign text and repeated bit of each address.
pub open spec fn address_texts(l: Seq<(Seq<u8>, u8, bool)>) -> Seq<(Seq<u8>, bool)> {
    l.map_values(|a: (Seq<u8>, u8, bool)| (call_text(a.0, a.1), a.2))
}

proof fn lemma_digi_fields(digis: Seq<Seq<u8>>, k: nat)
    requires
        k <= digis.len(),
    ensures
        digi_fields(digis, k).len() == 7 * k,
        forall|j: int|
            0 <= j < k ==> #[trigger] digi_fields(digis, k).subrange(7 * j, 7 * j + 7)
                == address_field(
                parse_digi(digis[j]).unwrap().0,
                parse_digi(digis[j]).unwrap().1,
                parse_digi(digis[j]).unwrap().2,
                j + 1 == digis.len(),
            ),
    decreases k,
{
    if k > 0 {
        lemma_digi_fields(digis, (k - 1) as nat);
        let prev = digi_fields(digis, (k - 1) as nat);
        let d = parse_digi(digis[k - 1]).unwrap();
        let f = address_field(d.0, d.1, d.2, k == digis.len());
        assert(digi_fields(digis, k) == prev + f);
        assert forall|j: int| 0 <= j < k implies #[trigger] digi_fields(digis, k).subrange(
            7 * j,
            7 * j + 7,
        ) == address_field(
            parse_digi(digis[j]).unwrap().0,
            parse_digi(digis[j]).unwrap().1,
            parse_digi(digis[j]).unwrap().2,
            j + 1 == digis.len(),
        ) by {
            if j < k - 1 {
                assert((prev + f).subrange(7 * j, 7 * j + 7) =~= prev.subrange(7 * j, 7 * j + 7));
            } else {
                assert((prev + f).subrange(7 * j, 7 * j + 7) =~= f);
            }
        }
    }
}

/// Where each part of a UI frame lies.
proof fn lemma_frame_layout(
    src: (Seq<u8>, u8),
    dst: (Seq<u8>, u8),
    digis: Seq<Seq<u8>>,
    body: Seq<u8>,
)
    ensures
        ({
            let u = ax25_frame(src, dst, digis, body);
            let l = frame_addresses(src, dst, digis);
            let n = l.len() as int;
            &&& u.len() == 3 + 7 * n + body.len()
            &&& u[0] == 0
            &&& forall|i: int| 0 <= i < n ==> #[trigger] u.subrange(1 + 7 * i, 8 + 7 * i) == field_of(l, i)
            &&& u[1 + 7 * n] == 3
            &&& u[2 + 7 * n] == 0xf0
            &&& u.skip(3 + 7 * n) == body
        }),
{
    let u = ax25_frame(src, dst, digis, body);
    let l = frame_addresses(src, dst, digis);
    let n = l.len() as int;
    let m = digis.len() as int;
    lemma_digi_fields(digis, digis.len());
    let df = address_field(dst.0, dst.1, true, false);
    let sf = address_field(src.0, src.1, false, digis.len() == 0);
    let dg = digi_fields(digis, digis.len());
    let tail = seq![3u8, 0xf0u8] + body;
    assert(u == seq![0u8] + df + sf + dg + tail);
    assert(n == m + 2);
    assert forall|i: int| 0 <= i < n implies #[trigger] u.subrange(1 + 7 * i, 8 + 7 * i) == field_of(l, i) by {
        if i == 0 {
            assert(u.subrange(1, 8) =~= df);
        } else if i == 1 {
            assert(u.subrange(8, 15) =~= sf);
        } else {
            let j = i - 2;
            assert(u.subrange(1 + 7 * i, 8 + 7 * i) =~= dg.subrange(7 * j, 7 * j + 7));
            assert(l[i] == parse_digi(digis[j]).unwrap());
        }
    }
    assert(u.skip(3 + 7 * n) =~= body);
}

/// Reading the address fields `i..` of a frame gives their callsign texts.
proof fn lemma_parse_fields(u: Seq<u8>, l: Seq<(Seq<u8>, u8, bool)>, i: nat)
    requires
        l.len() <= 10,
        i < l.len(),
        u.len() >= 1 + 7 * l.len(),
        forall|j: int| 0 <= j < l.len() ==> #[trigger] u.subrange(1 + 7 * j, 8 + 7 * j) == field_of(l, j),
        forall|j: int|
            0 <= j < l.len() ==> 1 <= (#[trigger] l[j]).0.len() <= 6 && upper_or_digits(l[j].0)
                && l[j].1 <= 15,
    ensures
        parse_addresses(u, 1 + 7 * (i as int), i) == Some(
            (address_texts(l).skip(i as int), 1 + 7 * (l.len() as int)),
        ),
    decreases l.len() - i,
{
    let a = l[i as int];
    assert(u.subrange(1 + 7 * (i as int), 8 + 7 * (i as int)) == field_of(l, i as int));
    lemma_decode_field(a.0, a.1, a.2, i == l.len() - 1);
    let t = address_texts(l);
    if i == l.len() - 1 {
        assert(t.skip(i as int) =~= seq![(call_text(a.0, a.1), a.2)]);
    } else {
        lemma_parse_fields(u, l, i + 1);
        assert(t.skip(i as int) =~= seq![(call_text(a.0, a.1), a.2)] + t.skip(i as int + 1));
    }
}

/// `,` followed by each piece, in order.
pub open spec fn join_tail(ps: Seq<Seq<u8>>) -> Seq<u8>
    decreases ps.len(),
{
    if ps.len() == 0 {
        Seq::empty()
    } else {
        seq![COMMA] + ps[0] + join_tail(ps.skip(1))
    }
}

/// Text is its first comma-separated piece followed by the others, each
/// after a comma.
proof fn lemma_split_join(s: Seq<u8>)
    ensures
        split_all(s, COMMA).len() >= 1,
        s == split_all(s, COMMA)[0] + join_tail(split_all(s, COMMA).skip(1)),
    decreases s.len(),
{
    lemma_find_some(s, COMMA);
    match find(s, COMMA) {
        None => {
            assert(split_all(s, COMMA) == seq![s]);
            assert(seq![s].skip(1) =~= Seq::<Seq<u8>>::empty());
            assert(s + Seq::<u8>::empty() =~= s);
        },
        Some(i) => {
            lemma_split_join(s.skip(i + 1));
            let rest = split_all(s.skip(i + 1), COMMA);
            assert(split_all(s, COMMA) == seq![s.take(i)] + rest);
            assert((seq![s.take(i)] + rest).skip(1) =~= rest);
            assert(join_tail(rest) =~= seq![COMMA] + s.skip(i + 1));
            assert(s =~= s.take(i) + (seq![COMMA] + s.skip(i + 1)));
        },
    }
}

proof fn lemma_join_tail_last(ps: Seq<Seq<u8>>)
    requires
        ps.len() > 0,
    ensures
        join_tail(ps) == join_tail(ps.drop_last()) + seq![COMMA] + ps.last(),
    decreases ps.len(),
{
    if ps.len() == 1 {
        assert(ps.skip(1) =~= Seq::<Seq<u8>>::empty());
        assert(ps.drop_last() =~= Seq::<Seq<u8>>::empty());
        assert(join_tail(ps.skip(1)) == Seq::<u8>::empty());
        assert(join_tail(ps.drop_last()) == Seq::<u8>::empty());
        assert(join_tail(ps) =~= seq![COMMA] + ps[0]);
    } else {
        lemma_join_tail_last(ps.skip(1));
        assert(ps.drop_last().skip(1) =~= ps.skip(1).drop_last());
        assert(ps.drop_last()[0] == ps[0]);
        assert(join_tail(ps) =~= join_tail(ps.drop_last()) + seq![COMMA] + ps.last());
    }
}

proof fn lemma_digi_text_join(ds: Seq<(Seq<u8>, bool)>, raws: Seq<Seq<u8>>)
    requires
        ds.len() == raws.len(),
        forall|k: int| 0 <= k < ds.len() ==> digi_item(#[trigger] ds[k]) == seq![COMMA] + raws[k],
    ensures
        digi_text(ds) == join_tail(raws),
    decreases ds.len(),
{
    if ds.len() > 0 {
        lemma_digi_text_join(ds.drop_last(), raws.drop_last());
        lemma_join_tail_last(raws);
        assert(digi_item(ds[ds.len() - 1]) == seq![COMMA] + raws[raws.len() - 1]);
        assert(digi_text(ds) =~= join_tail(raws));
    }
}

/// A callsign that AX.25 writes back the same way: no `-0` and no SSID with
/// a leading zero.
pub open spec fn canonical_call(c: Seq<u8>) -> bool {
    ax25_parts(c) matches Some((b, s)) && call_text(b, s) == c
}

/// The source, destination and digipeater callsigns of a TNC2 frame are
/// all canonical.
pub open spec fn canonical_calls(f: Seq<u8>) -> bool {
    match split_first(f, COLON) {
        None => false,
        Some((header, body)) => match split_first(header, GT) {
            None => false,
            Some((source, route)) => {
                let pieces = split_all(route, COMMA);
                &&& canonical_call(source)
                &&& canonical_call(pieces[0])
                &&& forall|k: int|
                    1 <= k < pieces.len() ==> canonical_call(#[trigger] strip_star(pieces[k]).0)
            },
        },
    }
}

/// The KISS frame without its FEND delimiters.
pub open spec fn kiss_inner(k: Seq<u8>) -> Seq<u8> {
    k.subrange(1, k.len() - 1)
}

/// The KISS form of a UI frame with valid addresses reads back as the TNC2
/// text of those addresses and the information field.
proof fn lemma_kiss_of_frame(
    src: (Seq<u8>, u8),
    dst: (Seq<u8>, u8),
    digis: Seq<Seq<u8>>,
    body: Seq<u8>,
)
    requires
        1 <= src.0.len() <= 6 && upper_or_digits(src.0) && src.1 <= 15,
        1 <= dst.0.len() <= 6 && upper_or_digits(dst.0) && dst.1 <= 15,
        digis.len() <= 8,
        forall|k: int| 0 <= k < digis.len() ==> (#[trigger] parse_digi(digis[k])) is Some,
        body.len() > 0,
    ensures
        kiss_frame_to_tnc2(stuff(ax25_frame(src, dst, digis, body))) == Some(
            tnc2_text(address_texts(frame_addresses(src, dst, digis)), body),
        ),
{
    let u = ax25_frame(src, dst, digis, body);
    lemma_unstuff_stuff(u);
    let l = frame_addresses(src, dst, digis);
    lemma_frame_layout(src, dst, digis, body);
    assert forall|j: int| 0 <= j < l.len() implies 1 <= (#[trigger] l[j]).0.len() <= 6
        && upper_or_digits(l[j].0) && l[j].1 <= 15 by {
        if j >= 2 {
            assert(parse_digi(digis[j - 2]) is Some);
        }
    }
    lemma_parse_fields(u, l, 0);
    let t = address_texts(l);
    assert(t.skip(0) =~= t);
}

/// The TNC2 text of the addresses of a frame with canonical callsigns is the
/// frame itself.
proof fn lemma_text_of_frame(
    f: Seq<u8>,
    source: Seq<u8>,
    route: Seq<u8>,
    body: Seq<u8>,
)
    requires
        f == source + seq![GT] + route + seq![COLON] + body,
        canonical_call(source),
        canonical_call(split_all(route, COMMA)[0]),
        forall|k: int|
            1 <= k < split_all(route, COMMA).len() ==> canonical_call(
                #[trigger] strip_star(split_all(route, COMMA)[k]).0,
            ),
        forall|k: int|
            1 <= k < split_all(route, COMMA).len() ==> (#[trigger] parse_digi(
                split_all(route, COMMA)[k],
            )) is Some,
    ensures
        ({
            let pieces = split_all(route, COMMA);
            tnc2_text(
                address_texts(
                    frame_addresses(
                        ax25_parts(source)->Some_0,
                        ax25_parts(pieces[0])->Some_0,
                        pieces.skip(1),
                    ),
                ),
                body,
            ) == f
        }),
{
    let pieces = split_all(route, COMMA);
    lemma_split_join(route);
    let digis = pieces.skip(1);
    let src = ax25_parts(source)->Some_0;
    let dst = ax25_parts(pieces[0])->Some_0;
    let t = address_texts(frame_addresses(src, dst, digis));
    assert(t[1].0 == source);
    assert(t[0].0 == pieces[0]);
    assert forall|j: int| 0 <= j < digis.len() implies digi_item(#[trigger] t.skip(2)[j])
        == seq![COMMA] + digis[j] by {
        let d = digis[j];
        assert(d == pieces[j + 1]);
        assert(canonical_call(strip_star(pieces[j + 1]).0));
        assert(parse_digi(pieces[j + 1]) is Some);
        assert(t.skip(2)[j] == t[j + 2]);
        if d.len() > 0 && d.last() == STAR {
            assert(d =~= d.drop_last() + seq![STAR]);
        }
    }
    lemma_digi_text_join(t.skip(2), digis);
    assert(tnc2_text(t, body) =~= f);
}

/// Converting a TNC2 frame to KISS and back gives the frame back, whenever
/// its callsigns are written canonically (no `-0` SSID and no SSID with a
/// leading zero); the payload may hold any bytes.
pub proof fn lemma_kiss_round_trip(f: Seq<u8>)
    requires
        tnc2_frame_to_kiss(f) is Some,
        canonical_calls(f),
    ensures
        kiss_frame_to_tnc2(kiss_inner(tnc2_frame_to_kiss(f)->Some_0)) == Some(f),
{
    lemma_find_some(f, COLON);
    let i = find(f, COLON)->Some_0;
    let header = f.take(i);
    let body = f.skip(i + 1);
    lemma_find_some(header, GT);
    let g = find(header, GT)->Some_0;
    let source = header.take(g);
    let route = header.skip(g + 1);
    let pieces = split_all(route, COMMA);
    let digis = pieces.skip(1);
    let src = ax25_parts(source)->Some_0;
    let dst = ax25_parts(pieces[0])->Some_0;
    let u = ax25_frame(src, dst, digis, body);
    let k = tnc2_frame_to_kiss(f)->Some_0;
    assert(k == seq![FEND] + stuff(u) + seq![FEND]);
    assert(kiss_inner(k) =~= stuff(u));
    assert forall|j: int| 1 <= j < pieces.len() implies (#[trigger] parse_digi(pieces[j])) is Some by {
        assert(pieces[j] == digis[j - 1]);
    }
    lemma_kiss_of_frame(src, dst, digis, body);
    assert(header =~= source + seq![GT] + route);
    assert(f =~= source + seq![GT] + route + seq![COLON] + body);
    lemma_text_of_frame(f, source, route, body);
}

} // verus!
