//! How a TNC2 header is read into source, destination and digipeaters, and
//! how a digipeater appended to its path changes the hop estimate.
use vstd::prelude::*;
use crate::callsign::{lemma_ax25_call_normalized, lemma_valid_call_is_ascii, valid_ax25_call};
use crate::duplicate_laws::{lemma_find_after_prefix, lemma_find_append};
use crate::frame::{
    digi_calls_valid, digi_hops, digipeater_hops, hop_total, nn_alias, strip_crlf, strip_star, trace,
    wide, COLON, COMMA, DASH, GT, STAR,
};
use crate::envelope::{all_loose, all_path, digi_entry, digi_list, header_parts};
use crate::error::ErrorCode;
use crate::report_laws::{free_of, joined};
use crate::text::{find, first_at, is_alnum, lemma_find_some, split_all, upper, upper_seq};

verus! {

/// No carriage return or line feed in `s`.
pub open spec fn no_line_break(s: Seq<u8>) -> bool {
    forall|k: int| 0 <= k < s.len() ==> #[trigger] s[k] != 13 && s[k] != 10
}

proof fn lemma_strip_crlf_plain(s: Seq<u8>)
    requires
        no_line_break(s),
    ensures
        strip_crlf(s) == s,
    decreases s.len(),
{
    if s.len() > 0 {
        let d = s.drop_last();
        assert forall|k: int| 0 <= k < d.len() implies #[trigger] d[k] != 13 && d[k] != 10 by {
            assert(d[k] == s[k]);
        }
        lemma_strip_crlf_plain(d);
        assert(s[s.len() - 1] != 13 && s[s.len() - 1] != 10);
        assert(d.push(s.last()) =~= s);
    }
}

proof fn lemma_find_none(s: Seq<u8>, b: u8)
    requires
        forall|k: int| 0 <= k < s.len() ==> #[trigger] s[k] != b,
    ensures
        find(s, b) is None,
{
    lemma_find_some(s, b);
    if find(s, b) is Some {
        let j = find(s, b)->Some_0;
        assert(s[j] == b);
    }
}

/// Splitting a text that ends in `b` and a last piece without `b`: the
/// pieces of the text, then that last piece.
proof fn lemma_split_all_append(r: Seq<u8>, c: Seq<u8>, b: u8)
    requires
        forall|k: int| 0 <= k < c.len() ==> #[trigger] c[k] != b,
    ensures
        split_all(r + seq![b] + c, b) == split_all(r, b).push(c),
    decreases r.len(),
{
    let t = r + seq![b] + c;
    lemma_find_some(r, b);
    lemma_find_none(c, b);
    assert(split_all(c, b) == seq![c]);
    match find(r, b) {
        None => {
            assert(!r.contains(b));
            assert(t =~= r + (seq![b] + c));
            lemma_find_after_prefix(r, seq![b] + c, b);
            assert(t.take(r.len() as int) =~= r);
            assert(t.skip(r.len() as int + 1) =~= c);
            assert(split_all(t, b) == seq![r] + seq![c]);
            assert(split_all(r, b) == seq![r]);
            assert(seq![r] + seq![c] =~= seq![r].push(c));
        },
        Some(i) => {
            assert(first_at(t, b, i)) by {
                assert(t[i] == r[i]);
                assert forall|j: int| 0 <= j < i implies t[j] != b by {
                    assert(t[j] == r[j]);
                }
            }
            lemma_find_some(t, b);
            let j = find(t, b)->Some_0;
            if j < i {
                assert(t[j] == r[j]);
            }
            assert(j == i);
            let rest = r.skip(i + 1);
            assert(t.take(i) =~= r.take(i));
            assert(t.skip(i + 1) =~= rest + seq![b] + c);
            lemma_split_all_append(rest, c, b);
            assert(split_all(t, b) == seq![r.take(i)] + split_all(rest, b).push(c));
            assert(split_all(r, b) == seq![r.take(i)] + split_all(rest, b));
            assert(seq![r.take(i)] + split_all(rest, b).push(c) =~= (seq![r.take(i)] + split_all(
                rest,
                b,
            )).push(c));
        },
    }
}

proof fn lemma_hop_total_push(ds: Seq<Seq<u8>>, x: Seq<u8>)
    ensures
        hop_total(ds.push(x)) == hop_total(ds) + digi_hops(x),
    decreases ds.len(),
{
    if ds.len() == 0 {
        assert(ds.push(x).skip(1) =~= Seq::<Seq<u8>>::empty());
        assert(hop_total(Seq::<Seq<u8>>::empty()) == 0);
    } else {
        assert(ds.push(x).skip(1) =~= ds.skip(1).push(x));
        lemma_hop_total_push(ds.skip(1), x);
    }
}

/// The hop estimate of a header with one more path component `p` after it.
proof fn lemma_hops_append(h: Seq<u8>, p: Seq<u8>)
    requires
        no_line_break(h),
        forall|k: int| 0 <= k < h.len() ==> #[trigger] h[k] != COLON,
        no_line_break(p),
        forall|k: int| 0 <= k < p.len() ==> #[trigger] p[k] != COLON && p[k] != COMMA && p[k] != GT,
    ensures
        digipeater_hops(h + seq![COMMA] + p) == match digipeater_hops(h) {
            None => None,
            Some(n) => if valid_ax25_call(strip_star(upper_seq(p)).0) {
                Some(n + digi_hops(upper_seq(p)))
            } else {
                None
            },
        },
{
    let hh = h + seq![COMMA] + p;
    assert forall|k: int| 0 <= k < hh.len() implies #[trigger] hh[k] != 13 && hh[k] != 10 by {
        if k < h.len() {
            assert(hh[k] == h[k]);
        } else if k > h.len() {
            assert(hh[k] == p[k - h.len() - 1]);
        }
    }
    lemma_strip_crlf_plain(h);
    lemma_strip_crlf_plain(hh);
    let uh = upper_seq(h);
    let up = upper_seq(p);
    let w = seq![COMMA] + up;
    let uhh = upper_seq(hh);
    assert(uhh =~= uh + w);
    assert forall|k: int| 0 <= k < uh.len() implies #[trigger] uh[k] != COLON by {
        assert(uh[k] == upper(h[k]));
    }
    assert forall|k: int| 0 <= k < w.len() implies #[trigger] w[k] != COLON && w[k] != GT && (k
        > 0 ==> w[k] != COMMA) by {
        if k > 0 {
            assert(w[k] == up[k - 1]);
            assert(up[k - 1] == upper(p[k - 1]));
        }
    }
    assert forall|k: int| 0 <= k < up.len() implies #[trigger] up[k] != COMMA by {
        assert(up[k] == upper(p[k]));
    }
    assert forall|k: int| 0 <= k < uhh.len() implies #[trigger] uhh[k] != COLON by {
        if k < uh.len() {
            assert(uhh[k] == uh[k]);
        } else {
            assert(uhh[k] == w[k - uh.len()]);
        }
    }
    lemma_find_none(uh, COLON);
    lemma_find_none(uhh, COLON);
    lemma_find_append(uh, w, GT);
    lemma_find_some(uh, GT);
    match find(uh, GT) {
        None => {},
        Some(i) => {
            let route = uh.skip(i + 1);
            assert(uhh.take(i) =~= uh.take(i));
            assert(uhh.skip(i + 1) =~= route + seq![COMMA] + up);
            lemma_split_all_append(route, up, COMMA);
            let pieces = split_all(route, COMMA);
            let pieces2 = split_all(route + seq![COMMA] + up, COMMA);
            assert(pieces.len() >= 1);
            assert(pieces2 == pieces.push(up));
            assert(pieces2[0] == pieces[0]);
            assert(digi_calls_valid(pieces2) == (digi_calls_valid(pieces) && valid_ax25_call(
                strip_star(up).0,
            ))) by {
                if digi_calls_valid(pieces) && valid_ax25_call(strip_star(up).0) {
                    assert forall|k: int| 1 <= k < pieces2.len() implies valid_ax25_call(
                        #[trigger] strip_star(pieces2[k]).0,
                    ) by {
                        if k < pieces.len() {
                            assert(pieces2[k] == pieces[k]);
                        }
                    }
                }
                if digi_calls_valid(pieces2) {
                    assert(valid_ax25_call(strip_star(pieces2[pieces.len() as int]).0));
                    assert forall|k: int| 1 <= k < pieces.len() implies valid_ax25_call(
                        #[trigger] strip_star(pieces[k]).0,
                    ) by {
                        assert(pieces2[k] == pieces[k]);
                        assert(valid_ax25_call(strip_star(pieces2[k]).0));
                    }
                }
            }
            assert(pieces2.skip(1) =~= pieces.skip(1).push(up));
            lemma_hop_total_push(pieces.skip(1), up);
        },
    }
}

/// A digipeater appended to the path of a TNC2 header (without `:` and
/// line breaks) that is neither a `WIDEn-N` nor a `TRACEn-N` alias adds no
/// hop while it has not repeated the packet, and exactly one hop once it
/// has (a trailing `*`); a header with an invalid callsign has no estimate
/// either way.
pub proof fn lemma_plain_digipeater_hops(h: Seq<u8>, call: Seq<u8>)
    requires
        no_line_break(h),
        forall|k: int| 0 <= k < h.len() ==> #[trigger] h[k] != COLON,
        valid_ax25_call(call),
        nn_alias(upper_seq(call), wide()) is None,
        nn_alias(upper_seq(call), trace()) is None,
    ensures
        digipeater_hops(h + seq![COMMA] + call) == digipeater_hops(h),
        digipeater_hops(h + seq![COMMA] + (call + seq![STAR])) == match digipeater_hops(h) {
            None => None,
            Some(n) => Some(n + 1),
        },
{
    lemma_valid_call_is_ascii(call);
    lemma_ax25_call_normalized(call);
    let c = upper_seq(call);
    assert(valid_ax25_call(c));
    assert(upper_seq(c) =~= c) by {
        assert forall|k: int| 0 <= k < c.len() implies #[trigger] upper_seq(c)[k] == c[k] by {
            assert(c[k] == upper(call[k]));
        }
    }
    assert(call.len() >= 1) by {
        lemma_find_some(call, DASH);
    }
    assert forall|k: int| 0 <= k < call.len() implies #[trigger] call[k] != 13 && call[k] != 10
        && call[k] != COLON && call[k] != COMMA && call[k] != GT && call[k] != STAR by {
        assert(is_alnum(call[k]) || call[k] == DASH);
    }
    assert(c[c.len() - 1] == upper(call[call.len() - 1]));
    assert(strip_star(c) == (c, false));
    lemma_hops_append(h, call);
    let cs = call + seq![STAR];
    assert forall|k: int| 0 <= k < cs.len() implies #[trigger] cs[k] != 13 && cs[k] != 10 && cs[k]
        != COLON && cs[k] != COMMA && cs[k] != GT by {
        if k < call.len() {
            assert(cs[k] == call[k]);
        }
    }
    let ucs = upper_seq(cs);
    assert(ucs =~= c + seq![STAR]);
    assert(strip_star(ucs).0 =~= c);
    assert(strip_star(ucs).1);
    lemma_hops_append(h, cs);
}

/// Splitting texts joined with `b`, none holding `b`, gives them back.
pub(crate) proof fn lemma_split_all_joined(fs: Seq<Seq<u8>>, b: u8)
    requires
        fs.len() >= 1,
        forall|k: int| 0 <= k < fs.len() ==> free_of(#[trigger] fs[k], b),
    ensures
        split_all(joined(fs, b), b) == fs,
    decreases fs.len(),
{
    if fs.len() == 1 {
        assert(free_of(fs[0], b));
        lemma_find_none(fs[0], b);
        assert(seq![fs[0]] =~= fs);
    } else {
        let rest = fs.skip(1);
        assert forall|k: int| 0 <= k < rest.len() implies free_of(#[trigger] rest[k], b) by {
            assert(rest[k] == fs[k + 1]);
        }
        assert(free_of(fs[0], b));
        let s = joined(fs, b);
        assert(s =~= fs[0] + (seq![b] + joined(rest, b)));
        assert(!fs[0].contains(b));
        lemma_find_after_prefix(fs[0], seq![b] + joined(rest, b), b);
        assert(s.take(fs[0].len() as int) =~= fs[0]);
        assert(s.skip(fs[0].len() as int + 1) =~= joined(rest, b));
        lemma_split_all_joined(rest, b);
        assert(seq![fs[0]] + rest =~= fs);
    }
}

/// The path components of the calls `calls`, each followed by `*` when it
/// has repeated the packet.
pub open spec fn path_components(calls: Seq<Seq<u8>>, used: Seq<bool>) -> Seq<Seq<u8>> {
    Seq::new(calls.len(), |i: int| if used[i] {
        calls[i].push(STAR)
    } else {
        calls[i]
    })
}

proof fn lemma_valid_call_bytes(c: Seq<u8>)
    requires
        valid_ax25_call(c),
    ensures
        c.len() >= 1,
        forall|k: int| 0 <= k < c.len() ==> #[trigger] c[k] != COMMA && c[k] != GT && c[k] != STAR
            && crate::callsign::path_byte(c[k]) && crate::callsign::loose_call_byte(c[k]),
        crate::callsign::ax25_call(c) == Some(upper_seq(c)),
{
    lemma_valid_call_is_ascii(c);
    lemma_find_some(c, DASH);
    assert forall|k: int| 0 <= k < c.len() implies #[trigger] c[k] != COMMA && c[k] != GT && c[k]
        != STAR && crate::callsign::path_byte(c[k]) && crate::callsign::loose_call_byte(c[k]) by {
        assert(is_alnum(c[k]) || c[k] == DASH);
    }
}

proof fn lemma_digi_list_of(calls: Seq<Seq<u8>>, used: Seq<bool>, strict: bool)
    requires
        calls.len() == used.len(),
        forall|i: int| 0 <= i < calls.len() ==> valid_ax25_call(#[trigger] calls[i]),
    ensures
        digi_list(path_components(calls, used), strict) == Ok::<Seq<(Seq<u8>, bool)>, ErrorCode>(
            Seq::new(calls.len(), |i: int| (if strict {
                upper_seq(calls[i])
            } else {
                calls[i]
            }, used[i])),
        ),
    decreases calls.len(),
{
    let ds = path_components(calls, used);
    let want = Seq::new(calls.len(), |i: int| (if strict {
        upper_seq(calls[i])
    } else {
        calls[i]
    }, used[i]));
    if calls.len() == 0 {
        assert(want =~= Seq::<(Seq<u8>, bool)>::empty());
    } else {
        let c = calls[0];
        lemma_valid_call_bytes(c);
        assert(ds[0] == if used[0] {
            c.push(STAR)
        } else {
            c
        });
        if used[0] {
            assert(c.push(STAR).drop_last() =~= c);
        } else {
            assert(c[c.len() - 1] != STAR);
        }
        assert(strip_star(ds[0]) == (c, used[0]));
        if !strict {
            assert(all_path(c));
        }
        assert(digi_entry(ds[0], strict) == Ok::<(Seq<u8>, bool), ErrorCode>(want[0]));
        lemma_digi_list_of(calls.skip(1), used.skip(1), strict);
        assert(ds.skip(1) =~= path_components(calls.skip(1), used.skip(1)));
        assert(seq![want[0]] + Seq::new(calls.skip(1).len(), |i: int| (if strict {
            upper_seq(calls.skip(1)[i])
        } else {
            calls.skip(1)[i]
        }, used.skip(1)[i])) =~= want);
    }
}

/// A TNC2 header `SOURCE>DEST,DIGI,DIGI*,...` of valid AX.25 callsigns
/// reads as the source, the destination in upper case, and the
/// digipeaters in order, each marked used when it ends in `*`; strict
/// AX.25 mode also puts the source and the digipeaters in upper case and
/// refuses more than eight digipeaters.
pub proof fn lemma_header_path(
    source: Seq<u8>,
    destination: Seq<u8>,
    calls: Seq<Seq<u8>>,
    used: Seq<bool>,
    strict: bool,
)
    requires
        valid_ax25_call(source),
        valid_ax25_call(destination),
        calls.len() == used.len(),
        forall|i: int| 0 <= i < calls.len() ==> valid_ax25_call(#[trigger] calls[i]),
    ensures
        header_parts(
            source + seq![GT] + joined(seq![destination] + path_components(calls, used), COMMA),
            strict,
        ) == if strict && calls.len() > 8 {
            Err::<(Seq<u8>, Seq<u8>, Seq<(Seq<u8>, bool)>), ErrorCode>(ErrorCode::PathTooLong)
        } else {
            Ok(
                (
                    if strict {
                        upper_seq(source)
                    } else {
                        source
                    },
                    upper_seq(destination),
                    Seq::new(calls.len(), |i: int| (if strict {
                        upper_seq(calls[i])
                    } else {
                        calls[i]
                    }, used[i])),
                ),
            )
        },
{
    lemma_valid_call_bytes(source);
    lemma_valid_call_bytes(destination);
    let ds = path_components(calls, used);
    let fs = seq![destination] + ds;
    assert forall|k: int| 0 <= k < fs.len() implies free_of(#[trigger] fs[k], COMMA) by {
        if k == 0 {
            assert(fs[0] == destination);
        } else {
            assert(fs[k] == ds[k - 1]);
            lemma_valid_call_bytes(calls[k - 1]);
            let c = calls[k - 1];
            if used[k - 1] {
                assert forall|j: int| 0 <= j < c.push(STAR).len() implies #[trigger] c.push(STAR)[j]
                    != COMMA by {
                    if j < c.len() {
                        assert(c.push(STAR)[j] == c[j]);
                    }
                }
            }
        }
    }
    let rest = joined(fs, COMMA);
    let h = source + seq![GT] + rest;
    assert(h =~= source + (seq![GT] + rest));
    assert(!source.contains(GT));
    lemma_find_after_prefix(source, seq![GT] + rest, GT);
    assert(h.take(source.len() as int) =~= source);
    assert(h.skip(source.len() as int + 1) =~= rest);
    lemma_split_all_joined(fs, COMMA);
    assert(fs[0] == destination);
    assert(fs.skip(1) =~= ds);
    if !strict {
        assert(all_loose(source));
    }
    lemma_digi_list_of(calls, used, strict);
}

/// An AX.25 callsign is one to six letters or digits, optionally followed
/// by `-` and an SSID of one or two digits with a value up to 15; a base of
/// seven characters is not one.
pub proof fn lemma_ax25_call_shape(base: Seq<u8>, ssid: Seq<u8>, extra: u8)
    requires
        1 <= base.len() <= 6,
        forall|k: int| 0 <= k < base.len() ==> is_alnum(#[trigger] base[k]),
        1 <= ssid.len() <= 2,
        forall|k: int| 0 <= k < ssid.len() ==> 48 <= #[trigger] ssid[k] <= 57,
        is_alnum(extra),
    ensures
        valid_ax25_call(base),
        valid_ax25_call(base + seq![DASH] + ssid) == (if ssid.len() == 1 {
            ssid[0] - 48
        } else {
            (ssid[0] - 48) * 10 + (ssid[1] - 48)
        } <= 15),
        base.len() == 6 ==> !valid_ax25_call(base.push(extra)),
{
    assert forall|k: int| 0 <= k < base.len() implies #[trigger] base[k] != DASH by {
        assert(is_alnum(base[k]));
    }
    lemma_find_none(base, DASH);
    let c = base + seq![DASH] + ssid;
    assert(c =~= base + (seq![DASH] + ssid));
    assert(!base.contains(DASH));
    lemma_find_after_prefix(base, seq![DASH] + ssid, DASH);
    assert(c.take(base.len() as int) =~= base);
    assert(c.skip(base.len() as int + 1) =~= ssid);
    assert(crate::text::all_digits(ssid)) by {
        assert forall|k: int| 0 <= k < ssid.len() implies crate::text::is_digit(#[trigger] ssid[k]) by {}
    }
    assert(ssid.drop_last().len() == ssid.len() - 1);
    assert(crate::text::decimal(Seq::<u8>::empty()) == 0);
    assert(ssid.last() == ssid[ssid.len() - 1]);
    if ssid.len() == 2 {
        assert(seq![ssid[0]].last() == ssid[0]);
        assert(ssid.drop_last() =~= seq![ssid[0]]);
        assert(seq![ssid[0]].drop_last() =~= Seq::<u8>::empty());
        assert(crate::text::decimal(seq![ssid[0]]) == ssid[0] - 48);
        assert(crate::text::decimal(ssid) == (ssid[0] - 48) * 10 + (ssid[1] - 48));
    } else {
        assert(ssid.drop_last() =~= Seq::<u8>::empty());
        assert(crate::text::decimal(ssid) == ssid[0] - 48);
    }
    let e = base.push(extra);
    assert forall|k: int| 0 <= k < e.len() implies #[trigger] e[k] != DASH by {
        if k < base.len() {
            assert(e[k] == base[k]);
        }
    }
    lemma_find_none(e, DASH);
}

} // verus!
