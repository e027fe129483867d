//! The extensions an APRS position comment may carry: inline base-91
//! telemetry `|SSAABBCCDDEEFF|`, the `!DAO!` precision extension, and the
//! PHG and course/speed data extensions.
use vstd::prelude::*;
use crate::position::{all_base91, base91_digit};
use crate::body::has_prefix;
use crate::text::{
    all_digits, copy_bytes, decimal, is_alnum, is_digit, is_lower, is_upper, is_ws, last_at,
    push_char, rfind, rfind_byte, trim_start_by, trim_ws, trim_ws_bytes, upper,
};

verus! {

/// `|`, which delimits inline telemetry.
pub const PIPE: u8 = 124;

/// `/`
pub const SLASH: u8 = 47;

/// An inline telemetry payload: an even number, from 4 to 14, of base-91
/// digits.
pub open spec fn telemetry_payload(p: Seq<u8>) -> bool {
    &&& 4 <= p.len() <= 14
    &&& p.len() % 2 == 0
    &&& all_base91(p)
}

/// The `|` at `l` closes inline telemetry opened by the `|` before it. (A
/// payload holds no `|`, so no earlier `|` can open it.)
pub open spec fn closes_telemetry(c: Seq<u8>, l: int) -> bool {
    &&& 0 <= l < c.len()
    &&& c[l] == PIPE
    &&& rfind(c.take(l), PIPE) matches Some(f) && telemetry_payload(c.subrange(f + 1, l))
}

/// `l` closes the last inline telemetry of the comment.
pub open spec fn closes_last_telemetry(c: Seq<u8>, l: int) -> bool {
    &&& closes_telemetry(c, l)
    &&& forall|m: int| l < m < c.len() ==> !closes_telemetry(c, m)
}

/// The opening and closing `|` of the last inline telemetry of a comment.
pub open spec fn telemetry_span(c: Seq<u8>) -> Option<(int, int)> {
    if exists|l: int| closes_last_telemetry(c, l) {
        let l = choose|l: int| closes_last_telemetry(c, l);
        Some((rfind(c.take(l), PIPE)->Some_0, l))
    } else {
        None
    }
}

/// Whether bytes form an inline telemetry payload.
pub fn is_telemetry_payload(p: &[u8]) -> (r: bool)
    ensures
        r == telemetry_payload(p@),
{
    let n: usize = p.len();
    if n < 4 || n > 14 || n % 2 != 0 {
        return false;
    }
    let mut i: usize = 0;
    while i < n
        invariant
            i <= n,
            n == p@.len(),
            forall|k: int| 0 <= k < i ==> base91_digit(#[trigger] p@[k]),
        decreases n - i,
    {
        if p[i] < 33 || p[i] > 123 {
            assert(!base91_digit(p@[i as int]));
            return false;
        }
        i = i + 1;
    }
    true
}

/// Finds the last inline telemetry of a comment.
pub fn find_telemetry_span(c: &[u8]) -> (r: Option<(usize, usize)>)
    ensures
        match telemetry_span(c@) {
            Some((f, l)) => r matches Some((a, b)) && a == f && b == l && closes_last_telemetry(
                c@,
                l,
            ),
            None => r is None && forall|l: int| !closes_telemetry(c@, l),
        },
{
    let mut l: usize = c.len();
    while l > 0
        invariant
            l <= c@.len(),
            forall|m: int| l <= m < c@.len() ==> !closes_telemetry(c@, m),
        decreases l,
    {
        let k: usize = l - 1;
        if c[k] == PIPE {
            let head = vstd::slice::slice_subrange(c, 0, k);
            assert(head@ =~= c@.take(k as int));
            match rfind_byte(head, PIPE) {
                Some(f) => {
                    let payload = vstd::slice::slice_subrange(c, f + 1, k);
                    assert(payload@ =~= c@.subrange(f + 1, k as int));
                    if is_telemetry_payload(payload) {
                        assert(closes_last_telemetry(c@, k as int));
                        proof {
                            let w = choose|x: int| closes_last_telemetry(c@, x);
                            if w < k {
                                assert(!closes_telemetry(c@, k as int));
                            } else if w > k {
                                assert(!closes_telemetry(c@, w));
                            }
                        }
                        return Some((f, k));
                    }
                },
                None => {},
            }
        }
        l = k;
    }
    proof {
        assert forall|x: int| !closes_telemetry(c@, x) by {
            if closes_telemetry(c@, x) {
                assert(0 <= x < c@.len());
            }
        }
        assert(!exists|x: int| closes_last_telemetry(c@, x));
    }
    None
}

/// The value of the `k`th two-digit base-91 group.
pub open spec fn pair_value(p: Seq<u8>, k: int) -> int {
    (p[2 * k] - 33) * 91 + (p[2 * k + 1] - 33)
}

/// The analogue values: the groups after the sequence number, at most five.
pub open spec fn telemetry_values(p: Seq<u8>) -> Seq<int> {
    let n: int = if p.len() / 2 - 1 < 5 {
        p.len() / 2 - 1
    } else {
        5
    };
    Seq::new(n as nat, |i: int| pair_value(p, i + 1))
}

/// The lowest `n` bits of `v`, least significant first, as `0` and `1`.
pub open spec fn bit_text(v: int, n: nat) -> Seq<char>
    decreases n,
{
    if n == 0 {
        Seq::empty()
    } else {
        seq![
            if v % 2 == 1 {
                '1'
            } else {
                '0'
            },
        ] + bit_text(v / 2, (n - 1) as nat)
    }
}

/// The digital bits of a payload with a seventh group.
pub open spec fn telemetry_bits(p: Seq<u8>) -> Option<Seq<char>> {
    if p.len() >= 14 {
        Some(bit_text(pair_value(p, 6), 8))
    } else {
        None
    }
}

/// Decoded inline base-91 telemetry.
pub struct InlineTelemetry {
    /// The sequence number.
    pub sequence: i32,
    /// Up to five analogue values, in wire order.
    pub values: Vec<i32>,
    /// The eight digital bits, when the payload carries them.
    pub bits: Option<String>,
}

pub open spec fn int_values(v: Seq<i32>) -> Seq<int> {
    v.map_values(|x: i32| x as int)
}

pub open spec fn opt_string_view(o: Option<String>) -> Option<Seq<char>> {
    match o {
        Some(s) => Some(s@),
        None => None,
    }
}

/// `t` is the telemetry the payload `p` holds.
pub open spec fn telemetry_of(t: InlineTelemetry, p: Seq<u8>) -> bool {
    &&& t.sequence == pair_value(p, 0)
    &&& int_values(t.values@) == telemetry_values(p)
    &&& opt_string_view(t.bits) == telemetry_bits(p)
}

/// The comment with the span `f..=l` removed and then trimmed.
pub open spec fn comment_without(c: Seq<u8>, f: int, l: int) -> Seq<u8> {
    c.take(f) + c.skip(l + 1)
}

fn group_value(p: &[u8], k: usize) -> (v: i32)
    requires
        k < 8,
        2 * k + 1 < p@.len(),
        all_base91(p@),
    ensures
        v == pair_value(p@, k as int),
        0 <= v <= 8280,
{
    assert(base91_digit(p@[2 * k as int]) && base91_digit(p@[2 * k + 1]));
    (p[2 * k] - 33) as i32 * 91 + (p[2 * k + 1] - 33) as i32
}

fn bits_string(v: i32) -> (s: String)
    requires
        v >= 0,
    ensures
        s@ == bit_text(v as int, 8),
{
    let mut s = String::new();
    let mut rest: i32 = v;
    let mut i: usize = 0;
    assert(s@ + bit_text(v as int, 8) =~= bit_text(v as int, 8));
    while i < 8
        invariant
            i <= 8,
            rest >= 0,
            s@ + bit_text(rest as int, (8 - i) as nat) == bit_text(v as int, 8),
        decreases 8 - i,
    {
        let c = if rest % 2 == 1 {
            '1'
        } else {
            '0'
        };
        let ghost before = s@;
        push_char(&mut s, c);
        assert(bit_text(rest as int, (8 - i) as nat) == seq![c] + bit_text(
            (rest / 2) as int,
            (8 - i - 1) as nat,
        ));
        assert(before + (seq![c] + bit_text((rest / 2) as int, (8 - i - 1) as nat)) =~= s@
            + bit_text((rest / 2) as int, (8 - i - 1) as nat));
        rest = rest / 2;
        i = i + 1;
    }
    assert(bit_text(rest as int, 0) =~= Seq::<char>::empty());
    assert(s@ + Seq::<char>::empty() =~= s@);
    s
}

/// Decodes the last inline base-91 telemetry of a comment and gives the
/// comment without it, trimmed.
pub fn parse_inline_telemetry(c: &[u8]) -> (r: Option<(InlineTelemetry, Vec<u8>)>)
    ensures
        match telemetry_span(c@) {
            Some((f, l)) => r matches Some((t, rest)) && telemetry_of(t, c@.subrange(f + 1, l))
                && rest@ == trim_ws(comment_without(c@, f, l)),
            None => r is None,
        },
{
    let (f, l) = match find_telemetry_span(c) {
        None => {
            return None;
        },
        Some(span) => span,
    };
    let ghost span = telemetry_span(c@);
    assert(span is Some);
    assert(span->Some_0.0 == f && span->Some_0.1 == l);
    assert(closes_telemetry(c@, l as int));
    let ghost lf = rfind(c@.take(l as int), PIPE)->Some_0;
    assert(f == lf);
    assert(last_at(c@.take(l as int), PIPE, lf)) by {
        let w = choose|i: int| last_at(c@.take(l as int), PIPE, i);
        assert(last_at(c@.take(l as int), PIPE, w));
    }
    assert(f < l);
    let p = vstd::slice::slice_subrange(c, f + 1, l);
    assert(p@ =~= c@.subrange(f + 1, l as int));
    let pairs: usize = p.len() / 2;
    let sequence = group_value(p, 0);
    let count: usize = if pairs - 1 < 5 {
        pairs - 1
    } else {
        5
    };
    let mut values: Vec<i32> = Vec::new();
    let mut i: usize = 0;
    while i < count
        invariant
            i <= count,
            count == (if pairs - 1 < 5 {
                pairs - 1
            } else {
                5
            }),
            pairs == p@.len() / 2,
            telemetry_payload(p@),
            int_values(values@) == telemetry_values(p@).take(i as int),
        decreases count - i,
    {
        let v = group_value(p, i + 1);
        let ghost before = values@;
        values.push(v);
        assert(int_values(values@) =~= int_values(before).push(v as int));
        assert(telemetry_values(p@).take(i + 1) =~= telemetry_values(p@).take(i as int).push(
            pair_value(p@, i + 1),
        ));
        i = i + 1;
    }
    assert(telemetry_values(p@).take(count as int) =~= telemetry_values(p@));
    let bits = if pairs >= 7 {
        Some(bits_string(group_value(p, 6)))
    } else {
        None
    };
    let mut rest: Vec<u8> = copy_bytes(vstd::slice::slice_subrange(c, 0, f));
    let n: usize = c.len();
    crate::text::append_bytes(&mut rest, vstd::slice::slice_subrange(c, l + 1, n));
    assert(rest@ =~= comment_without(c@, f as int, l as int));
    let trimmed = copy_bytes(trim_ws_bytes(rest.as_slice()));
    Some((InlineTelemetry { sequence, values, bits }, trimmed))
}

/// The comment without its last inline telemetry, untrimmed; the comment
/// itself when it has none.
pub open spec fn without_telemetry(c: Seq<u8>) -> Seq<u8> {
    match telemetry_span(c) {
        Some((f, l)) => comment_without(c, f, l),
        None => c,
    }
}

/// Removes the last inline telemetry of a comment.
pub fn strip_inline_telemetry(c: &[u8]) -> (r: Vec<u8>)
    ensures
        r@ == without_telemetry(c@),
{
    match find_telemetry_span(c) {
        None => copy_bytes(c),
        Some((f, l)) => {
            let mut rest: Vec<u8> = copy_bytes(vstd::slice::slice_subrange(c, 0, f));
            let n: usize = c.len();
            crate::text::append_bytes(&mut rest, vstd::slice::slice_subrange(c, l + 1, n));
            assert(rest@ =~= comment_without(c@, f as int, l as int));
            rest
        },
    }
}

/// Where inline telemetry opened by the `|` at `start` ends: just after the
/// first `|` that follows, when the bytes between form a payload. (A payload
/// holds no `|`, so no later `|` can close it.)
pub open spec fn telemetry_end(d: Seq<u8>, start: int) -> Option<int> {
    match crate::text::find(d.skip(start + 1), PIPE) {
        Some(j) => if telemetry_payload(d.subrange(start + 1, start + 1 + j)) {
            Some(start + j + 2)
        } else {
            None
        },
        None => None,
    }
}

/// The end of inline telemetry opened at `start`, if it is well formed.
pub fn inline_telemetry_end(d: &[u8], start: usize) -> (r: Option<usize>)
    requires
        start < d@.len(),
    ensures
        match telemetry_end(d@, start as int) {
            Some(e) => r == Some(e as usize),
            None => r is None,
        },
{
    let n: usize = d.len();
    let after = vstd::slice::slice_subrange(d, start + 1, n);
    assert(after@ =~= d@.skip(start + 1));
    match crate::text::find_byte(after, PIPE) {
        None => None,
        Some(j) => {
            let payload = vstd::slice::slice_subrange(d, start + 1, start + 1 + j);
            assert(payload@ =~= d@.subrange(start + 1, start + 1 + j));
            if is_telemetry_payload(payload) {
                Some(start + j + 2)
            } else {
                None
            }
        },
    }
}

/// A `!DAO!` extension: two extra digits of precision in thousandths of a
/// minute, two base-91 digits of extra precision, or a datum alone.
#[derive(Debug, Clone, Copy, PartialEq, Eq, Structural)]
pub enum DaoKind {
    /// `!Wxy!`: latitude and longitude thousandths of a minute.
    Human { lat: u8, lon: u8 },
    /// `!wxy!`: latitude and longitude in 91sts of a hundredth of a minute.
    Base91 { lat: u8, lon: u8 },
    /// `!D  !`: a datum without extra precision.
    DatumOnly,
}

/// The `!DAO!` extension starting at `i`, if one does.
pub open spec fn dao_at(c: Seq<u8>, i: int) -> Option<DaoKind> {
    if 0 <= i && i + 4 < c.len() && c[i] == 33 && c[i + 4] == 33 {
        let datum = c[i + 1];
        let d1 = c[i + 2];
        let d2 = c[i + 3];
        if is_upper(datum) && is_digit(d1) && is_digit(d2) {
            Some(DaoKind::Human { lat: (d1 - 48) as u8, lon: (d2 - 48) as u8 })
        } else if is_lower(datum) && base91_digit(d1) && base91_digit(d2) {
            Some(DaoKind::Base91 { lat: (d1 - 33) as u8, lon: (d2 - 33) as u8 })
        } else if base91_digit(datum) && d1 == 32 && d2 == 32 {
            Some(DaoKind::DatumOnly)
        } else {
            None
        }
    } else {
        None
    }
}

/// `i` starts the last `!DAO!` extension of the comment.
pub open spec fn last_dao_at(c: Seq<u8>, i: int) -> bool {
    &&& dao_at(c, i) is Some
    &&& forall|j: int| i < j < c.len() ==> dao_at(c, j) is None
}

/// The comment left after the `!DAO!` extension: trimmed, then without
/// leading `/`.
pub open spec fn dao_comment(c: Seq<u8>) -> Seq<u8> {
    trim_start_by(trim_ws(c), |b: u8| b == SLASH)
}

/// A comment's last `!DAO!` extension (its datum, in upper case, and kind)
/// and the comment that remains, once inline telemetry is removed.
pub open spec fn dao_parts(text: Seq<u8>) -> (Option<(u8, DaoKind)>, Seq<u8>) {
    let c = without_telemetry(text);
    if exists|i: int| last_dao_at(c, i) {
        let i = choose|i: int| last_dao_at(c, i);
        (Some((upper(c[i + 1]), dao_at(c, i)->Some_0)), dao_comment(c.take(i) + c.skip(i + 5)))
    } else {
        (None, dao_comment(c))
    }
}

fn dao_at_bytes(c: &[u8], i: usize) -> (r: Option<DaoKind>)
    requires
        i + 4 < c@.len(),
    ensures
        r == dao_at(c@, i as int),
{
    if c[i] != 33 || c[i + 4] != 33 {
        return None;
    }
    let datum = c[i + 1];
    let d1 = c[i + 2];
    let d2 = c[i + 3];
    if crate::text::byte_is_upper(datum) && crate::text::byte_is_digit(d1)
        && crate::text::byte_is_digit(d2) {
        Some(DaoKind::Human { lat: d1 - 48, lon: d2 - 48 })
    } else if crate::text::byte_is_lower(datum) && 33 <= d1 && d1 <= 123 && 33 <= d2 && d2 <= 123 {
        Some(DaoKind::Base91 { lat: d1 - 33, lon: d2 - 33 })
    } else if 33 <= datum && datum <= 123 && d1 == 32 && d2 == 32 {
        Some(DaoKind::DatumOnly)
    } else {
        None
    }
}

fn trim_slashes(s: &[u8]) -> (r: &[u8])
    ensures
        r@ == trim_start_by(s@, |b: u8| b == SLASH),
{
    let mut start: usize = 0;
    assert(s@.skip(0) =~= s@);
    while start < s.len() && s[start] == SLASH
        invariant
            start <= s@.len(),
            trim_start_by(s@.skip(start as int), |b: u8| b == SLASH) == trim_start_by(
                s@,
                |b: u8| b == SLASH,
            ),
        decreases s@.len() - start,
    {
        assert(s@.skip(start as int).drop_first() =~= s@.skip(start + 1));
        start = start + 1;
    }
    vstd::slice::slice_subrange(s, start, s.len())
}

/// The start of the last `!DAO!` extension of a comment.
fn find_last_dao(c: &[u8]) -> (r: Option<usize>)
    ensures
        match r {
            Some(k) => last_dao_at(c@, k as int) && k + 4 < c@.len(),
            None => forall|x: int| !last_dao_at(c@, x),
        },
{
    let n: usize = c.len();
    let mut i: usize = if n >= 5 {
        n - 4
    } else {
        0
    };
    while i > 0
        invariant
            i <= n,
            n == c@.len(),
            n >= 5 ==> i <= n - 4,
            n < 5 ==> i == 0,
            forall|j: int| i <= j < n ==> dao_at(c@, j) is None,
        decreases i,
    {
        let k = i - 1;
        if dao_at_bytes(c, k).is_some() {
            return Some(k);
        }
        i = k;
    }
    proof {
        assert forall|x: int| !last_dao_at(c@, x) by {
            if last_dao_at(c@, x) {
                assert(dao_at(c@, x) is Some);
            }
        }
    }
    None
}

/// Finds a comment's `!DAO!` extension and gives the comment without it
/// (and without inline telemetry), trimmed and without leading `/`.
pub fn parse_dao(text: &[u8]) -> (r: (Option<(u8, DaoKind)>, Vec<u8>))
    ensures
        r.0 == dao_parts(text@).0,
        r.1@ == dao_parts(text@).1,
{
    let c = strip_inline_telemetry(text);
    let ghost cs = c@;
    let n: usize = c.len();
    match find_last_dao(c.as_slice()) {
        Some(k) => {
            proof {
                let w = choose|x: int| last_dao_at(cs, x);
                if w < k {
                    assert(dao_at(cs, k as int) is None);
                } else if w > k {
                    assert(dao_at(cs, w) is None);
                }
            }
            let kind = dao_at_bytes(c.as_slice(), k);
            let datum = crate::text::byte_upper(c[k + 1]);
            let mut rest: Vec<u8> = copy_bytes(vstd::slice::slice_subrange(c.as_slice(), 0, k));
            crate::text::append_bytes(&mut rest, vstd::slice::slice_subrange(c.as_slice(), k + 5, n));
            assert(rest@ =~= cs.take(k as int) + cs.skip(k + 5));
            let out = copy_bytes(trim_slashes(trim_ws_bytes(rest.as_slice())));
            (Some((datum, kind.unwrap())), out)
        },
        None => (None, copy_bytes(trim_slashes(trim_ws_bytes(c.as_slice())))),
    }
}

/// A `PHGphgd` or `PHGphgdR/` power-height-gain extension at the start of
/// a comment, and the comment after it. (The height digit is not checked.)
pub open spec fn phg_parts(c: Seq<u8>) -> (Option<Seq<u8>>, Seq<u8>) {
    if has_prefix(c, seq![80u8, 72u8, 71u8]) {
        let data = c.skip(3);
        if data.len() >= 4 && is_digit(data[0]) && is_digit(data[2]) && is_digit(data[3]) {
            let length: int = if data.len() >= 6 && is_alnum(data[4]) && data[5] == SLASH {
                5
            } else {
                4
            };
            (Some(data.take(length)), data.skip(length))
        } else {
            (None, c)
        }
    } else {
        (None, c)
    }
}

/// Takes a PHG extension off the start of a comment.
pub fn parse_phg(c: &[u8]) -> (r: (Option<Vec<u8>>, Vec<u8>))
    ensures
        match phg_parts(c@).0 {
            Some(p) => r.0 matches Some(v) && v@ == p,
            None => r.0 is None,
        },
        r.1@ == phg_parts(c@).1,
{
    let n: usize = c.len();
    if n < 3 || c[0] != 80 || c[1] != 72 || c[2] != 71 {
        proof {
            if n >= 3 {
                assert(c@.take(3)[0] == c@[0] && c@.take(3)[1] == c@[1] && c@.take(3)[2] == c@[2]);
            }
        }
        return (None, copy_bytes(c));
    }
    assert(c@.take(3) =~= seq![80u8, 72u8, 71u8]);
    let data = vstd::slice::slice_subrange(c, 3, n);
    assert(data@ =~= c@.skip(3));
    let dn: usize = data.len();
    if dn >= 4 && crate::text::byte_is_digit(data[0]) && crate::text::byte_is_digit(data[2])
        && crate::text::byte_is_digit(data[3]) {
        let length: usize = if dn >= 6 && crate::text::byte_is_alnum(data[4]) && data[5] == SLASH {
            5
        } else {
            4
        };
        let phg = vstd::slice::slice_subrange(data, 0, length);
        let rest = vstd::slice::slice_subrange(data, length, dn);
        assert(phg@ =~= data@.take(length as int));
        assert(rest@ =~= data@.skip(length as int));
        (Some(copy_bytes(phg)), copy_bytes(rest))
    } else {
        (None, copy_bytes(c))
    }
}

/// A byte of a course or speed field: a digit, `.` or a space.
pub open spec fn course_speed_byte(b: u8) -> bool {
    is_digit(b) || b == 46 || b == 32
}

/// A `CSE/SPD` data extension at the start of a comment: the course in
/// degrees (zero when it is not a number from 1 to 360), the speed field as
/// text, and the comment after it.
pub open spec fn course_speed_parts(c: Seq<u8>) -> Option<(u16, Seq<u8>, Seq<u8>)> {
    if c.len() >= 7 && c[3] == SLASH && course_speed_byte(c[0]) && course_speed_byte(c[1])
        && course_speed_byte(c[2]) && course_speed_byte(c[4]) && course_speed_byte(c[5])
        && course_speed_byte(c[6]) {
        let course: u16 = if all_digits(c.take(3)) && 1 <= decimal(c.take(3)) <= 360 {
            decimal(c.take(3)) as u16
        } else {
            0
        };
        Some((course, c.subrange(4, 7), c.skip(7)))
    } else {
        None
    }
}

fn course_speed_byte_ok(b: u8) -> (r: bool)
    ensures
        r == course_speed_byte(b),
{
    crate::text::byte_is_digit(b) || b == 46 || b == 32
}

/// Takes a `CSE/SPD` extension off the start of a comment.
pub fn parse_course_speed(c: &[u8]) -> (r: Option<(u16, Vec<u8>, Vec<u8>)>)
    ensures
        match course_speed_parts(c@) {
            Some((course, speed, rest)) => r matches Some((rc, rs, rr)) && rc == course && rs@
                == speed && rr@ == rest,
            None => r is None,
        },
{
    let n: usize = c.len();
    if n < 7 || c[3] != SLASH || !course_speed_byte_ok(c[0]) || !course_speed_byte_ok(c[1])
        || !course_speed_byte_ok(c[2]) || !course_speed_byte_ok(c[4]) || !course_speed_byte_ok(
        c[5],
    ) || !course_speed_byte_ok(c[6]) {
        return None;
    }
    let digits = vstd::slice::slice_subrange(c, 0, 3);
    assert(digits@ =~= c@.take(3));
    let course: u16 = if crate::text::all_bytes_digits(digits) {
        assert(is_digit(digits@[0]) && is_digit(digits@[1]) && is_digit(digits@[2]));
        let v: u16 = (c[0] - 48) as u16 * 100 + (c[1] - 48) as u16 * 10 + (c[2] - 48) as u16;
        proof {
            let d = c@.take(3);
            assert(d.drop_last().drop_last().drop_last() =~= Seq::<u8>::empty());
            assert(decimal(d.drop_last().drop_last().drop_last()) == 0);
            assert(d.drop_last().drop_last().last() == c@[0]);
            assert(d.drop_last().last() == c@[1]);
            assert(d.last() == c@[2]);
            assert(decimal(d.drop_last().drop_last()) == c@[0] - 48);
            assert(decimal(d.drop_last()) == (c@[0] - 48) * 10 + (c@[1] - 48));
            assert(decimal(d) == ((c@[0] - 48) * 10 + (c@[1] - 48)) * 10 + (c@[2] - 48));
        }
        if 1 <= v && v <= 360 {
            v
        } else {
            0
        }
    } else {
        0
    };
    let speed = vstd::slice::slice_subrange(c, 4, 7);
    let rest = vstd::slice::slice_subrange(c, 7, n);
    assert(speed@ =~= c@.subrange(4, 7));
    assert(rest@ =~= c@.skip(7));
    Some((course, copy_bytes(speed), copy_bytes(rest)))
}

} // verus!
