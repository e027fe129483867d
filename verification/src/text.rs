//! Byte-level ASCII helpers shared by the parser, the encoders and the
//! frame converters, together with the few std string conversions they need.
use vstd::prelude::*;
use vstd::string::*;
use vstd::utf8::*;

verus! {

pub open spec fn is_digit(b: u8) -> bool {
    48 <= b && b <= 57
}

pub open spec fn is_upper(b: u8) -> bool {
    65 <= b && b <= 90
}

pub open spec fn is_lower(b: u8) -> bool {
    97 <= b && b <= 122
}

pub open spec fn is_alpha(b: u8) -> bool {
    is_upper(b) || is_lower(b)
}

pub open spec fn is_alnum(b: u8) -> bool {
    is_digit(b) || is_alpha(b)
}

/// `u8::is_ascii_hexdigit`.
pub open spec fn is_hex(b: u8) -> bool {
    is_digit(b) || (65 <= b && b <= 70) || (97 <= b && b <= 102)
}

/// `u8::is_ascii_whitespace`: space, tab, line feed, form feed, carriage return.
pub open spec fn is_space(b: u8) -> bool {
    b == 32 || b == 9 || b == 10 || b == 12 || b == 13
}

/// `u8::to_ascii_uppercase`.
pub open spec fn upper(b: u8) -> u8 {
    if is_lower(b) {
        (b - 32) as u8
    } else {
        b
    }
}

pub open spec fn upper_seq(s: Seq<u8>) -> Seq<u8> {
    s.map_values(|b: u8| upper(b))
}

pub open spec fn all_ascii(s: Seq<u8>) -> bool {
    forall|i: int| 0 <= i < s.len() ==> #[trigger] s[i] < 128
}

pub open spec fn all_digits(s: Seq<u8>) -> bool {
    forall|i: int| 0 <= i < s.len() ==> is_digit(#[trigger] s[i])
}

pub open spec fn all_alnum(s: Seq<u8>) -> bool {
    forall|i: int| 0 <= i < s.len() ==> is_alnum(#[trigger] s[i])
}

/// The characters of an ASCII byte sequence.
pub open spec fn ascii_chars(s: Seq<u8>) -> Seq<char> {
    s.map_values(|b: u8| b as char)
}

/// The UTF-8 bytes of a string slice.
pub open spec fn str_bytes(s: &str) -> Seq<u8> {
    s.spec_bytes()
}

/// `i` is the position of the first `b` in `s`.
pub open spec fn first_at(s: Seq<u8>, b: u8, i: int) -> bool {
    &&& 0 <= i < s.len()
    &&& s[i] == b
    &&& forall|j: int| 0 <= j < i ==> s[j] != b
}

/// Position of the first `b` in `s`.
pub open spec fn find(s: Seq<u8>, b: u8) -> Option<int> {
    if exists|i: int| first_at(s, b, i) {
        Some(choose|i: int| first_at(s, b, i))
    } else {
        None
    }
}

/// Value of a run of decimal digits.
pub open spec fn decimal(d: Seq<u8>) -> nat
    decreases d.len(),
{
    if d.len() == 0 {
        0
    } else {
        decimal(d.drop_last()) * 10 + (d.last() - 48) as nat
    }
}

/// What `str::parse::<u8>` accepts from a string of ASCII letters and digits:
/// a non-empty run of digits whose value fits a `u8`.
pub open spec fn parse_u8(d: Seq<u8>) -> Option<u8> {
    if d.len() > 0 && all_digits(d) && decimal(d) <= 255 {
        Some(decimal(d) as u8)
    } else {
        None
    }
}

/// `s` with every trailing byte for which `pred` holds removed.
pub open spec fn trim_end_by(s: Seq<u8>, pred: spec_fn(u8) -> bool) -> Seq<u8>
    decreases s.len(),
{
    if s.len() > 0 && pred(s.last()) {
        trim_end_by(s.drop_last(), pred)
    } else {
        s
    }
}

pub open spec fn trim_start_by(s: Seq<u8>, pred: spec_fn(u8) -> bool) -> Seq<u8>
    decreases s.len(),
{
    if s.len() > 0 && pred(s[0]) {
        trim_start_by(s.drop_first(), pred)
    } else {
        s
    }
}

/// `str::trim` on ASCII text.
pub open spec fn trim(s: Seq<u8>) -> Seq<u8> {
    trim_end_by(trim_start_by(s, |b: u8| is_space(b)), |b: u8| is_space(b))
}

/// `u8::is_ascii_digit`.
pub fn byte_is_digit(b: u8) -> (r: bool)
    ensures
        r == is_digit(b),
{
    48 <= b && b <= 57
}

/// `u8::is_ascii_uppercase`.
pub fn byte_is_upper(b: u8) -> (r: bool)
    ensures
        r == is_upper(b),
{
    65 <= b && b <= 90
}

/// `u8::is_ascii_lowercase`.
pub fn byte_is_lower(b: u8) -> (r: bool)
    ensures
        r == is_lower(b),
{
    97 <= b && b <= 122
}

/// `u8::is_ascii_alphabetic`.
pub fn byte_is_alpha(b: u8) -> (r: bool)
    ensures
        r == is_alpha(b),
{
    byte_is_upper(b) || byte_is_lower(b)
}

/// `u8::is_ascii_alphanumeric`.
pub fn byte_is_alnum(b: u8) -> (r: bool)
    ensures
        r == is_alnum(b),
{
    byte_is_digit(b) || byte_is_alpha(b)
}

/// `u8::is_ascii_hexdigit`.
pub fn byte_is_hex(b: u8) -> (r: bool)
    ensures
        r == is_hex(b),
{
    byte_is_digit(b) || (65 <= b && b <= 70) || (97 <= b && b <= 102)
}

/// `u8::is_ascii_whitespace`.
pub fn byte_is_space(b: u8) -> (r: bool)
    ensures
        r == is_space(b),
{
    b == 32 || b == 9 || b == 10 || b == 12 || b == 13
}

/// `u8::to_ascii_uppercase`.
pub fn byte_upper(b: u8) -> (r: u8)
    ensures
        r == upper(b),
{
    if byte_is_lower(b) {
        b - 32
    } else {
        b
    }
}

/// Index of the first `b` in `s`.
pub fn find_byte(s: &[u8], b: u8) -> (r: Option<usize>)
    ensures
        match find(s@, b) {
            Some(i) => r == Some(i as usize),
            None => r is None,
        },
        r is None <==> forall|j: int| 0 <= j < s@.len() ==> s@[j] != b,
{
    let mut i: usize = 0;
    while i < s.len()
        invariant
            0 <= i <= s@.len(),
            forall|j: int| 0 <= j < i ==> s@[j] != b,
        decreases s@.len() - i,
    {
        if s[i] == b {
            assert(first_at(s@, b, i as int));
            proof {
                let k = choose|k: int| first_at(s@, b, k);
                assert(k == i);
            }
            return Some(i);
        }
        i = i + 1;
    }
    assert(!exists|k: int| first_at(s@, b, k));
    None
}

/// Uppercase every ASCII letter of `s`.
pub fn upper_bytes(s: &[u8]) -> (r: Vec<u8>)
    ensures
        r@ == upper_seq(s@),
{
    let mut r: Vec<u8> = Vec::new();
    let mut i: usize = 0;
    while i < s.len()
        invariant
            0 <= i <= s@.len(),
            r@ == upper_seq(s@.take(i as int)),
        decreases s@.len() - i,
    {
        r.push(byte_upper(s[i]));
        assert(upper_seq(s@.take(i + 1)) =~= upper_seq(s@.take(i as int)).push(upper(s@[i as int])));
        i = i + 1;
    }
    assert(s@.take(s@.len() as int) =~= s@);
    r
}

/// Whether every byte is a decimal digit.
pub fn all_bytes_digits(s: &[u8]) -> (r: bool)
    ensures
        r == all_digits(s@),
{
    let mut i: usize = 0;
    while i < s.len()
        invariant
            0 <= i <= s@.len(),
            forall|j: int| 0 <= j < i ==> is_digit(#[trigger] s@[j]),
        decreases s@.len() - i,
    {
        if !byte_is_digit(s[i]) {
            return false;
        }
        i = i + 1;
    }
    true
}

/// Whether every byte is an ASCII letter or digit.
pub fn all_bytes_alnum(s: &[u8]) -> (r: bool)
    ensures
        r == all_alnum(s@),
{
    let mut i: usize = 0;
    while i < s.len()
        invariant
            0 <= i <= s@.len(),
            forall|j: int| 0 <= j < i ==> is_alnum(#[trigger] s@[j]),
        decreases s@.len() - i,
    {
        if !byte_is_alnum(s[i]) {
            return false;
        }
        i = i + 1;
    }
    true
}

/// A run of decimal digits is worth less than ten to its length.
pub proof fn lemma_decimal_bound(d: Seq<u8>)
    requires
        all_digits(d),
    ensures
        decimal(d) < pow10(d.len()),
    decreases d.len(),
{
    if d.len() > 0 {
        lemma_decimal_bound(d.drop_last());
    }
}

pub open spec fn pow10(n: nat) -> nat
    decreases n,
{
    if n == 0 {
        1
    } else {
        10 * pow10((n - 1) as nat)
    }
}

/// `str::parse::<u8>` on a run of ASCII letters and digits.
pub fn parse_u8_bytes(d: &[u8]) -> (r: Option<u8>)
    ensures
        r == parse_u8(d@),
{
    if d.len() == 0 || !all_bytes_digits(d) {
        return None;
    }
    let mut value: u32 = 0;
    let mut i: usize = 0;
    while i < d.len()
        invariant
            0 <= i <= d@.len(),
            all_digits(d@),
            value == if decimal(d@.take(i as int)) > 255 { 256 } else { decimal(d@.take(i as int)) },
        decreases d@.len() - i,
    {
        assert(d@.take(i + 1).drop_last() =~= d@.take(i as int));
        let digit: u32 = (d[i] - 48) as u32;
        if value <= 255 {
            let next: u32 = value * 10 + digit;
            value = if next > 255 { 256 } else { next };
        }
        i = i + 1;
    }
    assert(d@.take(d@.len() as int) =~= d@);
    if value > 255 {
        None
    } else {
        Some(value as u8)
    }
}

/// Builds a `String` from bytes with `String::from_utf8`. ASCII bytes are valid
/// UTF-8, so the contract claims the conversion succeeds and yields one
/// character per byte with the same code.
#[verifier::external_body]
pub(crate) fn ascii_string(bytes: Vec<u8>) -> (s: String)
    requires
        all_ascii(bytes@),
    ensures
        s@ == ascii_chars(bytes@),
{
    String::from_utf8(bytes).unwrap_or_default()
}

/// Well-formed UTF-8.
pub open spec fn valid_utf8_bytes(b: Seq<u8>) -> bool {
    valid_utf8(b)
}

/// `std::str::from_utf8`, with the text it accepts copied into a `String`:
/// it succeeds exactly on well-formed UTF-8, and the text is the decoding
/// of the bytes, as vstd's model of UTF-8 states them.
#[verifier::external_body]
pub(crate) fn utf8_text(bytes: &[u8]) -> (r: Option<String>)
    ensures
        r is Some == valid_utf8(bytes@),
        r matches Some(s) ==> s@ == decode_utf8(bytes@),
{
    std::str::from_utf8(bytes).ok().map(|text| text.to_owned())
}

/// `String::push`: appends one character.
#[verifier::external_body]
pub(crate) fn push_char(s: &mut String, c: char)
    ensures
        final(s)@ == old(s)@.push(c),
{
    s.push(c)
}

/// `s` split at the first `b`, without the separator.
pub open spec fn split_first(s: Seq<u8>, b: u8) -> Option<(Seq<u8>, Seq<u8>)> {
    match find(s, b) {
        None => None,
        Some(i) => Some((s.take(i), s.skip(i + 1))),
    }
}

/// What `find` tells: the first occurrence, or that there is none.
pub proof fn lemma_find_some(s: Seq<u8>, b: u8)
    ensures
        find(s, b) matches Some(i) ==> first_at(s, b, i),
        find(s, b) is None ==> forall|j: int| 0 <= j < s.len() ==> s[j] != b,
{
    if find(s, b) is None {
        assert forall|j: int| 0 <= j < s.len() implies s[j] != b by {
            if s[j] == b {
                lemma_first_exists(s, b, j);
            }
        }
    }
}

/// Whenever `b` occurs in `s`, it has a first occurrence.
pub proof fn lemma_first_exists(s: Seq<u8>, b: u8, j: int)
    requires
        0 <= j < s.len(),
        s[j] == b,
    ensures
        exists|i: int| first_at(s, b, i),
    decreases j,
{
    if exists|k: int| 0 <= k < j && s[k] == b {
        let k = choose|k: int| 0 <= k < j && s[k] == b;
        lemma_first_exists(s, b, k);
    } else {
        assert(first_at(s, b, j));
    }
}

/// All the pieces of `s` between occurrences of `b`, like `str::split`.
pub open spec fn split_all(s: Seq<u8>, b: u8) -> Seq<Seq<u8>>
    decreases s.len(),
{
    match find(s, b) {
        None => seq![s],
        Some(i) => {
            proof {
                lemma_find_some(s, b);
            }
            seq![s.take(i)] + split_all(s.skip(i + 1), b)
        },
    }
}

/// Copies a slice of bytes into a vector.
pub fn copy_bytes(s: &[u8]) -> (v: Vec<u8>)
    ensures
        v@ == s@,
{
    vstd::slice::slice_to_vec(s)
}

/// Appends `src` to `dst`.
pub fn append_bytes(dst: &mut Vec<u8>, src: &[u8])
    ensures
        final(dst)@ == old(dst)@ + src@,
{
    let mut i: usize = 0;
    while i < src.len()
        invariant
            0 <= i <= src@.len(),
            dst@ == old(dst)@ + src@.take(i as int),
        decreases src@.len() - i,
    {
        dst.push(src[i]);
        assert(src@.take(i + 1) =~= src@.take(i as int).push(src@[i as int]));
        i = i + 1;
    }
    assert(src@.take(src@.len() as int) =~= src@);
}

/// The byte sequences held by a sequence of vectors.
pub open spec fn views(v: Seq<Vec<u8>>) -> Seq<Seq<u8>> {
    v.map_values(|x: Vec<u8>| x@)
}

/// Splits `s` at every `b`.
pub fn split_bytes(s: &[u8], b: u8) -> (pieces: Vec<Vec<u8>>)
    ensures
        views(pieces@) == split_all(s@, b),
{
    let mut pieces: Vec<Vec<u8>> = Vec::new();
    let mut start: usize = 0;
    assert(s@.skip(0) =~= s@);
    loop
        invariant
            start <= s@.len(),
            split_all(s@, b) == views(pieces@) + split_all(s@.skip(start as int), b),
        decreases s@.len() - start,
    {
        let rest = vstd::slice::slice_subrange(s, start, s.len());
        assert(rest@ =~= s@.skip(start as int));
        match find_byte(rest, b) {
            None => {
                let piece = copy_bytes(rest);
                let ghost before = views(pieces@);
                pieces.push(piece);
                assert(views(pieces@) =~= before + seq![rest@]);
                return pieces;
            },
            Some(j) => {
                proof {
                    lemma_find_some(rest@, b);
                }
                let piece = copy_bytes(vstd::slice::slice_subrange(rest, 0, j));
                let ghost before = views(pieces@);
                pieces.push(piece);
                assert(views(pieces@) =~= before + seq![rest@.take(j as int)]);
                assert(rest@.skip(j + 1) =~= s@.skip(start + j + 1));
                start = start + j + 1;
            },
        }
    }
}

/// `i` is the position of the last `b` in `s`.
pub open spec fn last_at(s: Seq<u8>, b: u8, i: int) -> bool {
    &&& 0 <= i < s.len()
    &&& s[i] == b
    &&& forall|j: int| i < j < s.len() ==> s[j] != b
}

/// Position of the last `b` in `s`.
pub open spec fn rfind(s: Seq<u8>, b: u8) -> Option<int> {
    if exists|i: int| last_at(s, b, i) {
        Some(choose|i: int| last_at(s, b, i))
    } else {
        None
    }
}

/// Index of the last `b` in `s`.
pub fn rfind_byte(s: &[u8], b: u8) -> (r: Option<usize>)
    ensures
        match rfind(s@, b) {
            Some(i) => r == Some(i as usize) && last_at(s@, b, i),
            None => r is None && forall|j: int| 0 <= j < s@.len() ==> s@[j] != b,
        },
{
    let mut i: usize = s.len();
    while i > 0
        invariant
            i <= s@.len(),
            forall|j: int| i <= j < s@.len() ==> s@[j] != b,
        decreases i,
    {
        if s[i - 1] == b {
            assert(last_at(s@, b, i - 1));
            proof {
                let k = choose|k: int| last_at(s@, b, k);
                assert(k == i - 1);
            }
            return Some(i - 1);
        }
        i = i - 1;
    }
    assert(!exists|k: int| last_at(s@, b, k));
    None
}

/// `char::is_whitespace` on an ASCII byte.
pub open spec fn is_ws(b: u8) -> bool {
    b == 32 || (9 <= b && b <= 13)
}

/// Whether a byte is whitespace as `char::is_whitespace` sees ASCII.
pub fn byte_is_ws(b: u8) -> (r: bool)
    ensures
        r == is_ws(b),
{
    b == 32 || (9 <= b && b <= 13)
}

/// `str::trim_end` on ASCII text.
pub open spec fn trim_end_ws(s: Seq<u8>) -> Seq<u8> {
    trim_end_by(s, |b: u8| is_ws(b))
}

/// `str::trim` on ASCII text.
pub open spec fn trim_ws(s: Seq<u8>) -> Seq<u8> {
    trim_end_by(trim_start_by(s, |b: u8| is_ws(b)), |b: u8| is_ws(b))
}

/// `str::trim_end` on ASCII bytes.
pub fn trim_end_ws_bytes(s: &[u8]) -> (r: &[u8])
    ensures
        r@ == trim_end_ws(s@),
{
    let mut end: usize = s.len();
    assert(s@.subrange(0, end as int) =~= s@);
    while end > 0 && byte_is_ws(s[end - 1])
        invariant
            end <= s@.len(),
            trim_end_by(s@.subrange(0, end as int), |b: u8| is_ws(b)) == trim_end_ws(s@),
        decreases end,
    {
        assert(s@.subrange(0, end as int).drop_last() =~= s@.subrange(0, end - 1));
        end = end - 1;
    }
    vstd::slice::slice_subrange(s, 0, end)
}

/// `str::trim_start` on ASCII bytes.
pub fn trim_start_ws_bytes(s: &[u8]) -> (r: &[u8])
    ensures
        r@ == trim_start_by(s@, |b: u8| is_ws(b)),
{
    let mut start: usize = 0;
    assert(s@.skip(0) =~= s@);
    while start < s.len() && byte_is_ws(s[start])
        invariant
            start <= s@.len(),
            trim_start_by(s@.skip(start as int), |b: u8| is_ws(b)) == trim_start_by(
                s@,
                |b: u8| is_ws(b),
            ),
        decreases s@.len() - start,
    {
        assert(s@.skip(start as int).drop_first() =~= s@.skip(start + 1));
        start = start + 1;
    }
    vstd::slice::slice_subrange(s, start, s.len())
}

/// `str::trim` on ASCII bytes.
pub fn trim_ws_bytes(s: &[u8]) -> (r: &[u8])
    ensures
        r@ == trim_ws(s@),
{
    trim_end_ws_bytes(trim_start_ws_bytes(s))
}

/// Trimming the end keeps a prefix.
pub proof fn lemma_trim_end_prefix(s: Seq<u8>, p: spec_fn(u8) -> bool)
    ensures
        trim_end_by(s, p).len() <= s.len(),
        trim_end_by(s, p) == s.take(trim_end_by(s, p).len() as int),
    decreases s.len(),
{
    if s.len() > 0 && p(s.last()) {
        lemma_trim_end_prefix(s.drop_last(), p);
        let t = trim_end_by(s.drop_last(), p);
        assert(s.drop_last().take(t.len() as int) =~= s.take(t.len() as int));
    } else {
        assert(s.take(s.len() as int) =~= s);
    }
}

/// Trimming the start keeps a suffix.
pub proof fn lemma_trim_start_suffix(s: Seq<u8>, p: spec_fn(u8) -> bool)
    ensures
        trim_start_by(s, p).len() <= s.len(),
        trim_start_by(s, p) == s.skip(s.len() - trim_start_by(s, p).len()),
    decreases s.len(),
{
    if s.len() > 0 && p(s[0]) {
        lemma_trim_start_suffix(s.drop_first(), p);
        let t = trim_start_by(s.drop_first(), p);
        assert(s.drop_first().skip(s.drop_first().len() - t.len()) =~= s.skip(s.len() - t.len()));
    } else {
        assert(s.skip(0) =~= s);
    }
}

/// Trimming ASCII text leaves ASCII text.
pub proof fn lemma_trim_ascii(s: Seq<u8>)
    requires
        all_ascii(s),
    ensures
        all_ascii(trim_end_ws(s)),
        all_ascii(trim_ws(s)),
{
    let p = |b: u8| is_ws(b);
    lemma_trim_end_prefix(s, p);
    let e = trim_end_by(s, p);
    assert forall|k: int| 0 <= k < e.len() implies #[trigger] e[k] < 128 by {
        assert(e[k] == s[k]);
    }
    lemma_trim_start_suffix(s, p);
    let st = trim_start_by(s, p);
    assert forall|k: int| 0 <= k < st.len() implies #[trigger] st[k] < 128 by {
        assert(st[k] == s[s.len() - st.len() + k]);
    }
    lemma_trim_end_prefix(st, p);
    let t = trim_end_by(st, p);
    assert forall|k: int| 0 <= k < t.len() implies #[trigger] t[k] < 128 by {
        assert(t[k] == st[k]);
    }
}

/// A part of ASCII bytes is ASCII.
pub proof fn lemma_ascii_subrange(s: Seq<u8>, i: int, j: int)
    requires
        all_ascii(s),
        0 <= i <= j <= s.len(),
    ensures
        all_ascii(s.subrange(i, j)),
{
    assert forall|k: int| 0 <= k < j - i implies #[trigger] s.subrange(i, j)[k] < 128 by {
        assert(s.subrange(i, j)[k] == s[i + k]);
    }
}

/// Text for ASCII bytes.
pub fn ascii_text(s: &[u8]) -> (t: String)
    requires
        all_ascii(s@),
    ensures
        t@ == ascii_chars(s@),
{
    ascii_string(copy_bytes(s))
}


/// Whether two byte strings are equal.
pub fn bytes_eq(a: &[u8], b: &[u8]) -> (r: bool)
    ensures
        r == (a@ == b@),
{
    if a.len() != b.len() {
        return false;
    }
    let mut i: usize = 0;
    while i < a.len()
        invariant
            i <= a@.len(),
            a@.len() == b@.len(),
            forall|k: int| 0 <= k < i ==> a@[k] == b@[k],
        decreases a@.len() - i,
    {
        if a[i] != b[i] {
            return false;
        }
        i = i + 1;
    }
    assert(a@ =~= b@);
    true
}

/// The pieces of ASCII text are ASCII.
pub proof fn lemma_split_all_ascii(s: Seq<u8>, b: u8)
    requires
        all_ascii(s),
    ensures
        forall|k: int| 0 <= k < split_all(s, b).len() ==> all_ascii(#[trigger] split_all(s, b)[k]),
    decreases s.len(),
{
    lemma_find_some(s, b);
    match find(s, b) {
        None => {},
        Some(i) => {
            lemma_ascii_subrange(s, 0, i);
            lemma_ascii_subrange(s, i + 1, s.len() as int);
            assert(s.take(i) =~= s.subrange(0, i));
            assert(s.skip(i + 1) =~= s.subrange(i + 1, s.len() as int));
            lemma_split_all_ascii(s.skip(i + 1), b);
            let rest = split_all(s.skip(i + 1), b);
            assert forall|k: int| 0 <= k < split_all(s, b).len() implies all_ascii(
                #[trigger] split_all(s, b)[k],
            ) by {
                if k > 0 {
                    assert(split_all(s, b)[k] == rest[k - 1]);
                }
            }
        },
    }
}

} // verus!
