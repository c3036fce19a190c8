//! Off-chain trace context that survives retries, webhook delivery attempts
//! and background monitoring.
//!
//! A [`TraceContext`] holds a `trace_id` that stays constant for the whole
//! logical request and a `span_id` that identifies the current step.  Every
//! derived step ([`TraceContext::child`], [`TraceContext::child_for_attempt`])
//! keeps the `trace_id` and records the span it came from.
//!
//! [`TraceContext::to_traceparent`] and [`TraceContext::parse_traceparent`]
//! implement the W3C Trace Context `traceparent` header:
//!
//! ```text
//! 00-4bf92f3577b34da6a3ce929d0e0e4736-00f067aa0ba902b7-01
//! ```
//!
//! Span IDs are derived with SHA-256 rather than drawn from an RNG: the same
//! parent span and the same seed always produce the same child span.

use sha2::{Digest, Sha256};
use vstd::prelude::*;

use crate::text::{
    chars_of, fields_view, join_on, lemma_split_join, push_char, split_fields, split_on,
    string_from_chars,
};
use vstd::utf8::encode_utf8;

verus! {

/// Number of hex characters in a trace ID (16 bytes).
pub const TRACE_ID_HEX_LEN: usize = 32;

/// Number of hex characters in a span ID (8 bytes).
pub const SPAN_ID_HEX_LEN: usize = 16;

// ---------------------------------------------------------------------------
// SHA-256
// ---------------------------------------------------------------------------

/// The SHA-256 digest of `data`.
pub uninterp spec fn sha256(data: Seq<u8>) -> Seq<u8>;

/// SHA-256 of `data`, computed by the `sha2` crate (`Sha256::digest`).
///
/// The contract claims that the result is the digest of exactly `data`
/// (named [`sha256`]) and that it is 32 bytes long, as every SHA-256 digest is.
#[verifier::external_body]
fn sha256_digest(data: &[u8]) -> (digest: Vec<u8>)
    ensures
        digest@ == sha256(data@),
        digest@.len() == 32,
{
    Sha256::digest(data).to_vec()
}

// ---------------------------------------------------------------------------
// Hex and decimal rendering
// ---------------------------------------------------------------------------

/// The lowercase hex character for a value below 16.
pub open spec fn nibble_char(v: int) -> char {
    if v < 10 {
        (48 + v) as char
    } else {
        (87 + v) as char
    }
}

/// Lowercase hex rendering of `bytes`, two characters per byte.
pub open spec fn hex_of(bytes: Seq<u8>) -> Seq<char> {
    Seq::new(
        2 * bytes.len(),
        |i: int|
            if i % 2 == 0 {
                nibble_char((bytes[i / 2] / 16) as int)
            } else {
                nibble_char((bytes[i / 2] % 16) as int)
            },
    )
}

/// `c` is an ASCII lowercase hex digit.
pub open spec fn is_hex_char(c: char) -> bool {
    ('0' <= c && c <= '9') || ('a' <= c && c <= 'f')
}

/// `true` when `c` is an ASCII lowercase hex digit.
fn is_lower_hex(c: char) -> (r: bool)
    ensures
        r == is_hex_char(c),
{
    ('0' <= c && c <= '9') || ('a' <= c && c <= 'f')
}

/// Map a 0..=15 value to its lowercase hex character.
fn hex_nibble(value: u8) -> (c: char)
    requires
        value < 16,
    ensures
        c == nibble_char(value as int),
        is_hex_char(c),
{
    if value < 10 {
        (48 + value) as char
    } else {
        (97 + (value - 10)) as char
    }
}

/// Lowercase hex SHA-256 of `bytes`: 64 characters.
fn sha256_hex(bytes: &[u8]) -> (out: Vec<char>)
    ensures
        out@ == hex_of(sha256(bytes@)),
        out@.len() == 64,
{
    let digest = sha256_digest(bytes);
    let ghost h = hex_of(digest@);
    let mut out: Vec<char> = Vec::new();
    let mut i: usize = 0;
    while i < digest.len()
        invariant
            i <= digest@.len(),
            digest@.len() == 32,
            h == hex_of(digest@),
            out@.len() == 2 * i,
            forall|j: int| 0 <= j < 2 * i ==> out@[j] == #[trigger] h[j],
        decreases digest.len() - i,
    {
        let byte = digest[i];
        assert(byte >> 4 == byte / 16 && byte & 0x0f == byte % 16) by (bit_vector);
        out.push(hex_nibble(byte >> 4));
        out.push(hex_nibble(byte & 0x0f));
        assert(h[2 * i as int] == nibble_char((byte / 16) as int));
        assert(h[2 * i + 1] == nibble_char((byte % 16) as int));
        i = i + 1;
    }
    assert(out@ =~= h);
    out
}

/// The decimal digit character for a value below 10.
pub open spec fn digit_char(d: int) -> char {
    (48 + d) as char
}

/// The decimal digits of a positive number, most significant first; empty
/// for zero.
pub open spec fn significant_digits(n: nat) -> Seq<char>
    decreases n,
{
    if n == 0 {
        Seq::empty()
    } else {
        significant_digits(n / 10).push(digit_char((n % 10) as int))
    }
}

/// The decimal representation of `n`, as `format!("{n}")` writes it.
pub open spec fn decimal(n: nat) -> Seq<char> {
    if n == 0 {
        seq!['0']
    } else {
        significant_digits(n)
    }
}

/// Append the decimal representation of `value` to `out`.
pub fn push_u32(out: &mut String, value: u32)
    ensures
        final(out)@ == old(out)@ + decimal(value as nat),
{
    if value == 0 {
        push_char(out, '0');
        return;
    }
    let mut reversed: Vec<char> = Vec::new();
    let mut n = value;
    while n > 0
        invariant
            significant_digits(value as nat) == significant_digits(n as nat) + reversed@.reverse(),
        decreases n,
    {
        let d = n % 10;
        proof {
            assert(reversed@.push(digit_char(d as int)).reverse() =~= seq![digit_char(d as int)] + reversed@.reverse());
        }
        reversed.push((48 + (d as u8)) as char);
        n = n / 10;
    }
    let ghost start = out@;
    let ghost digits = reversed@.reverse();
    assert(significant_digits(0) =~= Seq::<char>::empty());
    assert(digits =~= significant_digits(value as nat));
    let mut k = reversed.len();
    while k > 0
        invariant
            k <= reversed@.len(),
            digits == reversed@.reverse(),
            out@ == start + digits.take(reversed@.len() - k),
        decreases k,
    {
        k = k - 1;
        push_char(out, reversed[k]);
        assert(digits.take(reversed@.len() - k) =~= digits.take(reversed@.len() - k - 1).push(reversed@[k as int]));
    }
    assert(digits.take(reversed@.len() as int) =~= digits);
}

// ---------------------------------------------------------------------------
// Identifiers
// ---------------------------------------------------------------------------

/// Some character of `h` is not `'0'`.
pub open spec fn has_non_zero(h: Seq<char>) -> bool {
    exists|i: int| 0 <= i < h.len() && h[i] != '0'
}

/// `id` is exactly `len` lowercase hex characters and not all zero.
///
/// The all-zero check follows the W3C spec: an all-zero trace or span ID
/// means "no trace".
pub open spec fn valid_id(id: Seq<char>, len: nat) -> bool {
    &&& id.len() == len
    &&& forall|i: int| 0 <= i < id.len() ==> is_hex_char(#[trigger] id[i])
    &&& has_non_zero(id)
}

/// `hex` unchanged, or with its first character replaced by `'1'` when it is
/// all zeroes.
pub open spec fn non_zero(hex: Seq<char>) -> Seq<char> {
    if has_non_zero(hex) {
        hex
    } else {
        seq!['1'] + hex.drop_first()
    }
}

/// Whether `v[start..end]` has a character other than `'0'`.
fn any_non_zero(v: &Vec<char>, start: usize, end: usize) -> (r: bool)
    requires
        start <= end <= v@.len(),
    ensures
        r == has_non_zero(v@.subrange(start as int, end as int)),
{
    let ghost h = v@.subrange(start as int, end as int);
    let mut i = start;
    while i < end
        invariant
            start <= i <= end,
            end <= v@.len(),
            h == v@.subrange(start as int, end as int),
            forall|j: int| 0 <= j < i - start ==> h[j] == '0',
        decreases end - i,
    {
        if v[i] != '0' {
            assert(h[i - start] != '0');
            return true;
        }
        i = i + 1;
    }
    false
}

/// `true` when `v` is exactly `len` lowercase hex characters and not all zero.
fn valid_id_chars(v: &Vec<char>, len: usize) -> (r: bool)
    ensures
        r == valid_id(v@, len as nat),
{
    if v.len() != len {
        return false;
    }
    let mut i: usize = 0;
    while i < v.len()
        invariant
            i <= v@.len(),
            forall|j: int| 0 <= j < i ==> is_hex_char(#[trigger] v@[j]),
        decreases v.len() - i,
    {
        if !is_lower_hex(v[i]) {
            return false;
        }
        i = i + 1;
    }
    assert(v@.subrange(0, v@.len() as int) =~= v@);
    any_non_zero(v, 0, v.len())
}

/// `true` when `id` is exactly `len` lowercase hex characters and not all zero.
fn is_valid_id(id: &str, len: usize) -> (r: bool)
    ensures
        r == valid_id(id@, len as nat),
{
    let v = chars_of(id);
    valid_id_chars(&v, len)
}

/// `non_zero` of `v[start..end]`, as a string.
fn non_zero_of(v: &Vec<char>, start: usize, end: usize) -> (r: String)
    requires
        start < end <= v@.len(),
    ensures
        r@ == non_zero(v@.subrange(start as int, end as int)),
{
    let ghost h = v@.subrange(start as int, end as int);
    let mut part: Vec<char> = Vec::new();
    let mut i = start;
    while i < end
        invariant
            start <= i <= end,
            end <= v@.len(),
            part@ == v@.subrange(start as int, i as int),
        decreases end - i,
    {
        part.push(v[i]);
        assert(part@ =~= v@.subrange(start as int, i + 1));
        i = i + 1;
    }
    if !any_non_zero(v, start, end) {
        part.set(0, '1');
        assert(part@ =~= seq!['1'] + h.drop_first());
    }
    string_from_chars(&part)
}

/// Return `hex` unchanged, or a non-zero substitute when it is all zeroes.
pub fn non_zero_id(hex: &str) -> (r: String)
    requires
        hex@.len() > 0,
    ensures
        r@ == non_zero(hex@),
{
    let v = chars_of(hex);
    assert(v@.subrange(0, v@.len() as int) =~= v@);
    non_zero_of(&v, 0, v.len())
}

/// `non_zero` keeps hex digits hex and always yields a valid identifier.
proof fn lemma_hex_of_is_hex(bytes: Seq<u8>)
    ensures
        forall|i: int| 0 <= i < hex_of(bytes).len() ==> is_hex_char(#[trigger] hex_of(bytes)[i]),
{
    assert forall|i: int| 0 <= i < hex_of(bytes).len() implies is_hex_char(#[trigger] hex_of(bytes)[i]) by {
        let b = bytes[i / 2];
        assert(b / 16 < 16);
        assert(b % 16 < 16);
    }
}

proof fn lemma_non_zero_valid(hex: Seq<char>)
    requires
        hex.len() > 0,
        forall|i: int| 0 <= i < hex.len() ==> is_hex_char(#[trigger] hex[i]),
    ensures
        valid_id(non_zero(hex), hex.len()),
{
    let r = non_zero(hex);
    if !has_non_zero(hex) {
        assert(r[0] == '1');
        assert forall|i: int| 0 <= i < r.len() implies is_hex_char(#[trigger] r[i]) by {
            if i > 0 {
                assert(r[i] == hex[i]);
            }
        }
    }
}

// ---------------------------------------------------------------------------
// The `traceparent` grammar
// ---------------------------------------------------------------------------

/// `c` has the Unicode `White_Space` property, as `char::is_whitespace`
/// documents.
pub open spec fn is_whitespace(c: char) -> bool {
    ('\u{9}' <= c && c <= '\u{d}') || c == ' ' || c == '\u{85}' || c == '\u{a0}' || c == '\u{1680}'
        || ('\u{2000}' <= c && c <= '\u{200a}') || c == '\u{2028}' || c == '\u{2029}' || c
        == '\u{202f}' || c == '\u{205f}' || c == '\u{3000}'
}

/// `s` without its leading whitespace.
pub open spec fn trim_start(s: Seq<char>) -> Seq<char>
    decreases s.len(),
{
    if s.len() > 0 && is_whitespace(s[0]) {
        trim_start(s.drop_first())
    } else {
        s
    }
}

/// `s` without its trailing whitespace.
pub open spec fn trim_end(s: Seq<char>) -> Seq<char>
    decreases s.len(),
{
    if s.len() > 0 && is_whitespace(s.last()) {
        trim_end(s.drop_last())
    } else {
        s
    }
}

/// `s` without surrounding whitespace, as `str::trim` gives it.
pub open spec fn trim(s: Seq<char>) -> Seq<char> {
    trim_end(trim_start(s))
}

/// The fields of `s` separated by `'-'`, as `str::split('-')` yields them.
pub open spec fn split_dash(s: Seq<char>) -> Seq<Seq<char>> {
    split_on(s, '-')
}

/// The value of a lowercase hex digit.
pub open spec fn hex_value(c: char) -> int {
    if c <= '9' {
        c as int - 48
    } else {
        c as int - 87
    }
}

/// The flags field is two lowercase hex digits.
pub open spec fn valid_flags(f: Seq<char>) -> bool {
    f.len() == 2 && is_hex_char(f[0]) && is_hex_char(f[1])
}

/// The outcome of parsing the `traceparent` header value `header`.
pub open spec fn parse_outcome(header: Seq<char>) -> Result<TraceView, TraceError> {
    let parts = split_dash(trim(header));
    if parts.len() != 4 {
        Err(TraceError::MalformedTraceparent)
    } else if parts[0] != seq!['0', '0'] {
        Err(TraceError::UnsupportedVersion)
    } else if !valid_id(parts[1], 32) {
        Err(TraceError::InvalidTraceId)
    } else if !valid_id(parts[2], 16) {
        Err(TraceError::InvalidSpanId)
    } else if !valid_flags(parts[3]) {
        Err(TraceError::InvalidFlags)
    } else {
        Ok(
            TraceView {
                trace_id: parts[1],
                span_id: parts[2],
                parent_span_id: None,
                sampled: hex_value(parts[3][1]) % 2 == 1,
            },
        )
    }
}

/// `true` when `c` is whitespace.
fn is_whitespace_char(c: char) -> (r: bool)
    ensures
        r == is_whitespace(c),
{
    ('\u{9}' <= c && c <= '\u{d}') || c == ' ' || c == '\u{85}' || c == '\u{a0}' || c == '\u{1680}'
        || ('\u{2000}' <= c && c <= '\u{200a}') || c == '\u{2028}' || c == '\u{2029}' || c
        == '\u{202f}' || c == '\u{205f}' || c == '\u{3000}'
}

/// The bounds of `v` without surrounding whitespace.
fn trim_bounds(v: &Vec<char>) -> (r: (usize, usize))
    ensures
        r.0 <= r.1 <= v@.len(),
        v@.subrange(r.0 as int, r.1 as int) == trim(v@),
{
    let n = v.len();
    let mut start: usize = 0;
    assert(v@.subrange(0, n as int) =~= v@);
    while start < n && is_whitespace_char(v[start])
        invariant
            start <= n,
            n == v@.len(),
            trim_start(v@) == trim_start(v@.subrange(start as int, n as int)),
        decreases n - start,
    {
        assert(v@.subrange(start as int, n as int).drop_first() =~= v@.subrange(start + 1, n as int));
        start = start + 1;
    }
    let ghost t = v@.subrange(start as int, n as int);
    assert(trim_start(t) == t);
    let mut end: usize = n;
    while end > start && is_whitespace_char(v[end - 1])
        invariant
            start <= end <= n,
            n == v@.len(),
            t == v@.subrange(start as int, n as int),
            trim_end(t) == trim_end(v@.subrange(start as int, end as int)),
        decreases end,
    {
        assert(v@.subrange(start as int, end as int).drop_last() =~= v@.subrange(start as int, end - 1));
        end = end - 1;
    }
    (start, end)
}

/// The two characters of `f` are `'0'`.
fn is_version_00(f: &Vec<char>) -> (r: bool)
    ensures
        r == (f@ == seq!['0', '0']),
{
    if f.len() == 2 && f[0] == '0' && f[1] == '0' {
        assert(f@ =~= seq!['0', '0']);
        true
    } else {
        false
    }
}

/// The value of a lowercase hex digit is odd.
fn hex_digit_is_odd(c: char) -> (r: bool)
    requires
        is_hex_char(c),
    ensures
        r == (hex_value(c) % 2 == 1),
{
    c == '1' || c == '3' || c == '5' || c == '7' || c == '9' || c == 'b' || c == 'd' || c == 'f'
}

/// A field without `'-'` is split into itself.
proof fn lemma_split_single(s: Seq<char>)
    requires
        forall|i: int| 0 <= i < s.len() ==> #[trigger] s[i] != '-',
    ensures
        split_dash(s) == seq![s],
    decreases s.len(),
{
    if s.len() > 0 {
        lemma_split_single(s.drop_last());
        assert(s.drop_last().push(s.last()) =~= s);
        assert(seq![s.drop_last()].update(0, s.drop_last().push(s.last())) =~= seq![s]);
    } else {
        assert(s =~= Seq::<char>::empty());
    }
}

/// Appending `'-'` and a field without `'-'` adds that field.
proof fn lemma_split_append(a: Seq<char>, b: Seq<char>)
    requires
        forall|i: int| 0 <= i < b.len() ==> #[trigger] b[i] != '-',
    ensures
        split_dash(a + seq!['-'] + b) == split_dash(a).push(b),
    decreases b.len(),
{
    let s = a + seq!['-'] + b;
    if b.len() == 0 {
        assert(s.drop_last() =~= a);
        assert(b =~= Seq::<char>::empty());
    } else {
        let b0 = b.drop_last();
        lemma_split_append(a, b0);
        assert(s.drop_last() =~= a + seq!['-'] + b0);
        assert(s.last() == b.last());
        let p = split_dash(a).push(b0);
        assert(b0.push(b.last()) =~= b);
        assert(p.update(p.len() - 1, b0.push(b.last())) =~= split_dash(a).push(b));
    }
}

/// A hex field holds no `'-'`.
proof fn lemma_hex_has_no_dash(s: Seq<char>)
    requires
        forall|i: int| 0 <= i < s.len() ==> is_hex_char(#[trigger] s[i]),
    ensures
        forall|i: int| 0 <= i < s.len() ==> #[trigger] s[i] != '-',
{
    assert forall|i: int| 0 <= i < s.len() implies #[trigger] s[i] != '-' by {
        assert(is_hex_char(s[i]));
    }
}

// ---------------------------------------------------------------------------
// TraceContext
// ---------------------------------------------------------------------------

/// Header name carrying the full W3C trace context.
pub const TRACEPARENT_HEADER: &'static str = "traceparent";

/// Header name carrying the bare trace ID, for log-friendly correlation.
pub const TRACE_ID_HEADER: &'static str = "X-Trace-Id";

/// Header name carrying the current span ID.
pub const SPAN_ID_HEADER: &'static str = "X-Span-Id";

/// Reasons a trace identifier or `traceparent` header could not be accepted.
#[derive(Clone, Copy, Debug, PartialEq, Eq, Structural)]
pub enum TraceError {
    /// A `traceparent` header did not have the expected four dash-separated fields.
    MalformedTraceparent,
    /// The `traceparent` version field is not `00`.
    UnsupportedVersion,
    /// The trace ID was not 32 lowercase hex characters, or was all zeroes.
    InvalidTraceId,
    /// The span ID was not 16 lowercase hex characters, or was all zeroes.
    InvalidSpanId,
    /// The trace flags field was not two hex characters.
    InvalidFlags,
}

/// What a [`TraceContext`] holds.
pub struct TraceView {
    pub trace_id: Seq<char>,
    pub span_id: Seq<char>,
    pub parent_span_id: Option<Seq<char>>,
    pub sampled: bool,
}

/// All identifiers of `v` are well formed.
pub open spec fn valid_view(v: TraceView) -> bool {
    &&& valid_id(v.trace_id, 32)
    &&& valid_id(v.span_id, 16)
    &&& v.parent_span_id matches Some(p) ==> valid_id(p, 16)
}

/// The characters of an optional string.
pub open spec fn opt_chars(o: Option<&str>) -> Option<Seq<char>> {
    match o {
        Some(s) => Some(s@),
        None => None,
    }
}

/// The outcome of [`TraceContext::new`] on the given parts.
pub open spec fn new_outcome(
    trace_id: Seq<char>,
    span_id: Seq<char>,
    parent_span_id: Option<Seq<char>>,
    sampled: bool,
) -> Result<TraceView, TraceError> {
    if !valid_id(trace_id, 32) {
        Err(TraceError::InvalidTraceId)
    } else if !valid_id(span_id, 16) {
        Err(TraceError::InvalidSpanId)
    } else if parent_span_id matches Some(p) && !valid_id(p, 16) {
        Err(TraceError::InvalidSpanId)
    } else {
        Ok(TraceView { trace_id, span_id, parent_span_id, sampled })
    }
}

/// The `traceparent` header value for `v`.
pub open spec fn traceparent_of(v: TraceView) -> Seq<char> {
    seq!['0', '0', '-'] + v.trace_id + seq!['-'] + v.span_id + seq!['-'] + (if v.sampled {
        seq!['0', '1']
    } else {
        seq!['0', '0']
    })
}

/// The `key=value` log fields for `v`.
pub open spec fn log_fields_of(v: TraceView) -> Seq<char> {
    "trace_id="@ + v.trace_id + " span_id="@ + v.span_id + match v.parent_span_id {
        Some(p) => " parent_span_id="@ + p,
        None => Seq::empty(),
    }
}

/// Trace context for a single step of a logical request.
///
/// Each retry attempt, each webhook POST and each poll cycle owns its own
/// context while sharing the trace ID.
#[derive(Debug, PartialEq, Eq)]
pub struct TraceContext {
    trace_id: String,
    span_id: String,
    parent_span_id: Option<String>,
    sampled: bool,
}

impl View for TraceContext {
    type V = TraceView;

    closed spec fn view(&self) -> TraceView {
        TraceView {
            trace_id: self.trace_id@,
            span_id: self.span_id@,
            parent_span_id: match self.parent_span_id {
                Some(p) => Some(p@),
                None => None,
            },
            sampled: self.sampled,
        }
    }
}

impl Clone for TraceContext {
    fn clone(&self) -> (r: Self)
        ensures
            r@ == self@,
    {
        proof {
            use_type_invariant(self);
        }
        TraceContext {
            trace_id: self.trace_id.clone(),
            span_id: self.span_id.clone(),
            parent_span_id: match &self.parent_span_id {
                Some(p) => Some(p.clone()),
                None => None,
            },
            sampled: self.sampled,
        }
    }
}

/// The root context derived from a seed whose UTF-8 bytes are `seed`.
pub open spec fn root_view(seed: Seq<u8>) -> TraceView {
    let h = hex_of(sha256(seed));
    TraceView {
        trace_id: non_zero(h.subrange(0, 32)),
        span_id: non_zero(h.subrange(32, 48)),
        parent_span_id: None,
        sampled: true,
    }
}

/// The material hashed to derive a child of `v` for `seed`.
pub open spec fn child_material(v: TraceView, seed: Seq<char>) -> Seq<char> {
    v.trace_id + seq![':'] + v.span_id + seq![':'] + seed
}

/// The child of `v` for `seed`: same trace, a span derived from the
/// parent's identifiers and the seed, and `v`'s span as parent.
pub open spec fn child_view(v: TraceView, seed: Seq<char>) -> TraceView {
    TraceView {
        trace_id: v.trace_id,
        span_id: non_zero(hex_of(sha256(encode_utf8(child_material(v, seed)))).subrange(0, 16)),
        parent_span_id: Some(v.span_id),
        sampled: v.sampled,
    }
}

/// The seed used for retry attempt `attempt`.
pub open spec fn attempt_seed(attempt: u32) -> Seq<char> {
    "attempt-"@ + decimal(attempt as nat)
}

/// The view of a construction result.
pub open spec fn result_view(r: Result<TraceContext, TraceError>) -> Result<TraceView, TraceError> {
    match r {
        Ok(c) => Ok(c@),
        Err(e) => Err(e),
    }
}

impl TraceContext {
    #[verifier::type_invariant]
    closed spec fn inv(self) -> bool {
        valid_view(self@)
    }

    /// Build a context from already-validated parts.
    ///
    /// Returns [`TraceError`] when `trace_id` or `span_id` (or the parent
    /// span, if given) is not a non-zero lowercase hex string of the required
    /// length.
    pub fn new(
        trace_id: &str,
        span_id: &str,
        parent_span_id: Option<&str>,
        sampled: bool,
    ) -> (r: Result<Self, TraceError>)
        ensures
            result_view(r) == new_outcome(trace_id@, span_id@, opt_chars(parent_span_id), sampled),
    {
        if !is_valid_id(trace_id, TRACE_ID_HEX_LEN) {
            return Err(TraceError::InvalidTraceId);
        }
        if !is_valid_id(span_id, SPAN_ID_HEX_LEN) {
            return Err(TraceError::InvalidSpanId);
        }
        let parent = match parent_span_id {
            Some(p) => {
                if !is_valid_id(p, SPAN_ID_HEX_LEN) {
                    return Err(TraceError::InvalidSpanId);
                }
                Some(p.to_owned())
            },
            None => None,
        };
        Ok(TraceContext {
            trace_id: trace_id.to_owned(),
            span_id: span_id.to_owned(),
            parent_span_id: parent,
            sampled,
        })
    }

    /// Start a new root trace whose identifiers are derived from `seed`.
    ///
    /// The same seed always yields the same trace.  The result is always
    /// valid: an identifier that would be all zeroes is nudged to non-zero.
    pub fn root_from_seed(seed: &str) -> (r: Self)
        ensures
            r@ == root_view(encode_utf8(seed@)),
    {
        let digest = sha256_hex(seed.as_bytes());
        let trace_id = non_zero_of(&digest, 0, TRACE_ID_HEX_LEN);
        let span_id = non_zero_of(&digest, TRACE_ID_HEX_LEN, TRACE_ID_HEX_LEN + SPAN_ID_HEX_LEN);
        proof {
            lemma_hex_of_is_hex(sha256(encode_utf8(seed@)));
            lemma_non_zero_valid(digest@.subrange(0, 32));
            lemma_non_zero_valid(digest@.subrange(32, 48));
        }
        TraceContext { trace_id, span_id, parent_span_id: None, sampled: true }
    }

    /// Derive a child span under this one, keeping the trace ID.
    ///
    /// `seed` distinguishes siblings: the operation name, the attempt
    /// number, or anything else stable for that step.
    pub fn child(&self, seed: &str) -> (r: Self)
        ensures
            r@ == child_view(self@, seed@),
    {
        proof {
            use_type_invariant(self);
        }
        let mut material = String::new();
        material.append(self.trace_id.as_str());
        push_char(&mut material, ':');
        material.append(self.span_id.as_str());
        push_char(&mut material, ':');
        material.append(seed);
        assert(material@ =~= child_material(self@, seed@));
        let digest = sha256_hex(material.as_str().as_bytes());
        let span_id = non_zero_of(&digest, 0, SPAN_ID_HEX_LEN);
        proof {
            lemma_hex_of_is_hex(sha256(encode_utf8(material@)));
            lemma_non_zero_valid(digest@.subrange(0, 16));
        }
        TraceContext {
            trace_id: self.trace_id.clone(),
            span_id,
            parent_span_id: Some(self.span_id.clone()),
            sampled: self.sampled,
        }
    }

    /// Derive the child span for retry attempt `attempt` (0-based): the
    /// child for the seed `attempt-<attempt>`.
    pub fn child_for_attempt(&self, attempt: u32) -> (r: Self)
        ensures
            r@ == child_view(self@, attempt_seed(attempt)),
    {
        let mut seed = String::new();
        seed.append("attempt-");
        push_u32(&mut seed, attempt);
        self.child(seed.as_str())
    }

    /// The trace ID shared by every span of this logical request.
    pub fn trace_id(&self) -> (r: &str)
        ensures
            r@ == self@.trace_id,
            valid_id(r@, 32),
    {
        proof {
            use_type_invariant(self);
        }
        self.trace_id.as_str()
    }

    /// The span ID of this particular step.
    pub fn span_id(&self) -> (r: &str)
        ensures
            r@ == self@.span_id,
            valid_id(r@, 16),
    {
        proof {
            use_type_invariant(self);
        }
        self.span_id.as_str()
    }

    /// The span this one was derived from, or `None` for a root span.
    pub fn parent_span_id(&self) -> (r: Option<&str>)
        ensures
            opt_chars(r) == self@.parent_span_id,
            r matches Some(p) ==> valid_id(p@, 16),
    {
        proof {
            use_type_invariant(self);
        }
        match &self.parent_span_id {
            Some(p) => Some(p.as_str()),
            None => None,
        }
    }

    /// Whether downstream systems are asked to record this trace.
    pub fn sampled(&self) -> (r: bool)
        ensures
            r == self@.sampled,
    {
        self.sampled
    }

    /// Return a copy with the sampling flag set to `sampled`.
    pub fn with_sampled(self, sampled: bool) -> (r: Self)
        ensures
            r@ == (TraceView { sampled, ..self@ }),
    {
        proof {
            use_type_invariant(&self);
        }
        let mut c = self;
        c.sampled = sampled;
        c
    }

    /// Render this context as a W3C `traceparent` header value.
    pub fn to_traceparent(&self) -> (out: String)
        ensures
            out@ == traceparent_of(self@),
            parse_outcome(out@) == Ok::<TraceView, TraceError>(
                TraceView { parent_span_id: None, ..self@ },
            ),
    {
        proof {
            use_type_invariant(self);
            lemma_traceparent_round_trip(self@);
        }
        let mut out = String::new();
        push_char(&mut out, '0');
        push_char(&mut out, '0');
        push_char(&mut out, '-');
        out.append(self.trace_id.as_str());
        push_char(&mut out, '-');
        out.append(self.span_id.as_str());
        push_char(&mut out, '-');
        push_char(&mut out, '0');
        if self.sampled {
            push_char(&mut out, '1');
        } else {
            push_char(&mut out, '0');
        }
        assert(out@ =~= traceparent_of(self@));
        out
    }

    /// Parse an inbound W3C `traceparent` header value.
    ///
    /// Surrounding whitespace is ignored; whitespace inside a field is not.
    /// The incoming span becomes this context's span and there is no parent.
    #[verifier::spinoff_prover]
    pub fn parse_traceparent(header: &str) -> (r: Result<Self, TraceError>)
        ensures
            result_view(r) == parse_outcome(header@),
    {
        let v = chars_of(header);
        let (start, end) = trim_bounds(&v);
        let fields = split_fields(&v, start, end, '-');
        let ghost parts = fields_view(fields@);
        if fields.len() != 4 {
            return Err(TraceError::MalformedTraceparent);
        }
        assert(parts[0] == fields@[0]@ && parts[1] == fields@[1]@);
        assert(parts[2] == fields@[2]@ && parts[3] == fields@[3]@);
        if !is_version_00(&fields[0]) {
            return Err(TraceError::UnsupportedVersion);
        }
        if !valid_id_chars(&fields[1], TRACE_ID_HEX_LEN) {
            return Err(TraceError::InvalidTraceId);
        }
        if !valid_id_chars(&fields[2], SPAN_ID_HEX_LEN) {
            return Err(TraceError::InvalidSpanId);
        }
        let flags = &fields[3];
        if !(flags.len() == 2 && is_lower_hex(flags[0]) && is_lower_hex(flags[1])) {
            return Err(TraceError::InvalidFlags);
        }
        let sampled = hex_digit_is_odd(flags[1]);
        Ok(TraceContext {
            trace_id: string_from_chars(&fields[1]),
            span_id: string_from_chars(&fields[2]),
            parent_span_id: None,
            sampled,
        })
    }

    /// Headers that carry this context to a downstream service: the standard
    /// `traceparent` plus the bare `X-Trace-Id` / `X-Span-Id` pair.
    pub fn header_pairs(&self) -> (headers: Vec<(String, String)>)
        ensures
            headers.len() == 3,
            headers[0].0@ == TRACEPARENT_HEADER@,
            headers[0].1@ == traceparent_of(self@),
            headers[1].0@ == TRACE_ID_HEADER@,
            headers[1].1@ == self@.trace_id,
            headers[2].0@ == SPAN_ID_HEADER@,
            headers[2].1@ == self@.span_id,
    {
        let mut headers: Vec<(String, String)> = Vec::new();
        headers.push((TRACEPARENT_HEADER.to_owned(), self.to_traceparent()));
        headers.push((TRACE_ID_HEADER.to_owned(), self.trace_id.clone()));
        headers.push((SPAN_ID_HEADER.to_owned(), self.span_id.clone()));
        headers
    }

    /// Render this context as `key=value` pairs for a log line.
    ///
    /// A root span omits `parent_span_id` rather than printing an empty value.
    pub fn log_fields(&self) -> (out: String)
        ensures
            out@ == log_fields_of(self@),
    {
        let mut out = String::new();
        out.append("trace_id=");
        out.append(self.trace_id.as_str());
        out.append(" span_id=");
        out.append(self.span_id.as_str());
        match &self.parent_span_id {
            Some(parent) => {
                out.append(" parent_span_id=");
                out.append(parent.as_str());
            },
            None => {},
        }
        assert(out@ =~= log_fields_of(self@));
        out
    }
}

// ---------------------------------------------------------------------------
// Laws
// ---------------------------------------------------------------------------

/// A rendered `traceparent` parses back to the same trace, span and
/// sampling flag, with no parent.
pub proof fn lemma_traceparent_round_trip(v: TraceView)
    requires
        valid_view(v),
    ensures
        parse_outcome(traceparent_of(v)) == Ok::<TraceView, TraceError>(
            TraceView { parent_span_id: None, ..v },
        ),
{
    let flags = if v.sampled {
        seq!['0', '1']
    } else {
        seq!['0', '0']
    };
    let h = traceparent_of(v);
    assert(h =~= ((seq!['0', '0'] + seq!['-'] + v.trace_id) + seq!['-'] + v.span_id) + seq!['-']
        + flags);
    assert(!is_whitespace(h[0]));
    assert(trim_start(h) == h);
    assert(h.last() == flags[1]);
    assert(!is_whitespace(h.last()));
    assert(trim_end(h) == h);
    lemma_hex_has_no_dash(v.trace_id);
    lemma_hex_has_no_dash(v.span_id);
    assert(forall|i: int| 0 <= i < flags.len() ==> #[trigger] flags[i] != '-');
    let version = seq!['0', '0'];
    assert(forall|i: int| 0 <= i < version.len() ==> #[trigger] version[i] != '-');
    lemma_split_single(seq!['0', '0']);
    lemma_split_append(seq!['0', '0'], v.trace_id);
    lemma_split_append(seq!['0', '0'] + seq!['-'] + v.trace_id, v.span_id);
    lemma_split_append((seq!['0', '0'] + seq!['-'] + v.trace_id) + seq!['-'] + v.span_id, flags);
    let parts = split_dash(trim(h));
    assert(parts =~= seq![seq!['0', '0'], v.trace_id, v.span_id, flags]);
}

/// Rendering a parsed `traceparent` whose flags field is `00` or `01` gives
/// back the header without its surrounding whitespace, so an inbound
/// header is carried onward unchanged.
pub proof fn lemma_parse_then_render(header: Seq<char>)
    requires
        parse_outcome(header) is Ok,
        split_dash(trim(header)).last() == seq!['0', '0'] || split_dash(trim(header)).last()
            == seq!['0', '1'],
    ensures
        traceparent_of(parse_outcome(header)->Ok_0) == trim(header),
{
    let t = trim(header);
    let parts = split_dash(t);
    lemma_split_join(t, '-');
    let v = parse_outcome(header)->Ok_0;
    assert(parts.len() == 4);
    let p3 = parts.drop_last();
    let p2 = p3.drop_last();
    let p1 = p2.drop_last();
    assert(p1.len() == 1 && p1[0] == parts[0]);
    assert(join_on(p1, '-') == parts[0]);
    assert(join_on(p2, '-') == join_on(p1, '-') + seq!['-'] + parts[1]);
    assert(join_on(p3, '-') == join_on(p2, '-') + seq!['-'] + parts[2]);
    assert(join_on(parts, '-') == join_on(p3, '-') + seq!['-'] + parts[3]);
    let flags = if v.sampled {
        seq!['0', '1']
    } else {
        seq!['0', '0']
    };
    if parts[3] == seq!['0', '1'] {
        assert(parts[3][1] == '1');
        assert(hex_value('1') == 1);
    } else {
        assert(parts[3][1] == '0');
        assert(hex_value('0') == 0);
    }
    assert(flags == parts[3]);
    assert(traceparent_of(v) =~= join_on(parts, '-'));
}

/// `s` holds `t` as a run of consecutive characters, as `str::contains`
/// asks.
pub open spec fn contains_text(s: Seq<char>, t: Seq<char>) -> bool {
    exists|i: int| 0 <= i && i + t.len() <= s.len() && #[trigger] s.subrange(i, i + t.len()) == t
}

/// The log fields name a parent span exactly when the context has one.
pub proof fn lemma_log_fields_name_parent(v: TraceView)
    requires
        valid_view(v),
    ensures
        contains_text(log_fields_of(v), "parent_span_id="@) <==> v.parent_span_id is Some,
{
    reveal_strlit("trace_id=");
    reveal_strlit(" span_id=");
    reveal_strlit(" parent_span_id=");
    reveal_strlit("parent_span_id=");
    let t = "parent_span_id="@;
    let a = "trace_id="@;
    let b = " span_id="@;
    let out = log_fields_of(v);
    let base = a + v.trace_id + b + v.span_id;
    assert(t.len() == 15);
    assert(base.len() == 66);
    match v.parent_span_id {
        Some(p) => {
            let c = " parent_span_id="@;
            assert(out == base + c + p);
            let at: int = 67;
            assert(out.subrange(at, at + t.len()) =~= t);
        },
        None => {
            assert(out =~= base);
            if contains_text(out, t) {
                let i = choose|i: int|
                    0 <= i && i + t.len() <= out.len() && #[trigger] out.subrange(i, i + t.len())
                        == t;
                assert(out[i] == 'p') by {
                    assert(out.subrange(i, i + 15)[0] == out[i]);
                }
                assert(out[i + 2] == 'r') by {
                    assert(out.subrange(i, i + 15)[2] == out[i + 2]);
                }
                if i < 9 {
                    assert(out[i] == a[i]);
                } else if i < 41 {
                    assert(out[i] == v.trace_id[i - 9]);
                    assert(is_hex_char(v.trace_id[i - 9]));
                } else if i < 50 {
                    assert(out[i] == b[i - 41]);
                    assert(out[i + 2] == b[i - 39]);
                } else {
                    assert(out[i] == v.span_id[i - 50]);
                    assert(is_hex_char(v.span_id[i - 50]));
                }
            }
        },
    }
}

/// A child's span is the first 16 hex characters of the SHA-256 of
/// `"<trace_id>:<parent span_id>:<seed>"` (made non-zero), so the parent's
/// span is part of what is hashed; the child keeps the trace and the
/// sampling flag and records the parent span.
pub proof fn lemma_child_span_hashes_parent_span(v: TraceView, seed: Seq<char>)
    ensures
        child_view(v, seed).span_id == non_zero(
            hex_of(sha256(encode_utf8(v.trace_id + seq![':'] + v.span_id + seq![':'] + seed))).subrange(
                0,
                16,
            ),
        ),
        child_view(v, seed).trace_id == v.trace_id,
        child_view(v, seed).parent_span_id == Some(v.span_id),
        child_view(v, seed).sampled == v.sampled,
{
}

/// Two contexts of one trace with different spans hash different texts for
/// the same seed: their children's spans are derived from distinct inputs.
pub proof fn lemma_parent_spans_give_distinct_material(
    v: TraceView,
    w: TraceView,
    seed: Seq<char>,
)
    requires
        valid_view(v),
        valid_view(w),
        v.trace_id == w.trace_id,
        v.span_id != w.span_id,
    ensures
        v.trace_id + seq![':'] + v.span_id + seq![':'] + seed != w.trace_id + seq![':'] + w.span_id
            + seq![':'] + seed,
{
    let a = v.trace_id + seq![':'] + v.span_id + seq![':'] + seed;
    let b = w.trace_id + seq![':'] + w.span_id + seq![':'] + seed;
    assert(exists|k: int| 0 <= k < 16 && v.span_id[k] != w.span_id[k]) by {
        if forall|k: int| 0 <= k < 16 ==> v.span_id[k] == w.span_id[k] {
            assert(v.span_id =~= w.span_id);
        }
    }
    let k = choose|k: int| 0 <= k < 16 && v.span_id[k] != w.span_id[k];
    assert(a[33 + k] == v.span_id[k]);
    assert(b[33 + k] == w.span_id[k]);
}

/// `trim_start` of a sequence with one more character at its end.
proof fn lemma_trim_start_push(s: Seq<char>, c: char)
    ensures
        trim_start(s.push(c)) == if trim_start(s).len() == 0 {
            trim_start(seq![c])
        } else {
            trim_start(s).push(c)
        },
    decreases s.len(),
{
    if s.len() == 0 {
        assert(s.push(c) =~= seq![c]);
    } else if is_whitespace(s[0]) {
        assert(s.push(c).drop_first() =~= s.drop_first().push(c));
        lemma_trim_start_push(s.drop_first(), c);
    } else {
        assert(s.push(c)[0] == s[0]);
    }
}

/// Parsing ignores any character with the Unicode `White_Space` property
/// (tab, line feed, vertical tab, form feed, carriage return, space, next
/// line, no-break space, ogham space mark, the spaces U+2000 to U+200A, line
/// and paragraph separators, narrow no-break space, medium mathematical
/// space and ideographic space) before or after the header.
pub proof fn lemma_surrounding_whitespace_is_ignored(header: Seq<char>, c: char)
    requires
        c == '\t' || c == '\n' || c == '\u{b}' || c == '\u{c}' || c == '\r' || c == ' ' || c
            == '\u{85}' || c == '\u{a0}' || c == '\u{1680}' || ('\u{2000}' <= c && c <= '\u{200a}')
            || c == '\u{2028}' || c == '\u{2029}' || c == '\u{202f}' || c == '\u{205f}' || c
            == '\u{3000}',
    ensures
        parse_outcome(header.push(c)) == parse_outcome(header),
        parse_outcome(seq![c] + header) == parse_outcome(header),
{
    assert(is_whitespace(c));
    lemma_trim_start_push(header, c);
    assert(trim_start(seq![c]) == trim_start(seq![c].drop_first()));
    assert(seq![c].drop_first() =~= Seq::<char>::empty());
    let t = trim_start(header);
    if t.len() > 0 {
        assert(t.push(c).drop_last() =~= t);
    }
    assert(trim(header.push(c)) == trim(header));
    assert((seq![c] + header)[0] == c);
    assert((seq![c] + header).drop_first() =~= header);
    assert(trim(seq![c] + header) == trim(header));
}

/// Every context a `traceparent` parses into has well-formed identifiers
/// and no parent.
pub proof fn lemma_parsed_context_is_valid(header: Seq<char>)
    ensures
        parse_outcome(header) matches Ok(v) ==> valid_view(v) && v.parent_span_id is None,
{
}

/// A child keeps the trace, records its parent's span and inherits the
/// sampling flag; so does every descendant, however deep.
pub proof fn lemma_child_keeps_trace(v: TraceView, seed: Seq<char>)
    ensures
        child_view(v, seed).trace_id == v.trace_id,
        child_view(v, seed).parent_span_id == Some(v.span_id),
        child_view(v, seed).sampled == v.sampled,
{
}

/// Descendants along any chain of seeds keep the root's trace ID.
pub proof fn lemma_descendants_keep_trace(v: TraceView, seeds: Seq<Seq<char>>)
    ensures
        descendant(v, seeds).trace_id == v.trace_id,
        descendant(v, seeds).sampled == v.sampled,
    decreases seeds.len(),
{
    if seeds.len() > 0 {
        lemma_descendants_keep_trace(v, seeds.drop_last());
    }
}

/// The context reached from `v` by deriving a child for each seed in turn.
pub open spec fn descendant(v: TraceView, seeds: Seq<Seq<char>>) -> TraceView
    decreases seeds.len(),
{
    if seeds.len() == 0 {
        v
    } else {
        child_view(descendant(v, seeds.drop_last()), seeds.last())
    }
}

} // verus!
