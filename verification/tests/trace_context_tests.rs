use anchorkit::trace_context::{
    non_zero_id, push_u32, TraceContext, TraceError, SPAN_ID_HEADER, SPAN_ID_HEX_LEN,
    TRACEPARENT_HEADER, TRACE_ID_HEADER, TRACE_ID_HEX_LEN,
};

const TRACE: &str = "4bf92f3577b34da6a3ce929d0e0e4736";
const SPAN: &str = "00f067aa0ba902b7";

#[test]
fn new_accepts_valid_ids() {
    let ctx = TraceContext::new(TRACE, SPAN, None, true).unwrap();
    assert_eq!(ctx.trace_id(), TRACE);
    assert_eq!(ctx.span_id(), SPAN);
    assert!(ctx.parent_span_id().is_none());
    assert!(ctx.sampled());
}

#[test]
fn new_rejects_bad_trace_id() {
    assert_eq!(TraceContext::new("short", SPAN, None, true), Err(TraceError::InvalidTraceId));
    assert_eq!(
        TraceContext::new(&"0".repeat(32), SPAN, None, true),
        Err(TraceError::InvalidTraceId)
    );
    assert_eq!(
        TraceContext::new(&"A".repeat(32), SPAN, None, true),
        Err(TraceError::InvalidTraceId)
    );
}

#[test]
fn new_rejects_bad_span_id() {
    assert_eq!(TraceContext::new(TRACE, "nope", None, true), Err(TraceError::InvalidSpanId));
    assert_eq!(
        TraceContext::new(TRACE, SPAN, Some("nope"), true),
        Err(TraceError::InvalidSpanId)
    );
}

#[test]
fn root_from_seed_is_deterministic_and_valid() {
    let a = TraceContext::root_from_seed("deposit:txn-1");
    let b = TraceContext::root_from_seed("deposit:txn-1");
    assert_eq!(a, b);
    assert_eq!(a.trace_id().len(), TRACE_ID_HEX_LEN);
    assert_eq!(a.span_id().len(), SPAN_ID_HEX_LEN);
    assert!(a.parent_span_id().is_none());
    // Round-trips through the wire format, which validates both IDs.
    assert!(TraceContext::parse_traceparent(&a.to_traceparent()).is_ok());
}

#[test]
fn root_from_seed_differs_per_seed() {
    let a = TraceContext::root_from_seed("deposit:txn-1");
    let b = TraceContext::root_from_seed("deposit:txn-2");
    assert_ne!(a.trace_id(), b.trace_id());
}

#[test]
fn child_keeps_trace_and_records_parent() {
    let root = TraceContext::root_from_seed("session-42");
    let child = root.child("webhook");
    assert_eq!(child.trace_id(), root.trace_id());
    assert_ne!(child.span_id(), root.span_id());
    assert_eq!(child.parent_span_id(), Some(root.span_id()));
}

#[test]
fn child_inherits_sampling_flag() {
    let root = TraceContext::root_from_seed("session-42").with_sampled(false);
    assert!(!root.child("webhook").sampled());
}

#[test]
fn grandchild_still_carries_the_root_trace() {
    let root = TraceContext::root_from_seed("session-42");
    let grandchild = root.child("webhook").child_for_attempt(2);
    assert_eq!(grandchild.trace_id(), root.trace_id());
}

#[test]
fn child_for_attempt_is_stable_and_distinct() {
    let root = TraceContext::root_from_seed("quote");
    assert_eq!(root.child_for_attempt(3), root.child_for_attempt(3));
    assert_ne!(root.child_for_attempt(3), root.child_for_attempt(4));
    for attempt in 0..8u32 {
        let ctx = root.child_for_attempt(attempt);
        assert_eq!(ctx.trace_id(), root.trace_id());
        assert_eq!(ctx.span_id().len(), SPAN_ID_HEX_LEN);
    }
}

#[test]
fn traceparent_round_trip() {
    let ctx = TraceContext::new(TRACE, SPAN, None, true).unwrap();
    let header = ctx.to_traceparent();
    assert_eq!(header, "00-4bf92f3577b34da6a3ce929d0e0e4736-00f067aa0ba902b7-01");
    let parsed = TraceContext::parse_traceparent(&header).unwrap();
    assert_eq!(parsed.trace_id(), ctx.trace_id());
    assert_eq!(parsed.span_id(), ctx.span_id());
    assert_eq!(parsed.sampled(), ctx.sampled());
}

#[test]
fn traceparent_encodes_unsampled_flag() {
    let ctx = TraceContext::new(TRACE, SPAN, None, false).unwrap();
    assert!(ctx.to_traceparent().ends_with("-00"));
    assert!(!TraceContext::parse_traceparent(&ctx.to_traceparent()).unwrap().sampled());
}

#[test]
fn parse_traceparent_rejects_malformed_headers() {
    assert_eq!(
        TraceContext::parse_traceparent("00-abc-def"),
        Err(TraceError::MalformedTraceparent)
    );
    assert_eq!(
        TraceContext::parse_traceparent(&format!("00-{TRACE}-{SPAN}-01-extra")),
        Err(TraceError::MalformedTraceparent)
    );
    assert_eq!(
        TraceContext::parse_traceparent(&format!("01-{TRACE}-{SPAN}-01")),
        Err(TraceError::UnsupportedVersion)
    );
    assert_eq!(
        TraceContext::parse_traceparent(&format!("00-{}-{SPAN}-01", "0".repeat(32))),
        Err(TraceError::InvalidTraceId)
    );
    assert_eq!(
        TraceContext::parse_traceparent(&format!("00-{TRACE}-{}-01", "0".repeat(16))),
        Err(TraceError::InvalidSpanId)
    );
    assert_eq!(
        TraceContext::parse_traceparent(&format!("00-{TRACE}-{SPAN}-0")),
        Err(TraceError::InvalidFlags)
    );
}

#[test]
fn header_pairs_carry_all_three_headers() {
    let ctx = TraceContext::new(TRACE, SPAN, None, true).unwrap();
    let headers = ctx.header_pairs();
    assert_eq!(headers.len(), 3);
    assert_eq!(headers[0], (TRACEPARENT_HEADER.into(), ctx.to_traceparent()));
    assert_eq!(headers[1], (TRACE_ID_HEADER.into(), TRACE.into()));
    assert_eq!(headers[2], (SPAN_ID_HEADER.into(), SPAN.into()));
}

#[test]
fn log_fields_include_parent_only_for_child_spans() {
    let root = TraceContext::new(TRACE, SPAN, None, true).unwrap();
    assert_eq!(root.log_fields(), format!("trace_id={TRACE} span_id={SPAN}"));

    let child = root.child("step");
    let fields = child.log_fields();
    assert!(fields.contains(&format!("trace_id={TRACE}")));
    assert!(fields.contains(&format!("parent_span_id={SPAN}")));
}

#[test]
fn push_u32_matches_decimal_formatting() {
    for value in [0u32, 1, 9, 10, 99, 100, 4_294_967_295] {
        let mut out = String::new();
        push_u32(&mut out, value);
        assert_eq!(out, format!("{value}"));
    }
}

#[test]
fn non_zero_id_replaces_all_zero_input() {
    assert_eq!(non_zero_id("0000000000000000"), "1000000000000000");
    assert_eq!(non_zero_id("00f067aa0ba902b7"), "00f067aa0ba902b7");
}

/// Surrounding whitespace on the raw header value is transport noise and
/// should be tolerated.
#[test]
fn parse_traceparent_tolerates_surrounding_whitespace() {
    let header = format!("  00-{TRACE}-{SPAN}-01  ");
    let ctx = TraceContext::parse_traceparent(&header)
        .expect("surrounding whitespace should be stripped before parsing");
    assert_eq!(ctx.trace_id(), TRACE);
    assert_eq!(ctx.span_id(), SPAN);
    assert!(ctx.sampled());
}

/// Internal whitespace inside a semantic field must not be silently
/// normalised: it is a malformed identifier and must be rejected.
#[test]
fn parse_traceparent_rejects_internal_whitespace_in_trace_id() {
    let malformed = format!("00-4bf92f3577b34da6 a3ce929d0e0e4736-{SPAN}-01");
    assert_eq!(
        TraceContext::parse_traceparent(&malformed),
        Err(TraceError::InvalidTraceId),
        "internal whitespace in trace-id must be rejected, not silently trimmed"
    );
}

// ── Further cases ────────────────────────────────────────────────────────

#[test]
fn root_from_seed_uses_sha256_of_the_seed() {
    // SHA-256("") = e3b0c44298fc1c149afbf4c8996fb924 27ae41e4649b934c ...
    let ctx = TraceContext::root_from_seed("");
    assert_eq!(ctx.trace_id(), "e3b0c44298fc1c149afbf4c8996fb924");
    assert_eq!(ctx.span_id(), "27ae41e4649b934c");
    assert!(ctx.sampled());
    // SHA-256("abc") = ba7816bf8f01cfea414140de5dae2223 b00361a396177a9c ...
    let abc = TraceContext::root_from_seed("abc");
    assert_eq!(abc.trace_id(), "ba7816bf8f01cfea414140de5dae2223");
    assert_eq!(abc.span_id(), "b00361a396177a9c");
}

#[test]
fn child_span_is_hash_of_trace_span_and_seed() {
    // The child of (TRACE, SPAN) for seed "x" hashes "TRACE:SPAN:x".
    let root = TraceContext::new(TRACE, SPAN, None, true).unwrap();
    let a = root.child("x");
    let b = TraceContext::new(TRACE, SPAN, Some("0000000000000001"), true).unwrap().child("x");
    assert_eq!(a.span_id(), b.span_id());
    assert_eq!(a.child("x").parent_span_id(), Some(a.span_id()));
}

#[test]
fn child_for_attempt_equals_child_with_attempt_seed() {
    let root = TraceContext::root_from_seed("retry");
    assert_eq!(root.child_for_attempt(17), root.child("attempt-17"));
    assert_eq!(root.child_for_attempt(0), root.child("attempt-0"));
}

#[test]
fn parsed_context_has_no_parent() {
    let ctx = TraceContext::new(TRACE, SPAN, Some("1111111111111111"), true).unwrap();
    let parsed = TraceContext::parse_traceparent(&ctx.to_traceparent()).unwrap();
    assert!(parsed.parent_span_id().is_none());
    assert_eq!(parsed, TraceContext::new(TRACE, SPAN, None, true).unwrap());
}

#[test]
fn parse_reports_each_error_in_order() {
    assert_eq!(TraceContext::parse_traceparent(""), Err(TraceError::MalformedTraceparent));
    assert_eq!(
        TraceContext::parse_traceparent("00--00f067aa0ba902b7-01"),
        Err(TraceError::InvalidTraceId)
    );
    assert_eq!(
        TraceContext::parse_traceparent(&format!("0-{}-{SPAN}-01", "0".repeat(32))),
        Err(TraceError::UnsupportedVersion)
    );
    assert_eq!(
        TraceContext::parse_traceparent(&format!("00-{TRACE}-{SPAN}-0g")),
        Err(TraceError::InvalidFlags)
    );
    assert_eq!(
        TraceContext::parse_traceparent(&format!("00-{TRACE}-{SPAN}-AB")),
        Err(TraceError::InvalidFlags)
    );
}

#[test]
fn parse_reads_sampled_bit_from_flags() {
    assert!(TraceContext::parse_traceparent(&format!("00-{TRACE}-{SPAN}-03")).unwrap().sampled());
    assert!(TraceContext::parse_traceparent(&format!("00-{TRACE}-{SPAN}-ff")).unwrap().sampled());
    assert!(!TraceContext::parse_traceparent(&format!("00-{TRACE}-{SPAN}-fe")).unwrap().sampled());
    assert!(!TraceContext::parse_traceparent(&format!("00-{TRACE}-{SPAN}-10")).unwrap().sampled());
}

#[test]
fn parse_trims_unicode_whitespace() {
    let header = format!("\u{3000}\t00-{TRACE}-{SPAN}-01\u{2028}\n");
    assert!(TraceContext::parse_traceparent(&header).is_ok());
}

#[test]
fn with_sampled_changes_only_the_flag() {
    let ctx = TraceContext::new(TRACE, SPAN, Some(SPAN), true).unwrap();
    let off = ctx.clone().with_sampled(false);
    assert!(!off.sampled());
    assert_eq!(off.trace_id(), TRACE);
    assert_eq!(off.parent_span_id(), Some(SPAN));
    assert!(off.to_traceparent().ends_with("-00"));
}

#[test]
fn log_fields_for_child_are_exact() {
    let ctx = TraceContext::new(TRACE, "1111111111111111", Some(SPAN), true).unwrap();
    assert_eq!(
        ctx.log_fields(),
        format!("trace_id={TRACE} span_id=1111111111111111 parent_span_id={SPAN}")
    );
}

#[test]
fn non_zero_id_single_zero() {
    assert_eq!(non_zero_id("0"), "1");
    assert_eq!(non_zero_id("0001"), "0001");
}

/// An empty trace ID must be rejected as invalid context rather than
/// accepted as a valid propagated trace.
#[test]
fn empty_trace_id_is_rejected() {
    let inbound = "00--00f067aa0ba902b7-01";
    assert_eq!(
        TraceContext::parse_traceparent(inbound),
        Err(TraceError::InvalidTraceId),
        "an empty trace ID must not be accepted as valid propagated context"
    );
}

#[test]
fn parsed_header_renders_back_trimmed() {
    for flags in ["00", "01"] {
        let header = format!("00-{TRACE}-{SPAN}-{flags}");
        let padded = format!(" \t{header}\n");
        let ctx = TraceContext::parse_traceparent(&padded).unwrap();
        assert_eq!(ctx.to_traceparent(), header);
    }
}

#[test]
fn log_fields_name_a_parent_exactly_for_children() {
    let root = TraceContext::new(TRACE, SPAN, None, true).unwrap();
    assert!(!root.log_fields().contains("parent_span_id="));
    let child = root.child("step");
    assert!(child.log_fields().contains("parent_span_id="));
    assert!(!TraceContext::parse_traceparent(&child.to_traceparent())
        .unwrap()
        .log_fields()
        .contains("parent_span_id="));
}
