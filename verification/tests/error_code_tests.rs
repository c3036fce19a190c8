use std::collections::HashSet;

#[test]
fn test_no_overlapping_discriminants() {
    let all: &[(u32, &str)] = &[
        (1, "AlreadyInitialized"),
        (2, "AttestorAlreadyRegistered"),
        (3, "AttestorNotRegistered"),
        (4, "UnauthorizedAttestor"),
        (5, "InvalidTimestamp"),
        (6, "ReplayAttack"),
        (7, "InvalidQuote"),
        (8, "InvalidServiceType"),
        (9, "InvalidTransactionIntent"),
        (10, "StaleQuote"),
        (11, "ComplianceNotMet"),
        (12, "InvalidEndpointFormat"),
        (13, "NoQuotesAvailable"),
        (14, "ServicesNotConfigured"),
        (15, "ValidationError"),
        (16, "RateLimitExceeded"),
        (17, "AttestationNotFound"),
        (18, "InvalidSep10Token"),
        (19, "KycNotFound"),
        (20, "KycPending"),
        (21, "KycRejected"),
        (22, "WebhookDeliveryFailed"),
        (23, "NotInitialized"),
        (24, "IllegalTransition"),
        (25, "SessionExpired"),
        (26, "SessionClosed"),
        (27, "UnsupportedCapabilityVersion"),
        (28, "Unauthorized"),
        (30, "SessionOperationLimitExceeded"),
        (31, "InvalidWeights"),
        (32, "SessionNotFound"),
        (33, "QuoteNotFound"),
        (34, "AuditLogNotFound"),
        (35, "TransactionNotFound"),
        (48, "CacheExpired"),
        (49, "CacheNotFound"),
        (50, "AttestorProfileNotFound"),
        (51, "InvalidRequestContext"),
        (52, "InvalidSessionMetadata"),
        (53, "InvalidAssetCode"),
        (54, "AttestorCapacityExceeded"),
        (55, "CacheCapacityExceeded"),
        (56, "EndpointNotSet"),
        (57, "WebhookUrlNotSet"),
        (58, "KycExpired"),
        (59, "AttestorRevoked"),
        (60, "QuoteExpired"),
        (61, "SignatureVerificationFailed"),
        (62, "BatchSizeExceeded"),
    ];
    let mut seen = HashSet::new();
    for (disc, name) in all {
        assert!(seen.insert(disc), "duplicate discriminant {disc} for {name}");
    }
}
