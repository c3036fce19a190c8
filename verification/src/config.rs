//! Runtime configuration: its sections, the cross-field validation applied
//! after a configuration file has been read, and the choice of file format
//! from a path.
//!
//! Reading a file and turning JSON or TOML text into these values is I/O and
//! deserialisation, done around this library; what is checked of the values
//! is decided here.

use vstd::prelude::*;

use crate::text::{chars_of, fields_view, push_char, same_chars, split_fields, split_on};

verus! {

// ---------------------------------------------------------------------------
// Configuration sections
// ---------------------------------------------------------------------------

#[derive(Clone, Debug, PartialEq)]
pub struct ContractConfig {
    pub name: String,
    pub version: String,
    pub description: Option<String>,
    pub network: String,
    pub admin_address: Option<String>,
}

#[derive(Clone, Debug, PartialEq)]
pub struct AttestorsConfig {
    pub registry: Vec<AttestorConfig>,
}

#[derive(Clone, Debug, PartialEq)]
pub struct AttestorConfig {
    pub name: String,
    pub address: String,
    pub description: Option<String>,
    pub endpoint: Option<String>,
    pub contact_email: Option<String>,
    pub role: String,
    pub enabled: bool,
}

#[derive(Clone, Debug, PartialEq)]
pub struct SessionsConfig {
    pub enable_session_tracking: Option<bool>,
    pub session_timeout_seconds: Option<u64>,
    pub operations_per_session: Option<u64>,
    pub audit_log_retention_days: Option<u64>,
}

#[derive(Clone, Debug, PartialEq)]
pub struct OperationsConfig {
    pub templates: Option<Vec<OperationTemplateConfig>>,
}

/// An operation template.  Its payload schema, a JSON document, is held as
/// its JSON text.
#[derive(Clone, Debug, PartialEq)]
pub struct OperationTemplateConfig {
    pub id: String,
    pub name: String,
    pub attestor: String,
    pub operation_type: String,
    pub required_fields: Vec<String>,
    pub replay_protection: String,
    pub description: Option<String>,
    pub payload_schema: Option<String>,
}

#[derive(Clone, Debug, PartialEq)]
pub struct StorageConfig {
    pub instance_ttl_days: Option<u64>,
    pub session_cache_enabled: Option<bool>,
    pub persistent_ttl_days: Option<u64>,
    pub audit_log_enabled: Option<bool>,
    pub audit_log_compression: Option<String>,
}

#[derive(Clone, Debug, PartialEq)]
pub struct SecurityConfig {
    pub require_signature_verification: Option<bool>,
    pub signature_algorithm: Option<String>,
    pub signature_expiry_seconds: Option<u64>,
    pub nonce_required: Option<bool>,
    pub nonce_reuse_prevention: Option<bool>,
    pub endpoint_pins: Option<Vec<EndpointPinConfig>>,
    pub rate_limits: Option<Vec<RateLimitConfig>>,
    pub multisig_requirements: Option<Vec<MultisigRequirementConfig>>,
}

#[derive(Clone, Debug, PartialEq)]
pub struct EndpointPinConfig {
    pub endpoint: String,
    pub pin_sha256: String,
}

#[derive(Clone, Debug, PartialEq)]
pub struct RateLimitConfig {
    pub attestor: String,
    pub requests_per_minute: u64,
    pub requests_per_hour: u64,
}

#[derive(Clone, Debug, PartialEq)]
pub struct MultisigRequirementConfig {
    pub operation: String,
    pub required_signatures: u64,
    pub signatory_attestors: Vec<String>,
}

/// Credentials that authenticate to a proxy via HTTP Basic.
#[derive(Clone, Debug, PartialEq)]
pub struct ProxyCredentials {
    pub username: String,
    pub password: String,
}

/// Proxy settings for outbound HTTP requests.
///
/// Scheme-specific proxies (`http_proxy_url` / `https_proxy_url`) take
/// precedence over the catch-all `proxy_url`; hosts on `no_proxy` bypass all
/// proxies.
#[derive(Clone, Debug, PartialEq)]
pub struct ProxyConfig {
    pub proxy_url: Option<String>,
    pub http_proxy_url: Option<String>,
    pub https_proxy_url: Option<String>,
    pub no_proxy: Option<String>,
    pub credentials: Option<ProxyCredentials>,
}

/// The sections of the runtime configuration that validation reads.
#[derive(Clone, Debug, PartialEq)]
pub struct RuntimeConfig {
    pub contract: ContractConfig,
    pub attestors: AttestorsConfig,
    pub sessions: Option<SessionsConfig>,
    pub operations: Option<OperationsConfig>,
    pub storage: Option<StorageConfig>,
    pub security: Option<SecurityConfig>,
    pub proxy: Option<ProxyConfig>,
}

// ---------------------------------------------------------------------------
// Proxy validation
// ---------------------------------------------------------------------------

/// `u` is `p` followed by at least one more character.
pub open spec fn has_prefix_and_more(u: Seq<char>, p: Seq<char>) -> bool {
    u.len() > p.len() && u.take(p.len() as int) == p
}

/// A proxy URL uses the `http` or `https` scheme and names something after it.
pub open spec fn proxy_url_ok(u: Seq<char>) -> bool {
    has_prefix_and_more(u, "http://"@) || has_prefix_and_more(u, "https://"@)
}

/// The first proxy URL (catch-all, then `http`, then `https`) that is not
/// acceptable.
pub open spec fn first_bad_proxy_url(p: ProxyConfig) -> Option<Seq<char>> {
    if p.proxy_url matches Some(u) && !proxy_url_ok(u@) {
        Some(p.proxy_url->0@)
    } else if p.http_proxy_url matches Some(u) && !proxy_url_ok(u@) {
        Some(p.http_proxy_url->0@)
    } else if p.https_proxy_url matches Some(u) && !proxy_url_ok(u@) {
        Some(p.https_proxy_url->0@)
    } else {
        None
    }
}

/// Some proxy URL is set.
pub open spec fn proxy_configured(p: ProxyConfig) -> bool {
    p.proxy_url is Some || p.http_proxy_url is Some || p.https_proxy_url is Some
}

/// The proxy settings are acceptable.
pub open spec fn proxy_valid(p: ProxyConfig) -> bool {
    &&& first_bad_proxy_url(p) is None
    &&& p.credentials matches Some(c) ==> proxy_configured(p) && c.username@.len() > 0
}

/// Why proxy settings are refused.
#[derive(Clone, Debug, PartialEq)]
pub enum ProxyError {
    /// A proxy URL does not use the `http` or `https` scheme.
    InvalidUrl(String),
    /// Credentials are given but no proxy URL is.
    CredentialsWithoutUrl,
    /// The credentials' username is empty.
    EmptyUsername,
}

/// `e` is the reason validation gives for refusing `p`.
pub open spec fn proxy_reports(p: ProxyConfig, e: ProxyError) -> bool {
    match e {
        ProxyError::InvalidUrl(u) => first_bad_proxy_url(p) == Some(u@),
        ProxyError::CredentialsWithoutUrl => {
            &&& first_bad_proxy_url(p) is None
            &&& p.credentials is Some
            &&& !proxy_configured(p)
        },
        ProxyError::EmptyUsername => {
            &&& first_bad_proxy_url(p) is None
            &&& proxy_configured(p)
            &&& p.credentials matches Some(c) && c.username@.len() == 0
        },
    }
}

/// The text of a proxy error.
pub open spec fn proxy_message(e: ProxyError) -> Seq<char> {
    match e {
        ProxyError::InvalidUrl(u) => "invalid proxy URL '"@ + u@
            + "': only http:// and https:// proxies are supported"@,
        ProxyError::CredentialsWithoutUrl => "credentials supplied but no proxy URL configured"@,
        ProxyError::EmptyUsername => "proxy credentials username cannot be empty"@,
    }
}

/// Whether `u` is `p` followed by at least one more character.
fn starts_with_and_more(u: &Vec<char>, p: &Vec<char>) -> (r: bool)
    ensures
        r == has_prefix_and_more(u@, p@),
{
    if u.len() <= p.len() {
        return false;
    }
    let mut i: usize = 0;
    while i < p.len()
        invariant
            i <= p@.len(),
            p@.len() < u@.len(),
            forall|j: int| 0 <= j < i ==> u@[j] == p@[j],
        decreases p.len() - i,
    {
        if u[i] != p[i] {
            assert(u@.take(p@.len() as int)[i as int] != p@[i as int]);
            return false;
        }
        i = i + 1;
    }
    assert(u@.take(p@.len() as int) =~= p@);
    true
}

/// Whether a proxy URL is acceptable.
fn check_proxy_url(u: &String) -> (r: bool)
    ensures
        r == proxy_url_ok(u@),
{
    let v = chars_of(u.as_str());
    let http = chars_of("http://");
    let https = chars_of("https://");
    starts_with_and_more(&v, &http) || starts_with_and_more(&v, &https)
}

impl ProxyError {
    /// The error as a human-readable sentence.
    pub fn message(&self) -> (m: String)
        ensures
            m@ == proxy_message(*self),
    {
        let mut m = String::new();
        match self {
            ProxyError::InvalidUrl(u) => {
                m.append("invalid proxy URL '");
                m.append(u.as_str());
                m.append("': only http:// and https:// proxies are supported");
            },
            ProxyError::CredentialsWithoutUrl => {
                m.append("credentials supplied but no proxy URL configured");
            },
            ProxyError::EmptyUsername => {
                m.append("proxy credentials username cannot be empty");
            },
        }
        m
    }
}

impl ProxyConfig {
    /// Whether any proxy URL is set.
    pub fn is_configured(&self) -> (r: bool)
        ensures
            r == proxy_configured(*self),
    {
        self.proxy_url.is_some() || self.http_proxy_url.is_some() || self.https_proxy_url.is_some()
    }

    /// Whether credentials are set.
    pub fn has_credentials(&self) -> (r: bool)
        ensures
            r == self.credentials is Some,
    {
        self.credentials.is_some()
    }

    /// Check the settings: every proxy URL must use `http` or `https`, and
    /// credentials need a proxy URL and a non-empty username.
    pub fn validate(&self) -> (r: Result<(), ProxyError>)
        ensures
            r is Ok <==> proxy_valid(*self),
            r matches Err(e) ==> proxy_reports(*self, e),
    {
        match &self.proxy_url {
            Some(u) => {
                if !check_proxy_url(u) {
                    return Err(ProxyError::InvalidUrl(u.clone()));
                }
            },
            None => {},
        }
        match &self.http_proxy_url {
            Some(u) => {
                if !check_proxy_url(u) {
                    return Err(ProxyError::InvalidUrl(u.clone()));
                }
            },
            None => {},
        }
        match &self.https_proxy_url {
            Some(u) => {
                if !check_proxy_url(u) {
                    return Err(ProxyError::InvalidUrl(u.clone()));
                }
            },
            None => {},
        }
        match &self.credentials {
            Some(c) => {
                if !self.is_configured() {
                    return Err(ProxyError::CredentialsWithoutUrl);
                }
                if c.username.as_str().is_empty() {
                    return Err(ProxyError::EmptyUsername);
                }
            },
            None => {},
        }
        Ok(())
    }
}

impl Default for ProxyConfig {
    fn default() -> (p: Self)
        ensures
            p.proxy_url is None,
            p.http_proxy_url is None,
            p.https_proxy_url is None,
            p.no_proxy is None,
            p.credentials is None,
    {
        ProxyConfig {
            proxy_url: None,
            http_proxy_url: None,
            https_proxy_url: None,
            no_proxy: None,
            credentials: None,
        }
    }
}

// ---------------------------------------------------------------------------
// Cross-field validation
// ---------------------------------------------------------------------------

/// The names of the registered attestors, in registry order.
pub open spec fn registry_names(c: RuntimeConfig) -> Seq<Seq<char>> {
    c.attestors.registry@.map_values(|a: AttestorConfig| a.name@)
}

/// `name` is the name of a registered attestor.
pub open spec fn is_registered(c: RuntimeConfig, name: Seq<char>) -> bool {
    registry_names(c).contains(name)
}

/// The operation templates, or none.
pub open spec fn templates_of(c: RuntimeConfig) -> Seq<OperationTemplateConfig> {
    match c.operations {
        Some(ops) => match ops.templates {
            Some(ts) => ts@,
            None => Seq::empty(),
        },
        None => Seq::empty(),
    }
}

/// The rate limits, or none.
pub open spec fn rate_limits_of(c: RuntimeConfig) -> Seq<RateLimitConfig> {
    match c.security {
        Some(sec) => match sec.rate_limits {
            Some(rs) => rs@,
            None => Seq::empty(),
        },
        None => Seq::empty(),
    }
}

/// The multisig requirements, or none.
pub open spec fn multisig_of(c: RuntimeConfig) -> Seq<MultisigRequirementConfig> {
    match c.security {
        Some(sec) => match sec.multisig_requirements {
            Some(ms) => ms@,
            None => Seq::empty(),
        },
        None => Seq::empty(),
    }
}

/// Template `i` names a registered attestor.
pub open spec fn template_ok(c: RuntimeConfig, i: int) -> bool {
    is_registered(c, templates_of(c)[i].attestor@)
}

/// Rate limit `i` names a registered attestor.
pub open spec fn rate_limit_ok(c: RuntimeConfig, i: int) -> bool {
    is_registered(c, rate_limits_of(c)[i].attestor@)
}

/// Signatory `j` of multisig requirement `i` is a registered attestor.
pub open spec fn signatory_ok(c: RuntimeConfig, i: int, j: int) -> bool {
    is_registered(c, multisig_of(c)[i].signatory_attestors@[j]@)
}

/// Every signatory of multisig requirement `i` is a registered attestor.
pub open spec fn requirement_ok(c: RuntimeConfig, i: int) -> bool {
    forall|j: int| 0 <= j < multisig_of(c)[i].signatory_attestors@.len() ==> #[trigger] signatory_ok(c, i, j)
}

pub open spec fn all_templates_ok(c: RuntimeConfig) -> bool {
    forall|i: int| 0 <= i < templates_of(c).len() ==> #[trigger] template_ok(c, i)
}

pub open spec fn all_rate_limits_ok(c: RuntimeConfig) -> bool {
    forall|i: int| 0 <= i < rate_limits_of(c).len() ==> #[trigger] rate_limit_ok(c, i)
}

pub open spec fn all_requirements_ok(c: RuntimeConfig) -> bool {
    forall|i: int| 0 <= i < multisig_of(c).len() ==> #[trigger] requirement_ok(c, i)
}

/// The configuration passes every cross-field check.
pub open spec fn config_valid(c: RuntimeConfig) -> bool {
    &&& c.contract.name@.len() > 0
    &&& c.attestors.registry@.len() > 0
    &&& all_templates_ok(c)
    &&& all_rate_limits_ok(c)
    &&& all_requirements_ok(c)
    &&& c.proxy matches Some(p) ==> proxy_valid(p)
}

/// Why a configuration is refused.
#[derive(Clone, Debug, PartialEq)]
pub enum ConfigError {
    /// `contract.name` is empty.
    EmptyContractName,
    /// `attestors.registry` is empty.
    EmptyRegistry,
    /// An operation template names an attestor that is not registered.
    UnknownOperationAttestor { operation: String, attestor: String },
    /// A rate limit names an attestor that is not registered.
    UnknownRateLimitAttestor { attestor: String },
    /// A multisig requirement names a signatory that is not registered.
    UnknownSignatory { operation: String, attestor: String },
    /// The proxy settings are refused.
    Proxy(ProxyError),
}

/// `e` is the error validation reports for `c`: the first check that fails,
/// in the order contract name, registry, operation templates, rate limits,
/// multisig requirements (requirement by requirement, signatory by
/// signatory), proxy.
pub open spec fn config_reports(c: RuntimeConfig, e: ConfigError) -> bool {
    if c.contract.name@.len() == 0 {
        e is EmptyContractName
    } else if c.attestors.registry@.len() == 0 {
        e is EmptyRegistry
    } else if !all_templates_ok(c) {
        exists|i: int|
            #![trigger template_ok(c, i)]
            {
                &&& 0 <= i < templates_of(c).len()
                &&& !template_ok(c, i)
                &&& forall|k: int| 0 <= k < i ==> #[trigger] template_ok(c, k)
                &&& e matches ConfigError::UnknownOperationAttestor { operation, attestor }
                &&& operation@ == templates_of(c)[i].id@
                &&& attestor@ == templates_of(c)[i].attestor@
            }
    } else if !all_rate_limits_ok(c) {
        exists|i: int|
            #![trigger rate_limit_ok(c, i)]
            {
                &&& 0 <= i < rate_limits_of(c).len()
                &&& !rate_limit_ok(c, i)
                &&& forall|k: int| 0 <= k < i ==> #[trigger] rate_limit_ok(c, k)
                &&& e matches ConfigError::UnknownRateLimitAttestor { attestor }
                &&& attestor@ == rate_limits_of(c)[i].attestor@
            }
    } else if !all_requirements_ok(c) {
        exists|i: int, j: int|
            #![trigger signatory_ok(c, i, j)]
            {
                &&& 0 <= i < multisig_of(c).len()
                &&& 0 <= j < multisig_of(c)[i].signatory_attestors@.len()
                &&& !signatory_ok(c, i, j)
                &&& forall|k: int| 0 <= k < i ==> #[trigger] requirement_ok(c, k)
                &&& forall|k: int| 0 <= k < j ==> #[trigger] signatory_ok(c, i, k)
                &&& e matches ConfigError::UnknownSignatory { operation, attestor }
                &&& operation@ == multisig_of(c)[i].operation@
                &&& attestor@ == multisig_of(c)[i].signatory_attestors@[j]@
            }
    } else {
        &&& c.proxy is Some
        &&& e matches ConfigError::Proxy(pe)
        &&& proxy_reports(c.proxy->0, pe)
    }
}

/// The text of a configuration error.
pub open spec fn config_message(e: ConfigError) -> Seq<char> {
    match e {
        ConfigError::EmptyContractName => "contract.name cannot be empty"@,
        ConfigError::EmptyRegistry => "attestors.registry cannot be empty"@,
        ConfigError::UnknownOperationAttestor { operation, attestor } => "operation '"@
            + operation@ + "' references unknown attestor '"@ + attestor@ + "'"@,
        ConfigError::UnknownRateLimitAttestor { attestor } => "rate limit references unknown attestor '"@
            + attestor@ + "'"@,
        ConfigError::UnknownSignatory { operation, attestor } => "multisig requirement '"@
            + operation@ + "' references unknown attestor '"@ + attestor@ + "'"@,
        ConfigError::Proxy(pe) => "proxy: "@ + proxy_message(pe),
    }
}

impl ConfigError {
    /// The error as a human-readable sentence.
    pub fn message(&self) -> (m: String)
        ensures
            m@ == config_message(*self),
    {
        let mut m = String::new();
        match self {
            ConfigError::EmptyContractName => {
                m.append("contract.name cannot be empty");
            },
            ConfigError::EmptyRegistry => {
                m.append("attestors.registry cannot be empty");
            },
            ConfigError::UnknownOperationAttestor { operation, attestor } => {
                m.append("operation '");
                m.append(operation.as_str());
                m.append("' references unknown attestor '");
                m.append(attestor.as_str());
                m.append("'");
            },
            ConfigError::UnknownRateLimitAttestor { attestor } => {
                m.append("rate limit references unknown attestor '");
                m.append(attestor.as_str());
                m.append("'");
            },
            ConfigError::UnknownSignatory { operation, attestor } => {
                m.append("multisig requirement '");
                m.append(operation.as_str());
                m.append("' references unknown attestor '");
                m.append(attestor.as_str());
                m.append("'");
            },
            ConfigError::Proxy(pe) => {
                m.append("proxy: ");
                let inner = pe.message();
                m.append(inner.as_str());
            },
        }
        m
    }
}

/// Whether `name` is the name of a registered attestor.
fn is_registered_attestor(config: &RuntimeConfig, name: &String) -> (r: bool)
    ensures
        r == is_registered(*config, name@),
{
    let registry = &config.attestors.registry;
    let ghost names = registry_names(*config);
    let mut i: usize = 0;
    while i < registry.len()
        invariant
            i <= registry@.len(),
            names == registry_names(*config),
            registry@ == config.attestors.registry@,
            forall|k: int| 0 <= k < i ==> names[k] != name@,
        decreases registry.len() - i,
    {
        if registry[i].name == *name {
            assert(names[i as int] == name@);
            return true;
        }
        i = i + 1;
    }
    assert(!names.contains(name@)) by {
        if names.contains(name@) {
            let k = choose|k: int| 0 <= k < names.len() && names[k] == name@;
            assert(names[k] != name@);
        }
    }
    false
}

/// Cross-field semantic validation of a configuration: a non-empty contract
/// name, a non-empty attestor registry, every attestor named by an operation
/// template, a rate limit or a multisig requirement registered, and
/// acceptable proxy settings.  The first failing check is reported.
#[verifier::spinoff_prover]
pub fn validate_runtime_config(config: &RuntimeConfig) -> (r: Result<(), ConfigError>)
    ensures
        r is Ok <==> config_valid(*config),
        r matches Err(e) ==> config_reports(*config, e),
{
    let ghost c = *config;
    if config.contract.name.as_str().is_empty() {
        return Err(ConfigError::EmptyContractName);
    }
    if config.attestors.registry.len() == 0 {
        return Err(ConfigError::EmptyRegistry);
    }
    match &config.operations {
        Some(operations) => match &operations.templates {
            Some(templates) => {
                let mut i: usize = 0;
                while i < templates.len()
                    invariant
                        i <= templates@.len(),
                        templates@ == templates_of(c),
                        c == *config,
                        c.contract.name@.len() > 0,
                        c.attestors.registry@.len() > 0,
                        forall|k: int| 0 <= k < i ==> #[trigger] template_ok(c, k),
                    decreases templates.len() - i,
                {
                    let template = &templates[i];
                    if !is_registered_attestor(config, &template.attestor) {
                        let e = ConfigError::UnknownOperationAttestor {
                            operation: template.id.clone(),
                            attestor: template.attestor.clone(),
                        };
                        assert(!template_ok(c, i as int));
                        assert(!all_templates_ok(c));
                        return Err(e);
                    }
                    i = i + 1;
                }
            },
            None => {},
        },
        None => {},
    }
    assert(all_templates_ok(c));
    match &config.security {
        Some(security) => {
            match &security.rate_limits {
                Some(rate_limits) => {
                    let mut i: usize = 0;
                    while i < rate_limits.len()
                        invariant
                            i <= rate_limits@.len(),
                            rate_limits@ == rate_limits_of(c),
                            c == *config,
                            c.contract.name@.len() > 0,
                            c.attestors.registry@.len() > 0,
                            all_templates_ok(c),
                            forall|k: int| 0 <= k < i ==> #[trigger] rate_limit_ok(c, k),
                        decreases rate_limits.len() - i,
                    {
                        let rate_limit = &rate_limits[i];
                        if !is_registered_attestor(config, &rate_limit.attestor) {
                            let e = ConfigError::UnknownRateLimitAttestor {
                                attestor: rate_limit.attestor.clone(),
                            };
                            assert(!rate_limit_ok(c, i as int));
                            assert(!all_rate_limits_ok(c));
                            return Err(e);
                        }
                        i = i + 1;
                    }
                },
                None => {},
            }
            assert(all_rate_limits_ok(c));
            match &security.multisig_requirements {
                Some(requirements) => {
                    let mut i: usize = 0;
                    while i < requirements.len()
                        invariant
                            i <= requirements@.len(),
                            requirements@ == multisig_of(c),
                            c == *config,
                            c.contract.name@.len() > 0,
                            c.attestors.registry@.len() > 0,
                            all_templates_ok(c),
                            all_rate_limits_ok(c),
                            forall|k: int| 0 <= k < i ==> #[trigger] requirement_ok(c, k),
                        decreases requirements.len() - i,
                    {
                        let requirement = &requirements[i];
                        let signatories = &requirement.signatory_attestors;
                        let mut j: usize = 0;
                        while j < signatories.len()
                            invariant
                                j <= signatories@.len(),
                                i < requirements@.len(),
                                requirements@ == multisig_of(c),
                                signatories@ == multisig_of(c)[i as int].signatory_attestors@,
                                *requirement == multisig_of(c)[i as int],
                                c == *config,
                                c.contract.name@.len() > 0,
                                c.attestors.registry@.len() > 0,
                                all_templates_ok(c),
                                all_rate_limits_ok(c),
                                forall|k: int| 0 <= k < i ==> #[trigger] requirement_ok(c, k),
                                forall|k: int| 0 <= k < j ==> #[trigger] signatory_ok(c, i as int, k),
                            decreases signatories.len() - j,
                        {
                            if !is_registered_attestor(config, &signatories[j]) {
                                let e = ConfigError::UnknownSignatory {
                                    operation: requirement.operation.clone(),
                                    attestor: signatories[j].clone(),
                                };
                                assert(!signatory_ok(c, i as int, j as int));
                                assert(!requirement_ok(c, i as int));
                                assert(!all_requirements_ok(c));
                                return Err(e);
                            }
                            j = j + 1;
                        }
                        assert(requirement_ok(c, i as int));
                        i = i + 1;
                    }
                },
                None => {},
            }
        },
        None => {},
    }
    assert(all_rate_limits_ok(c));
    assert(all_requirements_ok(c));
    match &config.proxy {
        Some(proxy) => match proxy.validate() {
            Ok(()) => {},
            Err(pe) => {
                return Err(ConfigError::Proxy(pe));
            },
        },
        None => {},
    }
    Ok(())
}

// ---------------------------------------------------------------------------
// File format
// ---------------------------------------------------------------------------

/// The format of a configuration file.
#[derive(Copy, Clone, Debug, PartialEq, Structural)]
pub enum ConfigFormat {
    Json,
    Toml,
}

/// A path component that names something: neither empty nor `.`.
pub open spec fn names_entry(part: Seq<char>) -> bool {
    part.len() > 0 && part != seq!['.']
}

/// The last component of `parts` that names something.
pub open spec fn last_named(parts: Seq<Seq<char>>) -> Option<Seq<char>>
    decreases parts.len(),
{
    if parts.len() == 0 {
        None
    } else if names_entry(parts.last()) {
        Some(parts.last())
    } else {
        last_named(parts.drop_last())
    }
}

/// The final component of a `/`-separated path, as `Path::file_name` gives
/// it: `None` when the path ends in `..` or names nothing.
pub open spec fn file_name_of(path: Seq<char>) -> Option<Seq<char>> {
    match last_named(split_on(path, '/')) {
        Some(name) => if name == seq!['.', '.'] {
            None
        } else {
            Some(name)
        },
        None => None,
    }
}

/// The index of the last `.` in `s`, or -1.
pub open spec fn last_dot(s: Seq<char>) -> int
    decreases s.len(),
{
    if s.len() == 0 {
        -1
    } else if s.last() == '.' {
        s.len() - 1
    } else {
        last_dot(s.drop_last())
    }
}

/// The extension of a path, as `Path::extension` gives it: what follows the
/// last `.` of the file name, unless that `.` starts the name.
pub open spec fn extension_of(path: Seq<char>) -> Option<Seq<char>> {
    match file_name_of(path) {
        Some(name) => if last_dot(name) <= 0 {
            None
        } else {
            Some(name.subrange(last_dot(name) + 1, name.len() as int))
        },
        None => None,
    }
}

/// The format chosen for `path`, or the error text.
pub open spec fn format_for(path: Seq<char>) -> Result<ConfigFormat, Seq<char>> {
    match extension_of(path) {
        Some(ext) => if ext == "json"@ {
            Ok(ConfigFormat::Json)
        } else if ext == "toml"@ {
            Ok(ConfigFormat::Toml)
        } else {
            Err("unsupported config extension: "@ + ext)
        },
        None => Err("config path has no extension"@),
    }
}

/// The extension of `path`, as characters.
fn path_extension(path: &str) -> (r: Option<Vec<char>>)
    ensures
        match r {
            Some(e) => extension_of(path@) == Some(e@),
            None => extension_of(path@) is None,
        },
{
    let v = chars_of(path);
    assert(v@.subrange(0, v@.len() as int) =~= v@);
    let parts = split_fields(&v, 0, v.len(), '/');
    let ghost pv = fields_view(parts@);
    let mut k = parts.len();
    assert(pv.take(k as int) =~= pv);
    while k > 0 && !(parts[k - 1].len() > 0 && !(parts[k - 1].len() == 1 && parts[k - 1][0] == '.'))
        invariant
            k <= parts@.len(),
            pv == fields_view(parts@),
            last_named(pv) == last_named(pv.take(k as int)),
        decreases k,
    {
        assert(pv[k - 1] == parts@[k - 1]@);
        assert(!names_entry(pv[k - 1])) by {
            if parts@[k - 1]@.len() == 1 {
                assert(parts@[k - 1]@ =~= seq!['.']);
            }
        }
        assert(pv.take(k as int).drop_last() =~= pv.take(k - 1));
        k = k - 1;
    }
    if k == 0 {
        return None;
    }
    let name = &parts[k - 1];
    assert(pv[k - 1] == name@);
    assert(names_entry(name@)) by {
        if name@ == seq!['.'] {
            assert(name@.len() == 1 && name@[0] == '.');
        }
    }
    assert(last_named(pv.take(k as int)) == Some(name@));
    if name.len() == 2 && name[0] == '.' && name[1] == '.' {
        assert(name@ =~= seq!['.', '.']);
        return None;
    }
    let mut d = name.len();
    assert(name@.take(d as int) =~= name@);
    while d > 0 && name[d - 1] != '.'
        invariant
            d <= name@.len(),
            last_dot(name@) == last_dot(name@.take(d as int)),
        decreases d,
    {
        assert(name@.take(d as int).drop_last() =~= name@.take(d - 1));
        d = d - 1;
    }
    if d <= 1 {
        return None;
    }
    assert(last_dot(name@) == d - 1);
    let mut ext: Vec<char> = Vec::new();
    let mut i = d;
    while i < name.len()
        invariant
            d <= i <= name@.len(),
            ext@ == name@.subrange(d as int, i as int),
        decreases name.len() - i,
    {
        ext.push(name[i]);
        assert(ext@ =~= name@.subrange(d as int, i + 1));
        i = i + 1;
    }
    Some(ext)
}

impl ConfigFormat {
    /// Choose the format from the extension of `path`: `json` or `toml`.
    pub fn from_path(path: &str) -> (r: Result<Self, String>)
        ensures
            match r {
                Ok(f) => format_for(path@) == Ok::<ConfigFormat, Seq<char>>(f),
                Err(m) => format_for(path@) == Err::<ConfigFormat, Seq<char>>(m@),
            },
    {
        match path_extension(path) {
            Some(ext) => {
                let json = chars_of("json");
                let toml = chars_of("toml");
                if same_chars(&ext, &json) {
                    Ok(ConfigFormat::Json)
                } else if same_chars(&ext, &toml) {
                    Ok(ConfigFormat::Toml)
                } else {
                    let mut m = String::new();
                    m.append("unsupported config extension: ");
                    let mut i: usize = 0;
                    let ghost start = m@;
                    while i < ext.len()
                        invariant
                            i <= ext@.len(),
                            m@ == start + ext@.take(i as int),
                        decreases ext.len() - i,
                    {
                        push_char(&mut m, ext[i]);
                        assert(ext@.take(i + 1) =~= ext@.take(i as int).push(ext@[i as int]));
                        i = i + 1;
                    }
                    assert(ext@.take(ext@.len() as int) =~= ext@);
                    Err(m)
                }
            },
            None => {
                let mut m = String::new();
                m.append("config path has no extension");
                Err(m)
            },
        }
    }
}

// ---------------------------------------------------------------------------
// Loading and hot-reload decisions
// ---------------------------------------------------------------------------

/// Refuse a blank configuration path before any filesystem access.
pub fn check_config_path(path: &str) -> (r: Result<(), String>)
    ensures
        r is Ok <==> path@.len() > 0,
        r matches Err(m) ==> m@ == "config path must not be blank"@,
{
    if path.is_empty() {
        let mut m = String::new();
        m.append("config path must not be blank");
        Err(m)
    } else {
        Ok(())
    }
}

/// What loading makes of the text read from `path`: a read error is
/// reported first; otherwise the text goes on with the format chosen from
/// the path's extension, or the format error is reported.
pub fn config_input(path: &str, read: Result<String, String>) -> (r: Result<
    (String, ConfigFormat),
    String,
>)
    ensures
        match read {
            Err(e) => r == Err::<(String, ConfigFormat), String>(e),
            Ok(text) => match format_for(path@) {
                Ok(f) => r == Ok::<(String, ConfigFormat), String>((text, f)),
                Err(m) => r matches Err(e) && e@ == m,
            },
        },
{
    match read {
        Err(e) => Err(e),
        Ok(text) => match ConfigFormat::from_path(path) {
            Ok(f) => Ok((text, f)),
            Err(m) => Err(m),
        },
    }
}

/// Whether the file has changed since the last successful load, from its
/// current modification time and the one recorded then (nanoseconds since
/// the epoch): only a present time can show a change, and it does when
/// nothing was recorded or it is later than what was.
pub fn file_changed(current: Option<i128>, last: Option<i128>) -> (r: bool)
    ensures
        r == match (current, last) {
            (Some(c), Some(l)) => c > l,
            (Some(_), None) => true,
            _ => false,
        },
{
    match (current, last) {
        (Some(c), Some(l)) => c > l,
        (Some(_), None) => true,
        _ => false,
    }
}

/// The configuration in use and the modification time (nanoseconds since
/// the epoch) of the file it was loaded from, if known.
pub struct ReloadState<C> {
    pub config: C,
    pub last_modified: Option<i128>,
}

/// Take the outcome of re-reading the configuration: a successfully loaded
/// configuration replaces the one in use and its file's modification time is
/// recorded; a rejected one leaves everything as it was and its error is
/// returned.
pub fn apply_reload<C>(
    s: &mut ReloadState<C>,
    loaded: Result<C, String>,
    modified_after: Option<i128>,
) -> (r: Result<(), String>)
    ensures
        match loaded {
            Ok(c) => final(s).config == c && final(s).last_modified == modified_after && r is Ok,
            Err(e) => *final(s) == *old(s) && r == Err::<(), String>(e),
        },
{
    match loaded {
        Ok(c) => {
            s.config = c;
            s.last_modified = modified_after;
            Ok(())
        },
        Err(e) => Err(e),
    }
}

/// The answer of a conditional reload, from the outcome of the reload that
/// was attempted because the file changed (`None` when it had not changed):
/// `Ok(false)` when nothing was attempted, `Ok(true)` after a successful
/// reload, and the reload's error otherwise.
pub fn conditional_reload_result(attempt: Option<Result<(), String>>) -> (r: Result<bool, String>)
    ensures
        r == match attempt {
            None => Ok::<bool, String>(false),
            Some(Ok(())) => Ok::<bool, String>(true),
            Some(Err(e)) => Err::<bool, String>(e),
        },
{
    match attempt {
        None => Ok(false),
        Some(Ok(())) => Ok(true),
        Some(Err(e)) => Err(e),
    }
}

// ---------------------------------------------------------------------------
// Laws
// ---------------------------------------------------------------------------

/// Every proxy URL that is set is checked, whichever of the three fields
/// holds it: a URL that is not `http://` or `https://` followed by more
/// text makes the settings invalid, and when every set URL is of that form
/// and no credentials are given the settings are valid.
pub proof fn lemma_every_proxy_url_is_checked(p: ProxyConfig)
    ensures
        p.proxy_url matches Some(u) && !((u@.len() > 7 && u@.subrange(0, 7) == "http://"@) || (
        u@.len() > 8 && u@.subrange(0, 8) == "https://"@)) ==> !proxy_valid(p),
        p.http_proxy_url matches Some(u) && !((u@.len() > 7 && u@.subrange(0, 7) == "http://"@)
            || (u@.len() > 8 && u@.subrange(0, 8) == "https://"@)) ==> !proxy_valid(p),
        p.https_proxy_url matches Some(u) && !((u@.len() > 7 && u@.subrange(0, 7) == "http://"@)
            || (u@.len() > 8 && u@.subrange(0, 8) == "https://"@)) ==> !proxy_valid(p),
        (p.proxy_url matches Some(u) ==> ((u@.len() > 7 && u@.subrange(0, 7) == "http://"@) || (
        u@.len() > 8 && u@.subrange(0, 8) == "https://"@))) && (p.http_proxy_url matches Some(u)
            ==> ((u@.len() > 7 && u@.subrange(0, 7) == "http://"@) || (u@.len() > 8
            && u@.subrange(0, 8) == "https://"@))) && (p.https_proxy_url matches Some(u) ==> ((
        u@.len() > 7 && u@.subrange(0, 7) == "http://"@) || (u@.len() > 8 && u@.subrange(0, 8)
            == "https://"@))) && p.credentials is None ==> proxy_valid(p),
{
    reveal_strlit("http://");
    reveal_strlit("https://");
    assert(forall|u: Seq<char>| #[trigger] proxy_url_ok(u) <==> ((u.len() > 7 && u.subrange(0, 7) == "http://"@) || (u.len() > 8 && u.subrange(0, 8) == "https://"@))) by {
        assert forall|u: Seq<char>| #[trigger] proxy_url_ok(u) <==> ((u.len() > 7 && u.subrange(0, 7) == "http://"@) || (u.len() > 8 && u.subrange(0, 8) == "https://"@)) by {
            assert(u.take(7) =~= u.subrange(0, 7));
            assert(u.take(8) =~= u.subrange(0, 8));
        }
    }
}

/// A proxy counts as configured exactly when one of its three URLs is set,
/// the `https` one included: credentials with a non-empty username next to
/// an acceptable `https` proxy URL alone are valid.
pub proof fn lemma_any_proxy_url_configures(p: ProxyConfig)
    ensures
        proxy_configured(p) <==> (p.proxy_url is Some || p.http_proxy_url is Some
            || p.https_proxy_url is Some),
        p.proxy_url is None && p.http_proxy_url is None && p.https_proxy_url is Some
            && p.https_proxy_url->0@.len() > 8 && p.https_proxy_url->0@.subrange(0, 8) == "https://"@
            && p.credentials is Some && p.credentials->0.username@.len() > 0 ==> proxy_valid(p),
        p.proxy_url is None && p.http_proxy_url is None && p.https_proxy_url is Some
            && p.https_proxy_url->0@.len() > 7 && p.https_proxy_url->0@.subrange(0, 7) == "http://"@
            && p.credentials is Some && p.credentials->0.username@.len() > 0 ==> proxy_valid(p),
{
    lemma_every_proxy_url_is_checked(p);
}

/// An attestor name is registered exactly when some registry entry carries
/// that name, whether or not the entry is enabled.
pub proof fn lemma_registered_means_named(c: RuntimeConfig, name: Seq<char>)
    ensures
        is_registered(c, name) <==> exists|i: int|
            0 <= i < c.attestors.registry@.len() && #[trigger] c.attestors.registry@[i].name@
                == name,
{
    let names = registry_names(c);
    if is_registered(c, name) {
        let k = choose|k: int| 0 <= k < names.len() && names[k] == name;
        assert(c.attestors.registry@[k].name@ == name);
    }
    if exists|i: int|
        0 <= i < c.attestors.registry@.len() && #[trigger] c.attestors.registry@[i].name@ == name {
        let i = choose|i: int|
            0 <= i < c.attestors.registry@.len() && #[trigger] c.attestors.registry@[i].name@ == name;
        assert(names[i] == name);
    }
}

/// Validation reads the registry only through its names: two
/// configurations that differ only in the registry entries' other fields
/// (their enabled flags, addresses or descriptions) are accepted or refused
/// alike.
pub proof fn lemma_validation_ignores_enabled_flags(c1: RuntimeConfig, c2: RuntimeConfig)
    requires
        c1.contract == c2.contract,
        c1.operations == c2.operations,
        c1.security == c2.security,
        c1.proxy == c2.proxy,
        c1.attestors.registry@.len() == c2.attestors.registry@.len(),
        forall|i: int|
            0 <= i < c1.attestors.registry@.len() ==> #[trigger] c1.attestors.registry@[i].name@
                == c2.attestors.registry@[i].name@,
    ensures
        config_valid(c1) == config_valid(c2),
{
    assert forall|n: Seq<char>| #[trigger] is_registered(c1, n) == is_registered(c2, n) by {
        lemma_registered_means_named(c1, n);
        lemma_registered_means_named(c2, n);
        if exists|i: int| 0 <= i < c1.attestors.registry@.len() && #[trigger] c1.attestors.registry@[i].name@ == n {
            let i = choose|i: int| 0 <= i < c1.attestors.registry@.len() && #[trigger] c1.attestors.registry@[i].name@ == n;
            assert(c2.attestors.registry@[i].name@ == n);
        }
        if exists|i: int| 0 <= i < c2.attestors.registry@.len() && #[trigger] c2.attestors.registry@[i].name@ == n {
            let i = choose|i: int| 0 <= i < c2.attestors.registry@.len() && #[trigger] c2.attestors.registry@[i].name@ == n;
            assert(c1.attestors.registry@[i].name@ == n);
        }
    }
    assert(templates_of(c1) == templates_of(c2));
    assert(rate_limits_of(c1) == rate_limits_of(c2));
    assert(multisig_of(c1) == multisig_of(c2));
    assert(all_templates_ok(c1) == all_templates_ok(c2)) by {
        if all_templates_ok(c1) {
            assert forall|i: int| 0 <= i < templates_of(c2).len() implies #[trigger] template_ok(c2, i) by {
                assert(template_ok(c1, i));
            }
        }
        if all_templates_ok(c2) {
            assert forall|i: int| 0 <= i < templates_of(c1).len() implies #[trigger] template_ok(c1, i) by {
                assert(template_ok(c2, i));
            }
        }
    }
    assert(all_rate_limits_ok(c1) == all_rate_limits_ok(c2)) by {
        if all_rate_limits_ok(c1) {
            assert forall|i: int| 0 <= i < rate_limits_of(c2).len() implies #[trigger] rate_limit_ok(c2, i) by {
                assert(rate_limit_ok(c1, i));
            }
        }
        if all_rate_limits_ok(c2) {
            assert forall|i: int| 0 <= i < rate_limits_of(c1).len() implies #[trigger] rate_limit_ok(c1, i) by {
                assert(rate_limit_ok(c2, i));
            }
        }
    }
    assert forall|i: int| 0 <= i < multisig_of(c1).len() implies #[trigger] requirement_ok(c1, i)
        == requirement_ok(c2, i) by {
        if requirement_ok(c1, i) {
            assert forall|j: int| 0 <= j < multisig_of(c2)[i].signatory_attestors@.len() implies #[trigger] signatory_ok(c2, i, j) by {
                assert(signatory_ok(c1, i, j));
            }
        }
        if requirement_ok(c2, i) {
            assert forall|j: int| 0 <= j < multisig_of(c1)[i].signatory_attestors@.len() implies #[trigger] signatory_ok(c1, i, j) by {
                assert(signatory_ok(c2, i, j));
            }
        }
    }
    assert(all_requirements_ok(c1) == all_requirements_ok(c2)) by {
        if all_requirements_ok(c1) {
            assert forall|i: int| 0 <= i < multisig_of(c2).len() implies #[trigger] requirement_ok(c2, i) by {
                assert(requirement_ok(c1, i));
            }
        }
        if all_requirements_ok(c2) {
            assert forall|i: int| 0 <= i < multisig_of(c1).len() implies #[trigger] requirement_ok(c1, i) by {
                assert(requirement_ok(c2, i));
            }
        }
    }
}

} // verus!
