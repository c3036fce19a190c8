use anchorkit::config::{
    apply_reload, check_config_path, conditional_reload_result, config_input, file_changed, validate_runtime_config,
    ReloadState, AttestorConfig, AttestorsConfig, ConfigError, ConfigFormat,
    ContractConfig, MultisigRequirementConfig, OperationTemplateConfig, OperationsConfig,
    ProxyConfig, ProxyCredentials, ProxyError, RateLimitConfig, RuntimeConfig, SecurityConfig,
};

fn attestor(name: &str) -> AttestorConfig {
    AttestorConfig {
        name: name.to_string(),
        address: "GABC123".to_string(),
        description: None,
        endpoint: None,
        contact_email: None,
        role: "primary".to_string(),
        enabled: true,
    }
}

fn base_config() -> RuntimeConfig {
    RuntimeConfig {
        contract: ContractConfig {
            name: "TestAnchor".to_string(),
            version: "1.0.0".to_string(),
            description: None,
            network: "testnet".to_string(),
            admin_address: None,
        },
        attestors: AttestorsConfig { registry: vec![attestor("attestor-1")] },
        sessions: None,
        operations: None,
        storage: None,
        security: None,
        proxy: None,
    }
}

fn template(id: &str, attestor: &str) -> OperationTemplateConfig {
    OperationTemplateConfig {
        id: id.to_string(),
        name: id.to_string(),
        attestor: attestor.to_string(),
        operation_type: "attest".to_string(),
        required_fields: vec![],
        replay_protection: "nonce".to_string(),
        description: None,
        payload_schema: None,
    }
}

fn security() -> SecurityConfig {
    SecurityConfig {
        require_signature_verification: None,
        signature_algorithm: None,
        signature_expiry_seconds: None,
        nonce_required: None,
        nonce_reuse_prevention: None,
        endpoint_pins: None,
        rate_limits: None,
        multisig_requirements: None,
    }
}

fn message_of(config: &RuntimeConfig) -> String {
    validate_runtime_config(config).unwrap_err().message()
}

#[test]
fn test_config_proxy_is_configured_helper() {
    let configured = ProxyConfig {
        proxy_url: Some("http://proxy.example.com:3128".to_string()),
        no_proxy: None,
        ..ProxyConfig::default()
    };
    assert!(configured.is_configured());

    let unconfigured = ProxyConfig::default();
    assert!(!unconfigured.is_configured());
}

#[test]
fn minimal_config_is_valid() {
    assert_eq!(validate_runtime_config(&base_config()), Ok(()));
}

#[test]
fn empty_contract_name_is_rejected() {
    let mut c = base_config();
    c.contract.name = String::new();
    c.attestors.registry.clear();
    assert_eq!(validate_runtime_config(&c), Err(ConfigError::EmptyContractName));
    assert_eq!(message_of(&c), "contract.name cannot be empty");
}

#[test]
fn empty_registry_is_rejected() {
    let mut c = base_config();
    c.attestors.registry.clear();
    assert_eq!(message_of(&c), "attestors.registry cannot be empty");
}

#[test]
fn template_with_unknown_attestor_is_rejected() {
    let mut c = base_config();
    c.operations = Some(OperationsConfig {
        templates: Some(vec![template("op-1", "attestor-1"), template("op-2", "ghost"), template("op-3", "other")]),
    });
    assert_eq!(message_of(&c), "operation 'op-2' references unknown attestor 'ghost'");
}

#[test]
fn rate_limit_with_unknown_attestor_is_rejected() {
    let mut c = base_config();
    let mut sec = security();
    sec.rate_limits = Some(vec![RateLimitConfig {
        attestor: "nobody".to_string(),
        requests_per_minute: 1,
        requests_per_hour: 2,
    }]);
    c.security = Some(sec);
    assert_eq!(message_of(&c), "rate limit references unknown attestor 'nobody'");
}

#[test]
fn multisig_with_unknown_signatory_is_rejected() {
    let mut c = base_config();
    c.attestors.registry.push(attestor("attestor-2"));
    let mut sec = security();
    sec.multisig_requirements = Some(vec![
        MultisigRequirementConfig {
            operation: "ok-op".to_string(),
            required_signatures: 2,
            signatory_attestors: vec!["attestor-1".to_string(), "attestor-2".to_string()],
        },
        MultisigRequirementConfig {
            operation: "bad-op".to_string(),
            required_signatures: 2,
            signatory_attestors: vec!["attestor-2".to_string(), "mallory".to_string(), "eve".to_string()],
        },
    ]);
    c.security = Some(sec);
    assert_eq!(message_of(&c), "multisig requirement 'bad-op' references unknown attestor 'mallory'");
}

#[test]
fn template_error_comes_before_rate_limit_error() {
    let mut c = base_config();
    c.operations = Some(OperationsConfig { templates: Some(vec![template("op", "x")]) });
    let mut sec = security();
    sec.rate_limits = Some(vec![RateLimitConfig {
        attestor: "y".to_string(),
        requests_per_minute: 1,
        requests_per_hour: 1,
    }]);
    c.security = Some(sec);
    assert!(matches!(
        validate_runtime_config(&c),
        Err(ConfigError::UnknownOperationAttestor { .. })
    ));
}

#[test]
fn invalid_proxy_scheme_is_rejected_with_proxy_prefix() {
    let mut c = base_config();
    c.proxy = Some(ProxyConfig {
        proxy_url: Some("socks5://proxy.corp:1080".to_string()),
        ..ProxyConfig::default()
    });
    let err = message_of(&c);
    assert!(err.contains("invalid proxy URL"), "got: {err}");
    assert!(err.starts_with("proxy:"), "got: {err}");
}

#[test]
fn credentials_without_proxy_url_are_rejected() {
    let p = ProxyConfig {
        credentials: Some(ProxyCredentials { username: "svc".to_string(), password: "pw".to_string() }),
        ..ProxyConfig::default()
    };
    assert_eq!(p.validate(), Err(ProxyError::CredentialsWithoutUrl));
    let mut c = base_config();
    c.proxy = Some(p);
    assert!(message_of(&c).contains("no proxy URL configured"));
}

#[test]
fn empty_credential_username_is_rejected() {
    let p = ProxyConfig {
        proxy_url: Some("http://proxy.corp:3128".to_string()),
        credentials: Some(ProxyCredentials { username: String::new(), password: "pw".to_string() }),
        ..ProxyConfig::default()
    };
    assert_eq!(p.validate(), Err(ProxyError::EmptyUsername));
    assert!(p.has_credentials());
    let mut c = base_config();
    c.proxy = Some(p);
    assert!(message_of(&c).contains("username cannot be empty"));
}

#[test]
fn scheme_specific_proxy_urls_are_checked() {
    let good = ProxyConfig {
        http_proxy_url: Some("http://http-proxy.corp:3128".to_string()),
        https_proxy_url: Some("https://tls-proxy.corp:3129".to_string()),
        credentials: Some(ProxyCredentials { username: "svc".to_string(), password: "s".to_string() }),
        ..ProxyConfig::default()
    };
    assert_eq!(good.validate(), Ok(()));
    assert!(good.is_configured());
    let bad = ProxyConfig { https_proxy_url: Some("https://".to_string()), ..ProxyConfig::default() };
    assert_eq!(bad.validate(), Err(ProxyError::InvalidUrl("https://".to_string())));
}

#[test]
fn format_from_path() {
    assert_eq!(ConfigFormat::from_path("configs/anchor.json"), Ok(ConfigFormat::Json));
    assert_eq!(ConfigFormat::from_path("configs/anchor.toml"), Ok(ConfigFormat::Toml));
    assert_eq!(ConfigFormat::from_path("a.b/c.tar.toml"), Ok(ConfigFormat::Toml));
    assert_eq!(ConfigFormat::from_path("dir/anchor.toml/"), Ok(ConfigFormat::Toml));
    assert_eq!(
        ConfigFormat::from_path("anchor.yaml"),
        Err("unsupported config extension: yaml".to_string())
    );
    assert_eq!(ConfigFormat::from_path("anchor"), Err("config path has no extension".to_string()));
    assert_eq!(ConfigFormat::from_path(".json"), Err("config path has no extension".to_string()));
    assert_eq!(ConfigFormat::from_path("a/.."), Err("config path has no extension".to_string()));
    assert_eq!(ConfigFormat::from_path(""), Err("config path has no extension".to_string()));
    assert_eq!(ConfigFormat::from_path("x.json/."), Ok(ConfigFormat::Json));
}

#[test]
fn blank_path_is_refused() {
    assert_eq!(check_config_path(""), Err("config path must not be blank".to_string()));
    assert_eq!(check_config_path("a.json"), Ok(()));
}

#[test]
fn read_error_comes_before_format_error() {
    assert_eq!(config_input("a.yaml", Err("no such file".to_string())), Err("no such file".to_string()));
    assert_eq!(
        config_input("a.yaml", Ok("{}".to_string())),
        Err("unsupported config extension: yaml".to_string())
    );
    assert_eq!(
        config_input("a.toml", Ok("x = 1".to_string())),
        Ok(("x = 1".to_string(), ConfigFormat::Toml))
    );
}

#[test]
fn file_changed_rules() {
    assert!(file_changed(Some(5), Some(4)));
    assert!(!file_changed(Some(4), Some(4)));
    assert!(!file_changed(Some(3), Some(4)));
    assert!(file_changed(Some(-1), None));
    assert!(!file_changed(None, Some(4)));
    assert!(!file_changed(None, None));
}

#[test]
fn rejected_reload_keeps_config_and_time() {
    let mut state = ReloadState { config: "v1".to_string(), last_modified: Some(10) };
    let r = apply_reload(&mut state, Err("bad".to_string()), Some(99));
    assert_eq!(r, Err("bad".to_string()));
    assert_eq!(state.config, "v1");
    assert_eq!(state.last_modified, Some(10));
    let r = apply_reload(&mut state, Ok("v2".to_string()), Some(20));
    assert_eq!(r, Ok(()));
    assert_eq!(state.config, "v2");
    assert_eq!(state.last_modified, Some(20));
}

#[test]
fn conditional_reload_reports_what_happened() {
    assert_eq!(conditional_reload_result(None), Ok(false));
    assert_eq!(conditional_reload_result(Some(Ok(()))), Ok(true));
    assert_eq!(
        conditional_reload_result(Some(Err("bad file".to_string()))),
        Err("bad file".to_string())
    );
}
