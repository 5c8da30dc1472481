use netgol::config::{Config, ConfigError, Endpoints, OidcProvider, ProviderError};

fn provider() -> OidcProvider {
    OidcProvider {
        client_id: Some("id".into()),
        client_secret: Some("secret".into()),
        issuer_url: None,
        auth_url: Some("https://a".into()),
        token_url: Some("https://t".into()),
        userinfo_url: Some("https://u".into()),
        display_name: None,
    }
}

#[test]
fn defaults_are_accepted() {
    let c = Config::default();
    assert!(c.validate().is_ok());
    assert_eq!(c.bind, "0.0.0.0:8080");
    assert_eq!(c.tick_period_micros(), 100_000);
}

#[test]
fn each_setting_is_checked() {
    let reject = |f: &dyn Fn(&mut Config)| {
        let mut c = Config::default();
        f(&mut c);
        c.validate().unwrap_err()
    };
    assert_eq!(reject(&|c| c.tick_hz = 0), ConfigError::TickHz);
    assert_eq!(reject(&|c| c.snapshot_interval_ticks = 0), ConfigError::SnapshotIntervalTicks);
    assert_eq!(reject(&|c| c.peer_outbound_capacity = 0), ConfigError::PeerOutboundCapacity);
    assert_eq!(reject(&|c| c.max_live_chunks = 0), ConfigError::MaxLiveChunks);
    assert_eq!(reject(&|c| c.oscillator_max_group_size = 1), ConfigError::OscillatorMaxGroupSize);
    assert_eq!(reject(&|c| c.claim_w_chunks = 0), ConfigError::ClaimWChunks);
    assert_eq!(reject(&|c| c.claim_h_chunks = 0), ConfigError::ClaimHChunks);
    assert_eq!(ConfigError::TickHz.message(), "config: tick_hz must be > 0");
    assert_eq!(
        ConfigError::OscillatorMaxGroupSize.message(),
        "config: oscillator_max_group_size must be >= 2"
    );
}

#[test]
fn redirect_uris() {
    let p = provider();
    assert_eq!(
        p.redirect_uri("http://localhost:8080", "google"),
        "http://localhost:8080/auth/google/callback"
    );
    assert_eq!(p.redirect_uri("https://x.org//", "a"), "https://x.org/auth/a/callback");
    assert_eq!(p.redirect_uri("/", "a"), "/auth/a/callback");
}

#[test]
fn labels() {
    let mut p = provider();
    assert_eq!(p.display("github"), "github");
    p.display_name = Some("GitHub".into());
    assert_eq!(p.display("github"), "GitHub");
}

#[test]
fn what_a_provider_needs() {
    let mut p = provider();
    assert_eq!(p.credentials(), Ok(("id", "secret")));
    assert!(matches!(
        p.endpoints(),
        Ok(Endpoints::Fixed { auth_url: "https://a", token_url: "https://t", userinfo_url: "https://u" })
    ));
    p.userinfo_url = None;
    assert!(matches!(p.endpoints(), Err(ProviderError::NoUserinfoUrl)));
    p.token_url = None;
    assert!(matches!(p.endpoints(), Err(ProviderError::NoTokenUrl)));
    p.auth_url = None;
    assert!(matches!(p.endpoints(), Err(ProviderError::NoAuthUrl)));
    p.issuer_url = Some("https://i".into());
    assert!(matches!(p.endpoints(), Ok(Endpoints::Discovered { issuer_url: "https://i" })));
    p.client_secret = None;
    assert_eq!(p.credentials(), Err(ProviderError::NoClientSecret));
    p.client_id = None;
    assert_eq!(p.credentials(), Err(ProviderError::NoClientId));
}

#[test]
fn clones_are_equal() {
    let mut c = Config::default();
    c.oidc_providers.push(("p".into(), provider()));
    let d = c.clone();
    assert_eq!(d.bind, c.bind);
    assert_eq!(d.oidc_providers[0].0, "p");
    assert_eq!(d.oidc_providers[0].1.client_id, Some("id".to_string()));
    assert_eq!(d.oidc_providers[0].1.issuer_url, None);
}
