//! Server configuration: what can be set, what it is unless set, and what is not accepted.

use vstd::prelude::*;

verus! {

/// A single OIDC/OAuth2 provider. Routes: `/auth/{name}` and `/auth/{name}/callback`.
///
/// Two modes:
/// - **OIDC** (`issuer_url` set): endpoints are discovered from the issuer's
///   `/.well-known/openid-configuration`.
/// - **Plain OAuth2** (no `issuer_url`): `auth_url`, `token_url`, and `userinfo_url`
///   must all be provided.
#[derive(Debug)]
pub struct OidcProvider {
    pub client_id: Option<String>,
    pub client_secret: Option<String>,
    /// OIDC issuer URL. When set, all endpoints are discovered automatically.
    pub issuer_url: Option<String>,
    /// OAuth2-only: authorization endpoint URL (required when `issuer_url` is absent).
    pub auth_url: Option<String>,
    /// OAuth2-only: token endpoint URL (required when `issuer_url` is absent).
    pub token_url: Option<String>,
    /// OAuth2-only: userinfo endpoint URL (required when `issuer_url` is absent).
    pub userinfo_url: Option<String>,
    /// Human-readable label shown in the login modal.
    pub display_name: Option<String>,
}

/// The same setting.
fn same_setting(o: &Option<String>) -> (r: Option<String>)
    ensures
        r == *o,
{
    match o {
        Some(s) => Some(s.clone()),
        None => None,
    }
}

impl Clone for OidcProvider {
    fn clone(&self) -> (p: Self)
        ensures
            p == *self,
    {
        OidcProvider {
            client_id: same_setting(&self.client_id),
            client_secret: same_setting(&self.client_secret),
            issuer_url: same_setting(&self.issuer_url),
            auth_url: same_setting(&self.auth_url),
            token_url: same_setting(&self.token_url),
            userinfo_url: same_setting(&self.userinfo_url),
            display_name: same_setting(&self.display_name),
        }
    }
}

/// What a provider lacks.
#[derive(Debug, Clone, Copy, PartialEq, Eq)]
pub enum ProviderError {
    NoClientId,
    NoClientSecret,
    NoAuthUrl,
    NoTokenUrl,
    NoUserinfoUrl,
}

/// Where a provider is reached.
#[derive(Debug)]
pub enum Endpoints<'a> {
    /// To be asked of the issuer.
    Discovered { issuer_url: &'a str },
    Fixed { auth_url: &'a str, token_url: &'a str, userinfo_url: &'a str },
}

/// A text without the slashes at its end.
pub open spec fn trimmed(s: Seq<char>) -> Seq<char>
    decreases s.len(),
{
    if s.len() > 0 && s.last() == '/' {
        trimmed(s.drop_last())
    } else {
        s
    }
}

/// The text of an optional setting.
pub open spec fn setting(o: Option<String>) -> Option<Seq<char>> {
    match o {
        Some(s) => Some(s@),
        None => None,
    }
}

fn text_of(o: &Option<String>) -> (r: Option<&str>)
    ensures
        match r {
            Some(s) => setting(*o) == Some(s@),
            None => setting(*o) is None,
        },
{
    match o {
        Some(s) => Some(s.as_str()),
        None => None,
    }
}

impl OidcProvider {
    /// What the provider is shown as: its label, or its name where it has none.
    pub fn display<'a>(&'a self, name: &'a str) -> (r: &'a str)
        ensures
            r@ == (match self.display_name {
                Some(s) => s@,
                None => name@,
            }),
    {
        match &self.display_name {
            Some(s) => s.as_str(),
            None => name,
        }
    }

    /// Redirect URI derived from `base_url` and the provider's map key.
    pub fn redirect_uri(&self, base_url: &str, name: &str) -> (r: String)
        ensures
            r@ == trimmed(base_url@) + "/auth/"@ + name@ + "/callback"@,
    {
        let total = base_url.unicode_len();
        let mut n: usize = total;
        let ghost all = trimmed(base_url@);
        assert(base_url@.take(n as int) =~= base_url@);
        while n > 0 && base_url.get_char(n - 1) == '/'
            invariant
                n <= total,
                total == base_url@.len(),
                trimmed(base_url@.take(n as int)) == all,
            ensures
                n <= total,
                base_url@.take(n as int) == all,
            decreases n,
        {
            assert(base_url@.take(n as int).drop_last() =~= base_url@.take(n - 1));
            n = n - 1;
        }
        let mut r = base_url.substring_char(0, n).to_owned();
        assert(base_url@.subrange(0, n as int) =~= base_url@.take(n as int));
        r.append("/auth/");
        r.append(name);
        r.append("/callback");
        r
    }

    /// Client id and secret.
    pub fn credentials(&self) -> (r: Result<(&str, &str), ProviderError>)
        ensures
            match (setting(self.client_id), setting(self.client_secret)) {
                (None, _) => r == Err::<(&str, &str), ProviderError>(ProviderError::NoClientId),
                (_, None) => r == Err::<(&str, &str), ProviderError>(
                    ProviderError::NoClientSecret,
                ),
                (Some(id), Some(secret)) => r matches Ok((a, b)) && a@ == id && b@ == secret,
            },
    {
        match text_of(&self.client_id) {
            None => Err(ProviderError::NoClientId),
            Some(id) => match text_of(&self.client_secret) {
                None => Err(ProviderError::NoClientSecret),
                Some(secret) => Ok((id, secret)),
            },
        }
    }

    /// Where the provider is reached.
    pub fn endpoints(&self) -> (r: Result<Endpoints<'_>, ProviderError>)
        ensures
            match setting(self.issuer_url) {
                Some(u) => r matches Ok(Endpoints::Discovered { issuer_url }) && issuer_url@ == u,
                None => match (
                    setting(self.auth_url),
                    setting(self.token_url),
                    setting(self.userinfo_url),
                ) {
                    (None, _, _) => r matches Err(e) && e == ProviderError::NoAuthUrl,
                    (_, None, _) => r matches Err(e) && e == ProviderError::NoTokenUrl,
                    (_, _, None) => r matches Err(e) && e == ProviderError::NoUserinfoUrl,
                    (Some(a), Some(t), Some(u)) => r matches Ok(
                        Endpoints::Fixed { auth_url, token_url, userinfo_url },
                    ) && auth_url@ == a && token_url@ == t && userinfo_url@ == u,
                },
            },
    {
        if let Some(issuer_url) = text_of(&self.issuer_url) {
            return Ok(Endpoints::Discovered { issuer_url });
        }
        let auth_url = match text_of(&self.auth_url) {
            Some(u) => u,
            None => {
                return Err(ProviderError::NoAuthUrl);
            },
        };
        let token_url = match text_of(&self.token_url) {
            Some(u) => u,
            None => {
                return Err(ProviderError::NoTokenUrl);
            },
        };
        let userinfo_url = match text_of(&self.userinfo_url) {
            Some(u) => u,
            None => {
                return Err(ProviderError::NoUserinfoUrl);
            },
        };
        Ok(Endpoints::Fixed { auth_url, token_url, userinfo_url })
    }
}

/// Central server configuration.
/// Every field is individually overridable.
#[derive(Debug)]
pub struct Config {
    pub bind: String,
    pub metrics_bind: String,
    pub tick_hz: u32,
    pub max_live_chunks: usize,
    pub peer_outbound_capacity: usize,
    pub snapshot_path: String,
    pub snapshot_interval_ticks: u64,
    pub regions_path: String,
    pub client_max_chunks: u32,
    pub oscillator_detection_interval_ms: u64,
    pub oscillator_detection_max_chunks_per_step: usize,
    pub oscillator_promote_max_per_tick: usize,
    pub oscillator_max_group_size: usize,
    /// Publicly reachable base URL (no trailing slash).
    /// Used to construct OIDC redirect URIs and any other absolute URLs.
    pub base_url: String,
    /// Each with its slug (e.g. `"google"`), and no slug twice.
    pub oidc_providers: Vec<(String, OidcProvider)>,
    pub jwt_secret: String,
    pub claim_w_chunks: u32,
    pub claim_h_chunks: u32,
    pub users_dir: String,
    pub claims_dir: String,
}

impl Clone for Config {
    fn clone(&self) -> (c: Self)
        ensures
            c == (Config { oidc_providers: c.oidc_providers, ..*self }),
            c.oidc_providers@ == self.oidc_providers@,
    {
        let mut oidc_providers: Vec<(String, OidcProvider)> = Vec::new();
        let mut i: usize = 0;
        while i < self.oidc_providers.len()
            invariant
                i <= self.oidc_providers.len(),
                oidc_providers@ =~= self.oidc_providers@.take(i as int),
            decreases self.oidc_providers.len() - i,
        {
            let e = &self.oidc_providers[i];
            oidc_providers.push((e.0.clone(), e.1.clone()));
            i = i + 1;
        }
        Config {
            bind: self.bind.clone(),
            metrics_bind: self.metrics_bind.clone(),
            tick_hz: self.tick_hz,
            max_live_chunks: self.max_live_chunks,
            peer_outbound_capacity: self.peer_outbound_capacity,
            snapshot_path: self.snapshot_path.clone(),
            snapshot_interval_ticks: self.snapshot_interval_ticks,
            regions_path: self.regions_path.clone(),
            client_max_chunks: self.client_max_chunks,
            oscillator_detection_interval_ms: self.oscillator_detection_interval_ms,
            oscillator_detection_max_chunks_per_step: self.oscillator_detection_max_chunks_per_step,
            oscillator_promote_max_per_tick: self.oscillator_promote_max_per_tick,
            oscillator_max_group_size: self.oscillator_max_group_size,
            base_url: self.base_url.clone(),
            oidc_providers,
            jwt_secret: self.jwt_secret.clone(),
            claim_w_chunks: self.claim_w_chunks,
            claim_h_chunks: self.claim_h_chunks,
            users_dir: self.users_dir.clone(),
            claims_dir: self.claims_dir.clone(),
        }
    }
}

impl Default for Config {
    fn default() -> (c: Self)
        ensures
            c.bind@ == "0.0.0.0:8080"@,
            c.metrics_bind@ == "0.0.0.0:9090"@,
            c.tick_hz == 10,
            c.max_live_chunks == 100_000,
            c.peer_outbound_capacity == 4096,
            c.snapshot_path@ == "data/world.snap"@,
            c.snapshot_interval_ticks == 600,
            c.regions_path@ == "config/regions.toml"@,
            c.client_max_chunks == 65535,
            c.oscillator_detection_interval_ms == 250,
            c.oscillator_detection_max_chunks_per_step == 1000,
            c.oscillator_promote_max_per_tick == 256,
            c.oscillator_max_group_size == 16,
            c.base_url@ == "http://localhost:8080"@,
            c.oidc_providers@.len() == 0,
            c.jwt_secret@ == "change-me"@,
            c.claim_w_chunks == 3,
            c.claim_h_chunks == 2,
            c.users_dir@ == "data/users"@,
            c.claims_dir@ == "data/claims"@,
            c.error() is None,
    {
        Config {
            bind: "0.0.0.0:8080".to_owned(),
            metrics_bind: "0.0.0.0:9090".to_owned(),
            tick_hz: 10,
            max_live_chunks: 100_000,
            peer_outbound_capacity: 4096,
            snapshot_path: "data/world.snap".to_owned(),
            snapshot_interval_ticks: 600,
            regions_path: "config/regions.toml".to_owned(),
            client_max_chunks: 65535,
            oscillator_detection_interval_ms: 250,
            oscillator_detection_max_chunks_per_step: 1000,
            oscillator_promote_max_per_tick: 256,
            oscillator_max_group_size: 16,
            base_url: "http://localhost:8080".to_owned(),
            oidc_providers: Vec::new(),
            jwt_secret: "change-me".to_owned(),
            claim_w_chunks: 3,
            claim_h_chunks: 2,
            users_dir: "data/users".to_owned(),
            claims_dir: "data/claims".to_owned(),
        }
    }
}

/// What is not accepted in a configuration.
#[derive(Debug, Clone, Copy, PartialEq, Eq)]
pub enum ConfigError {
    TickHz,
    SnapshotIntervalTicks,
    PeerOutboundCapacity,
    MaxLiveChunks,
    OscillatorMaxGroupSize,
    ClaimWChunks,
    ClaimHChunks,
}

impl ConfigError {
    /// What went wrong, in words.
    pub open spec fn text(self) -> Seq<char> {
        match self {
            ConfigError::TickHz => "config: tick_hz must be > 0"@,
            ConfigError::SnapshotIntervalTicks => "config: snapshot_interval_ticks must be > 0"@,
            ConfigError::PeerOutboundCapacity => "config: peer_outbound_capacity must be > 0"@,
            ConfigError::MaxLiveChunks => "config: max_live_chunks must be > 0"@,
            ConfigError::OscillatorMaxGroupSize => "config: oscillator_max_group_size must be >= 2"@,
            ConfigError::ClaimWChunks => "config: claim_w_chunks must be >= 1"@,
            ConfigError::ClaimHChunks => "config: claim_h_chunks must be >= 1"@,
        }
    }

    /// What went wrong, in words.
    pub fn message(&self) -> (s: String)
        ensures
            s@ == self.text(),
    {
        match self {
            ConfigError::TickHz => "config: tick_hz must be > 0".to_owned(),
            ConfigError::SnapshotIntervalTicks => {
                "config: snapshot_interval_ticks must be > 0".to_owned()
            },
            ConfigError::PeerOutboundCapacity => {
                "config: peer_outbound_capacity must be > 0".to_owned()
            },
            ConfigError::MaxLiveChunks => "config: max_live_chunks must be > 0".to_owned(),
            ConfigError::OscillatorMaxGroupSize => {
                "config: oscillator_max_group_size must be >= 2".to_owned()
            },
            ConfigError::ClaimWChunks => "config: claim_w_chunks must be >= 1".to_owned(),
            ConfigError::ClaimHChunks => "config: claim_h_chunks must be >= 1".to_owned(),
        }
    }
}

impl Config {
    /// The first thing that is not accepted.
    pub open spec fn error(self) -> Option<ConfigError> {
        if self.tick_hz == 0 {
            Some(ConfigError::TickHz)
        } else if self.snapshot_interval_ticks == 0 {
            Some(ConfigError::SnapshotIntervalTicks)
        } else if self.peer_outbound_capacity == 0 {
            Some(ConfigError::PeerOutboundCapacity)
        } else if self.max_live_chunks == 0 {
            Some(ConfigError::MaxLiveChunks)
        } else if self.oscillator_max_group_size < 2 {
            Some(ConfigError::OscillatorMaxGroupSize)
        } else if self.claim_w_chunks == 0 {
            Some(ConfigError::ClaimWChunks)
        } else if self.claim_h_chunks == 0 {
            Some(ConfigError::ClaimHChunks)
        } else {
            None
        }
    }

    /// Whether the configuration is accepted.
    pub fn validate(&self) -> (r: Result<(), ConfigError>)
        ensures
            match self.error() {
                Some(e) => r == Err::<(), ConfigError>(e),
                None => r is Ok,
            },
    {
        if self.tick_hz == 0 {
            Err(ConfigError::TickHz)
        } else if self.snapshot_interval_ticks == 0 {
            Err(ConfigError::SnapshotIntervalTicks)
        } else if self.peer_outbound_capacity == 0 {
            Err(ConfigError::PeerOutboundCapacity)
        } else if self.max_live_chunks == 0 {
            Err(ConfigError::MaxLiveChunks)
        } else if self.oscillator_max_group_size < 2 {
            Err(ConfigError::OscillatorMaxGroupSize)
        } else if self.claim_w_chunks == 0 {
            Err(ConfigError::ClaimWChunks)
        } else if self.claim_h_chunks == 0 {
            Err(ConfigError::ClaimHChunks)
        } else {
            Ok(())
        }
    }

    /// Microseconds between two ticks.
    pub fn tick_period_micros(&self) -> (n: u64)
        requires
            self.error() is None,
        ensures
            n == 1_000_000int / (self.tick_hz as int),
    {
        1_000_000 / (self.tick_hz as u64)
    }
}

} // verus!
