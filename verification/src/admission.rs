//! Who is let in and how they are named, and which settings are accepted.

use crate::auth;
use crate::auth::OAuthPending;
use crate::config;
use crate::config::{Config, ConfigError, OidcProvider};
use crate::protocol::DecodeError;
use crate::sort;
use crate::user_store;
use crate::wire;
use vstd::prelude::*;

verus! {

/// A login is found by its state, the first that has it; if none has it, none is found.
pub proof fn law_logins_are_found_by_state(s: Seq<OAuthPending>, state: Seq<char>, k: int)
    ensures
        0 <= k < s.len() && s[k].state@ == state && (forall|j: int|
            0 <= j < k ==> (#[trigger] s[j]).state@ != state) ==> auth::held(s, state) == Some(s[k]),
        (forall|j: int| 0 <= j < s.len() ==> (#[trigger] s[j]).state@ != state) ==> auth::held(
            s,
            state,
        ) is None,
    decreases s.len(),
{
    if s.len() > 0 && s[0].state@ != state {
        let rest = s.drop_first();
        law_logins_are_found_by_state(rest, state, k - 1);
        assert forall|j: int| 0 <= j < rest.len() implies rest[j] == #[trigger] s[j + 1] by {}
        if 0 <= k < s.len() && s[k].state@ == state && (forall|j: int|
            0 <= j < k ==> (#[trigger] s[j]).state@ != state) {
            assert(rest[k - 1] == s[k]);
            assert forall|j: int| 0 <= j < k - 1 implies (#[trigger] rest[j]).state@ != state by {
                assert(s[j + 1].state@ != state);
            }
        }
        if forall|j: int| 0 <= j < s.len() ==> (#[trigger] s[j]).state@ != state {
            assert forall|j: int| 0 <= j < rest.len() implies (#[trigger] rest[j]).state@
                != state by {
                assert(s[j + 1].state@ != state);
            }
        }
    } else if s.len() > 0 {
        assert(s[0].state@ == state);
    }
}

/// A login may be finished for ten minutes, and no longer. Beginning a login drops exactly those
/// that took too long and one with the same state; finishing one drops exactly that.
pub proof fn law_logins_last_ten_minutes(
    s: Seq<OAuthPending>,
    state: Seq<char>,
    now: u64,
    login: OAuthPending,
)
    ensures
        auth::in_time(login.created_at, now) <==> now < login.created_at + 600 * 1_000_000_000,
        auth::still_under_way(s, state, now).contains(login) <==> s.contains(login) && now < login.created_at
            + 600 * 1_000_000_000 && login.state@ != state,
        auth::without(s, state).contains(login) <==> s.contains(login) && login.state@ != state,
{
    auth::lemma_left_under_way(s, state, now, login);
}

/// A session lasts thirty days.
pub proof fn law_sessions_last_thirty_days()
    ensures
        auth::SESSION_MAX_AGE_SECS == 30 * 24 * 60 * 60,
{
}

/// The number of a user is that in the first four bytes of the digest of the email.
pub proof fn law_users_are_numbered_by_digest(email: Seq<char>)
    requires
        user_store::sha256_digest(vstd::utf8::encode_utf8(email)).len() >= 4,
    ensures
        auth::id_of(email) == wire::u32_of(
            user_store::sha256_digest(vstd::utf8::encode_utf8(email)),
            0,
        ),
{
    wire::lemma_numbers(user_store::sha256_digest(vstd::utf8::encode_utf8(email)), 0);
}

/// The digit for a number below sixteen.
pub open spec fn digit(n: int) -> char {
    if n < 10 {
        (48 + n) as char
    } else {
        (87 + n) as char
    }
}

/// A key has two digits for each byte, the higher first, `0` to `9` and then `a` to `f`.
pub proof fn law_keys_are_hexadecimal(s: Seq<u8>, i: int)
    requires
        0 <= i < s.len(),
    ensures
        user_store::hex_text(s).len() == 2 * s.len(),
        user_store::hex_text(s)[2 * i] == digit(s[i] as int / 16),
        user_store::hex_text(s)[2 * i + 1] == digit(s[i] as int % 16),
{
    reveal_strlit("0123456789abcdef");
    assert((2 * i) / 2 == i && (2 * i) % 2 == 0);
    assert((2 * i + 1) / 2 == i && (2 * i + 1) % 2 == 1);
    assert forall|n: int| 0 <= n < 16 implies #[trigger] "0123456789abcdef"@[n] == digit(n) by {}
    let h = s[i] as int / 16;
    let l = s[i] as int % 16;
    assert("0123456789abcdef"@[h] == digit(h));
    assert("0123456789abcdef"@[l] == digit(l));
}

/// Of two texts the one stands first whose byte is lower where they first differ, or that ends
/// where the other goes on.
pub proof fn law_slugs_are_compared_bytewise(a: Seq<u8>, b: Seq<u8>, k: int)
    requires
        0 <= k <= a.len(),
        k <= b.len(),
        forall|i: int| 0 <= i < k ==> a[i] == b[i],
        k == a.len() || k == b.len() || a[k] != b[k],
    ensures
        auth::bytes_le(a, b) == (k == a.len() || (k < b.len() && a[k] < b[k])),
    decreases a.len(),
{
    if k > 0 {
        let x = a.drop_first();
        let y = b.drop_first();
        assert(a[0] == b[0]);
        assert forall|i: int| 0 <= i < k - 1 implies x[i] == y[i] by {
            assert(a[i + 1] == b[i + 1]);
        }
        law_slugs_are_compared_bytewise(x, y, k - 1);
    }
}

/// Exactly those providers are offered that there is a client for, each under its label, or under
/// its slug where it has none.
pub proof fn law_active_providers_are_offered(
    providers: Seq<(String, OidcProvider)>,
    active: Seq<String>,
    slug: Seq<char>,
    label: Seq<char>,
)
    ensures
        auth::offered(providers, active).contains((slug, label)) <==> exists|i: int|
            0 <= i < providers.len() && (#[trigger] providers[i]).0@ == slug && label == (
            match providers[i].1.display_name {
                Some(s) => s@,
                None => slug,
            }) && exists|j: int| 0 <= j < active.len() && (#[trigger] active[j])@ == slug,
{
    let f = |p: (String, OidcProvider)| auth::is_active(active, p.0@);
    let g = |p: (String, OidcProvider)| auth::offer_of(p);
    let kept = providers.filter(f);
    let out = auth::offered(providers, active);
    sort::lemma_filter_members(providers, f);
    assert(out == kept.map_values(g));
    if out.contains((slug, label)) {
        let k = choose|k: int| 0 <= k < out.len() && out[k] == (slug, label);
        assert(kept.contains(kept[k]));
        assert(providers.contains(kept[k]) && f(kept[k]));
        let i = choose|i: int| 0 <= i < providers.len() && providers[i] == kept[k];
        assert(out[k] == g(kept[k]));
        assert(providers[i].0@ == slug);
    }
    if exists|i: int|
        0 <= i < providers.len() && (#[trigger] providers[i]).0@ == slug && label == (
        match providers[i].1.display_name {
            Some(s) => s@,
            None => slug,
        }) && exists|j: int| 0 <= j < active.len() && (#[trigger] active[j])@ == slug {
        let i = choose|i: int|
            0 <= i < providers.len() && (#[trigger] providers[i]).0@ == slug && label == (
            match providers[i].1.display_name {
                Some(s) => s@,
                None => slug,
            }) && exists|j: int| 0 <= j < active.len() && (#[trigger] active[j])@ == slug;
        let p = providers[i];
        assert(f(p));
        assert(providers.contains(p));
        assert(kept.contains(p));
        let k = choose|k: int| 0 <= k < kept.len() && kept[k] == p;
        assert(out[k] == g(p));
    }
}

/// A base address loses the slashes at its end, and nothing else.
pub proof fn law_slashes_are_trimmed(s: Seq<char>)
    ensures
        config::trimmed(s).len() <= s.len(),
        config::trimmed(s) == s.subrange(0, config::trimmed(s).len() as int),
        forall|i: int| config::trimmed(s).len() <= i < s.len() ==> #[trigger] s[i] == '/',
        config::trimmed(s).len() > 0 ==> config::trimmed(s).last() != '/',
    decreases s.len(),
{
    if s.len() > 0 && s.last() == '/' {
        let t = s.drop_last();
        law_slashes_are_trimmed(t);
        assert(config::trimmed(s) =~= s.subrange(0, config::trimmed(s).len() as int));
        assert forall|i: int| config::trimmed(s).len() <= i < s.len() implies #[trigger] s[i]
            == '/' by {
            if i < t.len() {
                assert(t[i] == s[i]);
            }
        }
    } else {
        assert(s =~= s.subrange(0, s.len() as int));
    }
}

/// A configuration is accepted exactly if the rates, intervals and capacities are not zero, a group
/// has room for two chunks, and a claim for one. What is named as not accepted is not, and all that
/// is looked at before it is.
pub proof fn law_settings_are_checked(c: Config)
    ensures
        c.error() is None <==> c.tick_hz > 0 && c.snapshot_interval_ticks > 0
            && c.peer_outbound_capacity > 0 && c.max_live_chunks > 0 && c.oscillator_max_group_size
            >= 2 && c.claim_w_chunks >= 1 && c.claim_h_chunks >= 1,
        c.error() matches Some(e) ==> match e {
            ConfigError::TickHz => c.tick_hz == 0,
            ConfigError::SnapshotIntervalTicks => c.snapshot_interval_ticks == 0 && c.tick_hz > 0,
            ConfigError::PeerOutboundCapacity => c.peer_outbound_capacity == 0
                && c.snapshot_interval_ticks > 0,
            ConfigError::MaxLiveChunks => c.max_live_chunks == 0 && c.peer_outbound_capacity > 0,
            ConfigError::OscillatorMaxGroupSize => c.oscillator_max_group_size < 2
                && c.max_live_chunks > 0,
            ConfigError::ClaimWChunks => c.claim_w_chunks == 0 && c.oscillator_max_group_size >= 2,
            ConfigError::ClaimHChunks => c.claim_h_chunks == 0 && c.claim_w_chunks >= 1,
        },
{
}

/// What went wrong is told in these words.
pub proof fn law_errors_are_told_in_words(t: u8)
    ensures
        DecodeError::Empty.text() == "empty frame"@,
        DecodeError::UnknownTag(t).text() == "unknown tag 0x"@ + seq![
            digit(t as int / 16),
            digit(t as int % 16),
        ],
        DecodeError::Truncated.text() == "truncated frame"@,
        DecodeError::BadLocalCoord.text() == "local coord out of CHUNK_SIZE range"@,
        ConfigError::TickHz.text() == "config: tick_hz must be > 0"@,
        ConfigError::SnapshotIntervalTicks.text() == "config: snapshot_interval_ticks must be > 0"@,
        ConfigError::PeerOutboundCapacity.text() == "config: peer_outbound_capacity must be > 0"@,
        ConfigError::MaxLiveChunks.text() == "config: max_live_chunks must be > 0"@,
        ConfigError::OscillatorMaxGroupSize.text()
            == "config: oscillator_max_group_size must be >= 2"@,
        ConfigError::ClaimWChunks.text() == "config: claim_w_chunks must be >= 1"@,
        ConfigError::ClaimHChunks.text() == "config: claim_h_chunks must be >= 1"@,
{
    reveal_strlit("0123456789abcdef");
    assert forall|n: int| 0 <= n < 16 implies #[trigger] "0123456789abcdef"@[n] == digit(n) by {}
    let h = t as int / 16;
    let l = t as int % 16;
    assert("0123456789abcdef"@[h] == digit(h));
    assert("0123456789abcdef"@[l] == digit(l));
}

/// Providers are listed in the order of their slugs, each with its slug and what it is shown as.
pub proof fn law_offers_are_in_order(s: Seq<(String, String)>, i: int, j: int, k: int)
    requires
        auth::by_slug(auth::offers(s)),
        0 <= i < j < s.len(),
    ensures
        auth::offers(s).len() == s.len(),
        auth::offers(s)[i] == (s[i].0@, s[i].1@),
        ({
            let a = vstd::utf8::encode_utf8(s[i].0@);
            let b = vstd::utf8::encode_utf8(s[j].0@);
            0 <= k <= a.len() && k <= b.len() && (forall|n: int| 0 <= n < k ==> a[n] == b[n]) && (k
                == a.len() || k == b.len() || a[k] != b[k]) ==> k == a.len() || (k < b.len() && a[k]
                < b[k])
        }),
{
    let a = vstd::utf8::encode_utf8(s[i].0@);
    let b = vstd::utf8::encode_utf8(s[j].0@);
    assert(auth::offers(s)[i].0 == s[i].0@ && auth::offers(s)[j].0 == s[j].0@);
    assert(auth::bytes_le(a, b));
    if 0 <= k <= a.len() && k <= b.len() && (forall|n: int| 0 <= n < k ==> a[n] == b[n]) && (k
        == a.len() || k == b.len() || a[k] != b[k]) {
        law_slugs_are_compared_bytewise(a, b, k);
    }
}

} // verus!
