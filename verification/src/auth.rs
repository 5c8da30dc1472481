//! Login decisions: which logins are under way, who logged in, what a session says, and which
//! providers are offered.

use crate::codec;
use crate::config::OidcProvider;
use crate::sort;
use crate::user_store;
use crate::user_store::{User, UserStore};
use vstd::prelude::*;

verus! {

broadcast use vstd::seq_lib::group_to_multiset_ensures;

/// Seconds that a session lasts: 30 days.
pub const SESSION_MAX_AGE_SECS: i64 = 2_592_000;

/// Nanoseconds that a login may take: 10 minutes.
pub const PENDING_TTL_NANOS: u64 = 600_000_000_000;

/// What a session token says.
#[derive(Debug)]
pub struct SessionClaims {
    /// SHA-256 hex of email — file index key.
    pub sub: String,
    pub uid: u32,
    pub exp: i64,
}

/// What a provider hands back through the browser.
#[derive(Debug)]
pub struct CallbackParams {
    pub code: String,
    pub state: String,
}

/// A login that is under way.
#[derive(Debug)]
pub struct OAuthPending {
    /// The secret by which it is found again.
    pub state: String,
    pub pkce_verifier: String,
    pub provider: String,
    /// Nanoseconds on the server's clock.
    pub created_at: u64,
}

/// Whether a login that was begun at `created_at` may still be finished.
pub open spec fn in_time(created_at: u64, now: u64) -> bool {
    now - created_at < PENDING_TTL_NANOS
}

fn is_in_time(created_at: u64, now: u64) -> (b: bool)
    ensures
        b == in_time(created_at, now),
{
    now <= created_at || now - created_at < PENDING_TTL_NANOS
}

/// The login that is found by `state`.
pub open spec fn held(s: Seq<OAuthPending>, state: Seq<char>) -> Option<OAuthPending>
    decreases s.len(),
{
    if s.len() == 0 {
        None
    } else if s[0].state@ == state {
        Some(s[0])
    } else {
        held(s.drop_first(), state)
    }
}

/// No two logins have the same state.
pub open spec fn distinct(s: Seq<OAuthPending>) -> bool {
    forall|i: int, j: int|
        0 <= i < j < s.len() ==> (#[trigger] s[i]).state@ != (#[trigger] s[j]).state@
}

/// The logins that are still to be finished at `now`, but for the one that is found by `state`.
pub open spec fn still_under_way(s: Seq<OAuthPending>, state: Seq<char>, now: u64) -> Seq<
    OAuthPending,
> {
    s.filter(|p: OAuthPending| in_time(p.created_at, now) && p.state@ != state)
}

/// Tells the logins that are not found by `state`.
pub open spec fn others(state: Seq<char>) -> spec_fn(OAuthPending) -> bool {
    |p: OAuthPending| p.state@ != state
}

/// The logins but for the one that is found by `state`.
pub open spec fn without(s: Seq<OAuthPending>, state: Seq<char>) -> Seq<OAuthPending> {
    s.filter(others(state))
}

/// The logins that are under way.
#[derive(Debug)]
pub struct PendingLogins {
    pub entries: Vec<OAuthPending>,
}

impl PendingLogins {
    /// No logins.
    pub fn new() -> (t: Self)
        ensures
            t.entries@.len() == 0,
    {
        PendingLogins { entries: Vec::new() }
    }

    /// Begin a login. Those that took too long are dropped.
    pub fn begin(&mut self, state: String, pkce_verifier: String, provider: String, now: u64)
        ensures
            final(self).entries@ == still_under_way(old(self).entries@, state@, now).push(
                OAuthPending { state, pkce_verifier, provider, created_at: now },
            ),
    {
        let ghost all = self.entries@;
        let ghost f = |p: OAuthPending| in_time(p.created_at, now) && p.state@ != state@;
        let mut i: usize = 0;
        let ghost mut k: int = 0;
        proof {
            assert(all.take(0).filter(f) =~= Seq::<OAuthPending>::empty()) by {
                reveal_with_fuel(Seq::filter, 1);
            }
            assert(self.entries@ =~= all.take(0).filter(f) + all.skip(0));
        }
        while i < self.entries.len()
            invariant
                0 <= k <= all.len(),
                f == (|p: OAuthPending| in_time(p.created_at, now) && p.state@ != state@),
                i == all.take(k).filter(f).len(),
                self.entries@ == all.take(k).filter(f) + all.skip(k),
            decreases self.entries@.len() - i,
        {
            let ghost done = all.take(k);
            let ghost before = self.entries@;
            proof {
                assert(self.entries@[i as int] == all[k]);
                assert(all.take(k + 1) =~= done.push(all[k]));
                done.lemma_filter_push(all[k], f);
                assert(all.skip(k) =~= seq![all[k]] + all.skip(k + 1));
            }
            let keep = is_in_time(self.entries[i].created_at, now) && self.entries[i].state
                != state;
            if keep {
                i = i + 1;
                proof {
                    assert(f(all[k]));
                    assert(self.entries@ =~= done.push(all[k]).filter(f) + all.skip(k + 1));
                }
            } else {
                self.entries.remove(i);
                proof {
                    assert(!f(all[k]));
                    assert(self.entries@ =~= done.push(all[k]).filter(f) + all.skip(k + 1));
                }
            }
            proof {
                k = k + 1;
            }
        }
        proof {
            assert(all.skip(k).len() == 0);
            assert(all.take(k) =~= all);
            assert(self.entries@ =~= all.filter(f));
        }
        self.entries.push(OAuthPending { state, pkce_verifier, provider, created_at: now });
    }

    /// Finish a login: it is found by its state, whatever becomes of it is dropped, and its verifier
    /// is handed out if it did not take too long and is with the same provider.
    pub fn finish(&mut self, state: &str, provider: &str, now: u64) -> (r: Option<String>)
        requires
            distinct(old(self).entries@),
        ensures
            final(self).entries@ == without(old(self).entries@, state@),
            match held(old(self).entries@, state@) {
                Some(p) if in_time(p.created_at, now) && p.provider@ == provider@ => r matches Some(
                    v,
                ) && v@ == p.pkce_verifier@,
                _ => r is None,
            },
    {
        let ghost all = self.entries@;
        let mut i: usize = 0;
        assert(all.skip(0) =~= all);
        while i < self.entries.len()
            invariant
                i <= self.entries@.len(),
                self.entries@ == all,
                all == old(self).entries@,
                distinct(all),
                held(all.skip(i as int), state@) == held(all, state@),
                forall|j: int| 0 <= j < i ==> (#[trigger] all[j]).state@ != state@,
            decreases self.entries@.len() - i,
        {
            assert(all.skip(i as int)[0] == all[i as int]);
            assert(all.skip(i as int).drop_first() =~= all.skip(i + 1));
            if str_eq(self.entries[i].state.as_str(), state) {
                let p = self.entries.remove(i);
                proof {
                    lemma_without_one(all, state@, i as int);
                }
                if is_in_time(p.created_at, now) && str_eq(p.provider.as_str(), provider) {
                    return Some(p.pkce_verifier);
                }
                return None;
            }
            i = i + 1;
        }
        proof {
            lemma_without_none(all, state@);
            assert(all.skip(i as int).len() == 0);
        }
        None
    }
}

/// Whether two texts are the same.
fn str_eq(a: &str, b: &str) -> (r: bool)
    ensures
        r == (a@ == b@),
{
    let x = a.to_owned();
    let y = b.to_owned();
    x == y
}

/// Where nothing is found, nothing is dropped.
proof fn lemma_without_none(s: Seq<OAuthPending>, state: Seq<char>)
    requires
        forall|j: int| 0 <= j < s.len() ==> (#[trigger] s[j]).state@ != state,
    ensures
        without(s, state) == s,
    decreases s.len(),
{
    let f = others(state);
    reveal_with_fuel(Seq::filter, 2);
    if s.len() > 0 {
        let init = s.drop_last();
        assert forall|j: int| 0 <= j < init.len() implies (#[trigger] init[j]).state@ != state by {
            assert(init[j] == s[j]);
        }
        lemma_without_none(init, state);
        assert(s.last() == s[s.len() - 1]);
        assert(init.push(s.last()) =~= s);
    } else {
        assert(s.filter(f) =~= s);
    }
}

/// Dropping the one that is found.
proof fn lemma_without_one(s: Seq<OAuthPending>, state: Seq<char>, i: int)
    requires
        0 <= i < s.len(),
        distinct(s),
        s[i].state@ == state,
    ensures
        without(s, state) == s.remove(i),
    decreases s.len(),
{
    let f = others(state);
    reveal_with_fuel(Seq::filter, 2);
    let init = s.drop_last();
    if i == s.len() - 1 {
        assert forall|j: int| 0 <= j < init.len() implies (#[trigger] init[j]).state@ != state by {
            assert(init[j] == s[j]);
            assert(s[j].state@ != s[i].state@);
        }
        lemma_without_none(init, state);
        assert(s.remove(i) =~= init);
    } else {
        assert(distinct(init)) by {
            assert forall|a: int, b: int| 0 <= a < b < init.len() implies (
            #[trigger] init[a]).state@ != (#[trigger] init[b]).state@ by {
                assert(init[a] == s[a] && init[b] == s[b]);
            }
        }
        assert(init[i] == s[i]);
        lemma_without_one(init, state, i);
        assert(s[i].state@ != s[s.len() - 1].state@);
        assert(s.last() == s[s.len() - 1]);
        assert(init.remove(i).push(s.last()) =~= s.remove(i));
    }
}

/// What a filter keeps of distinct logins is distinct.
proof fn lemma_filter_distinct(s: Seq<OAuthPending>, f: spec_fn(OAuthPending) -> bool)
    requires
        distinct(s),
    ensures
        distinct(s.filter(f)),
        forall|i: int|
            0 <= i < s.filter(f).len() ==> s.contains(#[trigger] s.filter(f)[i]) && f(
                s.filter(f)[i],
            ),
    decreases s.len(),
{
    reveal_with_fuel(Seq::filter, 2);
    if s.len() > 0 {
        let init = s.drop_last();
        let rest = init.filter(f);
        let all = s.filter(f);
        assert(distinct(init)) by {
            assert forall|a: int, b: int| 0 <= a < b < init.len() implies (
            #[trigger] init[a]).state@ != (#[trigger] init[b]).state@ by {
                assert(init[a] == s[a] && init[b] == s[b]);
            }
        }
        lemma_filter_distinct(init, f);
        assert forall|i: int| 0 <= i < all.len() implies s.contains(#[trigger] all[i]) && f(
            all[i],
        ) by {
            if i < rest.len() {
                assert(all[i] == rest[i]);
                let k = choose|k: int| 0 <= k < init.len() && init[k] == rest[i];
                assert(s[k] == all[i]);
            } else {
                assert(s[s.len() - 1] == all[i]);
            }
        }
        assert forall|a: int, b: int| 0 <= a < b < all.len() implies (#[trigger] all[a]).state@ != (
        #[trigger] all[b]).state@ by {
            assert(all[a] == rest[a]);
            if b < rest.len() {
                assert(all[b] == rest[b]);
            } else {
                assert(init.contains(rest[a]));
                let k = choose|k: int| 0 <= k < init.len() && init[k] == rest[a];
                assert(s[k] == all[a] && s[s.len() - 1] == all[b]);
            }
        }
    }
}

/// A login is found by its state only if one has it.
proof fn lemma_held(s: Seq<OAuthPending>, state: Seq<char>)
    ensures
        held(s, state) is None <==> forall|i: int|
            0 <= i < s.len() ==> (#[trigger] s[i]).state@ != state,
    decreases s.len(),
{
    if s.len() > 0 {
        let rest = s.drop_first();
        lemma_held(rest, state);
        if s[0].state@ != state {
            if held(rest, state) is None {
                assert forall|i: int| 0 <= i < s.len() implies (#[trigger] s[i]).state@
                    != state by {
                    if i > 0 {
                        assert(rest[i - 1] == s[i]);
                    }
                }
            } else {
                let i = choose|i: int| 0 <= i < rest.len() && (#[trigger] rest[i]).state@ == state;
                assert(s[i + 1] == rest[i]);
            }
        }
    }
}

proof fn lemma_without_distinct(s: Seq<OAuthPending>, state: Seq<char>)
    requires
        distinct(s),
    ensures
        distinct(without(s, state)),
        forall|i: int|
            0 <= i < without(s, state).len() ==> (#[trigger] without(s, state)[i]).state@ != state,
{
    let f = others(state);
    lemma_filter_distinct(s, f);
    assert forall|i: int| 0 <= i < without(s, state).len() implies (#[trigger] without(
        s,
        state,
    )[i]).state@ != state by {
        assert(f(without(s, state)[i]));
    }
}

/// Beginning and finishing logins never makes two of them have the same state.
pub proof fn law_states_stay_distinct(
    s: Seq<OAuthPending>,
    p: OAuthPending,
    state: Seq<char>,
    now: u64,
)
    requires
        distinct(s),
    ensures
        distinct(still_under_way(s, p.state@, now).push(p)),
        distinct(without(s, state)),
{
    let f = |q: OAuthPending| in_time(q.created_at, now) && q.state@ != p.state@;
    lemma_filter_distinct(s, f);
    lemma_without_distinct(s, state);
    let kept = s.filter(f);
    assert forall|a: int, b: int| 0 <= a < b < kept.push(p).len() implies (#[trigger] kept.push(
        p,
    )[a]).state@ != (#[trigger] kept.push(p)[b]).state@ by {
        if b == kept.len() {
            assert(f(kept[a]));
        }
    }
}

/// Which logins are left when one is begun, and when one is finished.
pub proof fn lemma_left_under_way(
    s: Seq<OAuthPending>,
    state: Seq<char>,
    now: u64,
    login: OAuthPending,
)
    ensures
        still_under_way(s, state, now).contains(login) <==> s.contains(login) && in_time(
            login.created_at,
            now,
        ) && login.state@ != state,
        without(s, state).contains(login) <==> s.contains(login) && login.state@ != state,
    decreases s.len(),
{
    reveal_with_fuel(Seq::filter, 2);
    if s.len() > 0 {
        let init = s.drop_last();
        let last = s.last();
        lemma_left_under_way(init, state, now, login);
        assert(s =~= init.push(last));
        sort::lemma_push_contains(init, last);
        sort::lemma_push_contains(still_under_way(init, state, now), last);
        sort::lemma_push_contains(without(init, state), last);
    }
}

/// A state is good for one login: once it was asked for, it is not found again.
pub proof fn law_state_is_used_once(s: Seq<OAuthPending>, state: Seq<char>)
    requires
        distinct(s),
    ensures
        held(without(s, state), state) is None,
{
    lemma_without_distinct(s, state);
    lemma_held(without(s, state), state);
}

/// Why a login did not come about.
#[derive(Debug, Clone, Copy, PartialEq, Eq)]
pub enum LoginFailure {
    /// The login is not under way, took too long, or is with another provider.
    NotPending,
    UnknownProvider,
    /// The provider did not take the code.
    Exchange,
    /// The provider did not say who it is.
    Userinfo,
    NoEmail,
    Store,
    Token,
}

impl LoginFailure {
    /// The HTTP status that answers it.
    pub fn status(&self) -> (s: u16)
        ensures
            s == (match self {
                LoginFailure::NotPending => 400u16,
                LoginFailure::UnknownProvider => 404u16,
                LoginFailure::Exchange => 401u16,
                LoginFailure::Userinfo | LoginFailure::NoEmail | LoginFailure::Store
                | LoginFailure::Token => 500u16,
            }),
    {
        match self {
            LoginFailure::NotPending => 400,
            LoginFailure::UnknownProvider => 404,
            LoginFailure::Exchange => 401,
            LoginFailure::Userinfo | LoginFailure::NoEmail | LoginFailure::Store
            | LoginFailure::Token => 500,
        }
    }
}

/// Who logged in: the email that the provider knows, and a name, which is the full name, else the
/// login name, else the email.
pub fn identify(
    email: Option<String>,
    name: Option<String>,
    login: Option<String>,
) -> (r: Result<(String, String), LoginFailure>)
    ensures
        match email {
            None => r == Err::<(String, String), LoginFailure>(LoginFailure::NoEmail),
            Some(e) => r matches Ok((a, b)) && a@ == e@ && b@ == (match (name, login) {
                (Some(n), _) => n@,
                (None, Some(l)) => l@,
                (None, None) => e@,
            }),
        },
{
    let e = match email {
        Some(e) => e,
        None => {
            return Err(LoginFailure::NoEmail);
        },
    };
    let n = match name {
        Some(n) => n,
        None => match login {
            Some(l) => l,
            None => e.clone(),
        },
    };
    Ok((e, n))
}

/// The number of the user with an email.
pub open spec fn id_of(email: Seq<char>) -> nat {
    codec::le_value(
        user_store::sha256_digest(vstd::utf8::encode_utf8(email)).subrange(0, 4),
    )
}

/// The user that logged in with a provider.
pub fn user_for(email: &String, name: String, provider: String) -> (u: User)
    ensures
        u.id == id_of(email@),
        u.provider@ == provider@,
        u.subject@ == email@,
        u.email@ == email@,
        u.name@ == name@,
{
    User {
        id: UserStore::email_id(email.as_str()),
        provider,
        subject: email.clone(),
        email: email.clone(),
        name,
    }
}

/// The session of a user who logged in at `now`, in seconds since the epoch.
pub fn session_for(email: &str, now: i64) -> (s: SessionClaims)
    requires
        now + SESSION_MAX_AGE_SECS <= i64::MAX,
    ensures
        s.sub@ == user_store::hex_text(
            user_store::sha256_digest(vstd::utf8::encode_utf8(email@)),
        ),
        s.uid == id_of(email@),
        s.exp == now + SESSION_MAX_AGE_SECS,
{
    SessionClaims {
        sub: UserStore::email_key(email),
        uid: UserStore::email_id(email),
        exp: now + SESSION_MAX_AGE_SECS,
    }
}

/// Whether `a` stands before `b`, or is `b`, where bytes are compared one after the other.
pub open spec fn bytes_le(a: Seq<u8>, b: Seq<u8>) -> bool
    decreases a.len(),
{
    if a.len() == 0 {
        true
    } else if b.len() == 0 {
        false
    } else if a[0] != b[0] {
        a[0] < b[0]
    } else {
        bytes_le(a.drop_first(), b.drop_first())
    }
}

proof fn lemma_bytes_total(a: Seq<u8>, b: Seq<u8>)
    ensures
        bytes_le(a, b) || bytes_le(b, a),
    decreases a.len(),
{
    if a.len() > 0 && b.len() > 0 && a[0] == b[0] {
        lemma_bytes_total(a.drop_first(), b.drop_first());
    }
}

proof fn lemma_bytes_transitive(a: Seq<u8>, b: Seq<u8>, c: Seq<u8>)
    requires
        bytes_le(a, b),
        bytes_le(b, c),
    ensures
        bytes_le(a, c),
    decreases a.len(),
{
    if a.len() > 0 && b.len() > 0 && c.len() > 0 && a[0] == b[0] && b[0] == c[0] {
        lemma_bytes_transitive(a.drop_first(), b.drop_first(), c.drop_first());
    }
}

fn stands_before(a: &[u8], b: &[u8]) -> (r: bool)
    ensures
        r == bytes_le(a@, b@),
{
    let n = a.len();
    let m = b.len();
    let mut i: usize = 0;
    assert(a@.skip(0) =~= a@ && b@.skip(0) =~= b@);
    while i < n && i < m && a[i] == b[i]
        invariant
            i <= n,
            i <= m,
            n == a@.len(),
            m == b@.len(),
            bytes_le(a@, b@) == bytes_le(a@.skip(i as int), b@.skip(i as int)),
        decreases n - i,
    {
        proof {
            assert(a@.skip(i as int).drop_first() =~= a@.skip(i + 1));
            assert(b@.skip(i as int).drop_first() =~= b@.skip(i + 1));
        }
        i = i + 1;
    }
    if i == n {
        true
    } else if i == m {
        false
    } else {
        a[i] < b[i]
    }
}

/// A provider that is offered: its slug, and what it is shown as.
pub type Offer = (Seq<char>, Seq<char>);

/// What an entry of the list of providers says.
pub open spec fn offers(s: Seq<(String, String)>) -> Seq<Offer> {
    s.map_values(|e: (String, String)| (e.0@, e.1@))
}

/// The slug and label of a provider.
pub open spec fn offer_of(p: (String, OidcProvider)) -> Offer {
    (
        p.0@,
        match p.1.display_name {
            Some(s) => s@,
            None => p.0@,
        },
    )
}

/// Whether there is a client for a slug.
pub open spec fn is_active(active: Seq<String>, slug: Seq<char>) -> bool {
    exists|i: int| 0 <= i < active.len() && (#[trigger] active[i])@ == slug
}

/// The providers that are offered, in the order in which they are configured.
pub open spec fn offered(providers: Seq<(String, OidcProvider)>, active: Seq<String>) -> Seq<Offer> {
    providers.filter(|p: (String, OidcProvider)| is_active(active, p.0@)).map_values(
        |p: (String, OidcProvider)| offer_of(p),
    )
}

/// By slug, one after the other.
pub open spec fn by_slug(s: Seq<Offer>) -> bool {
    forall|i: int, j: int|
        0 <= i < j < s.len() ==> bytes_le(
            vstd::utf8::encode_utf8((#[trigger] s[i]).0),
            vstd::utf8::encode_utf8((#[trigger] s[j]).0),
        )
}

fn has_client(active: &Vec<String>, slug: &String) -> (b: bool)
    ensures
        b == is_active(active@, slug@),
{
    let mut i: usize = 0;
    while i < active.len()
        invariant
            i <= active.len(),
            forall|j: int| 0 <= j < i ==> (#[trigger] active@[j])@ != slug@,
        decreases active.len() - i,
    {
        if active[i] == *slug {
            assert(active@[i as int]@ == slug@);
            return true;
        }
        i = i + 1;
    }
    false
}

/// The providers that there is a client for, by slug.
pub fn provider_list(providers: &Vec<(String, OidcProvider)>, active: &Vec<String>) -> (out: Vec<
    (String, String),
>)
    ensures
        by_slug(offers(out@)),
        offers(out@).to_multiset() == offered(providers@, active@).to_multiset(),
{
    let ghost f = |p: (String, OidcProvider)| is_active(active@, p.0@);
    let ghost g = |p: (String, OidcProvider)| offer_of(p);
    let mut out: Vec<(String, String)> = Vec::new();
    let mut i: usize = 0;
    proof {
        assert(providers@.take(0) =~= Seq::<(String, OidcProvider)>::empty());
        assert(providers@.take(0).filter(f) =~= Seq::<(String, OidcProvider)>::empty()) by {
            reveal_with_fuel(Seq::filter, 1);
        }
        assert(offers(out@) =~= offered(providers@.take(0), active@));
    }
    while i < providers.len()
        invariant
            i <= providers.len(),
            f == (|p: (String, OidcProvider)| is_active(active@, p.0@)),
            g == (|p: (String, OidcProvider)| offer_of(p)),
            by_slug(offers(out@)),
            offers(out@).to_multiset() == offered(
                providers@.take(i as int),
                active@,
            ).to_multiset(),
        decreases providers.len() - i,
    {
        let ghost done = providers@.take(i as int);
        let ghost p = providers@[i as int];
        proof {
            assert(providers@.take(i + 1) =~= done.push(p));
            done.lemma_filter_push(p, f);
        }
        if has_client(active, &providers[i].0) {
            let slug = providers[i].0.clone();
            let shown = providers[i].1.display(providers[i].0.as_str()).to_owned();
            let ghost before = offers(out@);
            insert_by_slug(&mut out, slug, shown);
            proof {
                let x = offer_of(p);
                assert(done.filter(f).push(p).map_values(g) =~= done.filter(f).map_values(g).push(
                    x,
                ));
                done.filter(f).map_values(g).to_multiset_ensures();
            }
        }
        i = i + 1;
    }
    assert(providers@.take(i as int) =~= providers@);
    out
}

/// Insert an entry where its slug belongs.
fn insert_by_slug(out: &mut Vec<(String, String)>, slug: String, shown: String)
    requires
        by_slug(offers(old(out)@)),
    ensures
        by_slug(offers(final(out)@)),
        offers(final(out)@).to_multiset() == offers(old(out)@).to_multiset().insert(
            (slug@, shown@),
        ),
{
    let ghost before = offers(out@);
    let ghost key = vstd::utf8::encode_utf8(slug@);
    let ghost x: Offer = (slug@, shown@);
    let mut k: usize = 0;
    while k < out.len() && stands_before(out[k].0.as_str().as_bytes(), slug.as_str().as_bytes())
        invariant
            k <= out@.len(),
            before == offers(out@),
            key == vstd::utf8::encode_utf8(slug@),
            forall|j: int|
                0 <= j < k ==> bytes_le(vstd::utf8::encode_utf8((#[trigger] before[j]).0), key),
        decreases out@.len() - k,
    {
        assert(before[k as int].0 == out@[k as int].0@);
        k = k + 1;
    }
    proof {
        let after = before.insert(k as int, x);
        if k < before.len() {
            assert(before[k as int].0 == out@[k as int].0@);
            lemma_bytes_total(vstd::utf8::encode_utf8(before[k as int].0), key);
        }
        assert forall|i: int, j: int| 0 <= i < j < after.len() implies bytes_le(
            vstd::utf8::encode_utf8((#[trigger] after[i]).0),
            vstd::utf8::encode_utf8((#[trigger] after[j]).0),
        ) by {
            let a = if i < k {
                i
            } else {
                i - 1
            };
            let b = if j < k {
                j
            } else {
                j - 1
            };
            if i == k {
                assert(after[j] == before[b]);
                if b > k {
                    assert(bytes_le(
                        vstd::utf8::encode_utf8(before[k as int].0),
                        vstd::utf8::encode_utf8(before[b].0),
                    ));
                    lemma_bytes_transitive(
                        key,
                        vstd::utf8::encode_utf8(before[k as int].0),
                        vstd::utf8::encode_utf8(before[b].0),
                    );
                }
            } else if j == k {
                assert(after[i] == before[a]);
            } else {
                assert(after[i] == before[a] && after[j] == before[b]);
            }
        }
        before.to_multiset_ensures();
    }
    out.insert(k, (slug, shown));
    proof {
        assert(offers(out@) =~= before.insert(k as int, x));
    }
}

} // verus!
