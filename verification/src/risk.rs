//! Pre-trade risk checks: per-user token-bucket rate limiting and
//! idempotency keys, with the caps the position checks use.
use vstd::prelude::*;
use crate::text::str_eq;
use crate::types::UserId;
use std::collections::HashMap;

verus! {

/// Limits applied before an order reaches the engine.
#[derive(Debug, Clone, Copy, PartialEq, Eq, Structural)]
pub struct Caps {
    pub max_position: i64,
    pub max_notional_cents: i64,
    pub rate_per_sec: u32,
    pub burst: u32,
}

/// Why a request was refused.
#[derive(Debug, Clone, Copy, PartialEq, Eq, Structural)]
pub enum RiskError {
    RateLimited,
    DuplicateIdempotencyKey,
    /// The system clock could not be read (it is before the Unix epoch).
    Clock,
}

/// The text a risk refusal is reported with.
pub open spec fn risk_message(e: RiskError) -> Seq<char> {
    match e {
        RiskError::RateLimited => "rate limit exceeded"@,
        RiskError::DuplicateIdempotencyKey => "duplicate idempotency key"@,
        RiskError::Clock => "system clock before the Unix epoch"@,
    }
}

impl RiskError {
    pub fn message(&self) -> (s: &'static str)
        ensures
            s@ == risk_message(*self),
    {
        match self {
            RiskError::RateLimited => "rate limit exceeded",
            RiskError::DuplicateIdempotencyKey => "duplicate idempotency key",
            RiskError::Clock => "system clock before the Unix epoch",
        }
    }
}

pub struct Risk {
    pub caps: Caps,
    /// Per user: the second of the last accepted request and the tokens left.
    pub bucket: HashMap<UserId, (u64, u32)>,
    pub idempo: Vec<String>,
}

/// The bucket a request sees: the stored one, or a full one stamped now.
pub open spec fn current(b: Map<UserId, (u64, u32)>, user: UserId, now: u64, burst: u32) -> (u64, u32) {
    if b.contains_key(user) {
        b[user]
    } else {
        (now, burst)
    }
}

pub open spec fn elapsed(now: u64, last: u64) -> int {
    if now >= last {
        now - last
    } else {
        0
    }
}

/// Tokens before the refill is capped: the stored tokens plus the elapsed
/// seconds times the rate.
pub open spec fn refill(b: Map<UserId, (u64, u32)>, user: UserId, now: u64, caps: Caps) -> int {
    let (last, tokens) = current(b, user, now, caps.burst);
    tokens + elapsed(now, last) * caps.rate_per_sec
}

/// Token-bucket rate limiting at second `now`: the bucket refills at
/// `rate_per_sec` up to `burst`; a request with no token left is refused
/// and changes nothing; otherwise it takes one token and stamps the bucket.
pub open spec fn rate_step(b: Map<UserId, (u64, u32)>, user: UserId, now: u64, caps: Caps) -> (
    Map<UserId, (u64, u32)>,
    Result<(), RiskError>,
) {
    let t = refill(b, user, now, caps);
    let tokens = if t < caps.burst { t } else { caps.burst as int };
    if tokens == 0 {
        (b, Err(RiskError::RateLimited))
    } else {
        (b.insert(user, (now, (tokens - 1) as u32)), Ok(()))
    }
}

/// Idempotency: a key is accepted the first time and refused afterwards.
pub open spec fn idem_step(keys: Seq<Seq<char>>, key: Seq<char>) -> (Seq<Seq<char>>, Result<(), RiskError>) {
    if keys.contains(key) {
        (keys, Err(RiskError::DuplicateIdempotencyKey))
    } else {
        (keys.push(key), Ok(()))
    }
}

pub open spec fn key_views(s: Seq<String>) -> Seq<Seq<char>> {
    s.map_values(|k: String| k@)
}

/// An idempotency key is honoured at most once: whatever the first check
/// with a key returned, a second check with it is refused.
pub proof fn law_idempotency_key_used_once(keys: Seq<Seq<char>>, key: Seq<char>)
    ensures
        idem_step(idem_step(keys, key).0, key).1 == Err::<(), RiskError>(RiskError::DuplicateIdempotencyKey),
{
    if !keys.contains(key) {
        assert(keys.push(key)[keys.len() as int] == key);
    }
}

/// A bucket never holds more than `burst` tokens, and an accepted request
/// always leaves strictly fewer than `burst`.
pub proof fn law_bucket_below_burst(b: Map<UserId, (u64, u32)>, user: UserId, now: u64, caps: Caps)
    ensures
        rate_step(b, user, now, caps).1 is Ok ==> ({
            let nb = rate_step(b, user, now, caps).0;
            &&& nb.contains_key(user)
            &&& nb[user].1 < caps.burst
            &&& nb[user].0 == now
        }),
{
}

/// The buckets after `k` requests of `user` within second `now`.
pub open spec fn repeat_steps(b: Map<UserId, (u64, u32)>, user: UserId, now: u64, caps: Caps, k: nat) -> Map<
    UserId,
    (u64, u32),
>
    decreases k,
{
    if k == 0 {
        b
    } else {
        rate_step(repeat_steps(b, user, now, caps, (k - 1) as nat), user, now, caps).0
    }
}

proof fn lemma_repeat_steps(b: Map<UserId, (u64, u32)>, user: UserId, now: u64, caps: Caps, k: nat)
    requires
        !b.contains_key(user),
        k <= caps.burst,
    ensures
        k == 0 ==> !repeat_steps(b, user, now, caps, k).contains_key(user),
        k > 0 ==> repeat_steps(b, user, now, caps, k).contains_key(user) && repeat_steps(b, user, now, caps, k)[user] == (
            now,
            (caps.burst - k) as u32,
        ),
        k < caps.burst ==> rate_step(repeat_steps(b, user, now, caps, k), user, now, caps).1 is Ok,
        k == caps.burst ==> rate_step(repeat_steps(b, user, now, caps, k), user, now, caps).1 == Err::<(), RiskError>(
            RiskError::RateLimited,
        ),
    decreases k,
{
    if k > 0 {
        lemma_repeat_steps(b, user, now, caps, (k - 1) as nat);
    }
}

/// The per-second token rule: within one second, a user without a bucket
/// gets exactly `burst` requests through, and the next one is refused.
pub proof fn law_burst_per_second(b: Map<UserId, (u64, u32)>, user: UserId, now: u64, caps: Caps, k: nat)
    requires
        !b.contains_key(user),
        k <= caps.burst,
    ensures
        k < caps.burst ==> rate_step(repeat_steps(b, user, now, caps, k), user, now, caps).1 is Ok,
        k == caps.burst ==> rate_step(repeat_steps(b, user, now, caps, k), user, now, caps).1 == Err::<(), RiskError>(
            RiskError::RateLimited,
        ),
{
    lemma_repeat_steps(b, user, now, caps, k);
}


/// Unused tokens carry over: a user whose bucket was stamped at second `t`
/// with `k` tokens left has `min(burst, k + (t2 - t) * rate_per_sec)`
/// tokens at any later second `t2`. A request then is accepted exactly when
/// that is positive; it leaves one token fewer, stamped `t2`, and other
/// users' buckets untouched; a refused request changes nothing.
pub proof fn law_tokens_carry_over(b: Map<UserId, (u64, u32)>, user: UserId, caps: Caps, t2: u64)
    requires
        b.contains_key(user),
        b[user].0 <= t2,
    ensures
        ({
            let t = b[user].0;
            let k = b[user].1;
            let total = k + (t2 - t) * caps.rate_per_sec;
            let avail = if total < caps.burst { total } else { caps.burst as int };
            &&& (rate_step(b, user, t2, caps).1 is Ok <==> avail > 0)
            &&& (avail > 0 ==> rate_step(b, user, t2, caps).0 == b.insert(user, (t2, (avail - 1) as u32)))
            &&& (avail <= 0 ==> rate_step(b, user, t2, caps).0 == b)
        }),
{
}

/// Tokens left over are not lost on refill: with at least one token left
/// at second `t`, a rate of at least one per second and a burst of at
/// least two, two requests in the next second are both accepted.
pub proof fn law_two_requests_next_second(b: Map<UserId, (u64, u32)>, user: UserId, caps: Caps)
    requires
        b.contains_key(user),
        b[user].1 >= 1,
        b[user].0 < u64::MAX,
        caps.rate_per_sec >= 1,
        caps.burst >= 2,
    ensures
        ({
            let t1 = (b[user].0 + 1) as u64;
            let first = rate_step(b, user, t1, caps);
            &&& first.1 is Ok
            &&& rate_step(first.0, user, t1, caps).1 is Ok
        }),
{
    let t1 = (b[user].0 + 1) as u64;
    law_tokens_carry_over(b, user, caps, t1);
    let first = rate_step(b, user, t1, caps);
    let t = b[user].0;
    let r = caps.rate_per_sec;
    assert((t1 - t) * r == r) by (nonlinear_arith)
        requires
            t1 - t == 1,
    ;
    assert(b[user].1 + caps.rate_per_sec >= 2);
    assert(first.0.contains_key(user) && first.0[user].0 == t1 && first.0[user].1 >= 1);
    law_tokens_carry_over(first.0, user, caps, t1);
}

/// Calls `SystemTime::elapsed` on the Unix epoch: the current Unix time in
/// whole seconds read from the system clock, or `None` when the clock is
/// before the epoch. Nothing is claimed about the value.
#[verifier::external_body]
fn unix_now_secs() -> (res: Option<u64>) {
    std::time::UNIX_EPOCH.elapsed().ok().map(|d| d.as_secs())
}

impl Risk {
    pub fn new(caps: Caps) -> (r: Self)
        ensures
            r.caps == caps,
            r.bucket@ == Map::<UserId, (u64, u32)>::empty(),
            r.idempo@.len() == 0,
    {
        Risk { caps, bucket: HashMap::new(), idempo: Vec::new() }
    }

    pub fn caps(&self) -> (c: &Caps)
        ensures
            *c == self.caps,
    {
        &self.caps
    }

    /// The rate-limit decision at second `now` (see `rate_step`).
    pub fn check_rate_limit_at(&mut self, user: UserId, now: u64) -> (res: Result<(), RiskError>)
        ensures
            final(self).caps == old(self).caps,
            final(self).idempo@ == old(self).idempo@,
            final(self).bucket@ == rate_step(old(self).bucket@, user, now, old(self).caps).0,
            res == rate_step(old(self).bucket@, user, now, old(self).caps).1,
    {
        broadcast use vstd::std_specs::hash::group_hash_axioms;

        let (last, tokens0) = match self.bucket.get(&user) {
            Some(v) => *v,
            None => (now, self.caps.burst),
        };
        let el: u64 = if now >= last { now - last } else { 0 };
        let el128: u128 = el as u128;
        let rate128: u128 = self.caps.rate_per_sec as u128;
        assert(0 <= el128 * rate128 <= 0xffff_ffff_ffff_ffff * 0xffff_ffff) by (nonlinear_arith)
            requires
                el128 <= 0xffff_ffff_ffff_ffff,
                rate128 <= 0xffff_ffff,
        ;
        let refilled: u128 = tokens0 as u128 + el128 * rate128;
        let tokens: u32 = if refilled < self.caps.burst as u128 { refilled as u32 } else { self.caps.burst };
        if tokens == 0 {
            return Err(RiskError::RateLimited);
        }
        self.bucket.insert(user, (now, tokens - 1));
        Ok(())
    }

    /// Rate limiting at the current second: a clock before the Unix epoch
    /// refuses the request and changes nothing; otherwise the decision is
    /// `rate_step` at the second read.
    pub fn check_rate_limit(&mut self, user: UserId) -> (res: Result<(), RiskError>)
        ensures
            final(self).caps == old(self).caps,
            final(self).idempo@ == old(self).idempo@,
            (res == Err::<(), RiskError>(RiskError::Clock) && final(self).bucket@ == old(self).bucket@) || exists|now: u64|
                #[trigger] rate_step(old(self).bucket@, user, now, old(self).caps) == (final(self).bucket@, res),
    {
        let now = match unix_now_secs() {
            Some(t) => t,
            None => {
                return Err(RiskError::Clock);
            },
        };
        let ghost b0 = self.bucket@;
        let r = self.check_rate_limit_at(user, now);
        assert(rate_step(b0, user, now, self.caps) == (self.bucket@, r));
        r
    }

    /// Accepts an idempotency key the first time and refuses it afterwards.
    pub fn check_idempotency(&mut self, key: &str) -> (res: Result<(), RiskError>)
        ensures
            final(self).caps == old(self).caps,
            final(self).bucket@ == old(self).bucket@,
            key_views(final(self).idempo@) == idem_step(key_views(old(self).idempo@), key@).0,
            res == idem_step(key_views(old(self).idempo@), key@).1,
    {
        let ghost k0 = key_views(self.idempo@);
        let mut i: usize = 0;
        while i < self.idempo.len()
            invariant
                i <= self.idempo@.len(),
                k0 == key_views(self.idempo@),
                forall|j: int| 0 <= j < i ==> k0[j] != key@,
            decreases self.idempo@.len() - i,
        {
            if str_eq(self.idempo[i].as_str(), key) {
                assert(k0[i as int] == key@);
                return Err(RiskError::DuplicateIdempotencyKey);
            }
            i = i + 1;
        }
        assert(!k0.contains(key@));
        self.idempo.push(key.to_owned());
        assert(key_views(self.idempo@) =~= k0.push(key@));
        Ok(())
    }
}

} // verus!
