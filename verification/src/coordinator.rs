//! Distributed port coordinator: claims, releases and resyncs translated
//! endpoint ownership against the shared key-value store, so concurrent
//! NAT instances never collide on a (NAT IP, port) pair.
//!
//! Bindings live in one well-known hash key; each field is
//! `"<nat_ip>:<nat_port>"` and its value `"<original_ip>:<original_port>"`,
//! all four numbers decimal. The store alone arbitrates ownership: what a
//! call returns depends on what peers have written, so the store calls
//! promise nothing, and the decision logic is verified over every possible
//! reply.
use vstd::prelude::*;
use vstd::string::StringSliceAdditionalSpecFns;
use crate::flow::Flow;

verus! {

/// Why a coordinator operation did not succeed.
#[derive(Clone, Copy, PartialEq, Eq, Structural, Debug)]
pub enum ClaimError {
    /// The binding is owned by a different original endpoint.
    Conflict,
    /// The store could not be reached; the caller proceeds provisionally.
    StoreUnavailable,
}

/// One binding read back from the shared store.
#[derive(Clone, Copy, PartialEq, Eq, Structural, Debug)]
pub struct RemoteBinding {
    pub nat_ip: u32,
    pub nat_port: u16,
    pub orig_ip: u32,
    pub orig_port: u16,
}

// ---------------------------------------------------------------------------
// The store modelled as a map, and the claim rules over it.
// ---------------------------------------------------------------------------

/// What a claim of `(nat_ip, port)` for `orig` returns when the store
/// holds `store`: success if the binding is absent or already ours,
/// conflict if a different endpoint owns it.
pub open spec fn spec_claim_result(
    store: Map<(u32, u16), (u32, u16)>,
    nat_ip: u32,
    port: u16,
    orig: (u32, u16),
) -> Result<(), ClaimError> {
    if !store.contains_key((nat_ip, port)) {
        Result::Ok(())
    } else if store[(nat_ip, port)] == orig {
        Result::Ok(())
    } else {
        Result::Err(ClaimError::Conflict)
    }
}

/// The store after that claim: the binding is written only if it was
/// absent.
pub open spec fn spec_claim_post(
    store: Map<(u32, u16), (u32, u16)>,
    nat_ip: u32,
    port: u16,
    orig: (u32, u16),
) -> Map<(u32, u16), (u32, u16)> {
    if !store.contains_key((nat_ip, port)) {
        store.insert((nat_ip, port), orig)
    } else {
        store
    }
}

/// Claim idempotence: after a successful claim, claiming the same binding
/// for the same endpoint succeeds again, and claiming it for any other
/// endpoint conflicts.
pub proof fn lemma_claim_idempotent(
    store: Map<(u32, u16), (u32, u16)>,
    nat_ip: u32,
    port: u16,
    orig: (u32, u16),
    other: (u32, u16),
)
    requires
        spec_claim_result(store, nat_ip, port, orig) == Result::<(), ClaimError>::Ok(()),
    ensures
        spec_claim_result(spec_claim_post(store, nat_ip, port, orig), nat_ip, port, orig)
            == Result::<(), ClaimError>::Ok(()),
        other != orig ==> spec_claim_result(
            spec_claim_post(store, nat_ip, port, orig),
            nat_ip,
            port,
            other,
        ) == Result::<(), ClaimError>::Err(ClaimError::Conflict),
{
}

/// The verdict on a claim given the binding's current holder, if any.
pub open spec fn spec_claim_decision(
    existing: Option<(u32, u16)>,
    orig_ip: u32,
    orig_port: u16,
) -> Result<(), ClaimError> {
    match existing {
        Option::None => Result::Ok(()),
        Option::Some(e) => if e == (orig_ip, orig_port) {
            Result::Ok(())
        } else {
            Result::Err(ClaimError::Conflict)
        },
    }
}

/// The per-holder decision agrees with the store-level claim rule.
pub proof fn lemma_claim_decision_matches_store(
    store: Map<(u32, u16), (u32, u16)>,
    nat_ip: u32,
    port: u16,
    orig_ip: u32,
    orig_port: u16,
)
    ensures
        spec_claim_decision(
            if store.contains_key((nat_ip, port)) {
                Option::Some(store[(nat_ip, port)])
            } else {
                Option::None
            },
            orig_ip,
            orig_port,
        ) == spec_claim_result(store, nat_ip, port, (orig_ip, orig_port)),
{
}

/// The store after releasing `(nat_ip, port)`: the binding removed,
/// whoever held it.
pub open spec fn spec_release_post(
    store: Map<(u32, u16), (u32, u16)>,
    nat_ip: u32,
    port: u16,
) -> Map<(u32, u16), (u32, u16)> {
    store.remove((nat_ip, port))
}

/// Release is idempotent, a no-op when the binding is absent, and frees
/// the endpoint: any claim of it afterwards succeeds.
pub proof fn lemma_release(
    store: Map<(u32, u16), (u32, u16)>,
    nat_ip: u32,
    port: u16,
    orig: (u32, u16),
)
    ensures
        spec_release_post(spec_release_post(store, nat_ip, port), nat_ip, port)
            == spec_release_post(store, nat_ip, port),
        !store.contains_key((nat_ip, port)) ==> spec_release_post(store, nat_ip, port) == store,
        spec_claim_result(spec_release_post(store, nat_ip, port), nat_ip, port, orig)
            == Result::<(), ClaimError>::Ok(()),
{
    assert(spec_release_post(spec_release_post(store, nat_ip, port), nat_ip, port)
        =~= spec_release_post(store, nat_ip, port));
    if !store.contains_key((nat_ip, port)) {
        assert(spec_release_post(store, nat_ip, port) =~= store);
    }
}

/// Decide a claim from the binding's current holder.
pub fn claim_decision(existing: Option<(u32, u16)>, orig_ip: u32, orig_port: u16) -> (r: Result<
    (),
    ClaimError,
>)
    ensures
        r == spec_claim_decision(existing, orig_ip, orig_port),
{
    match existing {
        Option::None => Result::Ok(()),
        Option::Some(e) => {
            if e.0 == orig_ip && e.1 == orig_port {
                Result::Ok(())
            } else {
                Result::Err(ClaimError::Conflict)
            }
        },
    }
}

// ---------------------------------------------------------------------------
// Parsing the store's "<ip>:<port>" fields and values.
// ---------------------------------------------------------------------------

/// An ASCII decimal digit.
pub open spec fn is_digit(b: u8) -> bool {
    48 <= b <= 57
}

pub open spec fn all_digits(s: Seq<u8>) -> bool {
    forall|i: int| 0 <= i < s.len() ==> is_digit(#[trigger] s[i])
}

/// The number a digit string denotes.
pub open spec fn digits_val(s: Seq<u8>) -> int
    decreases s.len(),
{
    if s.len() == 0 {
        0
    } else {
        digits_val(s.drop_last()) * 10 + (s.last() - 48)
    }
}

spec fn pow10(n: nat) -> int
    decreases n,
{
    if n == 0 {
        1
    } else {
        10 * pow10((n - 1) as nat)
    }
}

proof fn lemma_digits_val_bound(s: Seq<u8>)
    requires
        all_digits(s),
    ensures
        0 <= digits_val(s) < pow10(s.len()),
    decreases s.len(),
{
    if s.len() > 0 {
        assert(all_digits(s.drop_last()));
        lemma_digits_val_bound(s.drop_last());
    }
}

/// A decimal number of one to ten digits, at most `max`; leading zeros
/// are accepted.
pub open spec fn spec_parse_dec(s: Seq<u8>, max: int) -> Option<int> {
    if 1 <= s.len() <= 10 && all_digits(s) && digits_val(s) <= max {
        Option::Some(digits_val(s))
    } else {
        Option::None
    }
}

/// Parse `b[start..end]` as a decimal number of at most `max`.
fn parse_dec(b: &[u8], start: usize, end: usize, max: u64) -> (r: Option<u64>)
    requires
        start <= end <= b@.len(),
    ensures
        match r {
            Option::Some(v) => spec_parse_dec(b@.subrange(start as int, end as int), max as int)
                == Option::Some(v as int),
            Option::None => spec_parse_dec(b@.subrange(start as int, end as int), max as int)
                is None,
        },
{
    let ghost whole = b@.subrange(start as int, end as int);
    if end - start < 1 || end - start > 10 {
        return None;
    }
    let mut acc: u64 = 0;
    let mut i: usize = start;
    while i < end
        invariant
            start <= i <= end <= b@.len(),
            end - start <= 10,
            whole == b@.subrange(start as int, end as int),
            all_digits(b@.subrange(start as int, i as int)),
            acc == digits_val(b@.subrange(start as int, i as int)),
            acc < 10000000000,
        decreases end - i,
    {
        let d = b[i];
        if d < 48 || d > 57 {
            proof {
                assert(whole[i - start] == b@[i as int]);
                assert(!all_digits(whole));
            }
            return None;
        }
        proof {
            let pre = b@.subrange(start as int, i as int);
            let cur = b@.subrange(start as int, i + 1);
            assert(cur.drop_last() =~= pre);
            assert(cur.last() == b@[i as int]);
            assert(all_digits(cur));
            lemma_digits_val_bound(cur);
            assert(pow10(cur.len()) <= pow10(10)) by {
                lemma_pow10_mono(cur.len(), 10);
            }
            assert(pow10(10) == 10000000000) by {
                reveal_with_fuel(pow10, 11);
            }
        }
        acc = acc * 10 + ((d - 48) as u64);
        i = i + 1;
    }
    proof {
        assert(b@.subrange(start as int, i as int) == whole);
    }
    if acc <= max {
        Some(acc)
    } else {
        None
    }
}

proof fn lemma_pow10_mono(a: nat, b: nat)
    requires
        a <= b,
    ensures
        pow10(a) <= pow10(b),
    decreases b,
{
    if a < b {
        lemma_pow10_mono(a, (b - 1) as nat);
        assert(pow10(b) == 10 * pow10((b - 1) as nat));
        assert(pow10(a) >= 1) by {
            lemma_pow10_pos(a);
        }
    }
}

proof fn lemma_pow10_pos(a: nat)
    ensures
        pow10(a) >= 1,
    decreases a,
{
    if a > 0 {
        lemma_pow10_pos((a - 1) as nat);
    }
}

/// The index of the first `':'` in `s`, or a negative value if none.
pub open spec fn first_colon(s: Seq<u8>) -> int
    decreases s.len(),
{
    if s.len() == 0 {
        -1
    } else if s[0] == 58 {
        0
    } else {
        let r = first_colon(s.drop_first());
        if r < 0 {
            -1
        } else {
            r + 1
        }
    }
}

proof fn lemma_first_colon_char(s: Seq<u8>, c: int)
    requires
        0 <= c <= s.len(),
        forall|j: int| 0 <= j < c ==> s[j] != 58,
        c < s.len() ==> s[c] == 58,
    ensures
        first_colon(s) == if c == s.len() {
            -1int
        } else {
            c
        },
    decreases s.len(),
{
    if s.len() > 0 {
        if c == 0 {
        } else {
            assert(s[0] != 58);
            let t = s.drop_first();
            assert forall|j: int| 0 <= j < c - 1 implies t[j] != 58 by {
                assert(t[j] == s[j + 1]);
            }
            assert(c - 1 < t.len() ==> t[c - 1] == s[c]);
            lemma_first_colon_char(t, c - 1);
        }
    }
}

/// What a store field or value of the shape
/// `"<decimal ip>:<decimal port>"` denotes: the two numbers, when both
/// sides are one-to-ten-digit decimals in range.
pub open spec fn spec_parse_endpoint(b: Seq<u8>) -> Option<(u32, u16)> {
    let c = first_colon(b);
    if c < 0 {
        Option::None
    } else {
        match (spec_parse_dec(b.subrange(0, c), 4294967295), spec_parse_dec(
            b.subrange(c + 1, b.len() as int),
            65535,
        )) {
            (Option::Some(ip), Option::Some(p)) => Option::Some((ip as u32, p as u16)),
            _ => Option::None,
        }
    }
}

/// Parse `"<ip>:<port>"` endpoint bytes from the shared store.
pub fn parse_endpoint_bytes(b: &[u8]) -> (r: Option<(u32, u16)>)
    ensures
        r == spec_parse_endpoint(b@),
{
    let n = b.len();
    let mut c: usize = 0;
    while c < n && b[c] != 58
        invariant
            0 <= c <= n,
            n == b@.len(),
            forall|j: int| 0 <= j < c ==> b@[j] != 58,
        decreases n - c,
    {
        c = c + 1;
    }
    proof {
        lemma_first_colon_char(b@, c as int);
    }
    if c == n {
        return None;
    }
    let ip = parse_dec(b, 0, c, 4294967295);
    match ip {
        Some(ipv) => {
            let p = parse_dec(b, c + 1, n, 65535);
            match p {
                Some(pv) => Some((ipv as u32, pv as u16)),
                None => None,
            }
        },
        None => None,
    }
}

/// Parse an `"<ip>:<port>"` endpoint string.
pub fn parse_endpoint(s: &str) -> (r: Option<(u32, u16)>)
    ensures
        r == spec_parse_endpoint(s.spec_bytes()),
{
    parse_endpoint_bytes(s.as_bytes())
}

/// The canonical decimal digits of `n`, most significant first.
pub open spec fn dec_of(n: nat) -> Seq<u8>
    decreases n,
{
    if n < 10 {
        seq![(48 + n) as u8]
    } else {
        dec_of(n / 10).push((48 + n % 10) as u8)
    }
}

proof fn lemma_dec_of(n: nat)
    ensures
        all_digits(dec_of(n)),
        1 <= dec_of(n).len(),
        digits_val(dec_of(n)) == n,
    decreases n,
{
    if n < 10 {
        let d = dec_of(n);
        assert(d == seq![(48 + n) as u8]);
        assert(d.len() == 1);
        assert(d.drop_last() =~= Seq::<u8>::empty());
        assert(digits_val(Seq::<u8>::empty()) == 0);
        assert((48 + n) as u8 == 48 + n);
        assert(d.last() == 48 + n);
        assert(digits_val(d) == digits_val(d.drop_last()) * 10 + (d.last() - 48));
    } else {
        lemma_dec_of(n / 10);
        let d = dec_of(n);
        assert(d.drop_last() =~= dec_of(n / 10));
        assert(n % 10 < 10);
        assert((48 + n % 10) as u8 == 48 + n % 10);
        assert(d.last() == (48 + n % 10) as u8);
        assert(digits_val(d) == digits_val(dec_of(n / 10)) * 10 + (n % 10));
        assert(n / 10 * 10 + n % 10 == n);
        assert forall|i: int| 0 <= i < d.len() implies is_digit(#[trigger] d[i]) by {
            if i < d.len() - 1 {
                assert(d[i] == dec_of(n / 10)[i]);
            }
        }
    }
}

proof fn lemma_dec_of_len(n: nat, k: nat)
    requires
        1 <= k,
        n < pow10(k),
    ensures
        dec_of(n).len() <= k,
    decreases k,
{
    if n >= 10 {
        assert(pow10(k) == 10 * pow10((k - 1) as nat));
        if k == 1 {
            assert(pow10(1) == 10) by {
                reveal_with_fuel(pow10, 2);
            }
            assert(false);
        }
        assert(n / 10 < pow10((k - 1) as nat));
        lemma_dec_of_len(n / 10, (k - 1) as nat);
    }
}

/// Append the decimal digits of `n`.
fn push_dec(v: &mut Vec<u8>, n: u32)
    ensures
        final(v)@ == old(v)@ + dec_of(n as nat),
    decreases n,
{
    if n < 10 {
        v.push((48 + n) as u8);
        proof {
            assert(v@ =~= old(v)@ + dec_of(n as nat));
        }
    } else {
        push_dec(v, n / 10);
        v.push((48 + (n % 10)) as u8);
        proof {
            assert(v@ =~= old(v)@ + dec_of(n as nat));
        }
    }
}

/// Encode an endpoint in the store's wire shape, `"<ip>:<port>"` with
/// both numbers decimal: the verified counterpart of `parse_endpoint`,
/// so whatever a claim writes, a later fetch or resync reads back as the
/// same endpoint.
pub fn encode_endpoint(ip: u32, port: u16) -> (v: Vec<u8>)
    ensures
        spec_parse_endpoint(v@) == Option::Some((ip, port)),
{
    let mut v: Vec<u8> = Vec::new();
    push_dec(&mut v, ip);
    v.push(58);
    push_dec(&mut v, port as u32);
    proof {
        let left = dec_of(ip as nat);
        let right = dec_of(port as nat);
        lemma_dec_of(ip as nat);
        lemma_dec_of(port as nat);
        assert(pow10(10) == 10000000000) by {
            reveal_with_fuel(pow10, 11);
        }
        lemma_dec_of_len(ip as nat, 10);
        lemma_dec_of_len(port as nat, 10);
        assert(v@ =~= left + seq![58u8] + right);
        assert forall|j: int| 0 <= j < left.len() implies v@[j] != 58 by {
            assert(v@[j] == left[j]);
            assert(is_digit(left[j]));
        }
        assert(v@[left.len() as int] == 58);
        lemma_first_colon_char(v@, left.len() as int);
        assert(v@.subrange(0, left.len() as int) =~= left);
        assert(v@.subrange(left.len() as int + 1, v@.len() as int) =~= right);
        assert(spec_parse_dec(left, 4294967295) == Option::Some(ip as int));
        assert(spec_parse_dec(right, 65535) == Option::Some(port as int));
    }
    v
}


// ---------------------------------------------------------------------------
// The shared store: redis, behind trusted declarations and wrappers.
// ---------------------------------------------------------------------------

#[verifier::external_type_specification]
#[verifier::external_body]
pub struct ExRedisConnection(redis::Connection);

#[verifier::external_type_specification]
#[verifier::external_body]
pub struct ExRedisError(redis::RedisError);

/// Relies on redis's `TypedCommands::hset_nx` (HSETNX): sets `field` to
/// `value` in the hash at `key` only if the field is absent, and reports
/// whether it was set. The reply depends on what peer instances have
/// written, so nothing more is promised.
#[verifier::external_body]
fn store_hsetnx(con: &mut redis::Connection, key: &str, field: &[u8], value: &[u8]) -> (r: Result<
    bool,
    redis::RedisError,
>) {
    redis::TypedCommands::hset_nx(con, key, field, value)
}

/// Relies on redis's `Commands::hget` (HGET): fetches `field` from the
/// hash at `key` as raw bytes, `None` when the field is absent. The reply
/// depends on the store's current state, so nothing more is promised.
#[verifier::external_body]
fn store_hget(con: &mut redis::Connection, key: &str, field: &[u8]) -> (r: Result<
    Option<Vec<u8>>,
    redis::RedisError,
>) {
    redis::Commands::hget(con, key, field)
}

/// Relies on redis's `TypedCommands::hdel` (HDEL): deletes `field` from
/// the hash at `key`; deleting an absent field is a no-op. The deletion
/// count is converted to unit.
#[verifier::external_body]
fn store_hdel(con: &mut redis::Connection, key: &str, field: &[u8]) -> (r: Result<
    (),
    redis::RedisError,
>) {
    match redis::TypedCommands::hdel(con, key, field) {
        Ok(_) => Ok(()),
        Err(e) => Err(e),
    }
}

/// Relies on redis's `Commands::hgetall` (HGETALL): returns every
/// field/value pair of the hash at `key` as raw bytes, converted to a
/// vector. The contents depend on the store's current state and the
/// map's iteration order is arbitrary, so nothing more is promised.
#[verifier::external_body]
fn store_hgetall(con: &mut redis::Connection, key: &str) -> (r: Result<
    Vec<(Vec<u8>, Vec<u8>)>,
    redis::RedisError,
>) {
    match redis::Commands::hgetall::<_, std::collections::HashMap<Vec<u8>, Vec<u8>>>(con, key) {
        Ok(m) => Ok(m.into_iter().collect()),
        Err(e) => Err(e),
    }
}

// ---------------------------------------------------------------------------
// The coordinator.
// ---------------------------------------------------------------------------

/// The verdict on a claim, given what HGET returned for the binding after
/// HSETNX reported the field as already present: an absent binding (it
/// vanished in between) or one already pointing at our endpoint is a
/// success; a binding held by a different endpoint — or one this scheme
/// cannot read — is a conflict.
pub open spec fn spec_claim_from_fetched(
    fetched: Option<Seq<u8>>,
    orig_ip: u32,
    orig_port: u16,
) -> Result<(), ClaimError> {
    match fetched {
        Option::None => Result::Ok(()),
        Option::Some(bytes) => match spec_parse_endpoint(bytes) {
            Option::Some(ep) => spec_claim_decision(Option::Some(ep), orig_ip, orig_port),
            Option::None => Result::Err(ClaimError::Conflict),
        },
    }
}

/// Decide a claim from the raw binding value the store handed back.
pub fn claim_from_fetched(fetched: Option<&[u8]>, orig_ip: u32, orig_port: u16) -> (r: Result<
    (),
    ClaimError,
>)
    ensures
        r == spec_claim_from_fetched(
            match fetched {
                Option::Some(b) => Option::Some(b@),
                Option::None => Option::None,
            },
            orig_ip,
            orig_port,
        ),
{
    match fetched {
        Option::None => Result::Ok(()),
        Option::Some(b) => {
            match parse_endpoint_bytes(b) {
                Option::Some(ep) => claim_decision(Option::Some(ep), orig_ip, orig_port),
                Option::None => Result::Err(ClaimError::Conflict),
            }
        },
    }
}

/// A field/value pair of the store's hash, parsed: present only when both
/// sides are well-formed endpoint strings.
pub open spec fn spec_binding_of(field: Seq<u8>, value: Seq<u8>) -> Option<RemoteBinding> {
    match (spec_parse_endpoint(field), spec_parse_endpoint(value)) {
        (Option::Some(k), Option::Some(v)) => Option::Some(
            RemoteBinding { nat_ip: k.0, nat_port: k.1, orig_ip: v.0, orig_port: v.1 },
        ),
        _ => Option::None,
    }
}

/// The bindings denoted by a dump of the store's hash, in dump order,
/// skipping pairs this scheme cannot read.
pub open spec fn spec_parse_bindings(raw: Seq<(Vec<u8>, Vec<u8>)>) -> Seq<RemoteBinding>
    decreases raw.len(),
{
    if raw.len() == 0 {
        Seq::empty()
    } else {
        spec_parse_bindings(raw.drop_last()) + (match spec_binding_of(
            raw.last().0@,
            raw.last().1@,
        ) {
            Option::Some(b) => seq![b],
            Option::None => Seq::empty(),
        })
    }
}

/// Parse a dump of the store's binding hash.
pub fn parse_bindings(raw: &Vec<(Vec<u8>, Vec<u8>)>) -> (r: Vec<RemoteBinding>)
    ensures
        r@ == spec_parse_bindings(raw@),
{
    let mut r: Vec<RemoteBinding> = Vec::new();
    let mut i: usize = 0;
    while i < raw.len()
        invariant
            0 <= i <= raw@.len(),
            r@ == spec_parse_bindings(raw@.subrange(0, i as int)),
        decreases raw@.len() - i,
    {
        let pair = &raw[i];
        let field = parse_endpoint_bytes(pair.0.as_slice());
        let value = parse_endpoint_bytes(pair.1.as_slice());
        match (field, value) {
            (Some(k), Some(v)) => {
                r.push(
                    RemoteBinding { nat_ip: k.0, nat_port: k.1, orig_ip: v.0, orig_port: v.1 },
                );
            },
            _ => {},
        }
        proof {
            let pre = raw@.subrange(0, i as int);
            let cur = raw@.subrange(0, i + 1);
            assert(cur.drop_last() =~= pre);
            assert(cur.last() == raw@[i as int]);
        }
        i = i + 1;
    }
    proof {
        assert(raw@.subrange(0, raw@.len() as int) =~= raw@);
    }
    r
}

/// A handle on the shared store. All bindings live in one well-known
/// hash key.
pub struct Coordinator {
    pub con: redis::Connection,
}

impl Coordinator {
    /// Wrap an established store connection.
    pub fn new(con: redis::Connection) -> (c: Coordinator) {
        Coordinator { con }
    }

    /// Claim `(nat_ip, port)` for `flow`'s source endpoint: conditionally
    /// set the binding only if absent; a binding already pointing at the
    /// same endpoint (a duplicate claim, e.g. after a restart) is a
    /// success; one pointing elsewhere is a `Conflict`. The field and
    /// value handed to the store are built by `encode_endpoint`, whose
    /// contract guarantees that a later fetch or resync parses them back
    /// to these very endpoints. The store alone decides which arm is
    /// taken; each reply is handled by the verified decision functions
    /// above, whose contracts fix the outcome for every possible reply.
    /// A transport failure is `StoreUnavailable`: the caller keeps its
    /// provisional entry and retries, it never blocks the packet path.
    pub fn claim(&mut self, nat_ip: u32, port: u16, flow: Flow) -> (r: Result<(), ClaimError>) {
        let field = encode_endpoint(nat_ip, port);
        let value = encode_endpoint(flow.src_ip, flow.src_port);
        let set = store_hsetnx(&mut self.con, "NAT", field.as_slice(), value.as_slice());
        match set {
            Err(_) => Result::Err(ClaimError::StoreUnavailable),
            Ok(true) => Result::Ok(()),
            Ok(false) => {
                let fetched = store_hget(&mut self.con, "NAT", field.as_slice());
                match fetched {
                    Err(_) => Result::Err(ClaimError::StoreUnavailable),
                    Ok(v) => {
                        match v {
                            Some(b) => claim_from_fetched(
                                Some(b.as_slice()),
                                flow.src_ip,
                                flow.src_port,
                            ),
                            None => claim_from_fetched(None, flow.src_ip, flow.src_port),
                        }
                    },
                }
            },
        }
    }

    /// Release the binding of `(nat_ip, port)`: delete it from the store,
    /// under the field `encode_endpoint` builds; releasing an absent
    /// binding is a no-op (`spec_release_post` and `lemma_release` state
    /// this at the store model).
    pub fn release(&mut self, nat_ip: u32, port: u16) -> (r: Result<(), ClaimError>)
        ensures
            r matches Err(e) ==> e == ClaimError::StoreUnavailable,
    {
        let field = encode_endpoint(nat_ip, port);
        match store_hdel(&mut self.con, "NAT", field.as_slice()) {
            Ok(_) => Result::Ok(()),
            Err(_) => Result::Err(ClaimError::StoreUnavailable),
        }
    }

    /// Fetch every current binding, parsed: used at startup to seed the
    /// local table (`NatTable::seed_reserved`) so a restarted instance
    /// does not re-claim ports already owned by peers.
    pub fn resync(&mut self) -> (r: Result<Vec<RemoteBinding>, ClaimError>)
        ensures
            r matches Err(e) ==> e == ClaimError::StoreUnavailable,
    {
        let raw = store_hgetall(&mut self.con, "NAT");
        match raw {
            Ok(pairs) => Result::Ok(parse_bindings(&pairs)),
            Err(_) => Result::Err(ClaimError::StoreUnavailable),
        }
    }
}

} // verus!
