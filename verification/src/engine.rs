//! The discovery engine: configuration, the provider registry, the two
//! probe strategies, and the orchestration of a `find` call.
//!
//! The engine's behaviour, given what the gateway and each consulted HTTP
//! provider answered, is fixed by the spec functions `engine_list` and
//! `engine_result`: probe outcomes are folded in order into a duplicate-free
//! list, stopping early in fast mode, and an aggregate error is returned
//! exactly when no source succeeded.

use vstd::prelude::*;
use vstd::string::*;
use crate::addr::{MyIp, ip_from_str, spec_parse_ip, dec_chars, dec_str};

verus! {

/// The number of HTTP providers in the registry.
pub const PROVIDER_COUNT: usize = 4;

/// The fixed, ordered registry of HTTP echo providers.
pub fn http_providers() -> (v: Vec<String>)
    ensures
        v@.len() == PROVIDER_COUNT,
        v@[0]@ == "http://icanhazip.com"@,
        v@[1]@ == "http://myip.dnsomatic.com"@,
        v@[2]@ == "http://bot.whatismyipaddress.com/"@,
        v@[3]@ == "https://api.ipify.org?format=text"@,
{
    let mut v: Vec<String> = Vec::new();
    v.push(String::from_str("http://icanhazip.com"));
    v.push(String::from_str("http://myip.dnsomatic.com"));
    v.push(String::from_str("http://bot.whatismyipaddress.com/"));
    v.push(String::from_str("https://api.ipify.org?format=text"));
    v
}

// ---------------------------------------------------------------------------
// Trusted boundary: the router protocol, the HTTP transport, randomness
// ---------------------------------------------------------------------------

#[verifier::external_type_specification]
#[verifier::external_body]
pub struct ExGateway(igd::Gateway);

/// Relies on igd::search_gateway: looks for an Internet Gateway Device on
/// the local network. Whether a device answers depends on the network, so
/// nothing is promised of the outcome.
#[verifier::external_body]
fn search_gateway_device() -> (r: Result<igd::Gateway, String>) {
    match igd::search_gateway(igd::SearchOptions::default()) {
        Ok(gw) => Ok(gw),
        Err(err) => Err(format!("{}", err)),
    }
}

/// Relies on igd::Gateway::get_external_ip: asks the device for the IPv4
/// address it presents externally, as the four octets. The answer depends
/// on the device, so nothing is promised of the outcome.
#[verifier::external_body]
fn gateway_external_ip(gw: &igd::Gateway) -> (r: Result<(u8, u8, u8, u8), String>) {
    match gw.get_external_ip() {
        Ok(ip) => {
            let o = ip.octets();
            Ok((o[0], o[1], o[2], o[3]))
        },
        Err(err) => Err(format!("{}", err)),
    }
}

/// Relies on hyper's blocking Client (get, send, with the configured read
/// and write timeouts) and std's Read::read_to_string: performs one HTTP
/// GET and hands back the numeric status code and the body text. The
/// outcome depends on the network, so nothing is promised of it.
#[verifier::external_body]
fn http_get(url: &str, timeout_ms: Option<u64>) -> (r: Result<(u16, String), String>) {
    let mut cli = hyper::Client::new();
    let t = timeout_ms.map(std::time::Duration::from_millis);
    cli.set_read_timeout(t);
    cli.set_write_timeout(t);
    let mut res = cli.get(url).send().map_err(|err| format!("{}", err))?;
    let status = res.status.to_u16();
    let mut body = String::new();
    std::io::Read::read_to_string(&mut res, &mut body).map_err(|err| format!("{}", err))?;
    Ok((status, body))
}

/// Relies on rand::rngs::OsRng::try_fill_bytes: eight random bytes from the
/// operating system's random source, or `None` when that source fails (the
/// call returns its error rather than panicking).
#[verifier::external_body]
fn os_random_u64() -> (r: Option<u64>) {
    let mut buf = [0u8; 8];
    match rand::RngCore::try_fill_bytes(&mut rand::rngs::OsRng, &mut buf) {
        Ok(()) => Some(u64::from_le_bytes(buf)),
        Err(_) => None,
    }
}

/// A random index strictly below `n`, or `None` when no random source is
/// available.
fn random_below(n: usize) -> (r: Option<usize>)
    requires
        n > 0,
    ensures
        (r matches Some(k) ==> k < n),
{
    match os_random_u64() {
        Some(x) => Some((x % (n as u64)) as usize),
        None => None,
    }
}

// ---------------------------------------------------------------------------
// Configuration
// ---------------------------------------------------------------------------

/// A discovery configuration: whether to ask the gateway, whether to stop
/// at the first success, how many HTTP providers to consult at most, and
/// the per-probe timeout in milliseconds (none means no deadline).
pub struct WhatsMyIp {
    igd: bool,
    fast: bool,
    http: usize,
    http_timeout: Option<u64>,
}

impl WhatsMyIp {
    pub closed spec fn spec_igd(&self) -> bool {
        self.igd
    }

    pub closed spec fn spec_fast(&self) -> bool {
        self.fast
    }

    pub closed spec fn spec_http(&self) -> usize {
        self.http
    }

    pub closed spec fn spec_http_timeout(&self) -> Option<u64> {
        self.http_timeout
    }

    /// The default configuration: gateway enabled, fast mode off, all
    /// providers allowed, no timeout.
    pub fn new() -> (r: WhatsMyIp)
        ensures
            r.spec_igd() == true,
            r.spec_fast() == false,
            r.spec_http() == PROVIDER_COUNT,
            r.spec_http_timeout() is None,
    {
        WhatsMyIp { igd: true, fast: false, http: PROVIDER_COUNT, http_timeout: None }
    }

    /// Enable or disable the gateway strategy (defaults to enabled).
    pub fn igd(self, enabled: bool) -> (r: Self)
        ensures
            r.spec_igd() == enabled,
            r.spec_fast() == self.spec_fast(),
            r.spec_http() == self.spec_http(),
            r.spec_http_timeout() == self.spec_http_timeout(),
    {
        WhatsMyIp { igd: enabled, ..self }
    }

    /// If enabled, `find()` returns as soon as it has one address; if
    /// disabled it tries every enabled source (defaults to disabled).
    pub fn fast(self, enabled: bool) -> (r: Self)
        ensures
            r.spec_fast() == enabled,
            r.spec_igd() == self.spec_igd(),
            r.spec_http() == self.spec_http(),
            r.spec_http_timeout() == self.spec_http_timeout(),
    {
        WhatsMyIp { fast: enabled, ..self }
    }

    /// Cap how many HTTP providers are consulted; the cap is clamped to the
    /// registry size, and `None` resets it to the whole registry.
    pub fn http_limit(self, count: Option<usize>) -> (r: Self)
        ensures
            r.spec_http() <= PROVIDER_COUNT,
            (count matches Some(n) ==> r.spec_http() == if n < PROVIDER_COUNT {
                n
            } else {
                PROVIDER_COUNT
            }),
            count is None ==> r.spec_http() == PROVIDER_COUNT,
            r.spec_igd() == self.spec_igd(),
            r.spec_fast() == self.spec_fast(),
            r.spec_http_timeout() == self.spec_http_timeout(),
    {
        let http = match count {
            Some(num) => if num < PROVIDER_COUNT {
                num
            } else {
                PROVIDER_COUNT
            },
            None => PROVIDER_COUNT,
        };
        WhatsMyIp { http, ..self }
    }

    /// How many HTTP providers a `find` call may consult: always within
    /// `[0, PROVIDER_COUNT]`.
    pub fn http_count(&self) -> (r: usize)
        ensures
            r == self.spec_http(),
    {
        self.http
    }

    /// Per-probe read and write timeout in milliseconds; `None` means no
    /// enforced deadline.
    pub fn http_timeout(self, t: Option<u64>) -> (r: Self)
        ensures
            r.spec_http_timeout() == t,
            r.spec_igd() == self.spec_igd(),
            r.spec_fast() == self.spec_fast(),
            r.spec_http() == self.spec_http(),
    {
        WhatsMyIp { http_timeout: t, ..self }
    }
}

// ---------------------------------------------------------------------------
// The probe strategies
// ---------------------------------------------------------------------------

/// What a probe response denotes: the body parsed as an address on a
/// success status, nothing otherwise.
pub open spec fn http_response_ip(status: u16, body: Seq<char>) -> Option<MyIp> {
    if status == 200 {
        spec_parse_ip(body)
    } else {
        None
    }
}

/// Reads one HTTP response: requires a success status, then parses the
/// (whitespace-tolerant) body text as an address. A non-success status is a
/// transport error carrying the status; an unparsable body is a parse error
/// naming the text.
pub fn ip_from_http_response(status: u16, body: &str) -> (r: Result<MyIp, String>)
    ensures
        (r matches Ok(ip) ==> http_response_ip(status, body@) == Some(ip)),
        r is Err <==> http_response_ip(status, body@) is None,
        status != 200 ==> (r matches Err(m) && m@ == "unexpected HTTP status "@ + dec_chars(
            status as nat,
        )),
        status == 200 && spec_parse_ip(body@) is None ==> (r matches Err(m) && m@
            == "Invalid IP address "@ + body@),
{
    if status != 200 {
        return Err(String::from_str("unexpected HTTP status ").concat(dec_str(status).as_str()));
    }
    ip_from_str(body)
}

/// Probes one HTTP provider: one GET with the configured timeouts, then
/// `ip_from_http_response` on whatever came back. What the GET answers
/// depends on the network, so little is promised here: every address handed
/// out was the reading of some successful response, and how any given
/// response is read is fixed by `ip_from_http_response`'s contract.
pub fn http_ip_txt(opts: &WhatsMyIp, url: &str) -> (r: Result<MyIp, String>)
    ensures
        (r matches Ok(ip) ==> exists|status: u16, body: Seq<char>|
            http_response_ip(status, body) == Some(ip)),
{
    match http_get(url, opts.http_timeout) {
        Ok((status, body)) => {
            let r = ip_from_http_response(status, body.as_str());
            proof {
                if r is Ok {
                    assert(http_response_ip(status, body@) == Some(r->Ok_0));
                }
            }
            r
        },
        Err(err) => Err(err),
    }
}

/// Asks the local gateway for its external address. Any failure is folded
/// into `None`; a gateway-sourced address is always IPv4.
pub fn igd_ip() -> (r: Option<MyIp>)
    ensures
        (r matches Some(ip) ==> ip is V4),
{
    match search_gateway_device() {
        Ok(gw) => match gateway_external_ip(&gw) {
            Ok((a, b, c, d)) => Some(MyIp::V4(a, b, c, d)),
            Err(_) => None,
        },
        Err(_) => None,
    }
}

// ---------------------------------------------------------------------------
// Random shuffling of the provider order
// ---------------------------------------------------------------------------

/// Reorders the providers randomly: the result is a permutation of what
/// was given (drawing a random remaining entry each round). When no random
/// source is available the given order is kept rather than failing.
fn shuffle_providers(v: &mut Vec<String>)
    ensures
        final(v)@.to_multiset() == old(v)@.to_multiset(),
        final(v)@.len() == old(v)@.len(),
{
    let ghost orig = v@;
    let mut out: Vec<String> = Vec::new();
    proof {
        broadcast use vstd::seq_lib::group_to_multiset_ensures;

        assert forall|a: String| out@.to_multiset().count(a) == 0 by {
            assert(!out@.contains(a));
        }
        assert(out@.to_multiset().add(v@.to_multiset()) =~= v@.to_multiset());
    }
    while v.len() > 0
        invariant
            out@.len() + v@.len() == orig.len(),
            out@.to_multiset().add(v@.to_multiset()) == orig.to_multiset(),
        decreases v@.len(),
    {
        let ghost before = v@;
        let ghost out_before = out@;
        let j = match random_below(v.len()) {
            Some(k) => k,
            None => 0,
        };
        let s = v.remove(j);
        out.push(s);
        proof {
            broadcast use vstd::seq_lib::group_to_multiset_ensures;

            assert(before.contains(before[j as int]));
            assert(v@.to_multiset() =~= before.to_multiset().remove(before[j as int]));
            assert(out@.to_multiset() =~= out_before.to_multiset().insert(before[j as int]));
            assert(out@.to_multiset().add(v@.to_multiset()) =~= orig.to_multiset());
        }
    }
    proof {
        broadcast use vstd::seq_lib::group_to_multiset_ensures;

        assert(out@.to_multiset().add(v@.to_multiset()) =~= out@.to_multiset());
        assert(out@.len() == out@.to_multiset().len());
    }
    *v = out;
}

// ---------------------------------------------------------------------------
// The engine model
// ---------------------------------------------------------------------------

/// What the gateway phase contributes to the result list.
pub open spec fn gateway_acc(gw: Option<MyIp>) -> Seq<MyIp> {
    match gw {
        Some(ip) => seq![ip],
        None => Seq::empty(),
    }
}

/// One probe outcome folded into the result list: a success appends its
/// address unless already present, a failure changes nothing.
pub open spec fn engine_step(acc: Seq<MyIp>, o: Option<MyIp>) -> Seq<MyIp> {
    match o {
        Some(ip) => if acc.contains(ip) {
            acc
        } else {
            acc.push(ip)
        },
        None => acc,
    }
}

/// The result list after folding the probe outcomes in order, stopping as
/// soon as the list is non-empty when `fast` holds.
pub open spec fn engine_list(acc: Seq<MyIp>, fast: bool, outs: Seq<Option<MyIp>>) -> Seq<MyIp>
    decreases outs.len(),
{
    if fast && acc.len() > 0 {
        acc
    } else if outs.len() == 0 {
        acc
    } else {
        engine_list(engine_step(acc, outs[0]), fast, outs.drop_first())
    }
}

/// How many probe outcomes the engine consumes before it stops.
pub open spec fn probes_consulted(acc: Seq<MyIp>, fast: bool, outs: Seq<Option<MyIp>>) -> nat
    decreases outs.len(),
{
    if fast && acc.len() > 0 {
        0
    } else if outs.len() == 0 {
        0
    } else {
        1 + probes_consulted(engine_step(acc, outs[0]), fast, outs.drop_first())
    }
}

/// The full outcome of a discovery run: the folded list, or the aggregate
/// error exactly when the list stayed empty.
pub open spec fn engine_result(gw: Option<MyIp>, fast: bool, outs: Seq<Option<MyIp>>) -> Result<
    Seq<MyIp>,
    Seq<char>,
> {
    let list = engine_list(gateway_acc(gw), fast, outs);
    if list.len() == 0 {
        Err("Unable to find any IP address"@)
    } else {
        Ok(list)
    }
}

/// How an executable result corresponds to the model's.
pub open spec fn result_matches(
    r: Result<Vec<MyIp>, String>,
    gw: Option<MyIp>,
    fast: bool,
    outs: Seq<Option<MyIp>>,
) -> bool {
    match r {
        Ok(v) => engine_result(gw, fast, outs) == Ok::<Seq<MyIp>, Seq<char>>(v@),
        Err(m) => engine_result(gw, fast, outs) == Err::<Seq<MyIp>, Seq<char>>(m@),
    }
}

// ---------------------------------------------------------------------------
// Laws of the engine model
// ---------------------------------------------------------------------------

/// Folding in one more outcome, when the engine has not already stopped,
/// applies one step to the folded list.
pub proof fn lemma_engine_snoc(acc: Seq<MyIp>, fast: bool, outs: Seq<Option<MyIp>>, o: Option<
    MyIp,
>)
    requires
        !(fast && engine_list(acc, fast, outs).len() > 0),
    ensures
        engine_list(acc, fast, outs.push(o)) == engine_step(engine_list(acc, fast, outs), o),
    decreases outs.len(),
{
    if outs.len() == 0 {
        reveal_with_fuel(engine_list, 3);
        assert(outs.push(o)[0] == o);
        assert(outs.push(o).drop_first() =~= Seq::empty());
    } else {
        assert(outs.push(o)[0] == outs[0]);
        assert(outs.push(o).drop_first() =~= outs.drop_first().push(o));
        lemma_engine_snoc(engine_step(acc, outs[0]), fast, outs.drop_first(), o);
    }
}

/// The result list never holds two equal addresses.
pub proof fn lemma_engine_no_duplicates(acc: Seq<MyIp>, fast: bool, outs: Seq<Option<MyIp>>)
    requires
        acc.no_duplicates(),
    ensures
        engine_list(acc, fast, outs).no_duplicates(),
    decreases outs.len(),
{
    if !(fast && acc.len() > 0) && outs.len() > 0 {
        let acc2 = engine_step(acc, outs[0]);
        assert(acc2.no_duplicates()) by {
            match outs[0] {
                Some(ip) => {
                    if !acc.contains(ip) {
                        assert forall|p: int, q: int|
                            0 <= p < acc.push(ip).len() && 0 <= q < acc.push(ip).len() && p != q
                            implies acc.push(ip)[p] != acc.push(ip)[q] by {
                            if q == acc.len() {
                                if acc.push(ip)[p] == ip {
                                    assert(acc[p] == ip);
                                    assert(acc.contains(ip));
                                }
                            } else if p == acc.len() {
                                if acc.push(ip)[q] == ip {
                                    assert(acc[q] == ip);
                                    assert(acc.contains(ip));
                                }
                            }
                        }
                    }
                },
                None => {},
            }
        }
        lemma_engine_no_duplicates(acc2, fast, outs.drop_first());
    }
}

/// If every outcome failed, the folded list is what the gateway left.
pub proof fn lemma_engine_all_fail(acc: Seq<MyIp>, fast: bool, outs: Seq<Option<MyIp>>)
    requires
        forall|k: int| 0 <= k < outs.len() ==> outs[k] is None,
    ensures
        engine_list(acc, fast, outs) == acc,
    decreases outs.len(),
{
    if !(fast && acc.len() > 0) && outs.len() > 0 {
        assert(outs[0] is None);
        assert(forall|k: int|
            0 <= k < outs.drop_first().len() ==> outs.drop_first()[k] == outs[k + 1]);
        lemma_engine_all_fail(acc, fast, outs.drop_first());
    }
}

/// Aggregate failure: with the gateway disabled or failed and every
/// consulted provider failed, the engine reports the aggregate error and
/// never a successful empty list.
pub proof fn lemma_aggregate_failure(gw: Option<MyIp>, fast: bool, outs: Seq<Option<MyIp>>)
    requires
        gw is None,
        forall|k: int| 0 <= k < outs.len() ==> outs[k] is None,
    ensures
        engine_result(gw, fast, outs) is Err,
{
    lemma_engine_all_fail(gateway_acc(gw), fast, outs);
}

/// The fold only appends: what is already in the list (the gateway's
/// address, ahead of every HTTP discovery) stays in place, in order.
pub proof fn lemma_engine_prefix(acc: Seq<MyIp>, fast: bool, outs: Seq<Option<MyIp>>)
    ensures
        acc.is_prefix_of(engine_list(acc, fast, outs)),
    decreases outs.len(),
{
    let full = engine_list(acc, fast, outs);
    if (fast && acc.len() > 0) || outs.len() == 0 {
        assert(acc =~= full.subrange(0, acc.len() as int));
    } else {
        let step = engine_step(acc, outs[0]);
        lemma_engine_prefix(step, fast, outs.drop_first());
        assert(acc =~= step.subrange(0, acc.len() as int));
        assert forall|k: int| 0 <= k < acc.len() implies acc[k] == full[k] by {
            assert(step[k] == full.subrange(0, step.len() as int)[k]);
        }
        assert(acc =~= full.subrange(0, acc.len() as int));
    }
}

/// The folded list grows by at most one address per consulted outcome.
pub proof fn lemma_engine_len(acc: Seq<MyIp>, fast: bool, outs: Seq<Option<MyIp>>)
    ensures
        engine_list(acc, fast, outs).len() <= acc.len() + outs.len(),
    decreases outs.len(),
{
    if !(fast && acc.len() > 0) && outs.len() > 0 {
        lemma_engine_len(engine_step(acc, outs[0]), fast, outs.drop_first());
    }
}

/// Once the fast-mode fold has found an address, later outcomes change
/// nothing: no source after the first success is ever consulted.
pub proof fn lemma_fast_extend(acc: Seq<MyIp>, outs: Seq<Option<MyIp>>, ext: Seq<Option<MyIp>>)
    requires
        engine_list(acc, true, outs).len() > 0,
    ensures
        engine_list(acc, true, outs + ext) == engine_list(acc, true, outs),
    decreases outs.len(),
{
    if acc.len() > 0 {
    } else if outs.len() == 0 {
        // the folded list is empty here, against the premise
        assert(engine_list(acc, true, outs) == acc);
    } else {
        assert((outs + ext)[0] == outs[0]);
        assert((outs + ext).drop_first() =~= outs.drop_first() + ext);
        lemma_fast_extend(engine_step(acc, outs[0]), outs.drop_first(), ext);
    }
}

/// Fast mode: the engine consumes outcomes only up to its first success
/// (none at all when the gateway already answered), the outcomes past that
/// point do not matter, and the result has at most one address.
pub proof fn lemma_fast_mode(acc: Seq<MyIp>, outs: Seq<Option<MyIp>>)
    ensures
        engine_list(acc, true, outs).len() <= if acc.len() > 0 {
            acc.len()
        } else {
            1
        },
        acc.len() > 0 ==> probes_consulted(acc, true, outs) == 0 && engine_list(acc, true, outs)
            == acc,
        probes_consulted(acc, true, outs) <= outs.len(),
        engine_list(acc, true, outs) == engine_list(
            acc,
            true,
            outs.take(probes_consulted(acc, true, outs) as int),
        ),
        forall|k: int| 0 <= k < probes_consulted(acc, true, outs) - 1 ==> outs[k] is None,
    decreases outs.len(),
{
    let c = probes_consulted(acc, true, outs);
    if acc.len() > 0 {
        assert(outs.take(0) =~= Seq::empty());
    } else if outs.len() == 0 {
        assert(outs.take(0) =~= outs);
    } else {
        let acc2 = engine_step(acc, outs[0]);
        lemma_fast_mode(acc2, outs.drop_first());
        let c2 = probes_consulted(acc2, true, outs.drop_first());
        assert(c == 1 + c2);
        assert(outs.take(c as int)[0] == outs[0]);
        assert(outs.take(c as int).drop_first() =~= outs.drop_first().take(c2 as int));
        assert forall|k: int| 0 <= k < c - 1 implies outs[k] is None by {
            if k == 0 {
                // a success at the head would have stopped the fold at once
                if outs[0] is Some {
                    assert(acc2.len() > 0);
                    assert(c2 == 0);
                }
            } else {
                assert(outs.drop_first()[k - 1] == outs[k]);
            }
        }
    }
}

// ---------------------------------------------------------------------------
// Orchestration
// ---------------------------------------------------------------------------

/// True iff `v` holds `ip`.
fn contains_ip(v: &Vec<MyIp>, ip: &MyIp) -> (r: bool)
    ensures
        r == v@.contains(*ip),
{
    let mut i: usize = 0;
    while i < v.len()
        invariant
            0 <= i <= v@.len(),
            forall|k: int| 0 <= k < i ==> v@[k] != *ip,
        decreases v@.len() - i,
    {
        if v[i] == *ip {
            proof {
                assert(v@[i as int] == *ip);
            }
            return true;
        }
        i += 1;
    }
    proof {
        assert forall|k: int| 0 <= k < v@.len() implies v@[k] != *ip by {}
    }
    false
}

impl WhatsMyIp {
    /// Runs the discovery: the gateway first if enabled, then up to
    /// `http_limit` HTTP providers in a random order, folding successes
    /// into an ordered, duplicate-free list; in fast mode it returns at the
    /// first success. It fails, with the aggregate error, exactly when no
    /// source succeeded.
    pub fn find(&self) -> (r: Result<Vec<MyIp>, String>)
        ensures
            self.spec_igd() == false && self.spec_http() == 0 ==> r is Err,
            (r matches Ok(list) ==> list@.len() > 0 && list@.no_duplicates()),
            (r matches Ok(list) ==> list@.len() <= 1 + self.spec_http()),
            self.spec_fast() ==> (r matches Ok(list) ==> list@.len() == 1),
            (r matches Err(m) ==> m@ == "Unable to find any IP address"@),
            exists|gw: Option<MyIp>, outs: Seq<Option<MyIp>>|
                {
                    &&& (self.spec_igd() == false ==> gw is None)
                    &&& (gw matches Some(ip) ==> ip is V4)
                    &&& outs.len() <= self.spec_http()
                    &&& (self.spec_fast() && gw is Some ==> outs.len() == 0)
                    &&& (self.spec_fast() == false ==> outs.len() == if self.spec_http()
                        < PROVIDER_COUNT {
                        self.spec_http()
                    } else {
                        PROVIDER_COUNT
                    })
                    &&& result_matches(r, gw, self.spec_fast(), outs)
                },
    {
        let mut results: Vec<MyIp> = Vec::new();
        let ghost mut gw: Option<MyIp> = None;
        let ghost mut outs: Seq<Option<MyIp>> = Seq::empty();

        if self.igd {
            if let Some(ip) = igd_ip() {
                results.push(ip);
                proof {
                    gw = Some(ip);
                    assert(results@ =~= seq![ip]);
                }
                if self.fast {
                    proof {
                        assert(engine_list(gateway_acc(gw), true, outs) =~= seq![ip]);
                        assert(result_matches(
                            Ok(results),
                            gw,
                            self.spec_fast(),
                            outs,
                        ));
                    }
                    return Ok(results);
                }
            }
        }
        proof {
            assert(results@ =~= gateway_acc(gw));
            assert(engine_list(gateway_acc(gw), self.spec_fast(), outs) == results@);
        }

        if self.http > 0 {
            let mut providers = http_providers();
            shuffle_providers(&mut providers);
            let lim = if self.http < providers.len() {
                self.http
            } else {
                providers.len()
            };
            let mut idx: usize = 0;
            while idx < lim
                invariant
                    0 <= idx <= lim,
                    lim <= self.spec_http(),
                    lim <= providers@.len(),
                    outs.len() == idx,
                    results@ == engine_list(gateway_acc(gw), self.spec_fast(), outs),
                    self.spec_fast() ==> results@.len() == 0,
                    self.spec_fast() ==> gw is None,
                    results@.no_duplicates(),
                    (gw matches Some(ip) ==> ip is V4),
                    self.spec_igd() == false ==> gw is None,
                decreases lim - idx,
            {
                let ghost before = results@;
                match http_ip_txt(self, providers[idx].as_str()) {
                    Ok(ip) => {
                        proof {
                            lemma_engine_snoc(
                                gateway_acc(gw),
                                self.spec_fast(),
                                outs,
                                Some(ip),
                            );
                            outs = outs.push(Some(ip));
                        }
                        if !contains_ip(&results, &ip) {
                            results.push(ip);
                        }
                        proof {
                            assert(results@ == engine_step(before, Some(ip)));
                            assert(gateway_acc(gw).no_duplicates());
                            lemma_engine_no_duplicates(gateway_acc(gw), self.spec_fast(), outs);
                        }
                        if self.fast {
                            proof {
                                assert(results@.len() == 1);
                                assert(result_matches(
                                    Ok(results),
                                    gw,
                                    self.spec_fast(),
                                    outs,
                                ));
                            }
                            return Ok(results);
                        }
                    },
                    Err(_err) => {
                        proof {
                            lemma_engine_snoc(gateway_acc(gw), self.spec_fast(), outs, None);
                            outs = outs.push(None);
                        }
                    },
                }
                idx += 1;
            }
            proof {
                assert(outs.len() == if self.spec_http() < PROVIDER_COUNT {
                    self.spec_http()
                } else {
                    PROVIDER_COUNT
                });
            }
        }

        if results.len() == 0 {
            let msg = String::from_str("Unable to find any IP address");
            proof {
                assert(result_matches(Err(msg), gw, self.spec_fast(), outs));
            }
            Err(msg)
        } else {
            proof {
                lemma_engine_len(gateway_acc(gw), self.spec_fast(), outs);
                assert(result_matches(Ok(results), gw, self.spec_fast(), outs));
            }
            Ok(results)
        }
    }
}

/// Folds given probe outcomes exactly as `find` folds what its probes
/// answered: the gateway's address (if any) first, then each outcome in
/// order, skipping failures and duplicates, returning at the first success
/// in fast mode, and failing with the aggregate error when nothing
/// succeeded.
pub fn collect_results(gw: Option<MyIp>, fast: bool, outs: &Vec<Option<MyIp>>) -> (r: Result<
    Vec<MyIp>,
    String,
>)
    ensures
        result_matches(r, gw, fast, outs@),
        (r matches Ok(list) ==> list@.len() > 0 && list@.no_duplicates()),
{
    let mut results: Vec<MyIp> = Vec::new();
    let ghost mut used: Seq<Option<MyIp>> = Seq::empty();
    if let Some(ip) = gw {
        results.push(ip);
        proof {
            assert(results@ =~= seq![ip]);
        }
        if fast {
            proof {
                assert(engine_list(gateway_acc(gw), true, outs@) =~= seq![ip]);
                lemma_engine_no_duplicates(gateway_acc(gw), true, outs@);
            }
            return Ok(results);
        }
    }
    proof {
        assert(results@ =~= gateway_acc(gw));
    }
    let mut idx: usize = 0;
    while idx < outs.len()
        invariant
            0 <= idx <= outs@.len(),
            used =~= outs@.take(idx as int),
            results@ == engine_list(gateway_acc(gw), fast, used),
            fast ==> results@.len() == 0,
            results@.no_duplicates(),
        decreases outs@.len() - idx,
    {
        let ghost before = results@;
        match outs[idx] {
            Some(ip) => {
                proof {
                    lemma_engine_snoc(gateway_acc(gw), fast, used, Some(ip));
                    used = used.push(Some(ip));
                    assert(used =~= outs@.take(idx + 1));
                }
                if !contains_ip(&results, &ip) {
                    results.push(ip);
                }
                proof {
                    assert(results@ == engine_step(before, Some(ip)));
                    assert(gateway_acc(gw).no_duplicates());
                    lemma_engine_no_duplicates(gateway_acc(gw), fast, used);
                }
                if fast {
                    proof {
                        assert(results@.len() == 1);
                        lemma_fast_extend(gateway_acc(gw), used, outs@.skip(idx + 1));
                        assert(used + outs@.skip(idx + 1) =~= outs@);
                    }
                    return Ok(results);
                }
            },
            None => {
                proof {
                    lemma_engine_snoc(gateway_acc(gw), fast, used, None);
                    used = used.push(None);
                    assert(used =~= outs@.take(idx + 1));
                }
            },
        }
        idx += 1;
    }
    proof {
        assert(used =~= outs@);
    }
    if results.len() == 0 {
        Err(String::from_str("Unable to find any IP address"))
    } else {
        Ok(results)
    }
}

/// Returns the first address a fast-mode discovery can find, or the
/// aggregate error if every source failed: an `Ok` is exactly the sole
/// element of a fast-mode run over some gateway answer and probe outcomes,
/// and an `Err` comes exactly when that run found nothing.
pub fn whatsmyip() -> (r: Result<MyIp, String>)
    ensures
        (r matches Err(m) ==> m@ == "Unable to find any IP address"@),
        exists|gw: Option<MyIp>, outs: Seq<Option<MyIp>>|
            #![trigger engine_result(gw, true, outs)]
            {
                &&& (gw matches Some(ip) ==> ip is V4)
                &&& outs.len() <= PROVIDER_COUNT
                &&& (gw is Some ==> outs.len() == 0)
                &&& (match r {
                    Ok(ip) => engine_result(gw, true, outs) == Ok::<Seq<MyIp>, Seq<char>>(
                        seq![ip],
                    ),
                    Err(m) => engine_result(gw, true, outs) == Err::<Seq<MyIp>, Seq<char>>(m@),
                })
            },
{
    let opts = WhatsMyIp::new().fast(true);
    let found = opts.find();
    let ghost (gw, outs) = choose|gw: Option<MyIp>, outs: Seq<Option<MyIp>>|
        {
            &&& (opts.spec_igd() == false ==> gw is None)
            &&& (gw matches Some(ip) ==> ip is V4)
            &&& outs.len() <= opts.spec_http()
            &&& (opts.spec_fast() && gw is Some ==> outs.len() == 0)
            &&& (opts.spec_fast() == false ==> outs.len() == if opts.spec_http()
                < PROVIDER_COUNT {
                opts.spec_http()
            } else {
                PROVIDER_COUNT
            })
            &&& result_matches(found, gw, opts.spec_fast(), outs)
        };
    match found {
        Ok(mut addrs) => {
            proof {
                assert(addrs@.len() == 1);
            }
            match addrs.pop() {
                Some(ip) => {
                    proof {
                        assert(addrs@.len() == 0);
                        assert(engine_list(gateway_acc(gw), true, outs) =~= seq![ip]);
                    }
                    Ok(ip)
                },
                None => Err(String::from_str("Unable to find any IP address")),
            }
        },
        Err(err) => Err(err),
    }
}

} // verus!
