//! The health monitor and the availability store's pure core: the per-probe
//! state machine that decides when a service is recorded unavailable or
//! recovered, and the layout of the store's keys, namespaced by hostname.

use vstd::prelude::*;

verus! {

use vstd::string::*;
use crate::consul::RegisterAgentService;
use crate::strutil::dec_rep;
use crate::strutil::find_char;
use crate::strutil::first_index_of;
use crate::strutil::has_char;
use crate::strutil::lemma_first_index_of;
use crate::strutil::u16_to_dec;

/// A service's probe target: the endpoint to connect to and the probe
/// cadence, derived from its registration.
#[derive(Debug, Clone)]
pub struct ExternalCheck {
    pub name: String,
    pub socket: String,
    pub interval: String,
    pub timeout: String,
}

pub ghost struct ExternalCheckView {
    pub name: Seq<char>,
    pub socket: Seq<char>,
    pub interval: Seq<char>,
    pub timeout: Seq<char>,
}

impl View for ExternalCheck {
    type V = ExternalCheckView;

    open spec fn view(&self) -> ExternalCheckView {
        ExternalCheckView {
            name: self.name@,
            socket: self.socket@,
            interval: self.interval@,
            timeout: self.timeout@,
        }
    }
}

impl ExternalCheck {
    /// The probe target of a registration: its address and port joined as
    /// `address:port`, with the registration's own cadence, or the default
    /// cadence when it carries no check.
    pub fn from_register(service: &RegisterAgentService) -> (r: Self)
        ensures
            r@.name == service@.name,
            r@.socket == service@.address + ":"@ + dec_rep(service@.port as int),
            match service@.check {
                Some(c) => r@.interval == c.interval && r@.timeout == c.timeout,
                None => r@.interval == "10s"@ && r@.timeout == "5s"@,
            },
    {
        let mut socket = service.address.clone();
        socket.append(":");
        socket.append(u16_to_dec(service.port).as_str());
        let (interval, timeout) = match &service.check {
            Some(c) => (c.interval.clone(), c.timeout.clone()),
            None => (String::from_str("10s"), String::from_str("5s")),
        };
        ExternalCheck { name: service.name.clone(), socket, interval, timeout }
    }
}

/// What one probe outcome asks of the stores.
#[derive(Debug, Clone, Copy, PartialEq, Eq, Structural)]
pub enum HealthAction {
    /// The service just became unreachable: write its availability record,
    /// then deregister it from the registry.
    BecomeUnavailable,
    /// The service just recovered: delete its availability record;
    /// re-registration is left to the next reconciliation pass.
    Recover,
    /// No transition: the store already reflects what the probe saw.
    Keep,
}

/// The transition table of the per-service state machine: a failing probe of
/// an unmarked service marks it, a succeeding probe of a marked service
/// clears it, anything else changes nothing.
pub open spec fn spec_health_step(marked_unavailable: bool, probe_ok: bool) -> HealthAction {
    if !probe_ok && !marked_unavailable {
        HealthAction::BecomeUnavailable
    } else if probe_ok && marked_unavailable {
        HealthAction::Recover
    } else {
        HealthAction::Keep
    }
}

/// Whether the availability record exists after a probe: exactly when that
/// probe failed.
pub open spec fn spec_next_marked(marked_unavailable: bool, probe_ok: bool) -> bool {
    !probe_ok
}

/// Decides what one probe outcome asks of the stores, given whether the
/// service is currently recorded unavailable.
pub fn health_step(marked_unavailable: bool, probe_ok: bool) -> (a: HealthAction)
    ensures
        a == spec_health_step(marked_unavailable, probe_ok),
{
    if !probe_ok && !marked_unavailable {
        HealthAction::BecomeUnavailable
    } else if probe_ok && marked_unavailable {
        HealthAction::Recover
    } else {
        HealthAction::Keep
    }
}

/// The actions a run of probes asks for, in probe order, each decided
/// against the record state the previous probes left behind.
pub open spec fn spec_health_actions(marked: bool, probes: Seq<bool>) -> Seq<HealthAction>
    decreases probes.len(),
{
    if probes.len() == 0 {
        Seq::empty()
    } else {
        seq![spec_health_step(marked, probes.first())] + spec_health_actions(
            spec_next_marked(marked, probes.first()),
            probes.drop_first(),
        )
    }
}

/// The record state a run of probes leaves behind.
pub open spec fn spec_final_marked(marked: bool, probes: Seq<bool>) -> bool
    decreases probes.len(),
{
    if probes.len() == 0 {
        marked
    } else {
        spec_final_marked(spec_next_marked(marked, probes.first()), probes.drop_first())
    }
}

/// Runs the state machine over a sequence of probe outcomes, returning the
/// action each probe asked for.
pub fn run_probes(marked: bool, probes: &Vec<bool>) -> (actions: Vec<HealthAction>)
    ensures
        actions@ == spec_health_actions(marked, probes@),
{
    let mut actions: Vec<HealthAction> = Vec::new();
    let mut cur = marked;
    let mut i: usize = 0;
    proof {
        assert(probes@.skip(0) =~= probes@);
        assert(actions@ + spec_health_actions(marked, probes@) =~= spec_health_actions(
            marked,
            probes@,
        ));
    }
    while i < probes.len()
        invariant
            i <= probes.len(),
            spec_health_actions(marked, probes@) == actions@ + spec_health_actions(
                cur,
                probes@.skip(i as int),
            ),
        decreases probes.len() - i,
    {
        let ghost rest = probes@.skip(i as int);
        let ghost acts0 = actions@;
        let ghost cur0 = cur;
        proof {
            assert(rest.first() == probes@[i as int]);
            assert(rest.drop_first() =~= probes@.skip(i + 1));
        }
        let p = probes[i];
        actions.push(health_step(cur, p));
        cur = !p;
        proof {
            let step = spec_health_step(cur0, p);
            let tail = spec_health_actions(spec_next_marked(cur0, p), probes@.skip(i + 1));
            assert(spec_health_actions(cur0, rest) == seq![step] + tail);
            assert(acts0 + (seq![step] + tail) =~= actions@ + tail);
        }
        i = i + 1;
    }
    proof {
        assert(probes@.skip(probes.len() as int) =~= Seq::<bool>::empty());
        assert(actions@ + Seq::<HealthAction>::empty() =~= actions@);
    }
    actions
}

/// The availability record tracks the most recent probe: after any nonempty
/// run of probes the record exists exactly when the last probe failed.
pub proof fn lemma_record_tracks_last_probe(marked: bool, probes: Seq<bool>)
    requires
        probes.len() > 0,
    ensures
        spec_final_marked(marked, probes) == !probes.last(),
    decreases probes.len(),
{
    if probes.len() == 1 {
        assert(probes.last() == probes.first());
        assert(probes.drop_first().len() == 0);
        let next = spec_next_marked(marked, probes.first());
        assert(spec_final_marked(next, probes.drop_first()) == next);
        assert(spec_final_marked(marked, probes) == spec_final_marked(next, probes.drop_first()));
    } else {
        lemma_record_tracks_last_probe(spec_next_marked(marked, probes.first()), probes.drop_first());
        assert(probes.drop_first().last() == probes.last());
    }
}

/// The key under which `host` records `name` as unavailable.
pub open spec fn spec_availability_key(host: Seq<char>, name: Seq<char>) -> Seq<char> {
    "consulsync/"@ + host + "/"@ + name
}

/// Builds the availability-store key for a service on a host.
pub fn availability_key(host: &str, name: &str) -> (r: String)
    ensures
        r@ == spec_availability_key(host@, name@),
{
    let mut r = String::from_str("consulsync/");
    r.append(host);
    r.append("/");
    r.append(name);
    r
}

/// Builds the availability-store prefix that holds all of a host's records.
pub fn availability_prefix(host: &str) -> (r: String)
    ensures
        r@ == "consulsync/"@ + host@,
{
    let mut r = String::from_str("consulsync/");
    r.append(host);
    r
}

/// The value an availability record holds.
pub fn unavailable_value() -> (r: &'static str)
    ensures
        r@ == "unavailable"@,
{
    "unavailable"
}

/// The part of a key after its last `/`, or the whole key when it has none.
pub open spec fn last_segment(key: Seq<char>) -> Seq<char>
    decreases key.len(),
{
    let f = first_index_of(key, '/');
    if 0 <= f < key.len() {
        last_segment(key.skip(f + 1))
    } else {
        key
    }
}

/// The service name a store key stands for: its trailing path segment.
pub fn service_name_from_key(key: &str) -> (r: String)
    ensures
        r@ == last_segment(key@),
{
    let mut rest: &str = key;
    loop
        invariant
            last_segment(key@) == last_segment(rest@),
        decreases rest@.len(),
    {
        match find_char(rest, '/') {
            Some(i) => {
                let n: usize = rest.unicode_len();
                let next = rest.substring_char(i + 1, n);
                proof {
                    assert(next@ =~= rest@.skip(i + 1));
                }
                rest = next;
            },
            None => {
                return String::from_str(rest);
            },
        }
    }
}

/// The service names a prefix scan's keys stand for, key by key.
pub fn unavailable_service_names(keys: &Vec<String>) -> (r: Vec<String>)
    ensures
        r.deep_view() == keys.deep_view().map_values(|k: Seq<char>| last_segment(k)),
{
    let ghost all = keys.deep_view().map_values(|k: Seq<char>| last_segment(k));
    let mut r: Vec<String> = Vec::new();
    let mut i: usize = 0;
    proof {
        assert(r.deep_view() =~= all.take(0));
    }
    while i < keys.len()
        invariant
            i <= keys.len(),
            all == keys.deep_view().map_values(|k: Seq<char>| last_segment(k)),
            all.len() == keys.len(),
            r.deep_view() == all.take(i as int),
        decreases keys.len() - i,
    {
        let ghost before = r.deep_view();
        let name = service_name_from_key(keys[i].as_str());
        r.push(name);
        proof {
            assert(before.len() == i as int);
            assert(r.deep_view() =~= all.take(i + 1)) by {
                assert forall|k: int| 0 <= k < i + 1 implies r.deep_view()[k] == all.take(
                    i + 1,
                )[k] by {
                    assert(all[k] == last_segment(keys.deep_view()[k]));
                    if k < i {
                        assert(r.deep_view()[k] == before[k]);
                        assert(before[k] == all.take(i as int)[k]);
                    } else {
                        assert(r.deep_view()[k] == name@);
                    }
                }
            }
        }
        i = i + 1;
    }
    proof {
        assert(all.take(keys.len() as int) =~= all);
    }
    r
}

/// The last segment of `x`, a slash, then a slash-free `name`: the trailing
/// segment is `name` itself.
proof fn lemma_last_segment_concat(x: Seq<char>, name: Seq<char>)
    requires
        !has_char(name, '/'),
    ensures
        last_segment(x + seq!['/'] + name) == name,
    decreases x.len(),
{
    let s = x + seq!['/'] + name;
    lemma_first_index_of(s, '/');
    lemma_first_index_of(x, '/');
    lemma_first_index_of(name, '/');
    let f = first_index_of(s, '/');
    assert(s[x.len() as int] == '/');
    assert(has_char(s, '/'));
    assert(f < s.len() && s[f] == '/');
    if !has_char(x, '/') {
        assert(f == x.len()) by {
            if f < x.len() {
                assert(s[f] == x[f]);
            }
            if f > x.len() {
                assert(s[x.len() as int] != '/');
            }
        }
        assert(s.skip(f + 1) =~= name);
        assert(last_segment(name) == name) by {
            assert(first_index_of(name, '/') == name.len());
        }
    } else {
        let g = first_index_of(x, '/');
        assert(f == g) by {
            assert(s[g] == x[g]);
            if f > g {
                assert(s[g] != '/');
            }
            if f < g {
                assert(s[f] == x[f]);
                assert(x[f] != '/');
            }
        }
        assert(s.skip(g + 1) =~= x.skip(g + 1) + seq!['/'] + name);
        lemma_last_segment_concat(x.skip(g + 1), name);
    }
}

/// The store's key layout round-trips: the key built for a host and a
/// service yields the service's name back, for every service name free of
/// `/`.
pub proof fn lemma_key_round_trip(host: Seq<char>, name: Seq<char>)
    requires
        !has_char(name, '/'),
    ensures
        last_segment(spec_availability_key(host, name)) == name,
{
    reveal_strlit("/");
    let x = "consulsync/"@ + host;
    assert("/"@ =~= seq!['/']);
    assert(spec_availability_key(host, name) =~= x + seq!['/'] + name);
    lemma_last_segment_concat(x, name);
}

/// Relies on gethostname::gethostname: the host's name as the operating
/// system reports it, handed on when it is valid Unicode. Nothing can be
/// promised of its value. On Unix the call reads the uname nodename and
/// cannot fail; that crate documents a rare failure window on Windows
/// during network reconfiguration, which this daemon does not target.
#[verifier::external_body]
fn hostname_os() -> (r: Option<String>) {
    gethostname::gethostname().into_string().ok()
}

/// The name a host reports resolved to the one used in keys: the reported
/// name itself, or `unknown` where none could be read.
pub fn host_or_unknown(reported: Option<String>) -> (r: String)
    ensures
        match reported {
            Some(h) => r == h,
            None => r@ == "unknown"@,
        },
{
    match reported {
        Some(h) => h,
        None => String::from_str("unknown"),
    }
}

/// The name under which this host scopes its availability records: the
/// hostname the operating system reports, or `unknown` where that name is
/// not Unicode. The value is machine-dependent, so nothing is promised of
/// it; every key built from it is specified by `spec_availability_key`
/// whatever it is.
pub fn current_host() -> String {
    host_or_unknown(hostname_os())
}

} // verus!
