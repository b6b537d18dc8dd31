//! The registry-side data model: registration payloads, the registry's view
//! of a service, and the pure parts of the registry client — request URLs,
//! the ownership marker, and the mapping from response status to outcome.

use vstd::prelude::*;

verus! {

use std::collections::HashMap;
use vstd::string::*;
use crate::marker_seq;
use crate::marker_str;
use crate::strutil::clone_strings;
use crate::strutil::dec_rep;
use crate::strutil::str_eq;
use crate::strutil::u16_to_dec;

/// A TCP health check attached to a registration: the endpoint to probe and
/// the probe cadence, as duration strings.
#[derive(Debug, Clone)]
pub struct ServiceCheck {
    pub tcp: String,
    pub interval: String,
    pub timeout: String,
}

pub ghost struct ServiceCheckView {
    pub tcp: Seq<char>,
    pub interval: Seq<char>,
    pub timeout: Seq<char>,
}

impl View for ServiceCheck {
    type V = ServiceCheckView;

    open spec fn view(&self) -> ServiceCheckView {
        ServiceCheckView { tcp: self.tcp@, interval: self.interval@, timeout: self.timeout@ }
    }
}

impl DeepView for ServiceCheck {
    type V = ServiceCheckView;

    open spec fn deep_view(&self) -> ServiceCheckView {
        self.view()
    }
}

impl ServiceCheck {
    /// A check on the given endpoint with the default cadence.
    pub fn new(tcp: &str) -> (r: Self)
        ensures
            r@.tcp == tcp@,
            r@.interval == "10s"@,
            r@.timeout == "5s"@,
    {
        ServiceCheck {
            tcp: String::from_str(tcp),
            interval: String::from_str("10s"),
            timeout: String::from_str("5s"),
        }
    }

    /// Copies the check, preserving its contents.
    pub fn duplicate(&self) -> (r: Self)
        ensures
            r@ == self@,
    {
        ServiceCheck {
            tcp: self.tcp.clone(),
            interval: self.interval.clone(),
            timeout: self.timeout.clone(),
        }
    }
}

/// Copies an optional check, preserving its contents.
pub fn duplicate_check(check: &Option<ServiceCheck>) -> (r: Option<ServiceCheck>)
    ensures
        match (r, check) {
            (Some(a), Some(b)) => a@ == b@,
            (None, None) => true,
            _ => false,
        },
{
    match check {
        Some(c) => Some(c.duplicate()),
        None => None,
    }
}

/// The payload sent to the registry to register one service.
#[derive(Debug, Clone)]
pub struct RegisterAgentService {
    pub kind: String,
    pub name: String,
    pub tags: Vec<String>,
    pub meta: HashMap<String, String>,
    pub port: u16,
    pub address: String,
    pub enable_tag_override: bool,
    pub check: Option<ServiceCheck>,
}

pub ghost struct RegisterAgentServiceView {
    pub kind: Seq<char>,
    pub name: Seq<char>,
    pub tags: Seq<Seq<char>>,
    pub meta: Map<String, String>,
    pub port: u16,
    pub address: Seq<char>,
    pub enable_tag_override: bool,
    pub check: Option<ServiceCheckView>,
}

impl View for RegisterAgentService {
    type V = RegisterAgentServiceView;

    open spec fn view(&self) -> RegisterAgentServiceView {
        RegisterAgentServiceView {
            kind: self.kind@,
            name: self.name@,
            tags: self.tags.deep_view(),
            meta: self.meta@,
            port: self.port,
            address: self.address@,
            enable_tag_override: self.enable_tag_override,
            check: match self.check {
                Some(c) => Some(c@),
                None => None,
            },
        }
    }
}

impl DeepView for RegisterAgentService {
    type V = RegisterAgentServiceView;

    open spec fn deep_view(&self) -> RegisterAgentServiceView {
        self.view()
    }
}

impl RegisterAgentService {
    /// A registration payload with empty metadata, tag override enabled, and
    /// the given fields.
    pub fn new(
        name: &str,
        kind: &str,
        port: u16,
        address: &str,
        tags: Vec<String>,
        check: Option<ServiceCheck>,
    ) -> (r: Self)
        ensures
            r@.name == name@,
            r@.kind == kind@,
            r@.port == port,
            r@.address == address@,
            r@.tags == tags.deep_view(),
            r@.meta == Map::<String, String>::empty(),
            r@.enable_tag_override == true,
            r@.check == (match check {
                Some(c) => Some(c@),
                None => None::<ServiceCheckView>,
            }),
    {
        RegisterAgentService {
            name: String::from_str(name),
            kind: String::from_str(kind),
            port,
            address: String::from_str(address),
            tags,
            meta: HashMap::new(),
            enable_tag_override: true,
            check,
        }
    }

    /// The registration payload a resolved declaration asks for: the
    /// declaration's fields under its name, empty metadata, tag override
    /// enabled, and its check carried over.
    pub fn from_config(service: crate::config::ServiceConfig) -> (r: Self)
        ensures
            r@ == (RegisterAgentServiceView {
                kind: service@.kind,
                name: service@.name,
                tags: service@.tags,
                meta: Map::<String, String>::empty(),
                port: service@.port,
                address: service@.address,
                enable_tag_override: true,
                check: service@.check,
            }),
    {
        RegisterAgentService {
            kind: service.kind,
            name: service.name,
            tags: service.tags,
            meta: HashMap::new(),
            port: service.port,
            address: service.address,
            enable_tag_override: true,
            check: service.check,
        }
    }

    /// The payload as sent on the wire: the same service with the ownership
    /// marker tag appended, so the daemon later recognises the entry as its
    /// own.
    pub fn with_marker(&self) -> (r: Self)
        ensures
            r@ == (RegisterAgentServiceView { tags: self@.tags.push(marker_seq()), ..self@ }),
    {
        let mut tags = clone_strings(&self.tags);
        tags.push(String::from_str(marker_str()));
        let r = RegisterAgentService {
            kind: self.kind.clone(),
            name: self.name.clone(),
            tags,
            meta: self.meta.clone(),
            port: self.port,
            address: self.address.clone(),
            enable_tag_override: self.enable_tag_override,
            check: duplicate_check(&self.check),
        };
        proof {
            assert(r.tags.deep_view() =~= self@.tags.push(marker_seq()));
        }
        r
    }
}

/// A registry entry: the registry's view of one registered service.
#[derive(Debug, Clone)]
pub struct AgentService {
    pub kind: String,
    pub id: String,
    pub tags: Vec<String>,
    pub port: u16,
    pub address: String,
}

pub ghost struct AgentServiceView {
    pub kind: Seq<char>,
    pub id: Seq<char>,
    pub tags: Seq<Seq<char>>,
    pub port: u16,
    pub address: Seq<char>,
}

impl View for AgentService {
    type V = AgentServiceView;

    open spec fn view(&self) -> AgentServiceView {
        AgentServiceView {
            kind: self.kind@,
            id: self.id@,
            tags: self.tags.deep_view(),
            port: self.port,
            address: self.address@,
        }
    }
}

impl DeepView for AgentService {
    type V = AgentServiceView;

    open spec fn deep_view(&self) -> AgentServiceView {
        self.view()
    }
}

/// A registry entry bears the ownership marker tag.
pub open spec fn is_managed(m: AgentServiceView) -> bool {
    m.tags.contains(marker_seq())
}

impl AgentService {
    /// Copies the entry, preserving its contents.
    pub fn duplicate(&self) -> (r: Self)
        ensures
            r@ == self@,
    {
        AgentService {
            kind: self.kind.clone(),
            id: self.id.clone(),
            tags: clone_strings(&self.tags),
            port: self.port,
            address: self.address.clone(),
        }
    }

    /// Whether this entry bears the ownership marker tag.
    pub fn is_managed(&self) -> (b: bool)
        ensures
            b == is_managed(self@),
    {
        let mut i: usize = 0;
        while i < self.tags.len()
            invariant
                i <= self.tags.len(),
                forall|k: int| 0 <= k < i ==> self.tags@[k]@ != marker_seq(),
        decreases self.tags.len() - i,
        {
            if str_eq(self.tags[i].as_str(), marker_str()) {
                proof {
                    assert(self@.tags[i as int] == marker_seq());
                }
                return true;
            }
            i = i + 1;
        }
        proof {
            if is_managed(self@) {
                let j = choose|j: int| 0 <= j < self@.tags.len() && self@.tags[j] == marker_seq();
                assert(self.tags@[j]@ == marker_seq());
            }
        }
        false
    }
}

/// The observed entries this daemon manages: those bearing the ownership
/// marker, in observed order.
pub open spec fn spec_managed(services: Seq<AgentServiceView>) -> Seq<AgentServiceView>
    decreases services.len(),
{
    if services.len() == 0 {
        Seq::empty()
    } else {
        let prev = spec_managed(services.drop_last());
        if is_managed(services.last()) {
            prev.push(services.last())
        } else {
            prev
        }
    }
}

/// Keeps only the entries this daemon manages: those bearing the ownership
/// marker.
pub fn filter_managed(services: &Vec<AgentService>) -> (r: Vec<AgentService>)
    ensures
        r.deep_view() == spec_managed(services.deep_view()),
{
    let ghost all = services.deep_view();
    let mut r: Vec<AgentService> = Vec::new();
    let mut i: usize = 0;
    proof {
        assert(all.take(0) =~= Seq::<AgentServiceView>::empty());
        assert(r.deep_view() =~= spec_managed(all.take(0)));
    }
    while i < services.len()
        invariant
            i <= services.len(),
            all == services.deep_view(),
            r.deep_view() == spec_managed(all.take(i as int)),
        decreases services.len() - i,
    {
        if services[i].is_managed() {
            r.push(services[i].duplicate());
        }
        proof {
            let cur = all.take(i + 1);
            assert(cur.drop_last() =~= all.take(i as int));
            assert(cur.last() == all[i as int]);
            assert(r.deep_view() == spec_managed(cur));
        }
        i = i + 1;
    }
    proof {
        assert(all.take(services.len() as int) =~= all);
    }
    r
}

/// The catalog listing: each service name with its tags.
#[derive(Debug)]
pub struct Service {
    pub data: HashMap<String, Vec<String>>,
}

/// An error reported by the registry client.
#[derive(Debug, Clone)]
pub struct ClientError {
    pub message: String,
}

/// A handle on the registry: the base URL requests are built against. The
/// HTTP transport itself lives outside the library.
#[derive(Debug, Clone)]
pub struct Consul {
    pub url: String,
}

pub ghost struct ConsulView {
    pub url: Seq<char>,
}

impl View for Consul {
    type V = ConsulView;

    open spec fn view(&self) -> ConsulView {
        ConsulView { url: self.url@ }
    }
}

impl DeepView for Consul {
    type V = ConsulView;

    open spec fn deep_view(&self) -> ConsulView {
        self.view()
    }
}

impl Default for Consul {
    /// A handle on a registry served on the local host's default port.
    fn default() -> (c: Self)
        ensures
            c.url@ == "http://localhost:8500"@,
    {
        Consul { url: String::from_str("http://localhost:8500") }
    }
}

impl Consul {
    /// A handle on the registry at the given base URL.
    pub fn new(url: &str) -> (c: Self)
        ensures
            c.url@ == url@,
    {
        Consul { url: String::from_str(url) }
    }

    /// The URL that lists the catalog's services.
    pub fn catalog_services_url(&self) -> (u: String)
        ensures
            u@ == self.url@ + "/v1/catalog/services"@,
    {
        let mut u = self.url.clone();
        u.append("/v1/catalog/services");
        u
    }

    /// The URL that lists the agent's registered services.
    pub fn agent_services_url(&self) -> (u: String)
        ensures
            u@ == self.url@ + "/v1/agent/services"@,
    {
        let mut u = self.url.clone();
        u.append("/v1/agent/services");
        u
    }

    /// The URL that registers a service.
    pub fn register_url(&self) -> (u: String)
        ensures
            u@ == self.url@ + "/v1/agent/service/register"@,
    {
        let mut u = self.url.clone();
        u.append("/v1/agent/service/register");
        u
    }

    /// The URL that deregisters the service with the given id.
    pub fn deregister_url(&self, service_id: &str) -> (u: String)
        ensures
            u@ == self.url@ + "/v1/agent/service/deregister/"@ + service_id@,
    {
        let mut u = self.url.clone();
        u.append("/v1/agent/service/deregister/");
        u.append(service_id);
        u
    }
}

/// The outcome of a registration call, decided by the response status: only
/// status 200 is success, any other status is an error naming it.
pub fn registration_outcome(status: u16) -> (r: Result<(), ClientError>)
    ensures
        match r {
            Ok(()) => status == 200,
            Err(e) => status != 200 && e.message@ == "Service registration failed with status: "@
                + dec_rep(status as int),
        },
{
    if status == 200 {
        Ok(())
    } else {
        let mut message = String::from_str("Service registration failed with status: ");
        message.append(u16_to_dec(status).as_str());
        Err(ClientError { message })
    }
}

/// The outcome of a deregistration call, decided by the response status:
/// only status 200 is success, any other status is an error naming it.
pub fn deregistration_outcome(status: u16) -> (r: Result<(), ClientError>)
    ensures
        match r {
            Ok(()) => status == 200,
            Err(e) => status != 200 && e.message@
                == "Service deregistration failed with status: "@ + dec_rep(status as int),
        },
{
    if status == 200 {
        Ok(())
    } else {
        let mut message = String::from_str("Service deregistration failed with status: ");
        message.append(u16_to_dec(status).as_str());
        Err(ClientError { message })
    }
}

} // verus!
