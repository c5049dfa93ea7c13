//! The Tor tunnel, and how clients are set up to go through it.
use crate::decimal;
use vstd::prelude::*;

verus! {

/// The tunnel that traffic goes through, if it is switched on.
#[derive(Debug)]
pub struct TorManager {
    pub active: bool,
    pub proxy_str: String,
}

/// How an HTTP client is set up.
#[derive(Debug)]
pub struct ClientConfig {
    pub user_agent: String,
    /// Seconds until a request is given up.
    pub timeout_secs: u64,
    /// The proxies that all traffic of the client goes through.
    pub proxies: Vec<String>,
}

impl ClientConfig {
    /// The addresses of the proxies.
    pub open spec fn proxy_addresses(self) -> Seq<Seq<char>> {
        self.proxies@.map_values(|p: String| p@)
    }
}

/// The parts that a user agent is made of when it is drawn by chance.
pub ghost struct AgentParts {
    pub base: Seq<char>,
    pub os: Seq<char>,
    pub device: Seq<char>,
    pub engine: Seq<char>,
    pub browser: Seq<char>,
    pub version: nat,
    pub build: nat,
}

impl AgentParts {
    /// Whether the parts can be drawn.
    pub open spec fn wf(self) -> bool {
        &&& "Mozilla/"@.is_prefix_of(self.base) || "Opera/"@.is_prefix_of(self.base)
        &&& self.os.len() > 0
        &&& self.device.len() > 0
        &&& self.engine.len() > 0
        &&& self.browser.len() > 0
        &&& 60 <= self.version < 100
        &&& self.build < 500
    }

    /// The user agent that is made of the parts. The version of the engine stands in it twice.
    pub open spec fn text(self) -> Seq<char> {
        self.base + " ("@ + self.os + "; "@ + self.device + ") AppleWebKit/"@ + self.engine
            + " (KHTML, like Gecko) "@ + self.browser + "/"@ + decimal::decimal(self.version)
            + ".0."@ + decimal::decimal(self.build) + " Safari/"@ + self.engine
    }
}

/// Whether `agent` can be drawn by chance.
pub open spec fn is_drawn_agent(agent: Seq<char>) -> bool {
    exists|parts: AgentParts| parts.wf() && #[trigger] parts.text() == agent
}

/// `rand_agents::user_agent` draws the parts of a user agent by chance, each word from a list
/// and each number from a range, and puts them together. What is stated is how they are put
/// together, how the first word begins and what the ranges are. Which words there are is left
/// unsaid, and which are drawn is left to chance.
#[verifier::external_body]
fn random_user_agent() -> (agent: String)
    ensures
        is_drawn_agent(agent@),
{
    rand_agents::user_agent()
}

/// Whether `reqwest` takes `address` as the address of a proxy.
pub uninterp spec fn is_proxy_address(address: Seq<char>) -> bool;

/// `reqwest::Proxy::all` takes the address of a proxy, or refuses it. It reads the address and
/// nothing else. That of the local Tor proxy, a scheme with a host and a port behind it, is
/// one that it takes; of other addresses nothing is stated.
#[verifier::external_body]
fn proxy_accepted(address: &str) -> (r: bool)
    ensures
        r == is_proxy_address(address@),
        address@ == "socks5h://localhost:9050"@ ==> r,
{
    reqwest::Proxy::all(address).is_ok()
}

/// The proxy cannot be used: its address is none.
#[derive(Clone, Copy, Debug, PartialEq, Eq, Structural)]
pub struct BadProxy;

/// The address of the local Tor proxy if `use_tor`, and else nothing.
pub open spec fn proxy_address(use_tor: bool) -> Seq<char> {
    if use_tor {
        "socks5h://localhost:9050"@
    } else {
        seq![]
    }
}

impl TorManager {
    /// Whether a client can be sent through the tunnel. The address of a tunnel that is
    /// switched off does not matter.
    pub open spec fn wf(self) -> bool {
        self.active ==> is_proxy_address(self.proxy_str@)
    }

    /// Whether the tunnel is set up as [`TorManager::start`] does.
    pub open spec fn is_started(self) -> bool {
        self.proxy_str@ == proxy_address(self.active)
    }

    /// A tunnel through the Tor proxy on this machine, or none.
    pub fn start(use_tor: bool) -> (r: TorManager)
        ensures
            r.active == use_tor,
            r.proxy_str@ == proxy_address(use_tor),
            r.is_started(),
    {
        let proxy_str = if use_tor {
            "socks5h://localhost:9050".to_owned()
        } else {
            String::new()
        };
        TorManager { active: use_tor, proxy_str }
    }

    /// The proxies that a client has to go through.
    pub open spec fn route(self) -> Seq<Seq<char>> {
        if self.active {
            seq![self.proxy_str@]
        } else {
            seq![]
        }
    }

    /// Sends the client of `builder` through the tunnel, if it is switched on.
    pub fn add_proxy(&self, builder: ClientConfig) -> (r: ClientConfig)
        requires
            self.wf(),
        ensures
            r.user_agent@ == builder.user_agent@,
            r.timeout_secs == builder.timeout_secs,
            r.proxy_addresses() == builder.proxy_addresses() + self.route(),
    {
        let mut proxies = builder.proxies;
        if self.active {
            proxies.push(self.proxy_str.clone());
        }
        let r = ClientConfig {
            user_agent: builder.user_agent,
            timeout_secs: builder.timeout_secs,
            proxies,
        };
        assert(r.proxy_addresses() =~= builder.proxy_addresses() + self.route());
        r
    }

    /// Sends the client of `builder` through the tunnel, if it is switched on and its address
    /// is that of a proxy.
    pub fn try_add_proxy(&self, builder: ClientConfig) -> (r: Result<ClientConfig, BadProxy>)
        ensures
            r is Ok <==> self.wf(),
            self.is_started() ==> r is Ok,
            r matches Ok(c) ==> {
                &&& c.user_agent@ == builder.user_agent@
                &&& c.timeout_secs == builder.timeout_secs
                &&& c.proxy_addresses() == builder.proxy_addresses() + self.route()
            },
    {
        if self.active && !proxy_accepted(self.proxy_str.as_str()) {
            Err(BadProxy)
        } else {
            Ok(self.add_proxy(builder))
        }
    }

    /// A client behind the tunnel that calls itself `user_agent`.
    pub fn client_as(&self, user_agent: String, timeout_secs: u64) -> (r: Result<
        ClientConfig,
        BadProxy,
    >)
        ensures
            r is Ok <==> self.wf(),
            self.is_started() ==> r is Ok,
            r matches Ok(c) ==> {
                &&& c.user_agent@ == user_agent@
                &&& c.timeout_secs == timeout_secs
                &&& c.proxy_addresses() == self.route()
            },
    {
        let builder = ClientConfig { user_agent, timeout_secs, proxies: Vec::new() };
        assert(builder.proxy_addresses() + self.route() =~= self.route());
        self.try_add_proxy(builder)
    }

    /// A client behind the tunnel, under some user agent.
    pub fn client(&self, timeout_secs: u64) -> (r: Result<ClientConfig, BadProxy>)
        ensures
            r is Ok <==> self.wf(),
            self.is_started() ==> r is Ok,
            r matches Ok(c) ==> {
                &&& is_drawn_agent(c.user_agent@)
                &&& c.timeout_secs == timeout_secs
                &&& c.proxy_addresses() == self.route()
            },
    {
        self.client_as(random_user_agent(), timeout_secs)
    }

    /// The client that folders are listed with.
    pub fn scrape_client(&self) -> (r: Result<ClientConfig, BadProxy>)
        ensures
            r is Ok <==> self.wf(),
            self.is_started() ==> r is Ok,
            r matches Ok(c) ==> {
                &&& is_drawn_agent(c.user_agent@)
                &&& c.timeout_secs == 30
                &&& c.proxy_addresses() == self.route()
            },
    {
        self.client(30)
    }
}

/// A tunnel that is switched on sends a client through its address and nothing else, one that is
/// switched off through nothing.
pub proof fn lemma_route(tunnel: TorManager)
    ensures
        tunnel.active ==> tunnel.route().len() == 1 && tunnel.route()[0] == tunnel.proxy_str@,
        !tunnel.active ==> tunnel.route().len() == 0,
        tunnel.is_started() && tunnel.active ==> tunnel.proxy_str@ == "socks5h://localhost:9050"@,
        tunnel.is_started() && !tunnel.active ==> tunnel.proxy_str@.len() == 0,
        tunnel.wf() <==> !tunnel.active || is_proxy_address(tunnel.proxy_str@),
{
}

/// The proxies of a client are the ones in its list.
pub proof fn lemma_proxies(config: ClientConfig)
    ensures
        config.proxy_addresses().len() == config.proxies@.len(),
        forall|i: int|
            0 <= i < config.proxies@.len() ==> #[trigger] config.proxy_addresses()[i]
                == config.proxies@[i]@,
{
}

/// The address of the proxy is that of Tor on this machine, or nothing.
pub proof fn lemma_proxy_address()
    ensures
        proxy_address(true) == "socks5h://localhost:9050"@,
        proxy_address(false).len() == 0,
{
}

} // verus!
