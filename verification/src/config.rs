//! Startup configuration from a small set of variables.
use crate::boundary;
use crate::connect::broker::BrokerToken;
use crate::domain::policy;
use crate::domain::policy::valid_domain;
use crate::domain::target;
use crate::domain::target::parse_port;
use crate::ip;
use crate::ip::{parse_socket, SocketAddress};
use crate::octets;
use crate::octets::{copy, lowercase, part, rfind};
use crate::text;
use crate::text::{characters, copy_text, split_chars, string_of};
use vstd::prelude::*;
use vstd::utf8::*;

verus! {

pub const DEFAULT_ALLOWLIST: &'static str = "/etc/vhrn/allowlist";

pub const DEFAULT_MODE_FILE: &'static str = "/etc/vhrn/mode";

pub const DEFAULT_LISTEN: &'static str = ":8080";

/// Where the broker listens: a numeric socket or a DNS name and a port.
#[derive(Debug, Clone, PartialEq, Eq)]
pub enum BrokerEndpoint {
    Socket(SocketAddress),
    Host { host: Vec<u8>, port: u16 },
}

pub enum EndpointModel {
    Socket(ip::SocketModel),
    Host { host: Seq<u8>, port: u16 },
}

impl View for BrokerEndpoint {
    type V = EndpointModel;

    open spec fn view(&self) -> EndpointModel {
        match self {
            BrokerEndpoint::Socket(socket) => EndpointModel::Socket(socket@),
            BrokerEndpoint::Host { host, port } => EndpointModel::Host { host: host@, port: *port },
        }
    }
}

/// The endpoint that a text spells. A numeric socket needs a port that is not zero; anything else
/// is a DNS name, a colon and a port.
pub open spec fn endpoint_of(s: Seq<u8>) -> Result<EndpointModel, BrokerAddressError> {
    let at = octets::last_before(s, ':' as u8, s.len() as int);
    match ip::socket_of(s) {
        Some(socket) => if socket.port != 0 {
            Ok(EndpointModel::Socket(socket))
        } else {
            Err(BrokerAddressError)
        },
        None => if at < 0 || !policy::valid_dns_name(s.subrange(0, at)) {
            Err(BrokerAddressError)
        } else {
            match target::port_of(s.subrange(at + 1, s.len() as int)) {
                Some(port) => Ok(
                    EndpointModel::Host { host: octets::lower(s.subrange(0, at)), port },
                ),
                None => Err(BrokerAddressError),
            }
        },
    }
}

/// Why a text is no address of a broker.
#[derive(Debug, Clone, Copy, PartialEq, Eq, Structural)]
pub struct BrokerAddressError;

impl BrokerAddressError {
    pub fn message(&self) -> (r: &'static str)
        ensures
            r@ == "invalid broker address"@,
    {
        "invalid broker address"
    }
}

impl BrokerEndpoint {
    /// Reads an endpoint.
    pub fn parse(value: &str) -> (r: Result<BrokerEndpoint, BrokerAddressError>)
        ensures
            match r {
                Ok(endpoint) => endpoint_of(octets::octets(value@)) == Ok::<
                    EndpointModel,
                    BrokerAddressError,
                >(endpoint@),
                Err(error) => endpoint_of(octets::octets(value@)) == Err::<
                    EndpointModel,
                    BrokerAddressError,
                >(error),
            },
    {
        let s: &[u8] = value.as_bytes();
        if let Some(socket) = parse_socket(s) {
            return if socket.port != 0 {
                Ok(BrokerEndpoint::Socket(socket))
            } else {
                Err(BrokerAddressError)
            };
        }
        match rfind(s, ':' as u8) {
            None => Err(BrokerAddressError),
            Some(at) => {
                let host: &[u8] = part(s, 0, at);
                if !valid_domain(host) {
                    return Err(BrokerAddressError);
                }
                match parse_port(part(s, at + 1, s.len())) {
                    Ok(port) => Ok(BrokerEndpoint::Host { host: lowercase(host), port }),
                    Err(_) => Err(BrokerAddressError),
                }
            },
        }
    }
}

/// Why a text is no address to listen on.
#[derive(Debug, Clone, Copy, PartialEq, Eq, Structural)]
pub enum ListenerError {
    /// The text spells no socket.
    Syntax,
    ZeroPort,
}

impl ListenerError {
    pub fn message(&self) -> (r: &'static str)
        ensures
            r@ == (match self {
                ListenerError::Syntax => "invalid socket address syntax"@,
                ListenerError::ZeroPort => "listener port must be nonzero"@,
            }),
    {
        match self {
            ListenerError::Syntax => "invalid socket address syntax",
            ListenerError::ZeroPort => "listener port must be nonzero",
        }
    }
}

/// The socket that a listener text spells: a bare port listens on every IPv4 address. The port is
/// not zero.
pub open spec fn listener_of(s: Seq<u8>) -> Result<ip::SocketModel, ListenerError> {
    let whole = if s.len() > 0 && s[0] == ':' as u8 {
        octets::octets("0.0.0.0"@) + s
    } else {
        s
    };
    match ip::socket_of(whole) {
        Some(socket) => if socket.port != 0 {
            Ok(socket)
        } else {
            Err(ListenerError::ZeroPort)
        },
        None => Err(ListenerError::Syntax),
    }
}

/// Reads the address to listen on.
pub fn parse_listener(value: &str) -> (r: Result<SocketAddress, ListenerError>)
    ensures
        match r {
            Ok(socket) => listener_of(octets::octets(value@)) == Ok::<
                ip::SocketModel,
                ListenerError,
            >(socket@),
            Err(error) => listener_of(octets::octets(value@)) == Err::<
                ip::SocketModel,
                ListenerError,
            >(error),
        },
{
    let s: &[u8] = value.as_bytes();
    let parsed: Option<SocketAddress> = if s.len() > 0 && s[0] == ':' as u8 {
        let mut whole: Vec<u8> = copy("0.0.0.0".as_bytes());
        octets::append(&mut whole, s);
        parse_socket(whole.as_slice())
    } else {
        parse_socket(s)
    };
    match parsed {
        Some(socket) => if socket.port != 0 {
            Ok(socket)
        } else {
            Err(ListenerError::ZeroPort)
        },
        None => Err(ListenerError::Syntax),
    }
}

/// The texts that a sequence of strings holds.
pub open spec fn strings(s: Seq<String>) -> Seq<Seq<char>> {
    Seq::new(s.len(), |i: int| s[i]@)
}

/// One of the texts is empty.
pub open spec fn some_empty(s: Seq<Seq<char>>) -> bool {
    exists|i: int| 0 <= i < s.len() && (#[trigger] s[i]).len() == 0
}

/// Why the public policy files cannot be had: a path is empty.
#[derive(Debug, Clone, Copy, PartialEq, Eq, Structural)]
pub struct PolicyPathsError;

impl PolicyPathsError {
    pub fn message(&self) -> (r: &'static str)
        ensures
            r@ == "VHRN_ALLOWLISTS must contain only nonempty paths"@,
    {
        "VHRN_ALLOWLISTS must contain only nonempty paths"
    }
}

/// The paths that a text lists: none of them empty.
pub open spec fn paths_of(s: Seq<char>) -> Result<Seq<Seq<char>>, PolicyPathsError> {
    let pieces = text::char_pieces(s, ',');
    if some_empty(pieces) {
        Err(PolicyPathsError)
    } else {
        Ok(pieces)
    }
}

/// The policy files of one kind, in their order: at least one, none with an empty path.
#[derive(Debug, Clone, PartialEq, Eq)]
pub struct PolicyPaths {
    paths: Vec<String>,
}

impl View for PolicyPaths {
    type V = Seq<Seq<char>>;

    closed spec fn view(&self) -> Seq<Seq<char>> {
        strings(self.paths@)
    }
}

impl PolicyPaths {
    /// Reads a list of paths with commas between them.
    pub fn parse(value: &str) -> (r: Result<PolicyPaths, PolicyPathsError>)
        ensures
            match r {
                Ok(paths) => paths_of(value@) == Ok::<Seq<Seq<char>>, PolicyPathsError>(paths@),
                Err(error) => paths_of(value@) == Err::<Seq<Seq<char>>, PolicyPathsError>(error),
            },
    {
        let pieces: Vec<Vec<char>> = split_chars(characters(value).as_slice(), ',');
        let ghost all = text::char_pieces(value@, ',');
        assert(all == text::texts(pieces@));
        let mut paths: Vec<String> = Vec::new();
        let mut i: usize = 0;
        while i < pieces.len()
            invariant
                i <= pieces.len(),
                all == text::char_pieces(value@, ','),
                all == text::texts(pieces@),
                paths@.len() == i,
                forall|j: int| 0 <= j < i ==> (#[trigger] paths@[j])@ == all[j],
                forall|j: int| 0 <= j < i ==> (#[trigger] all[j]).len() > 0,
            decreases pieces.len() - i,
        {
            assert(all[i as int] == pieces@[i as int]@);
            if pieces[i].len() == 0 {
                return Err(PolicyPathsError);
            }
            paths.push(string_of(pieces[i].as_slice()));
            i += 1;
        }
        assert(strings(paths@) =~= all);
        Ok(PolicyPaths { paths })
    }

    /// One path.
    pub fn single(path: &str) -> (r: Result<PolicyPaths, PolicyPathsError>)
        ensures
            match r {
                Ok(paths) => path@.len() > 0 && paths@ == seq![path@],
                Err(_) => path@.len() == 0,
            },
    {
        let chars: Vec<char> = characters(path);
        if chars.len() == 0 {
            return Err(PolicyPathsError);
        }
        let mut paths: Vec<String> = Vec::new();
        paths.push(string_of(chars.as_slice()));
        assert(strings(paths@) =~= seq![path@]);
        Ok(PolicyPaths { paths })
    }

    pub fn as_slice(&self) -> (r: &[String])
        ensures
            strings(r@) == self@,
    {
        self.paths.as_slice()
    }
}

/// The three policy files for local destinations.
#[derive(Debug, Clone, PartialEq, Eq)]
pub struct LocalPolicyPaths {
    paths: [String; 3],
}

impl View for LocalPolicyPaths {
    type V = Seq<Seq<char>>;

    closed spec fn view(&self) -> Seq<Seq<char>> {
        strings(self.paths@)
    }
}

/// Why the policy files for local destinations cannot be had.
#[derive(Debug, Clone, Copy, PartialEq, Eq, Structural)]
pub enum LocalPathsError {
    /// There are not three of them.
    Count,
    Empty,
}

impl LocalPathsError {
    pub fn message(&self) -> (r: &'static str)
        ensures
            r@ == (match self {
                LocalPathsError::Count => "requires exactly three policy paths"@,
                LocalPathsError::Empty => "contains an empty policy path"@,
            }),
    {
        match self {
            LocalPathsError::Count => "requires exactly three policy paths",
            LocalPathsError::Empty => "contains an empty policy path",
        }
    }
}

/// Exactly three paths, none of them empty. The number is judged first.
pub open spec fn local_paths_of(s: Seq<char>) -> Result<Seq<Seq<char>>, LocalPathsError> {
    let pieces = text::char_pieces(s, ',');
    if pieces.len() != 3 {
        Err(LocalPathsError::Count)
    } else if some_empty(pieces) {
        Err(LocalPathsError::Empty)
    } else {
        Ok(pieces)
    }
}

/// Reads the three policy files for local destinations.
pub fn parse_local_paths(value: &str) -> (r: Result<LocalPolicyPaths, LocalPathsError>)
    ensures
        match r {
            Ok(paths) => local_paths_of(value@) == Ok::<Seq<Seq<char>>, LocalPathsError>(paths@),
            Err(error) => local_paths_of(value@) == Err::<Seq<Seq<char>>, LocalPathsError>(error),
        },
{
    let pieces: Vec<Vec<char>> = split_chars(characters(value).as_slice(), ',');
    let ghost all = text::char_pieces(value@, ',');
    assert(all == text::texts(pieces@));
    if pieces.len() != 3 {
        return Err(LocalPathsError::Count);
    }
    assert(all[0] == pieces@[0]@ && all[1] == pieces@[1]@ && all[2] == pieces@[2]@);
    if pieces[0].len() == 0 || pieces[1].len() == 0 || pieces[2].len() == 0 {
        assert(some_empty(all));
        return Err(LocalPathsError::Empty);
    }
    let local = LocalPolicyPaths {
        paths: [
            string_of(pieces[0].as_slice()),
            string_of(pieces[1].as_slice()),
            string_of(pieces[2].as_slice()),
        ],
    };
    assert(local@ =~= all);
    Ok(local)
}

impl LocalPolicyPaths {
    pub fn as_array(&self) -> (r: &[String; 3])
        ensures
            strings(r@) == self@,
    {
        &self.paths
    }
}

/// What only local routing needs.
#[derive(Debug, Clone, PartialEq, Eq)]
pub struct LocalConfig {
    pub policy_paths: LocalPolicyPaths,
    pub broker_addr: BrokerEndpoint,
    pub token_file: String,
}

pub struct LocalConfigModel {
    pub policy_paths: Seq<Seq<char>>,
    pub broker_addr: EndpointModel,
    pub token_file: Seq<char>,
}

impl View for LocalConfig {
    type V = LocalConfigModel;

    open spec fn view(&self) -> LocalConfigModel {
        LocalConfigModel {
            policy_paths: self.policy_paths@,
            broker_addr: self.broker_addr@,
            token_file: self.token_file@,
        }
    }
}

/// The values that decisions need after startup.
#[derive(Debug, Clone, PartialEq, Eq)]
pub struct Config {
    pub allowlists: PolicyPaths,
    pub mode_file: String,
    pub listen: SocketAddress,
    pub deny_log: Option<String>,
    pub local: Option<LocalConfig>,
}

pub struct ConfigModel {
    pub allowlists: Seq<Seq<char>>,
    pub mode_file: Seq<char>,
    pub listen: ip::SocketModel,
    pub deny_log: Option<Seq<char>>,
    pub local: Option<LocalConfigModel>,
}

impl View for Config {
    type V = ConfigModel;

    open spec fn view(&self) -> ConfigModel {
        ConfigModel {
            allowlists: self.allowlists@,
            mode_file: self.mode_file@,
            listen: self.listen@,
            deny_log: policy::optional_text(self.deny_log),
            local: match self.local {
                Some(local) => Some(local@),
                None => None,
            },
        }
    }
}

/// Which variable stops the startup, and what is wrong with it. The value is never part of a
/// message.
#[derive(Debug, Clone, Copy, PartialEq, Eq, Structural)]
pub enum ConfigError {
    Allowlists(PolicyPathsError),
    LoopbackAllowlists(LocalPathsError),
    BrokerAddr(BrokerAddressError),
    LocalGroup,
    ProxyListen(ListenerError),
}

impl ConfigError {
    pub fn message(&self) -> (r: &'static str)
        ensures
            r@ == (match self {
                ConfigError::Allowlists(_) => "parse VHRN_ALLOWLISTS"@,
                ConfigError::LoopbackAllowlists(_) => "parse VHRN_LOOPBACK_ALLOWLISTS"@,
                ConfigError::BrokerAddr(_) => "parse VHRN_BROKER_ADDR"@,
                ConfigError::LocalGroup =>
                    "VHRN_LOOPBACK_ALLOWLISTS, VHRN_BROKER_ADDR, and VHRN_BROKER_TOKEN_FILE must be set together"@,
                ConfigError::ProxyListen(_) => "parse VHRN_PROXY_LISTEN"@,
            }),
    {
        match self {
            ConfigError::Allowlists(_) => "parse VHRN_ALLOWLISTS",
            ConfigError::LoopbackAllowlists(_) => "parse VHRN_LOOPBACK_ALLOWLISTS",
            ConfigError::BrokerAddr(_) => "parse VHRN_BROKER_ADDR",
            ConfigError::LocalGroup =>
                "VHRN_LOOPBACK_ALLOWLISTS, VHRN_BROKER_ADDR, and VHRN_BROKER_TOKEN_FILE must be set together",
            ConfigError::ProxyListen(_) => "parse VHRN_PROXY_LISTEN",
        }
    }

    /// What is wrong with the variable that the message names.
    pub fn cause(&self) -> (r: Option<&'static str>)
        ensures
            match self {
                ConfigError::Allowlists(_) => r matches Some(text) && text@
                    == "VHRN_ALLOWLISTS must contain only nonempty paths"@,
                ConfigError::LoopbackAllowlists(LocalPathsError::Count) => r matches Some(text)
                    && text@ == "requires exactly three policy paths"@,
                ConfigError::LoopbackAllowlists(LocalPathsError::Empty) => r matches Some(text)
                    && text@ == "contains an empty policy path"@,
                ConfigError::BrokerAddr(_) => r matches Some(text) && text@
                    == "invalid broker address"@,
                ConfigError::LocalGroup => r is None,
                ConfigError::ProxyListen(ListenerError::Syntax) => r matches Some(text) && text@
                    == "invalid socket address syntax"@,
                ConfigError::ProxyListen(ListenerError::ZeroPort) => r matches Some(text) && text@
                    == "listener port must be nonzero"@,
            },
    {
        match self {
            ConfigError::Allowlists(error) => Some(error.message()),
            ConfigError::LoopbackAllowlists(error) => Some(error.message()),
            ConfigError::BrokerAddr(error) => Some(error.message()),
            ConfigError::LocalGroup => None,
            ConfigError::ProxyListen(error) => Some(error.message()),
        }
    }
}

/// The variables that the configuration is made of, as they were looked up.
#[derive(Debug)]
pub struct Environment {
    pub allowlists: Option<String>,
    pub allowlist: Option<String>,
    pub loopback_allowlists: Option<String>,
    pub broker_addr: Option<String>,
    pub broker_token_file: Option<String>,
    pub mode_file: Option<String>,
    pub deny_log: Option<String>,
    pub proxy_listen: Option<String>,
}

/// The value of a variable. An empty one is not set.
pub open spec fn setting(v: Option<String>) -> Option<Seq<char>> {
    match v {
        Some(v) => if v@.len() > 0 {
            Some(v@)
        } else {
            None
        },
        None => None,
    }
}

/// The value of a variable, or its default.
pub open spec fn setting_or(v: Option<String>, default: Seq<char>) -> Seq<char> {
    match setting(v) {
        Some(v) => v,
        None => default,
    }
}

/// The public policy files: those of the list, where it is set, else the single one.
pub open spec fn allowlists_of(e: Environment) -> Result<Seq<Seq<char>>, ConfigError> {
    match setting(e.allowlists) {
        Some(list) => match paths_of(list) {
            Ok(paths) => Ok(paths),
            Err(error) => Err(ConfigError::Allowlists(error)),
        },
        None => Ok(seq![setting_or(e.allowlist, DEFAULT_ALLOWLIST@)]),
    }
}

/// Local routing: all three variables or none of them.
pub open spec fn local_of(e: Environment) -> Result<Option<LocalConfigModel>, ConfigError> {
    match (
        setting(e.loopback_allowlists),
        setting(e.broker_addr),
        setting(e.broker_token_file),
    ) {
        (None, None, None) => Ok(None),
        (Some(paths), Some(addr), Some(token_file)) => match local_paths_of(paths) {
            Err(error) => Err(ConfigError::LoopbackAllowlists(error)),
            Ok(policy_paths) => match endpoint_of(octets::octets(addr)) {
                Err(error) => Err(ConfigError::BrokerAddr(error)),
                Ok(broker_addr) => Ok(
                    Some(LocalConfigModel { policy_paths, broker_addr, token_file }),
                ),
            },
        },
        _ => Err(ConfigError::LocalGroup),
    }
}

/// The configuration that the variables make.
pub open spec fn config_of(e: Environment) -> Result<ConfigModel, ConfigError> {
    match allowlists_of(e) {
        Err(error) => Err(error),
        Ok(allowlists) => match local_of(e) {
            Err(error) => Err(error),
            Ok(local) => match listener_of(
                octets::octets(setting_or(e.proxy_listen, DEFAULT_LISTEN@)),
            ) {
                Err(error) => Err(ConfigError::ProxyListen(error)),
                Ok(listen) => Ok(
                    ConfigModel {
                        allowlists,
                        mode_file: setting_or(e.mode_file, DEFAULT_MODE_FILE@),
                        listen,
                        deny_log: setting(e.deny_log),
                        local,
                    },
                ),
            },
        },
    }
}

/// A configuration or an error, as models.
pub open spec fn resolved(r: Result<Config, ConfigError>) -> Result<ConfigModel, ConfigError> {
    match r {
        Ok(config) => Ok(config@),
        Err(error) => Err(error),
    }
}

fn value(v: &Option<String>) -> (r: Option<String>)
    ensures
        policy::optional_text(r) == setting(*v),
{
    match v {
        Some(v) => {
            let chars: Vec<char> = characters(v.as_str());
            if chars.len() > 0 {
                Some(string_of(chars.as_slice()))
            } else {
                None
            }
        },
        None => None,
    }
}

fn value_or(v: &Option<String>, default: &str) -> (r: String)
    ensures
        r@ == setting_or(*v, default@),
{
    match value(v) {
        Some(v) => v,
        None => copy_text(default),
    }
}

proof fn lemma_default_allowlist()
    ensures
        DEFAULT_ALLOWLIST@.len() > 0,
{
    reveal_strlit("/etc/vhrn/allowlist");
}

fn resolve_local(e: &Environment) -> (r: Result<Option<LocalConfig>, ConfigError>)
    ensures
        match r {
            Ok(Some(local)) => local_of(*e) == Ok::<Option<LocalConfigModel>, ConfigError>(
                Some(local@),
            ),
            Ok(None) => local_of(*e) == Ok::<Option<LocalConfigModel>, ConfigError>(None),
            Err(error) => local_of(*e) == Err::<Option<LocalConfigModel>, ConfigError>(error),
        },
{
    match (value(&e.loopback_allowlists), value(&e.broker_addr), value(&e.broker_token_file)) {
        (None, None, None) => Ok(None),
        (Some(paths), Some(addr), Some(token_file)) => {
            let policy_paths: LocalPolicyPaths = match parse_local_paths(paths.as_str()) {
                Ok(paths) => paths,
                Err(error) => {
                    return Err(ConfigError::LoopbackAllowlists(error));
                },
            };
            match BrokerEndpoint::parse(addr.as_str()) {
                Ok(broker_addr) => Ok(Some(LocalConfig { policy_paths, broker_addr, token_file })),
                Err(error) => Err(ConfigError::BrokerAddr(error)),
            }
        },
        _ => Err(ConfigError::LocalGroup),
    }
}

/// Makes the configuration of the variables.
pub fn resolve_config(e: &Environment) -> (r: Result<Config, ConfigError>)
    ensures
        resolved(r) == config_of(*e),
{
    proof {
        lemma_default_allowlist();
    }
    let allowlists: PolicyPaths = match value(&e.allowlists) {
        Some(list) => match PolicyPaths::parse(list.as_str()) {
            Ok(paths) => paths,
            Err(error) => {
                return Err(ConfigError::Allowlists(error));
            },
        },
        None => match PolicyPaths::single(value_or(&e.allowlist, DEFAULT_ALLOWLIST).as_str()) {
            Ok(paths) => paths,
            Err(error) => {
                assert(false);
                return Err(ConfigError::Allowlists(error));
            },
        },
    };
    let local: Option<LocalConfig> = match resolve_local(e) {
        Ok(local) => local,
        Err(error) => {
            return Err(error);
        },
    };
    let mode_file: String = value_or(&e.mode_file, DEFAULT_MODE_FILE);
    let deny_log: Option<String> = value(&e.deny_log);
    match parse_listener(value_or(&e.proxy_listen, DEFAULT_LISTEN).as_str()) {
        Ok(listen) => Ok(Config { allowlists, mode_file, listen, deny_log, local }),
        Err(error) => Err(ConfigError::ProxyListen(error)),
    }
}

/// The environment is what a lookup gave for each of the variables.
pub open spec fn looked_up<F: Fn(&str) -> Option<String>>(lookup: F, e: Environment) -> bool {
    &&& call_ensures(lookup, ("VHRN_ALLOWLISTS",), e.allowlists)
    &&& call_ensures(lookup, ("VHRN_ALLOWLIST",), e.allowlist)
    &&& call_ensures(lookup, ("VHRN_LOOPBACK_ALLOWLISTS",), e.loopback_allowlists)
    &&& call_ensures(lookup, ("VHRN_BROKER_ADDR",), e.broker_addr)
    &&& call_ensures(lookup, ("VHRN_BROKER_TOKEN_FILE",), e.broker_token_file)
    &&& call_ensures(lookup, ("VHRN_MODE_FILE",), e.mode_file)
    &&& call_ensures(lookup, ("VHRN_DENY_LOG",), e.deny_log)
    &&& call_ensures(lookup, ("VHRN_PROXY_LISTEN",), e.proxy_listen)
}

impl Config {
    /// Looks every variable up once and makes the configuration of them.
    pub fn resolve<F: Fn(&str) -> Option<String>>(lookup: F) -> (r: Result<Config, ConfigError>)
        requires
            forall|name: &str| #[trigger] call_requires(lookup, (name,)),
        ensures
            exists|e: Environment| #[trigger] looked_up(lookup, e) && resolved(r) == config_of(e),
    {
        let e = Environment {
            allowlists: lookup("VHRN_ALLOWLISTS"),
            allowlist: lookup("VHRN_ALLOWLIST"),
            loopback_allowlists: lookup("VHRN_LOOPBACK_ALLOWLISTS"),
            broker_addr: lookup("VHRN_BROKER_ADDR"),
            broker_token_file: lookup("VHRN_BROKER_TOKEN_FILE"),
            mode_file: lookup("VHRN_MODE_FILE"),
            deny_log: lookup("VHRN_DENY_LOG"),
            proxy_listen: lookup("VHRN_PROXY_LISTEN"),
        };
        assert(looked_up(lookup, e));
        resolve_config(&e)
    }
}

/// Local routing is configured whole or not at all: some but not all of its variables refuse the
/// startup, and none of them leaves it off.
pub proof fn local_routing_is_all_or_nothing(e: Environment)
    ensures
        setting(e.loopback_allowlists) is None && setting(e.broker_addr) is None && setting(
            e.broker_token_file,
        ) is None ==> local_of(e) == Ok::<Option<LocalConfigModel>, ConfigError>(None),
        (setting(e.loopback_allowlists) is None || setting(e.broker_addr) is None || setting(
            e.broker_token_file,
        ) is None) && !(setting(e.loopback_allowlists) is None && setting(e.broker_addr) is None
            && setting(e.broker_token_file) is None) ==> local_of(e) == Err::<
            Option<LocalConfigModel>,
            ConfigError,
        >(ConfigError::LocalGroup) && config_of(e) is Err,
{
}

/// Why the credential of the broker cannot be had.
#[derive(Debug, Clone, Copy, PartialEq, Eq, Structural)]
pub enum TokenFileError {
    Unreadable,
    Invalid,
}

impl TokenFileError {
    pub fn message(&self) -> (r: &'static str)
        ensures
            r@ == (match self {
                TokenFileError::Unreadable => "VHRN_BROKER_TOKEN_FILE is unreadable"@,
                TokenFileError::Invalid => "VHRN_BROKER_TOKEN_FILE contains an invalid token"@,
            }),
    {
        match self {
            TokenFileError::Unreadable => "VHRN_BROKER_TOKEN_FILE is unreadable",
            TokenFileError::Invalid => "VHRN_BROKER_TOKEN_FILE contains an invalid token",
        }
    }
}

/// Judges the credential file: a regular file of exactly 64 octets that are a credential. `None`
/// stands for contents that could not be read.
pub fn load_broker_token(regular: bool, length: u64, contents: Option<&[u8]>) -> (r: Result<
    BrokerToken,
    TokenFileError,
>)
    ensures
        match r {
            Ok(token) => regular && length == 64 && (contents matches Some(bytes)
                && boundary::is_broker_token(bytes@) && token@ == bytes@),
            Err(TokenFileError::Unreadable) => regular && length == 64 && contents is None,
            Err(TokenFileError::Invalid) => !regular || length != 64 || (contents matches Some(bytes)
                && !boundary::is_broker_token(bytes@)),
        },
{
    if !regular || length != 64 {
        return Err(TokenFileError::Invalid);
    }
    match contents {
        None => Err(TokenFileError::Unreadable),
        Some(bytes) => match BrokerToken::from_octets(bytes) {
            Ok(token) => Ok(token),
            Err(_) => Err(TokenFileError::Invalid),
        },
    }
}

} // verus!
