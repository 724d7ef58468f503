use vstd::prelude::*;
use vstd::string::{StrSliceExecFns, StringExecFns};

verus! {

/// The service's settings.
#[derive(Debug)]
pub struct AppConfig {
    pub database_url: String,
    pub database_name: String,
    pub server_port: u16,
    pub bootstrap_server: String,
    pub command_topic: String,
    pub message_topic: String,
}

/// Why the settings could not be read.
#[derive(Debug)]
pub enum ConfigError {
    /// The variable with this name is not set.
    Missing(String),
    /// The port is not a number from 0 to 65535; the text that was given.
    InvalidPort(String),
}

pub open spec fn strings_view(vars: Seq<(String, String)>) -> Seq<(Seq<char>, Seq<char>)> {
    Seq::new(vars.len(), |i: int| (vars[i].0@, vars[i].1@))
}

/// The value of the first variable with the name, if any.
pub open spec fn lookup_spec(vars: Seq<(Seq<char>, Seq<char>)>, name: Seq<char>) -> Option<Seq<char>>
    decreases vars.len(),
{
    if vars.len() == 0 {
        None
    } else if vars[0].0 == name {
        Some(vars[0].1)
    } else {
        lookup_spec(vars.subrange(1, vars.len() as int), name)
    }
}

pub open spec fn is_digit(c: char) -> bool {
    '0' <= c <= '9'
}

/// The number a string of decimal digits spells.
pub open spec fn digits_value(s: Seq<char>) -> int
    decreases s.len(),
{
    if s.len() == 0 {
        0
    } else {
        digits_value(s.drop_last()) * 10 + (s.last() as int - '0' as int)
    }
}

/// The digits of a port: the text after an optional leading `+`.
pub open spec fn port_digits(s: Seq<char>) -> Seq<char> {
    if s.len() > 0 && s[0] == '+' {
        s.subrange(1, s.len() as int)
    } else {
        s
    }
}

/// A port number as `u16`'s `from_str` reads it: an optional `+`, then at least one
/// decimal digit and nothing else, with a value of at most 65535.
pub open spec fn parse_port_spec(s: Seq<char>) -> Option<u16> {
    let d = port_digits(s);
    if d.len() > 0 && (forall|i: int| 0 <= i < d.len() ==> is_digit(#[trigger] d[i])) && digits_value(d) <= 65535 {
        Some(digits_value(d) as u16)
    } else {
        None
    }
}

proof fn lemma_digits_value_nonneg(s: Seq<char>)
    requires
        forall|i: int| 0 <= i < s.len() ==> is_digit(#[trigger] s[i]),
    ensures
        digits_value(s) >= 0,
    decreases s.len(),
{
    if s.len() > 0 {
        lemma_digits_value_nonneg(s.drop_last());
    }
}

/// Reads a port number, see [`parse_port_spec`].
pub fn parse_port(s: &str) -> (r: Option<u16>)
    ensures
        r == parse_port_spec(s@),
{
    let n = s.unicode_len();
    let mut start: usize = 0;
    if n > 0 && s.get_char(0) == '+' {
        start = 1;
    }
    let ghost d = port_digits(s@);
    assert(d =~= s@.subrange(start as int, n as int));
    if start >= n {
        return None;
    }
    let mut value: u32 = 0;
    let mut i: usize = start;
    while i < n
        invariant
            n == s@.len(),
            start <= i <= n,
            start < n,
            d == s@.subrange(start as int, n as int),
            d == port_digits(s@),
            forall|j: int| 0 <= j < i - start ==> is_digit(#[trigger] d[j]),
            value as int == digits_value(d.subrange(0, i - start)),
            value <= 65535,
        decreases n - i,
    {
        let c = s.get_char(i);
        assert(c == d[i - start]);
        if !('0' <= c && c <= '9') {
            assert(!is_digit(d[i - start]));
            return None;
        }
        let digit = (c as u32) - ('0' as u32);
        let ghost prefix = d.subrange(0, i - start + 1);
        assert(prefix.drop_last() =~= d.subrange(0, i - start));
        assert(prefix.last() == c);
        if value > 6553 || value * 10 + digit > 65535 {
            proof {
                assert(digits_value(prefix) == digits_value(d.subrange(0, i - start)) * 10 + (c as int - '0' as int));
                assert(digits_value(prefix) > 65535);
                if forall|j: int| 0 <= j < d.len() ==> is_digit(#[trigger] d[j]) {
                    lemma_prefix_grows(d, i - start + 1);
                }
            }
            return None;
        }
        value = value * 10 + digit;
        i = i + 1;
    }
    assert(d.subrange(0, n - start) =~= d);
    Some(value as u16)
}

/// Digits never make a shorter prefix spell a larger number.
proof fn lemma_prefix_grows(d: Seq<char>, k: int)
    requires
        0 <= k <= d.len(),
        forall|i: int| 0 <= i < d.len() ==> is_digit(#[trigger] d[i]),
    ensures
        digits_value(d.subrange(0, k)) <= digits_value(d),
    decreases d.len() - k,
{
    if k < d.len() {
        lemma_prefix_grows(d, k + 1);
        let p = d.subrange(0, k + 1);
        assert(p.drop_last() =~= d.subrange(0, k));
        lemma_digits_value_nonneg(d.subrange(0, k));
    } else {
        assert(d.subrange(0, k) =~= d);
    }
}

/// The value of the first variable with the name, if any.
pub fn lookup(vars: &Vec<(String, String)>, name: &str) -> (r: Option<String>)
    ensures
        match r {
            Some(v) => lookup_spec(strings_view(vars@), name@) == Some(v@),
            None => lookup_spec(strings_view(vars@), name@) is None,
        },
{
    let ghost all = strings_view(vars@);
    let key = String::from_str(name);
    let mut i: usize = 0;
    assert(all.subrange(0, all.len() as int) =~= all);
    while i < vars.len()
        invariant
            i <= vars@.len(),
            all == strings_view(vars@),
            key@ == name@,
            lookup_spec(all, name@) == lookup_spec(all.subrange(i as int, all.len() as int), name@),
        decreases vars@.len() - i,
    {
        let ghost rest = all.subrange(i as int, all.len() as int);
        assert(rest[0] == all[i as int]);
        if vars[i].0 == key {
            return Some(vars[i].1.clone());
        }
        assert(rest.subrange(1, rest.len() as int) =~= all.subrange(i + 1, all.len() as int));
        i = i + 1;
    }
    None
}

/// What reading the settings from the variables gives: the first of `SERVER_PORT`,
/// `DATABASE_URL`, `DATABASE_NAME`, `KAFKA_BOOTSTRAP_SERVER`, `MATCHING_ENGINE_COMMAND_TOPIC`,
/// `MATCHING_ENGINE_MESSAGE_TOPIC` that is missing is the error; then the port is read.
pub open spec fn loaded(v: Seq<(Seq<char>, Seq<char>)>, r: Result<AppConfig, ConfigError>) -> bool {
    let port = lookup_spec(v, "SERVER_PORT"@);
    let url = lookup_spec(v, "DATABASE_URL"@);
    let name = lookup_spec(v, "DATABASE_NAME"@);
    let server = lookup_spec(v, "KAFKA_BOOTSTRAP_SERVER"@);
    let cmd = lookup_spec(v, "MATCHING_ENGINE_COMMAND_TOPIC"@);
    let msg = lookup_spec(v, "MATCHING_ENGINE_MESSAGE_TOPIC"@);
    &&& port is None ==> (r matches Err(ConfigError::Missing(k)) && k@ == "SERVER_PORT"@)
    &&& port is Some && url is None ==> (r matches Err(ConfigError::Missing(k)) && k@ == "DATABASE_URL"@)
    &&& port is Some && url is Some && name is None ==> (r matches Err(ConfigError::Missing(k)) && k@
        == "DATABASE_NAME"@)
    &&& port is Some && url is Some && name is Some && server is None ==> (r matches Err(
        ConfigError::Missing(k),
    ) && k@ == "KAFKA_BOOTSTRAP_SERVER"@)
    &&& port is Some && url is Some && name is Some && server is Some && cmd is None ==> (r matches Err(
        ConfigError::Missing(k),
    ) && k@ == "MATCHING_ENGINE_COMMAND_TOPIC"@)
    &&& port is Some && url is Some && name is Some && server is Some && cmd is Some && msg is None ==> (
    r matches Err(ConfigError::Missing(k)) && k@ == "MATCHING_ENGINE_MESSAGE_TOPIC"@)
    &&& port is Some && url is Some && name is Some && server is Some && cmd is Some && msg is Some ==> {
        match parse_port_spec(port->0) {
            None => r matches Err(ConfigError::InvalidPort(t)) && t@ == port->0,
            Some(p) => r matches Ok(c) && c.server_port == p && c.database_url@ == url->0
                && c.database_name@ == name->0 && c.bootstrap_server@ == server->0 && c.command_topic@
                == cmd->0 && c.message_topic@ == msg->0,
        }
    }
}

impl AppConfig {
    /// Reads the settings from the variables: `SERVER_PORT`, `DATABASE_URL`, `DATABASE_NAME`,
    /// `KAFKA_BOOTSTRAP_SERVER`, `MATCHING_ENGINE_COMMAND_TOPIC`, `MATCHING_ENGINE_MESSAGE_TOPIC`,
    /// in that order; the first one missing is the error. Then the port is read.
    pub fn load(vars: &Vec<(String, String)>) -> (r: Result<AppConfig, ConfigError>)
        ensures
            loaded(strings_view(vars@), r),
    {
        let k_port = "SERVER_PORT";
        let k_url = "DATABASE_URL";
        let k_name = "DATABASE_NAME";
        let k_server = "KAFKA_BOOTSTRAP_SERVER";
        let k_cmd = "MATCHING_ENGINE_COMMAND_TOPIC";
        let k_msg = "MATCHING_ENGINE_MESSAGE_TOPIC";
        let server_port = match lookup(vars, k_port) {
            Some(v) => v,
            None => {
                return Err(ConfigError::Missing(String::from_str(k_port)));
            },
        };
        let database_url = match lookup(vars, k_url) {
            Some(v) => v,
            None => {
                return Err(ConfigError::Missing(String::from_str(k_url)));
            },
        };
        let database_name = match lookup(vars, k_name) {
            Some(v) => v,
            None => {
                return Err(ConfigError::Missing(String::from_str(k_name)));
            },
        };
        let bootstrap_server = match lookup(vars, k_server) {
            Some(v) => v,
            None => {
                return Err(ConfigError::Missing(String::from_str(k_server)));
            },
        };
        let command_topic = match lookup(vars, k_cmd) {
            Some(v) => v,
            None => {
                return Err(ConfigError::Missing(String::from_str(k_cmd)));
            },
        };
        let message_topic = match lookup(vars, k_msg) {
            Some(v) => v,
            None => {
                return Err(ConfigError::Missing(String::from_str(k_msg)));
            },
        };
        let port = match parse_port(server_port.as_str()) {
            Some(p) => p,
            None => {
                return Err(ConfigError::InvalidPort(server_port));
            },
        };
        Ok(AppConfig { database_url, database_name, server_port: port, bootstrap_server, command_topic, message_topic })
    }
}

/// The service's settings, read from the process's variables (see [`AppConfig::load`]).
pub fn get(vars: &Vec<(String, String)>) -> (r: Result<AppConfig, ConfigError>)
    ensures
        loaded(strings_view(vars@), r),
{
    AppConfig::load(vars)
}

} // verus!
