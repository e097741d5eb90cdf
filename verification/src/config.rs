//! Configuration of the service.

use crate::text::{
    ascii_lower, decimal_text, law_no_number, law_number_out_of_bounds, law_number_roundtrip, parse_text,
    parse_unsigned, same_ignoring_ascii_case, text_equal, text_equal_ignoring_ascii_case,
};
use vstd::prelude::*;

verus! {

/// The port of the HTTPS server where none is configured.
pub const DEFAULT_PORT: u16 = 8443;

/// The port of the raw TCP server where none is configured.
pub const DEFAULT_RAW_TCP_PORT: u16 = 9000;

/// How the servers listen.
#[derive(Debug, Clone)]
pub struct ServerConfig {
    pub cert_pem_base64: String,
    pub privkey_pem_base64: String,
    pub port: u16,
    pub enable_h2: bool,
    pub enable_h3: bool,
    pub enable_webtransport: bool,
    pub enable_websocket: bool,
    pub enable_raw_tcp: bool,
    pub raw_tcp_port: u16,
    pub raw_tcp_tls: bool,
}

/// The configuration of the service. The output defaults hold where a request
/// does not say otherwise.
#[derive(Debug, Clone)]
pub struct MediaApiConfig {
    pub server: ServerConfig,
    pub default_output_sample_rate: Option<u32>,
    pub default_output_bits: Option<u8>,
    pub default_output_channels: Option<u8>,
}

/// The environment variables that configure the service; one that is not set,
/// or that is not text, is missing.
#[derive(Debug)]
pub struct EnvVars {
    /// `TLS_CERT_BASE64`
    pub tls_cert_base64: Option<String>,
    /// `TLS_KEY_BASE64`
    pub tls_key_base64: Option<String>,
    /// `PORT`
    pub port: Option<String>,
    /// `RAW_TCP_PORT`
    pub raw_tcp_port: Option<String>,
    /// `ENABLE_RAW_TCP`
    pub enable_raw_tcp: Option<String>,
    /// `RAW_TCP_TLS`
    pub raw_tcp_tls: Option<String>,
    /// `DEFAULT_OUTPUT_SAMPLE_RATE`
    pub default_output_sample_rate: Option<String>,
    /// `DEFAULT_OUTPUT_BITS`
    pub default_output_bits: Option<String>,
    /// `DEFAULT_OUTPUT_CHANNELS`
    pub default_output_channels: Option<String>,
}

/// The text of a variable, empty where it is missing.
pub open spec fn text_or_empty(var: Option<String>) -> Seq<char> {
    match var {
        Some(text) => text@,
        None => Seq::empty(),
    }
}

/// The number that a variable holds, if it holds one that is at most `max`.
pub open spec fn number_in(var: Option<String>, max: nat) -> Option<nat> {
    match var {
        Some(text) => parse_unsigned(text@, max),
        None => None,
    }
}

/// Whether a variable switches something on: it is `1`, or `true` in any mix of
/// cases. A missing variable does not.
pub open spec fn switched_on(var: Option<String>) -> bool {
    match var {
        Some(text) => text@ == "1"@ || same_ignoring_ascii_case(text@, "true"@),
        None => false,
    }
}

fn read_text(var: &Option<String>) -> (r: String)
    ensures
        r@ == text_or_empty(*var),
{
    match var {
        Some(text) => text.clone(),
        None => String::new(),
    }
}

fn read_number(var: &Option<String>, max: u64) -> (r: Option<u64>)
    ensures
        match number_in(*var, max as nat) {
            Some(v) => r == Some(v as u64) && v <= max,
            None => r is None,
        },
{
    match var {
        Some(text) => parse_text(text.as_str(), max),
        None => None,
    }
}

fn read_switch(var: &Option<String>) -> (r: bool)
    ensures
        r == switched_on(*var),
{
    match var {
        Some(text) => text_equal(text.as_str(), "1") || text_equal_ignoring_ascii_case(
            text.as_str(),
            "true",
        ),
        None => false,
    }
}

/// A number of sixteen bits, or the given one where there is none.
pub open spec fn port_or(number: Option<nat>, default: u16) -> u16 {
    match number {
        Some(v) => v as u16,
        None => default,
    }
}

impl MediaApiConfig {
    /// Reads the configuration from environment variables. What a variable does
    /// not say, or says in a way that cannot be read, is left at its default.
    pub fn from_env(vars: &EnvVars) -> (r: Self)
        ensures
            r.server.cert_pem_base64@ == text_or_empty(vars.tls_cert_base64),
            r.server.privkey_pem_base64@ == text_or_empty(vars.tls_key_base64),
            r.server.port == port_or(number_in(vars.port, u16::MAX as nat), DEFAULT_PORT),
            r.server.raw_tcp_port == port_or(
                number_in(vars.raw_tcp_port, u16::MAX as nat),
                DEFAULT_RAW_TCP_PORT,
            ),
            r.server.enable_raw_tcp == switched_on(vars.enable_raw_tcp),
            r.server.raw_tcp_tls == switched_on(vars.raw_tcp_tls),
            r.server.enable_h2 && r.server.enable_h3 && r.server.enable_websocket,
            !r.server.enable_webtransport,
            r.default_output_sample_rate == (match number_in(
                vars.default_output_sample_rate,
                u32::MAX as nat,
            ) {
                Some(v) => Some(v as u32),
                None => None,
            }),
            r.default_output_bits == (match number_in(vars.default_output_bits, u8::MAX as nat) {
                Some(v) => Some(v as u8),
                None => None,
            }),
            r.default_output_channels == (match number_in(
                vars.default_output_channels,
                u8::MAX as nat,
            ) {
                Some(v) => Some(v as u8),
                None => None,
            }),
    {
        let port: u16 = match read_number(&vars.port, u16::MAX as u64) {
            Some(v) => v as u16,
            None => DEFAULT_PORT,
        };
        let raw_tcp_port: u16 = match read_number(&vars.raw_tcp_port, u16::MAX as u64) {
            Some(v) => v as u16,
            None => DEFAULT_RAW_TCP_PORT,
        };
        let default_output_sample_rate: Option<u32> = match read_number(
            &vars.default_output_sample_rate,
            u32::MAX as u64,
        ) {
            Some(v) => Some(v as u32),
            None => None,
        };
        let default_output_bits: Option<u8> = match read_number(
            &vars.default_output_bits,
            u8::MAX as u64,
        ) {
            Some(v) => Some(v as u8),
            None => None,
        };
        let default_output_channels: Option<u8> = match read_number(
            &vars.default_output_channels,
            u8::MAX as u64,
        ) {
            Some(v) => Some(v as u8),
            None => None,
        };
        MediaApiConfig {
            server: ServerConfig {
                cert_pem_base64: read_text(&vars.tls_cert_base64),
                privkey_pem_base64: read_text(&vars.tls_key_base64),
                port,
                enable_h2: true,
                enable_h3: true,
                enable_webtransport: false,
                enable_websocket: true,
                enable_raw_tcp: read_switch(&vars.enable_raw_tcp),
                raw_tcp_port,
                raw_tcp_tls: read_switch(&vars.raw_tcp_tls),
            },
            default_output_sample_rate,
            default_output_bits,
            default_output_channels,
        }
    }
}

/// A number that a variable holds is taken where it is within bounds; a variable that
/// is missing, that is out of bounds or that holds anything else is as if it were not
/// there. Then the ports are 8443 and 9000.
pub proof fn law_number_setting(var: Option<String>, v: nat, max: nat, i: int)
    ensures
        var is None ==> number_in(var, max) is None,
        var matches Some(text) ==> {
            &&& text@ == decimal_text(v) ==> number_in(var, max) == (if v <= max {
                Some(v)
            } else {
                None
            })
            &&& text@.len() == 0 ==> number_in(var, max) is None
            &&& 0 <= i < text@.len() && !('0' <= text@[i] <= '9') && !(i == 0 && text@[i] == '+')
                ==> number_in(var, max) is None
        },
        number_in(var, max) is None ==> port_or(number_in(var, max), DEFAULT_PORT) == 8443
            && port_or(number_in(var, max), DEFAULT_RAW_TCP_PORT) == 9000,
        number_in(var, max) == Some(v) && v <= 65535 ==> port_or(
            number_in(var, max),
            DEFAULT_PORT,
        ) == v && port_or(number_in(var, max), DEFAULT_RAW_TCP_PORT) == v,
{
    if let Some(text) = var {
        law_no_number(text@, i, max);
        if text@.len() == 0 {
            assert(text@ =~= Seq::<char>::empty());
        }
        if v <= max {
            law_number_roundtrip(v, max);
        } else {
            law_number_out_of_bounds(v, max);
        }
    }
}

/// A switch is on exactly if its variable is `1` or spells `true` in any mix of
/// cases.
pub proof fn law_switch_setting(var: Option<String>)
    ensures
        switched_on(var) <==> (var matches Some(text) && (text@ == seq!['1'] || (text@.len() == 4
            && (text@[0] == 't' || text@[0] == 'T') && (text@[1] == 'r' || text@[1] == 'R') && (
        text@[2] == 'u' || text@[2] == 'U') && (text@[3] == 'e' || text@[3] == 'E')))),
{
    reveal_strlit("1");
    reveal_strlit("true");
    assert("1"@ =~= seq!['1']);
    let word = "true"@;
    if let Some(text) = var {
        let t = text@;
        if same_ignoring_ascii_case(t, word) {
            assert(ascii_lower(t[0]) == ascii_lower(word[0]));
            assert(ascii_lower(t[1]) == ascii_lower(word[1]));
            assert(ascii_lower(t[2]) == ascii_lower(word[2]));
            assert(ascii_lower(t[3]) == ascii_lower(word[3]));
        }
    }
}

/// A text that is configured is taken as it is; a missing one is empty.
pub proof fn law_text_setting(var: Option<String>)
    ensures
        var matches Some(text) ==> text_or_empty(var) == text@,
        var is None ==> text_or_empty(var).len() == 0,
{
}

} // verus!
