//! The relay's configuration, from the variables of its environment and the files they name.
use rustls::ServerConfig;
use std::sync::Arc;
use std::time::Duration;
use vstd::prelude::*;
use vstd::string::*;

use crate::command::list_bytes;
use crate::text::{
    chars_of, decimal, join, law_decimal_read_back, law_no_fault_in_numbers,
    law_only_numbers_are_read, number, number_fault, parse_number, NumberFault,
};
use crate::tls::{
    build_server_config, draws_random, identity_accepted, law_certificates_in_file_order,
    pem_certificates, pem_items, pem_private_key, presents, read_certificates, read_private_key,
    KeyEncoding, PrivateKey,
};

verus! {

/// How long a client may take to send its key, in milliseconds.
pub const DEFAULT_CLIENT_KEY_TIMEOUT_MS: u64 = 3000;

/// How often expired connections are cleaned up, in milliseconds.
pub const DEFAULT_CLEAN_EXPIRED_CONNECTION_INTERVAL_MS: u64 = 60_000;

/// How long a connection may wait for its peer, in milliseconds.
pub const DEFAULT_WAITING_CONNECTION_EXPIRY_MS: u64 = 3_600_000;

/// How long a connection may stay paired, in milliseconds.
pub const DEFAULT_CONNECTED_CONNECTION_EXPIRY_MS: u64 = 36_000_000;

/// So many milliseconds.
pub uninterp spec fn duration_of_millis(millis: u64) -> Duration;

/// `std::time::Duration::from_millis` makes the duration of so many milliseconds.
pub assume_specification[ Duration::from_millis ](millis: u64) -> (d: Duration)
    ensures
        d == duration_of_millis(millis),
;

/// The variables that the relay reads.
#[derive(Clone, Copy, Debug, PartialEq, Eq, Structural)]
pub enum RelayVar {
    TlsPort,
    ApiPort,
    CertPath,
    KeyPath,
}

impl RelayVar {
    /// The variable's name.
    pub open spec fn text(self) -> Seq<char> {
        match self {
            RelayVar::TlsPort => "TUNSHELL_RELAY_TLS_PORT"@,
            RelayVar::ApiPort => "TUNSHELL_API_PORT"@,
            RelayVar::CertPath => "TLS_RELAY_CERT"@,
            RelayVar::KeyPath => "TLS_RELAY_PRIVATE_KEY"@,
        }
    }

    /// The variable's name.
    pub fn name(self) -> (s: &'static str)
        ensures
            s@ == self.text(),
    {
        match self {
            RelayVar::TlsPort => "TUNSHELL_RELAY_TLS_PORT",
            RelayVar::ApiPort => "TUNSHELL_API_PORT",
            RelayVar::CertPath => "TLS_RELAY_CERT",
            RelayVar::KeyPath => "TLS_RELAY_PRIVATE_KEY",
        }
    }
}

/// What the environment holds of a variable.
#[derive(Debug)]
pub enum EnvValue {
    Value(String),
    NotPresent,
    /// Something that is not text, as it is described.
    NotUnicode(String),
}

/// What the environment holds of the relay's variables.
#[derive(Debug)]
pub struct RelayVars {
    pub tls_port: EnvValue,
    pub api_port: EnvValue,
    pub cert_path: EnvValue,
    pub key_path: EnvValue,
}

impl Clone for EnvValue {
    /// The same value.
    fn clone(&self) -> (r: Self)
        ensures
            r == *self,
    {
        match self {
            EnvValue::Value(s) => EnvValue::Value(s.clone()),
            EnvValue::NotPresent => EnvValue::NotPresent,
            EnvValue::NotUnicode(s) => EnvValue::NotUnicode(s.clone()),
        }
    }
}

impl Clone for RelayVars {
    /// The same values.
    fn clone(&self) -> (r: Self)
        ensures
            r == *self,
    {
        RelayVars {
            tls_port: self.tls_port.clone(),
            api_port: self.api_port.clone(),
            cert_path: self.cert_path.clone(),
            key_path: self.key_path.clone(),
        }
    }
}

/// Why there is no configuration.
#[derive(Debug, PartialEq)]
pub enum ConfigError {
    NotPresent(RelayVar),
    /// The variable does not hold text, but what is described.
    NotUnicode(RelayVar, String),
    /// The variable does not hold a port.
    InvalidPort(RelayVar, NumberFault),
    /// The certificate file could not be opened.
    CertFile,
    /// The certificate file could not be read or understood.
    CertParse,
    /// The key file could not be opened, read or understood.
    KeyParse,
    /// The TLS library refused the certificate and the key.
    Tls(rustls::Error),
}

impl ConfigError {
    /// What is told of the failure, where it is not left to its cause: a file that could not be
    /// opened and what the TLS library says speak for themselves.
    pub open spec fn text(&self) -> Option<Seq<char>> {
        match self {
            ConfigError::NotPresent(_) => Some("environment variable not found"@),
            ConfigError::NotUnicode(_, value) => Some(
                "environment variable was not valid unicode: "@ + value@,
            ),
            ConfigError::InvalidPort(_, fault) => Some(fault.text()),
            ConfigError::CertFile => None,
            ConfigError::CertParse => Some("failed to parse tls cert file"@),
            ConfigError::KeyParse => Some("failed to parse tls private key file"@),
            ConfigError::Tls(_) => None,
        }
    }

    /// What is told of the failure, where it is not left to its cause.
    pub fn message(&self) -> (r: Option<String>)
        ensures
            match r {
                Some(s) => self.text() == Some(s@),
                None => self.text() is None,
            },
    {
        match self {
            ConfigError::NotPresent(_) => Some("environment variable not found".to_owned()),
            ConfigError::NotUnicode(_, value) => Some(
                join("environment variable was not valid unicode: ", value.as_str()),
            ),
            ConfigError::InvalidPort(_, fault) => Some(fault.message().to_owned()),
            ConfigError::CertFile => None,
            ConfigError::CertParse => Some("failed to parse tls cert file".to_owned()),
            ConfigError::KeyParse => Some("failed to parse tls private key file".to_owned()),
            ConfigError::Tls(_) => None,
        }
    }
}

/// What a variable holds, if it holds text.
pub open spec fn var_text(value: EnvValue, var: RelayVar) -> Result<Seq<char>, ConfigError> {
    match value {
        EnvValue::Value(s) => Ok(s@),
        EnvValue::NotPresent => Err(ConfigError::NotPresent(var)),
        EnvValue::NotUnicode(s) => Err(ConfigError::NotUnicode(var, s)),
    }
}

/// The port that a variable holds.
pub open spec fn var_port(value: EnvValue, var: RelayVar) -> Result<u16, ConfigError> {
    match var_text(value, var) {
        Err(e) => Err(e),
        Ok(text) => match number(text, u16::MAX as int) {
            Some(n) => Ok(n as u16),
            None => Err(ConfigError::InvalidPort(var, number_fault(text, u16::MAX as int)->0)),
        },
    }
}

/// The ports and files of the relay, as text.
pub struct SettingsText {
    pub tls_port: u16,
    pub api_port: u16,
    pub cert_path: Seq<char>,
    pub key_path: Seq<char>,
}

/// The ports and files that `vars` give, or the first fault: the ports are read before the files.
pub open spec fn settings_of(vars: RelayVars) -> Result<SettingsText, ConfigError> {
    match var_port(vars.tls_port, RelayVar::TlsPort) {
        Err(e) => Err(e),
        Ok(tls_port) => match var_port(vars.api_port, RelayVar::ApiPort) {
            Err(e) => Err(e),
            Ok(api_port) => match var_text(vars.cert_path, RelayVar::CertPath) {
                Err(e) => Err(e),
                Ok(cert_path) => match var_text(vars.key_path, RelayVar::KeyPath) {
                    Err(e) => Err(e),
                    Ok(key_path) => Ok(SettingsText { tls_port, api_port, cert_path, key_path }),
                },
            },
        },
    }
}

/// Settings are what the variables hold: the ports their numbers, and the paths their texts.
pub proof fn law_settings_are_the_variables(vars: RelayVars)
    ensures
        settings_of(vars) matches Ok(s) ==> {
            &&& vars.tls_port matches EnvValue::Value(tls)
            &&& vars.api_port matches EnvValue::Value(api)
            &&& vars.cert_path matches EnvValue::Value(cert)
            &&& vars.key_path matches EnvValue::Value(key)
            &&& number(tls@, 65535) == Some(s.tls_port as int)
            &&& number(api@, 65535) == Some(s.api_port as int)
            &&& s.cert_path == cert@
            &&& s.key_path == key@
        },
{
    if settings_of(vars) is Ok {
        let tls = vars.tls_port->Value_0;
        let api = vars.api_port->Value_0;
        law_only_numbers_are_read(tls@, 65535);
        law_only_numbers_are_read(api@, 65535);
    }
}

/// Any two ports and any two paths make settings, and those settings hold them.
pub proof fn law_settings_read_back(
    tls_port: u16,
    tls: String,
    api_port: u16,
    api: String,
    cert: String,
    key: String,
)
    requires
        tls@ == decimal(tls_port as nat),
        api@ == decimal(api_port as nat),
    ensures
        settings_of(
            RelayVars {
                tls_port: EnvValue::Value(tls),
                api_port: EnvValue::Value(api),
                cert_path: EnvValue::Value(cert),
                key_path: EnvValue::Value(key),
            },
        ) == Ok::<SettingsText, ConfigError>(
            SettingsText { tls_port, api_port, cert_path: cert@, key_path: key@ },
        ),
{
    law_decimal_read_back(tls_port as nat, 65535);
    law_decimal_read_back(api_port as nat, 65535);
}

/// A variable that is not there, or that does not hold text, is told by its own name.
pub proof fn law_bad_variable_is_named(var: RelayVar, value: String, text: String)
    ensures
        var_text(EnvValue::NotPresent, var) == Err::<Seq<char>, ConfigError>(
            ConfigError::NotPresent(var),
        ),
        var_text(EnvValue::NotUnicode(value), var) == Err::<Seq<char>, ConfigError>(
            ConfigError::NotUnicode(var, value),
        ),
        var_text(EnvValue::Value(text), var) == Ok::<Seq<char>, ConfigError>(text@),
        var_port(EnvValue::NotPresent, var) == Err::<u16, ConfigError>(
            ConfigError::NotPresent(var),
        ),
        var_port(EnvValue::NotUnicode(value), var) == Err::<u16, ConfigError>(
            ConfigError::NotUnicode(var, value),
        ),
        number(text@, 65535) is None ==> (number_fault(text@, 65535) matches Some(fault) && var_port(
            EnvValue::Value(text),
            var,
        ) == Err::<u16, ConfigError>(ConfigError::InvalidPort(var, fault))),
        ConfigError::NotUnicode(var, value).text() == Some(
            "environment variable was not valid unicode: "@ + value@,
        ),
{
    law_no_fault_in_numbers(text@, 65535);
}

/// Of several faults the first is told: of the port of the relay, then of the port of the API, then
/// of the path of the certificate, then of the path of the key.
pub proof fn law_first_fault_is_told(vars: RelayVars, e: ConfigError)
    ensures
        var_port(vars.tls_port, RelayVar::TlsPort) == Err::<u16, ConfigError>(e) ==> settings_of(
            vars,
        ) == Err::<SettingsText, ConfigError>(e),
        var_port(vars.tls_port, RelayVar::TlsPort) is Ok && var_port(
            vars.api_port,
            RelayVar::ApiPort,
        ) == Err::<u16, ConfigError>(e) ==> settings_of(vars) == Err::<SettingsText, ConfigError>(
            e,
        ),
        var_port(vars.tls_port, RelayVar::TlsPort) is Ok && var_port(
            vars.api_port,
            RelayVar::ApiPort,
        ) is Ok && var_text(vars.cert_path, RelayVar::CertPath) == Err::<Seq<char>, ConfigError>(e)
            ==> settings_of(vars) == Err::<SettingsText, ConfigError>(e),
        var_port(vars.tls_port, RelayVar::TlsPort) is Ok && var_port(
            vars.api_port,
            RelayVar::ApiPort,
        ) is Ok && var_text(vars.cert_path, RelayVar::CertPath) is Ok && var_text(
            vars.key_path,
            RelayVar::KeyPath,
        ) == Err::<Seq<char>, ConfigError>(e) ==> settings_of(vars) == Err::<
            SettingsText,
            ConfigError,
        >(e),
{
}

/// The text that a variable holds.
fn read_text(value: EnvValue, var: RelayVar) -> (r: Result<String, ConfigError>)
    ensures
        match r {
            Ok(s) => var_text(value, var) == Ok::<Seq<char>, ConfigError>(s@),
            Err(e) => var_text(value, var) == Err::<Seq<char>, ConfigError>(e),
        },
{
    match value {
        EnvValue::Value(s) => Ok(s),
        EnvValue::NotPresent => Err(ConfigError::NotPresent(var)),
        EnvValue::NotUnicode(s) => Err(ConfigError::NotUnicode(var, s)),
    }
}

/// The port that a variable holds.
fn read_port(value: EnvValue, var: RelayVar) -> (r: Result<u16, ConfigError>)
    ensures
        r == var_port(value, var),
{
    match read_text(value, var) {
        Err(e) => Err(e),
        Ok(s) => {
            let chars = chars_of(s.as_str());
            assert(chars@.subrange(0, chars@.len() as int) == chars@);
            match parse_number(&chars, 0, chars.len(), 65535) {
                Ok(n) => Ok(n as u16),
                Err(fault) => Err(ConfigError::InvalidPort(var, fault)),
            }
        },
    }
}

/// The ports and files of the relay.
pub struct RelaySettings {
    pub tls_port: u16,
    pub api_port: u16,
    pub cert_path: String,
    pub key_path: String,
}

impl RelaySettings {
    /// The same, as text.
    pub open spec fn text(&self) -> SettingsText {
        SettingsText {
            tls_port: self.tls_port,
            api_port: self.api_port,
            cert_path: self.cert_path@,
            key_path: self.key_path@,
        }
    }

    /// The ports and files that `vars` give.
    pub fn from_vars(vars: RelayVars) -> (r: Result<Self, ConfigError>)
        ensures
            match r {
                Ok(s) => settings_of(vars) == Ok::<SettingsText, ConfigError>(s.text()),
                Err(e) => settings_of(vars) == Err::<SettingsText, ConfigError>(e),
            },
            r matches Ok(s) ==> {
                &&& vars.tls_port matches EnvValue::Value(tls)
                &&& vars.api_port matches EnvValue::Value(api)
                &&& vars.cert_path matches EnvValue::Value(cert)
                &&& vars.key_path matches EnvValue::Value(key)
                &&& number(tls@, 65535) == Some(s.tls_port as int)
                &&& number(api@, 65535) == Some(s.api_port as int)
                &&& s.cert_path@ == cert@
                &&& s.key_path@ == key@
            },
    {
        proof {
            law_settings_are_the_variables(vars);
        }
        let tls_port: u16 = match read_port(vars.tls_port, RelayVar::TlsPort) {
            Ok(p) => p,
            Err(e) => return Err(e),
        };
        let api_port: u16 = match read_port(vars.api_port, RelayVar::ApiPort) {
            Ok(p) => p,
            Err(e) => return Err(e),
        };
        let cert_path = match read_text(vars.cert_path, RelayVar::CertPath) {
            Ok(s) => s,
            Err(e) => return Err(e),
        };
        let key_path = match read_text(vars.key_path, RelayVar::KeyPath) {
            Ok(s) => s,
            Err(e) => return Err(e),
        };
        Ok(RelaySettings { tls_port, api_port, cert_path, key_path })
    }
}

/// The relay's configuration.
pub struct Config {
    pub tls_port: u16,
    pub api_port: u16,
    pub tls_config: Arc<ServerConfig>,
    pub tls_key_path: String,
    pub tls_cert_path: String,
    pub client_key_timeout: Duration,
    pub expired_connection_clean_interval: Duration,
    pub waiting_connection_expiry: Duration,
    pub paired_connection_expiry: Duration,
}

impl Clone for Config {
    /// The same configuration.
    fn clone(&self) -> (r: Self)
        ensures
            r == *self,
    {
        Config {
            tls_port: self.tls_port,
            api_port: self.api_port,
            tls_config: self.tls_config.clone(),
            tls_key_path: self.tls_key_path.clone(),
            tls_cert_path: self.tls_cert_path.clone(),
            client_key_timeout: self.client_key_timeout,
            expired_connection_clean_interval: self.expired_connection_clean_interval,
            waiting_connection_expiry: self.waiting_connection_expiry,
            paired_connection_expiry: self.paired_connection_expiry,
        }
    }
}

/// What came of reading a file.
pub enum FileRead {
    /// What the file holds.
    Contents(Vec<u8>),
    /// It could not be opened.
    NotOpened,
    /// It was opened and could not be read to its end.
    NotRead,
}

/// The certificates in a file that was read.
pub open spec fn cert_chain(file: FileRead) -> Result<Seq<Seq<u8>>, ConfigError> {
    match file {
        FileRead::NotOpened => Err(ConfigError::CertFile),
        FileRead::NotRead => Err(ConfigError::CertParse),
        FileRead::Contents(pem) => match pem_certificates(pem@) {
            None => Err(ConfigError::CertParse),
            Some(chain) => Ok(chain),
        },
    }
}

/// The private key in a file that was read.
pub open spec fn private_key(file: FileRead) -> Result<(KeyEncoding, Seq<u8>), ConfigError> {
    match file {
        FileRead::Contents(pem) => match pem_private_key(pem@) {
            None => Err(ConfigError::KeyParse),
            Some(key) => Ok(key),
        },
        _ => Err(ConfigError::KeyParse),
    }
}

/// The chain of a file is its certificates, one for one and in the order of the file. A file with a
/// fault in it, or that cannot be read, has none.
pub proof fn law_chain_in_file_order(pem: Vec<u8>, i: int)
    ensures
        cert_chain(FileRead::Contents(pem)) matches Ok(chain) ==> chain.len() == pem_items(
            pem@,
        ).len() && (0 <= i < chain.len() ==> pem_items(pem@)[i] == Some(chain[i])),
        (forall|k: int|
            0 <= k < pem_items(pem@).len() ==> (#[trigger] pem_items(pem@)[k]) is Some)
            <==> cert_chain(FileRead::Contents(pem)) is Ok,
        cert_chain(FileRead::Contents(pem)) is Err ==> cert_chain(FileRead::Contents(pem)) == Err::<
            Seq<Seq<u8>>,
            ConfigError,
        >(ConfigError::CertParse),
        cert_chain(FileRead::NotOpened) == Err::<Seq<Seq<u8>>, ConfigError>(ConfigError::CertFile),
        cert_chain(FileRead::NotRead) == Err::<Seq<Seq<u8>>, ConfigError>(ConfigError::CertParse),
{
    law_certificates_in_file_order(pem@, i);
}

/// The key of a file is the first in it, as it is. A file without one, or that cannot be read, has
/// none.
pub proof fn law_key_is_that_of_the_file(pem: Vec<u8>)
    ensures
        match pem_private_key(pem@) {
            Some(key) => private_key(FileRead::Contents(pem)) == Ok::<
                (KeyEncoding, Seq<u8>),
                ConfigError,
            >(key),
            None => private_key(FileRead::Contents(pem)) == Err::<
                (KeyEncoding, Seq<u8>),
                ConfigError,
            >(ConfigError::KeyParse),
        },
        private_key(FileRead::NotOpened) == Err::<(KeyEncoding, Seq<u8>), ConfigError>(
            ConfigError::KeyParse,
        ),
        private_key(FileRead::NotRead) == Err::<(KeyEncoding, Seq<u8>), ConfigError>(
            ConfigError::KeyParse,
        ),
{
}

/// The TLS library was handed `chain` and the key, and refused them with `error`.
pub closed spec fn refused_by_tls(
    chain: Seq<Seq<u8>>,
    encoding: KeyEncoding,
    der: Seq<u8>,
    error: rustls::Error,
) -> bool {
    exists|list: Vec<Vec<u8>>, key: PrivateKey, tls: Result<Arc<ServerConfig>, rustls::Error>| #[trigger]
        call_ensures(build_server_config, (list, key), tls) && list_bytes(list@) == chain
            && key.encoding == encoding && key.der@ == der && tls == Err::<
            Arc<ServerConfig>,
            rustls::Error,
        >(error)
}

impl Config {
    /// The configuration has the settings `s`, and the time limits that the relay always has.
    pub open spec fn is_of(&self, s: SettingsText) -> bool {
        &&& self.tls_port == s.tls_port
        &&& self.api_port == s.api_port
        &&& self.tls_cert_path@ == s.cert_path
        &&& self.tls_key_path@ == s.key_path
        &&& self.client_key_timeout == duration_of_millis(3_000)
        &&& self.expired_connection_clean_interval == duration_of_millis(60_000)
        &&& self.waiting_connection_expiry == duration_of_millis(3_600_000)
        &&& self.paired_connection_expiry == duration_of_millis(36_000_000)
    }

    /// The configuration with these settings and this end of TLS, if there is one.
    pub fn with_tls(settings: RelaySettings, tls_config: Result<Arc<ServerConfig>, rustls::Error>) -> (r:
        Result<Config, ConfigError>)
        ensures
            match tls_config {
                Ok(tls) => r matches Ok(c) && c.is_of(settings.text()) && c.tls_config == tls,
                Err(e) => r == Err::<Config, ConfigError>(ConfigError::Tls(e)),
            },
    {
        let tls_config = match tls_config {
            Ok(tls) => tls,
            Err(e) => return Err(ConfigError::Tls(e)),
        };
        Ok(
            Config {
                tls_port: settings.tls_port,
                api_port: settings.api_port,
                tls_config,
                tls_cert_path: settings.cert_path,
                tls_key_path: settings.key_path,
                client_key_timeout: Duration::from_millis(DEFAULT_CLIENT_KEY_TIMEOUT_MS),
                expired_connection_clean_interval: Duration::from_millis(
                    DEFAULT_CLEAN_EXPIRED_CONNECTION_INTERVAL_MS,
                ),
                waiting_connection_expiry: Duration::from_millis(
                    DEFAULT_WAITING_CONNECTION_EXPIRY_MS,
                ),
                paired_connection_expiry: Duration::from_millis(
                    DEFAULT_CONNECTED_CONNECTION_EXPIRY_MS,
                ),
            },
        )
    }

    /// The certificates in a file that was read.
    pub fn parse_tls_cert(file: FileRead) -> (r: Result<Vec<Vec<u8>>, ConfigError>)
        ensures
            match r {
                Ok(list) => cert_chain(file) == Ok::<Seq<Seq<u8>>, ConfigError>(list_bytes(list@)),
                Err(e) => {
                    &&& cert_chain(file) == Err::<Seq<Seq<u8>>, ConfigError>(e)
                    &&& file is NotOpened ==> e.text() is None
                    &&& file !is NotOpened ==> e.text() == Some("failed to parse tls cert file"@)
                },
            },
            file matches FileRead::Contents(pem) ==> match r {
                Ok(list) => list@.len() == pem_items(pem@).len() && forall|i: int|
                    0 <= i < list@.len() ==> #[trigger] pem_items(pem@)[i] == Some(list@[i]@),
                Err(_) => exists|i: int|
                    0 <= i < pem_items(pem@).len() && (#[trigger] pem_items(pem@)[i]) is None,
            },
    {
        match file {
            FileRead::NotOpened => Err(ConfigError::CertFile),
            FileRead::NotRead => Err(ConfigError::CertParse),
            FileRead::Contents(pem) => match read_certificates(pem.as_slice()) {
                Some(list) => Ok(list),
                None => Err(ConfigError::CertParse),
            },
        }
    }

    /// The private key in a file that was read.
    pub fn parse_tls_private_key(file: FileRead) -> (r: Result<PrivateKey, ConfigError>)
        ensures
            match r {
                Ok(key) => private_key(file) == Ok::<(KeyEncoding, Seq<u8>), ConfigError>(
                    (key.encoding, key.der@),
                ),
                Err(e) => {
                    &&& private_key(file) == Err::<(KeyEncoding, Seq<u8>), ConfigError>(e)
                    &&& e.text() == Some("failed to parse tls private key file"@)
                },
            },
            r matches Ok(key) ==> (file matches FileRead::Contents(pem) && pem_private_key(pem@)
                == Some((key.encoding, key.der@))),
    {
        match file {
            FileRead::Contents(pem) => match read_private_key(pem.as_slice()) {
                Ok(key) => Ok(key),
                Err(_) => Err(ConfigError::KeyParse),
            },
            _ => Err(ConfigError::KeyParse),
        }
    }

    /// The configuration that the environment gives: what it holds of the relay's variables, and
    /// what came of reading the two files that they name. Where the files hold certificates and a
    /// key, only the TLS library refuses them.
    pub fn from_env(vars: RelayVars, cert_file: FileRead, key_file: FileRead) -> (r: Result<
        Config,
        ConfigError,
    >)
        ensures
            match settings_of(vars) {
                Err(e) => r == Err::<Config, ConfigError>(e),
                Ok(settings) => match cert_chain(cert_file) {
                    Err(e) => r == Err::<Config, ConfigError>(e),
                    Ok(chain) => match private_key(key_file) {
                        Err(e) => r == Err::<Config, ConfigError>(e),
                        Ok((encoding, der)) => match r {
                            Ok(c) => {
                                &&& c.is_of(settings)
                                &&& chain.len() > 0
                                &&& identity_accepted(chain, encoding, der)
                                &&& presents(c.tls_config, chain, encoding, der)
                            },
                            Err(e) => {
                                &&& e matches ConfigError::Tls(error)
                                &&& refused_by_tls(chain, encoding, der, error)
                                &&& !identity_accepted(chain, encoding, der) || draws_random(
                                    encoding,
                                    der,
                                )
                                &&& encoding is Pkcs1 ==> !identity_accepted(chain, encoding, der)
                            },
                        },
                    },
                },
            },
            r matches Ok(c) ==> {
                &&& vars.tls_port matches EnvValue::Value(tls)
                &&& vars.api_port matches EnvValue::Value(api)
                &&& vars.cert_path matches EnvValue::Value(cert)
                &&& vars.key_path matches EnvValue::Value(key)
                &&& number(tls@, 65535) == Some(c.tls_port as int)
                &&& number(api@, 65535) == Some(c.api_port as int)
                &&& c.tls_cert_path@ == cert@
                &&& c.tls_key_path@ == key@
                &&& c.client_key_timeout == duration_of_millis(3_000)
                &&& c.expired_connection_clean_interval == duration_of_millis(60_000)
                &&& c.waiting_connection_expiry == duration_of_millis(3_600_000)
                &&& c.paired_connection_expiry == duration_of_millis(36_000_000)
                &&& cert_file matches FileRead::Contents(cert_pem)
                &&& key_file matches FileRead::Contents(key_pem)
                &&& pem_private_key(key_pem@) matches Some(k)
                &&& exists|chain: Seq<Seq<u8>>|
                    {
                        &&& #[trigger] presents(c.tls_config, chain, k.0, k.1)
                        &&& chain.len() == pem_items(cert_pem@).len()
                        &&& forall|i: int|
                            0 <= i < chain.len() ==> #[trigger] pem_items(cert_pem@)[i] == Some(
                                chain[i],
                            )
                    }
            },
    {
        let settings = match RelaySettings::from_vars(vars) {
            Ok(s) => s,
            Err(e) => return Err(e),
        };
        let chain = match Config::parse_tls_cert(cert_file) {
            Ok(list) => list,
            Err(e) => return Err(e),
        };
        proof {
            law_settings_are_the_variables(vars);
            if cert_file is Contents {
                let pem = cert_file->Contents_0;
                let all = list_bytes(chain@);
                assert forall|i: int| 0 <= i < all.len() implies #[trigger] pem_items(pem@)[i]
                    == Some(all[i]) by {
                    law_chain_in_file_order(pem, i);
                }
            }
        }
        let key = match Config::parse_tls_private_key(key_file) {
            Ok(key) => key,
            Err(e) => return Err(e),
        };
        Config::with_tls(settings, build_server_config(chain, key))
    }
}

/// There is no configuration without all of the relay's variables.
pub proof fn law_every_variable_needed(vars: RelayVars)
    ensures
        settings_of(vars) is Ok ==> vars.tls_port is Value && vars.api_port is Value
            && vars.cert_path is Value && vars.key_path is Value,
{
}

/// A port that was written out in base ten is read back as it was.
pub proof fn law_port_read_back(port: u16, text: String, var: RelayVar)
    requires
        text@ == decimal(port as nat),
    ensures
        var_port(EnvValue::Value(text), var) == Ok::<u16, ConfigError>(port),
{
    law_decimal_read_back(port as nat, u16::MAX as nat);
}

} // verus!
