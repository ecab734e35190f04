use std::time::Duration;
use tunshell::relay::{
    Config, ConfigError, EnvValue, FileRead, RelaySettings, RelayVar, RelayVars,
};
use tunshell::text::NumberFault;
use tunshell::tls::KeyEncoding;

const CERT: &str = "\
-----BEGIN CERTIFICATE-----
MIIBYTCCAROgAwIBAgIUPP9eRVhAUcdOoUvmIobLylp34H8wBQYDK2VwMBgxFjAU
BgNVBAMMDXJlbGF5LmV4YW1wbGUwIBcNMjYxMTE1MTM1ODQzWhgPMjEyNjEwMjIx
MzU4NDNaMBgxFjAUBgNVBAMMDXJlbGF5LmV4YW1wbGUwKjAFBgMrZXADIQCKiOPd
dAnxlf1S2y08ul1yymcJvx2UEhvzdIgBtA9vXKNtMGswHQYDVR0OBBYEFJrRng8W
7vcUy5DG8ZXbzmbpRYD5MB8GA1UdIwQYMBaAFJrRng8W7vcUy5DG8ZXbzmbpRYD5
MA8GA1UdEwEB/wQFMAMBAf8wGAYDVR0RBBEwD4INcmVsYXkuZXhhbXBsZTAFBgMr
ZXADQQBep8sHsZ0+JgZurYQr+6BC9az/hx5k3YbxKwkLx0cDpeDT8Ixpu8PcrGjc
3UNXvTA4aPt4SiKv9+qkWu32/iMC
-----END CERTIFICATE-----
";

fn base64_digit(n: u8) -> char {
    char::from(match n {
        0..=25 => b'A' + n,
        26..=51 => b'a' + (n - 26),
        52..=61 => b'0' + (n - 52),
        62 => b'+',
        _ => b'/',
    })
}

fn pem(label: &str, der: &[u8]) -> String {
    let mut body = String::new();
    for group in der.chunks(3) {
        let bits = group.iter().fold(0u32, |n, b| (n << 8) | u32::from(*b)) << (8 * (3 - group.len()));
        for place in 0..4usize {
            if place <= group.len() {
                body.push(base64_digit(((bits >> (18 - 6 * place)) & 63) as u8));
            } else {
                body.push('=');
            }
        }
    }
    format!("-----BEGIN {}-----\n{}\n-----END {}-----\n", label, body, label)
}

/// The Ed25519 key whose seed is one byte over and over, in PKCS #8. `CERT` is that of byte 1.
fn key_der(seed: u8) -> Vec<u8> {
    let mut der = vec![0x30, 0x2e, 2, 1, 0, 0x30, 5, 6, 3, 0x2b, 0x65, 0x70, 4, 0x22, 4, 0x20];
    der.extend([seed; 32]);
    der
}

fn key() -> String {
    pem("PRIVATE KEY", &key_der(1))
}

fn other_key() -> String {
    pem("PRIVATE KEY", &key_der(2))
}

fn value(text: &str) -> EnvValue {
    EnvValue::Value(text.to_string())
}

fn vars(tls: &str, api: &str) -> RelayVars {
    RelayVars {
        tls_port: value(tls),
        api_port: value(api),
        cert_path: value("certs/development.cert"),
        key_path: value("certs/development.key"),
    }
}

fn file(text: &str) -> FileRead {
    FileRead::Contents(text.as_bytes().to_vec())
}

fn no_file() -> FileRead {
    FileRead::NotOpened
}

fn is_tls(e: ConfigError) -> bool {
    matches!(e, ConfigError::Tls(_))
}

fn error(r: Result<Config, ConfigError>) -> ConfigError {
    match r {
        Ok(_) => panic!("a configuration was made"),
        Err(e) => e,
    }
}

#[test]
fn test_config_from_env() {
    let missing = RelayVars {
        tls_port: EnvValue::NotPresent,
        api_port: EnvValue::NotPresent,
        cert_path: EnvValue::NotPresent,
        key_path: EnvValue::NotPresent,
    };
    assert!(Config::from_env(missing, no_file(), no_file()).is_err());

    let config = match Config::from_env(vars("1234", "1235"), file(CERT), file(&key())) {
        Ok(config) => config,
        Err(e) => panic!("{:?}", e),
    };

    assert_eq!(config.tls_port, 1234);
    assert_eq!(config.api_port, 1235);
}

#[test]
fn configuration_holds_paths_and_time_limits() {
    let config = match Config::from_env(vars("+443", "0080"), file(CERT), file(&key())) {
        Ok(config) => config.clone(),
        Err(e) => panic!("{:?}", e),
    };
    assert_eq!(config.tls_port, 443);
    assert_eq!(config.api_port, 80);
    assert_eq!(config.tls_cert_path, "certs/development.cert");
    assert_eq!(config.tls_key_path, "certs/development.key");
    assert_eq!(config.client_key_timeout, Duration::from_millis(3_000));
    assert_eq!(config.expired_connection_clean_interval, Duration::from_millis(60_000));
    assert_eq!(config.waiting_connection_expiry, Duration::from_secs(3_600));
    assert_eq!(config.paired_connection_expiry, Duration::from_secs(36_000));
}

#[test]
fn ports_are_read_as_the_standard_library_reads_them() {
    let texts = [
        "", "+", "-", "0", "+0", "-0", "1", "00001", "65535", "65536", "065535", "99999999999999999999",
        " 1", "1 ", "1_000", "0x10", "12a", "a", "++1", "+-1", "\u{0661}", "655350",
    ];
    for text in texts {
        let std: Option<u16> = text.parse::<u16>().ok();
        match RelaySettings::from_vars(vars(text, "1")) {
            Ok(s) => assert_eq!(Some(s.tls_port), std, "{}", text),
            Err(e) => {
                assert_eq!(None, std, "{}", text);
                assert!(matches!(e, ConfigError::InvalidPort(RelayVar::TlsPort, _)));
                assert_eq!(e.message(), text.parse::<u16>().err().map(|e| e.to_string()));
            }
        }
    }
}

#[test]
fn every_port_is_read_back() {
    for port in 0..=65535u16 {
        match RelaySettings::from_vars(vars("1", &port.to_string())) {
            Ok(s) => assert_eq!(s.api_port, port),
            Err(e) => panic!("{:?}", e),
        }
    }
}

#[test]
fn faults_are_told_in_order() {
    let mut v = vars("x", "y");
    assert_eq!(error(Config::from_env(v, no_file(), no_file())), ConfigError::InvalidPort(RelayVar::TlsPort, NumberFault::InvalidDigit));
    v = vars("1", "y");
    assert_eq!(error(Config::from_env(v, no_file(), no_file())), ConfigError::InvalidPort(RelayVar::ApiPort, NumberFault::InvalidDigit));
    v = vars("1", "2");
    v.api_port = EnvValue::NotUnicode("\"\\xFF\"".to_string());
    v.cert_path = EnvValue::NotPresent;
    assert_eq!(error(Config::from_env(v, no_file(), no_file())), ConfigError::NotUnicode(RelayVar::ApiPort, "\"\\xFF\"".to_string()));
    v = vars("1", "2");
    v.cert_path = EnvValue::NotPresent;
    v.key_path = EnvValue::NotPresent;
    assert_eq!(error(Config::from_env(v, no_file(), no_file())), ConfigError::NotPresent(RelayVar::CertPath));
    v = vars("1", "2");
    v.key_path = EnvValue::NotPresent;
    assert_eq!(error(Config::from_env(v, no_file(), no_file())), ConfigError::NotPresent(RelayVar::KeyPath));
    assert_eq!(error(Config::from_env(vars("1", "2"), no_file(), no_file())), ConfigError::CertFile);
    assert_eq!(
        error(Config::from_env(vars("1", "2"), FileRead::NotRead, no_file())),
        ConfigError::CertParse
    );
    assert_eq!(
        error(Config::from_env(vars("1", "2"), file(CERT), FileRead::NotRead)),
        ConfigError::KeyParse
    );
    let cut = "-----BEGIN CERTIFICATE-----\nAAAA\n";
    assert_eq!(error(Config::from_env(vars("1", "2"), file(cut), no_file())), ConfigError::CertParse);
    assert_eq!(error(Config::from_env(vars("1", "2"), file(CERT), no_file())), ConfigError::KeyParse);
    assert_eq!(error(Config::from_env(vars("1", "2"), file(CERT), file(CERT))), ConfigError::KeyParse);
    assert!(is_tls(error(Config::from_env(vars("1", "2"), file(CERT), file(&other_key())))));
    assert!(is_tls(error(Config::from_env(vars("1", "2"), file(""), file(&key())))));
}

#[test]
fn key_in_pkcs1_that_cannot_be_used_is_refused() {
    let key = pem("RSA PRIVATE KEY", &key_der(1));
    assert!(is_tls(error(Config::from_env(vars("1", "2"), file(CERT), file(&key)))));
}

#[test]
fn faults_have_their_texts() {
    let v = RelayVar::ApiPort;
    let message = |e: ConfigError| e.message().unwrap_or_default();
    assert_eq!(message(ConfigError::NotPresent(v)), "environment variable not found");
    assert_eq!(
        message(ConfigError::NotUnicode(v, "\"\\xFF\"".to_string())),
        "environment variable was not valid unicode: \"\\xFF\""
    );
    assert_eq!(
        message(ConfigError::InvalidPort(v, NumberFault::TooLarge)),
        "number too large to fit in target type"
    );
    assert_eq!(message(ConfigError::CertParse), "failed to parse tls cert file");
    assert_eq!(message(ConfigError::KeyParse), "failed to parse tls private key file");
    assert_eq!(ConfigError::CertFile.message(), None);
    let refused = error(Config::from_env(vars("1", "2"), file(""), file(&key())));
    assert_eq!(refused.message(), None);
    match refused {
        ConfigError::Tls(e) => assert_eq!(e.to_string(), "peer sent no certificates"),
        e => panic!("{:?}", e),
    }
}

#[test]
fn certificates_are_read_in_order() {
    let two = format!("noise\n{}{}{}", CERT, key(), CERT);
    let list = match Config::parse_tls_cert(file(&two)) {
        Ok(list) => list,
        Err(e) => panic!("{:?}", e),
    };
    assert_eq!(list.len(), 2);
    assert_eq!(list[0], list[1]);
    assert_eq!(list[0].len(), 357);
    assert_eq!(&list[0][..4], &[0x30, 0x82, 0x01, 0x61]);
    assert_eq!(Config::parse_tls_cert(file("")).map(|l| l.len()), Ok(0));
    let faulty = format!("{}-----BEGIN CERTIFICATE-----\n*\n-----END CERTIFICATE-----\n{}", CERT, CERT);
    assert_eq!(Config::parse_tls_cert(file(&faulty)), Err(ConfigError::CertParse));
}

#[test]
fn first_private_key_is_read() {
    let labels = [
        ("RSA PRIVATE KEY", KeyEncoding::Pkcs1),
        ("EC PRIVATE KEY", KeyEncoding::Sec1),
        ("PRIVATE KEY", KeyEncoding::Pkcs8),
    ];
    for (label, encoding) in labels {
        let several = format!("{}{}{}", CERT, pem(label, &[48, 3, 2, 1, 7]), key());
        match Config::parse_tls_private_key(file(&several)) {
            Ok(key) => {
                assert_eq!(key.encoding, encoding);
                assert_eq!(key.der, vec![48, 3, 2, 1, 7]);
            }
            Err(e) => panic!("{:?}", e),
        }
    }
    match Config::parse_tls_private_key(file(&key())) {
        Ok(key) => {
            assert_eq!(key.encoding, KeyEncoding::Pkcs8);
            assert_eq!(key.der, key_der(1));
        }
        Err(e) => panic!("{:?}", e),
    }
}

#[test]
fn variables_have_their_names() {
    assert_eq!(RelayVar::TlsPort.name(), "TUNSHELL_RELAY_TLS_PORT");
    assert_eq!(RelayVar::ApiPort.name(), "TUNSHELL_API_PORT");
    assert_eq!(RelayVar::CertPath.name(), "TLS_RELAY_CERT");
    assert_eq!(RelayVar::KeyPath.name(), "TLS_RELAY_PRIVATE_KEY");
}
