use media_api::config::EnvVars;
use media_api::MediaApiConfig;

fn no_vars() -> EnvVars {
    EnvVars {
        tls_cert_base64: None,
        tls_key_base64: None,
        port: None,
        raw_tcp_port: None,
        enable_raw_tcp: None,
        raw_tcp_tls: None,
        default_output_sample_rate: None,
        default_output_bits: None,
        default_output_channels: None,
    }
}

#[test]
fn defaults_hold_without_variables() {
    let config = MediaApiConfig::from_env(&no_vars());
    assert_eq!(config.server.cert_pem_base64, "");
    assert_eq!(config.server.privkey_pem_base64, "");
    assert_eq!(config.server.port, 8443);
    assert_eq!(config.server.raw_tcp_port, 9000);
    assert!(config.server.enable_h2);
    assert!(config.server.enable_h3);
    assert!(!config.server.enable_webtransport);
    assert!(config.server.enable_websocket);
    assert!(!config.server.enable_raw_tcp);
    assert!(!config.server.raw_tcp_tls);
    assert_eq!(config.default_output_sample_rate, None);
    assert_eq!(config.default_output_bits, None);
    assert_eq!(config.default_output_channels, None);
}

#[test]
fn variables_are_taken_over() {
    let config = MediaApiConfig::from_env(&EnvVars {
        tls_cert_base64: Some("Y2VydA==".to_string()),
        tls_key_base64: Some("a2V5".to_string()),
        port: Some("443".to_string()),
        raw_tcp_port: Some("65535".to_string()),
        enable_raw_tcp: Some("1".to_string()),
        raw_tcp_tls: Some("True".to_string()),
        default_output_sample_rate: Some("16000".to_string()),
        default_output_bits: Some("16".to_string()),
        default_output_channels: Some("1".to_string()),
    });
    assert_eq!(config.server.cert_pem_base64, "Y2VydA==");
    assert_eq!(config.server.privkey_pem_base64, "a2V5");
    assert_eq!(config.server.port, 443);
    assert_eq!(config.server.raw_tcp_port, 65535);
    assert!(config.server.enable_raw_tcp);
    assert!(config.server.raw_tcp_tls);
    assert_eq!(config.default_output_sample_rate, Some(16000));
    assert_eq!(config.default_output_bits, Some(16));
    assert_eq!(config.default_output_channels, Some(1));
}

#[test]
fn unusable_variables_count_as_missing() {
    let config = MediaApiConfig::from_env(&EnvVars {
        port: Some("65536".to_string()),
        raw_tcp_port: Some("".to_string()),
        enable_raw_tcp: Some("yes".to_string()),
        default_output_bits: Some("256".to_string()),
        default_output_channels: Some("two".to_string()),
        ..no_vars()
    });
    assert_eq!(config.server.port, 8443);
    assert_eq!(config.server.raw_tcp_port, 9000);
    assert!(!config.server.enable_raw_tcp);
    assert_eq!(config.default_output_bits, None);
    assert_eq!(config.default_output_channels, None);
}
