use std::collections::HashMap;
use tg_ws_proxy::proxy::config::{
    buffer_kb, coerce_domain_list, parse_dc_ip_list, resolve_config, resolve_config_with, CliArgs,
    ConfigFile, ProxyConfig, SettingsError,
};

fn texts(list: &[&str]) -> Vec<String> {
    list.iter().map(|s| s.to_string()).collect()
}

fn args() -> CliArgs {
    CliArgs {
        port: 1443,
        host: "127.0.0.1".to_string(),
        secret: None,
        dc_ip: Vec::new(),
        log_file: None,
        log_max_mb: 5,
        log_backups: 0,
        buf_kb: 256,
        pool_size: 4,
        cfproxy_domain: Vec::new(),
        cfproxy_worker_domain: Vec::new(),
        no_cfproxy: false,
        fake_tls_domain: String::new(),
        proxy_protocol: false,
        autostart: false,
    }
}

#[test]
fn data_centres_are_read_with_their_addresses() {
    let map = parse_dc_ip_list(&texts(&["2:1.2.3.4", "+4:5.6.7.8:9", "2:a.b"])).unwrap();
    assert_eq!(
        map,
        HashMap::from([(2u32, "a.b".to_string()), (4, "5.6.7.8:9".to_string())])
    );
    assert!(parse_dc_ip_list(&[]).unwrap().is_empty());
}

#[test]
fn the_first_bad_entry_decides_the_error() {
    let error = |list: &[&str]| parse_dc_ip_list(&texts(list)).unwrap_err();
    assert_eq!(
        error(&["2:1.2.3.4", "a\"b\n", "x:y"]),
        "Invalid --dc-ip format \"a\\\"b\\n\", expected DC:IP"
    );
    assert_eq!(error(&["x:1.2.3.4"]), "Invalid DC number: x");
    assert_eq!(error(&[":1.2.3.4"]), "Invalid DC number: ");
    assert_eq!(error(&["4294967296:1.2"]), "Invalid DC number: 4294967296");
    assert_eq!(error(&["-1:1.2"]), "Invalid DC number: -1");
    assert_eq!(error(&["2:localhost"]), "Invalid IP: localhost");
    assert_eq!(
        parse_dc_ip_list(&texts(&["4294967295:."])).unwrap().get(&4294967295).unwrap(),
        "."
    );
}

#[test]
fn domains_are_split_trimmed_lowered_and_kept_once() {
    assert_eq!(coerce_domain_list(None), Vec::<String>::new());
    let list = texts(&["A.com, b.com;\tc.COM\t a.com", "", " ; ,", "B.com d.com"]);
    assert_eq!(
        coerce_domain_list(Some(&list)),
        texts(&["a.com", "b.com", "c.com", "d.com"])
    );
    assert_eq!(
        coerce_domain_list(Some(&texts(&["\u{2003}ÄÖ.DE\u{2003}"]))),
        texts(&["äö.de"])
    );
}

#[test]
fn domains_read_back_as_they_were_read() {
    let read = coerce_domain_list(Some(&texts(&["A.com;b.com", " c.com, a.com"])));
    assert_eq!(read, texts(&["a.com", "b.com", "c.com"]));
    assert_eq!(coerce_domain_list(Some(&read)), read);
    assert_eq!(coerce_domain_list(Some(&[read.join(", ")])), read);
    let read = coerce_domain_list(Some(&texts(&["\u{130}.COM, GR.ΟΔΟΣ\t;STRAẞE.de"])));
    assert_eq!(read, texts(&["i\u{307}.com", "gr.οδος", "straße.de"]));
    assert_eq!(coerce_domain_list(Some(&read)), read);
    assert_eq!(coerce_domain_list(Some(&[read.join(", ")])), read);
    assert_eq!(coerce_domain_list(Some(&[String::new()])), Vec::<String>::new());
}

#[test]
fn the_defaults() {
    let config = ProxyConfig::default();
    assert_eq!((config.port, config.host.as_str()), (1443, "127.0.0.1"));
    assert_eq!(config.secret.len(), 32);
    assert_eq!(config.secret_bytes().unwrap().len(), 16);
    assert_ne!(config.secret, ProxyConfig::default().secret);
    assert_eq!(config.dc_redirects.len(), 2);
    assert_eq!(config.dc_redirects[&2], "149.154.167.220");
    assert_eq!(config.dc_redirects[&4], "149.154.167.220");
    assert_eq!((config.buffer_size, config.pool_size), (262144, 4));
    assert!(config.fallback_cfproxy && !config.proxy_protocol && !config.autostart);
    assert!(config.cfproxy_user_domains.is_empty() && config.cfproxy_worker_domains.is_empty());
    assert_eq!(config.fake_tls_domain, "");
    assert_eq!((config.log_file, config.log_max_mb, config.log_backups), (None, 5, 0));
}

#[test]
fn without_anything_the_defaults_hold() {
    let config =
        resolve_config_with(&args(), &ConfigFile::empty(), "made up".to_string()).unwrap();
    assert_eq!((config.port, config.host.as_str()), (1443, "127.0.0.1"));
    assert_eq!(config.secret, "made up");
    assert_eq!(config.dc_redirects.len(), 2);
    assert_eq!((config.buffer_size, config.pool_size), (262144, 4));
    assert!(config.fallback_cfproxy && !config.proxy_protocol && !config.autostart);

    let random = resolve_config(&args(), &ConfigFile::empty()).unwrap();
    assert_eq!(random.secret.len(), 32);
    assert!(random.secret.chars().all(|c| matches!(c, '0'..='9' | 'a'..='f')));
    assert_eq!(random.secret_bytes().unwrap().len(), 16);
    assert_ne!(random.secret, resolve_config(&args(), &ConfigFile::empty()).unwrap().secret);
}

fn file() -> ConfigFile {
    let mut file = ConfigFile::empty();
    file.host = Some("0.0.0.0".to_string());
    file.port = Some(8443);
    file.secret = Some("from the file".to_string());
    file.fake_tls_domain = Some("file.example".to_string());
    file.proxy_protocol = Some(true);
    file.no_cfproxy = Some(true);
    file.pool_size = Some(9);
    file.buf_kb = Some(1);
    file.cfproxy_domain = Some(texts(&["X.com x.com"]));
    file.cfproxy_worker_domain = Some(texts(&["w.dev"]));
    file.dc_ip = Some(HashMap::from([(5u32, "9.9.9.9".to_string())]));
    file.log_file = Some("file.log".to_string());
    file.log_max_mb = Some(77);
    file.log_backups = Some(3);
    file.autostart = Some(true);
    file
}

#[test]
fn the_file_fills_in_what_the_command_line_leaves_out() {
    let config = resolve_config_with(&args(), &file(), String::new()).unwrap();
    assert_eq!((config.port, config.host.as_str()), (8443, "0.0.0.0"));
    assert_eq!(config.secret, "from the file");
    assert_eq!(config.secret_bytes(), None);
    assert_eq!(config.dc_redirects, HashMap::from([(5u32, "9.9.9.9".to_string())]));
    assert_eq!((config.buffer_size, config.pool_size), (4096, 9));
    assert!(!config.fallback_cfproxy && config.proxy_protocol && config.autostart);
    assert_eq!(config.cfproxy_user_domains, texts(&["x.com"]));
    assert_eq!(config.cfproxy_worker_domains, texts(&["w.dev"]));
    assert_eq!(config.fake_tls_domain, "file.example");
    assert_eq!(config.log_file.as_deref(), Some("file.log"));
    assert_eq!((config.log_max_mb, config.log_backups), (5, 0));
}

#[test]
fn the_command_line_comes_first() {
    let mut args = args();
    args.port = 1;
    args.host = "::".to_string();
    args.secret = Some("00112233445566778899AABBCCDDEEFF".to_string());
    args.dc_ip = texts(&["1:1.1.1.1"]);
    args.log_file = Some("cli.log".to_string());
    args.log_max_mb = 6;
    args.log_backups = 2;
    args.buf_kb = 300;
    args.pool_size = 1;
    args.cfproxy_domain = texts(&["c.com"]);
    args.cfproxy_worker_domain = texts(&["d.dev"]);
    args.fake_tls_domain = "cli.example".to_string();
    assert_eq!(buffer_kb(&args, &file()), 300);
    let config = resolve_config_with(&args, &file(), String::new()).unwrap();
    assert_eq!((config.port, config.host.as_str()), (1, "::"));
    assert_eq!(
        config.secret_bytes().unwrap(),
        vec![0x00, 0x11, 0x22, 0x33, 0x44, 0x55, 0x66, 0x77, 0x88, 0x99, 0xaa, 0xbb, 0xcc, 0xdd,
            0xee, 0xff]
    );
    assert_eq!(config.dc_redirects, HashMap::from([(1u32, "1.1.1.1".to_string())]));
    assert_eq!((config.buffer_size, config.pool_size), (300 * 1024, 1));
    assert_eq!(config.cfproxy_user_domains, texts(&["c.com"]));
    assert_eq!(config.cfproxy_worker_domains, texts(&["d.dev"]));
    assert_eq!(config.fake_tls_domain, "cli.example");
    assert_eq!(config.log_file.as_deref(), Some("cli.log"));
    assert_eq!((config.log_max_mb, config.log_backups), (6, 2));
}

fn refused(args: &CliArgs) -> SettingsError {
    resolve_config_with(args, &ConfigFile::empty(), String::new()).unwrap_err()
}

#[test]
fn bad_settings_are_refused() {
    let mut bad = args();
    bad.secret = Some("0011".to_string());
    assert!(matches!(refused(&bad), SettingsError::SecretLength));
    assert_eq!(refused(&bad).message(), "Secret must be exactly 32 hex characters");
    bad.secret = Some("g0112233445566778899aabbccddeeff".to_string());
    assert!(matches!(refused(&bad), SettingsError::SecretNotHex));
    assert_eq!(refused(&bad).message(), "Secret must be valid hex");
    // Sixteen characters of two bytes each have the right length and are still no hexadecimal.
    bad.secret = Some("ä".repeat(16));
    assert!(matches!(refused(&bad), SettingsError::SecretNotHex));
    bad.secret = Some("ä".repeat(32));
    assert!(matches!(refused(&bad), SettingsError::SecretLength));
    bad.dc_ip = texts(&["nothing"]);
    assert_eq!(
        refused(&bad).message(),
        "Invalid --dc-ip format \"nothing\", expected DC:IP"
    );
}
