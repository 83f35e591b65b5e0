use tg_ws_proxy::proxy::config::{resolve_config, CliArgs, ConfigFile, ProxyConfig};
use tg_ws_proxy::ui::{
    choose_tray_item, initial_state, link_text, note_update, proxy_link, GuiState, SettingsState,
    TrayAction, TrayItem,
};
use tg_ws_proxy::utils::update_check::{
    cached_latest, check_for_update, release_info, ReleaseAnswer, UpdateInfo,
};

fn config() -> ProxyConfig {
    let mut config = ProxyConfig::default();
    config.port = 8443;
    config.host = "0.0.0.0".to_string();
    config.secret = "00ff".to_string();
    config.fake_tls_domain = "a.Я".to_string();
    config.log_file = Some("C:\\logs\\proxy.log".to_string());
    config.cfproxy_user_domains = vec!["a.com".to_string(), "b.com".to_string()];
    config
}

#[test]
fn links_carry_the_secret() {
    assert_eq!(
        proxy_link("1.2.3.4", 443, "ab", ""),
        "tg://proxy?server=1.2.3.4&port=443&secret=ddab"
    );
    assert_eq!(
        proxy_link("1.2.3.4", 65535, "ab", "cd"),
        "tg://proxy?server=1.2.3.4&port=65535&secret=eeabcd"
    );
    let state = GuiState::default();
    assert_eq!(link_text(&state), "tg://proxy?server=&port=0&secret=dd");
}

#[test]
fn the_windows_start_with_the_settings() {
    let state = initial_state(&config(), Some("9.9.9.9".into()), "config.toml".into(), true);
    assert!(state.wizard_open && !state.window_open && !state.settings_open);
    assert_eq!(state.link_domain_hex, "612ed0af");
    assert_eq!(
        link_text(&state),
        "tg://proxy?server=9.9.9.9&port=8443&secret=ee00ff612ed0af"
    );
    let mut plain = config();
    plain.fake_tls_domain = String::new();
    let state = initial_state(&plain, None, String::new(), false);
    assert_eq!(link_text(&state), "tg://proxy?server=&port=8443&secret=dd00ff");
}

#[test]
fn menu_entries_ask_for_what_they_say() {
    let mut state = initial_state(&config(), None, "config.toml".into(), false);
    assert!(matches!(choose_tray_item(&mut state, TrayItem::Open), TrayAction::ShowWindow));
    assert!(state.window_open && !state.settings_open);
    assert!(matches!(choose_tray_item(&mut state, TrayItem::Settings), TrayAction::ShowWindow));
    assert!(state.settings_open);
    let link = link_text(&state);
    assert!(matches!(
        choose_tray_item(&mut state, TrayItem::OpenInTelegram),
        TrayAction::OpenUrl(url) if url == link
    ));
    assert!(matches!(
        choose_tray_item(&mut state, TrayItem::CopyLink),
        TrayAction::Copy(text) if text == link
    ));
    assert!(matches!(
        choose_tray_item(&mut state, TrayItem::OpenLogs),
        TrayAction::OpenUrl(url) if url == "file://C:/logs/proxy.log"
    ));
    state.log_path = None;
    assert!(matches!(choose_tray_item(&mut state, TrayItem::OpenLogs), TrayAction::Nothing));
    assert!(matches!(
        choose_tray_item(&mut state, TrayItem::Restart),
        TrayAction::Restart(path) if path == "config.toml"
    ));
    assert!(matches!(
        choose_tray_item(&mut state, TrayItem::CheckForUpdates),
        TrayAction::CheckForUpdates
    ));
    assert!(matches!(choose_tray_item(&mut state, TrayItem::Quit), TrayAction::Quit));
}

#[test]
fn a_newer_release_is_noted() {
    let mut state = GuiState::default();
    let info = |has_update: bool| UpdateInfo {
        has_update,
        latest: "2.0".to_string(),
        html_url: String::new(),
        download_url: None,
    };
    note_update(&mut state, info(false));
    assert_eq!(state.update_available, None);
    note_update(&mut state, info(true));
    assert_eq!(state.update_available.as_deref(), Some("2.0"));
}

#[test]
fn settings_are_shown_and_read_back() {
    let redirects = vec![(2u32, "1.1.1.1".to_string()), (203, "2.2.2.2".to_string())];
    let settings = SettingsState::from_config(&config(), &redirects);
    assert_eq!((settings.port.as_str(), settings.pool_size.as_str()), ("8443", "4"));
    assert_eq!(settings.buf_kb, "256");
    assert_eq!(settings.cfproxy_domain, "a.com, b.com");
    assert_eq!(settings.dc_entries[1], ("203".to_string(), "2.2.2.2".to_string()));
    assert!(!settings.no_cfproxy);

    let file = settings.build_config_file();
    assert_eq!(file.port, Some(8443));
    assert_eq!((file.pool_size, file.buf_kb), (Some(4), Some(256)));
    assert_eq!((file.log_max_mb, file.log_backups), (Some(5), Some(0)));
    assert_eq!(file.host.as_deref(), Some("0.0.0.0"));
    assert_eq!(file.cfproxy_domain, Some(vec!["a.com, b.com".to_string()]));
    assert_eq!(file.cfproxy_worker_domain, None);
    assert_eq!(file.log_file.as_deref(), Some("C:\\logs\\proxy.log"));
    let dc_ip = file.dc_ip.unwrap();
    assert_eq!(dc_ip.len(), 2);
    assert_eq!(dc_ip[&203], "2.2.2.2");
}

#[test]
fn saved_settings_come_back() {
    let mut config = config();
    config.buffer_size = 300 * 1024;
    config.pool_size = 9;
    config.fallback_cfproxy = false;
    config.proxy_protocol = true;
    config.cfproxy_worker_domains = vec!["w.dev".to_string(), "x.dev".to_string()];
    let redirects: Vec<(u32, String)> =
        config.dc_redirects.iter().map(|(dc, ip)| (*dc, ip.clone())).collect();
    let file = SettingsState::from_config(&config, &redirects).build_config_file();
    let bare = CliArgs {
        port: 1443,
        host: "127.0.0.1".to_string(),
        secret: None,
        dc_ip: Vec::new(),
        log_file: None,
        log_max_mb: 5,
        log_backups: 0,
        buf_kb: 256,
        pool_size: 4,
        cfproxy_domain: Vec::new(),
        cfproxy_worker_domain: Vec::new(),
        no_cfproxy: false,
        fake_tls_domain: String::new(),
        proxy_protocol: false,
        autostart: false,
    };
    let again = resolve_config(&bare, &file).unwrap();
    assert_eq!(again.dc_redirects, config.dc_redirects);
    assert_eq!((again.port, &again.host, &again.secret), (8443, &config.host, &config.secret));
    assert_eq!((again.buffer_size, again.pool_size), (300 * 1024, 9));
    assert_eq!(again.cfproxy_user_domains, config.cfproxy_user_domains);
    assert_eq!(again.cfproxy_worker_domains, config.cfproxy_worker_domains);
    assert_eq!(again.fake_tls_domain, config.fake_tls_domain);
    assert_eq!(again.log_file, config.log_file);
    assert!(!again.fallback_cfproxy && again.proxy_protocol && !again.autostart);
}

#[test]
fn what_is_typed_in_wrongly_is_left_out() {
    let mut settings = SettingsState::from_config(&config(), &Vec::new());
    settings.port = "65536".to_string();
    settings.pool_size = "x".to_string();
    settings.buf_kb = "".to_string();
    settings.log_max_mb = "18446744073709551615".to_string();
    settings.log_backups = "-1".to_string();
    settings.log_file = String::new();
    settings.cfproxy_domain = String::new();
    settings.dc_entries = vec![
        ("two".to_string(), "1.1.1.1".to_string()),
        ("4".to_string(), String::new()),
    ];
    let file: ConfigFile = settings.build_config_file();
    assert_eq!((file.port, file.pool_size, file.buf_kb), (None, None, None));
    assert_eq!((file.log_max_mb, file.log_backups), (Some(u64::MAX), None));
    assert_eq!((file.log_file, file.cfproxy_domain), (None, None));
    assert!(file.dc_ip.is_none());
}

#[test]
fn a_release_is_described_in_json() {
    let body = br#"{"tag_name": "vv1.8.0", "html_url": "https://e/r", "assets":
        [{"browser_download_url": "https://e/d"}, {"browser_download_url": "other"}]}"#;
    let info = check_for_update("1.7.2", ReleaseAnswer::Body(body.to_vec())).unwrap();
    assert!(info.has_update);
    assert_eq!((info.latest.as_str(), info.html_url.as_str()), ("1.8.0", "https://e/r"));
    assert_eq!(info.download_url.as_deref(), Some("https://e/d"));
    let same = check_for_update("1.8.0", ReleaseAnswer::Body(body.to_vec())).unwrap();
    assert!(!same.has_update);

    for bare in [&b"{}"[..], b"[1]", br#"{"tag_name": 5, "assets": {"0": {}}}"#] {
        let info = check_for_update("1.7.2", ReleaseAnswer::Body(bare.to_vec())).unwrap();
        assert_eq!((info.latest.as_str(), info.html_url.as_str()), ("unknown", ""));
        assert!(info.has_update && info.download_url.is_none());
    }
    assert!(check_for_update("1.7.2", ReleaseAnswer::Body(b"{".to_vec())).is_none());
    assert!(check_for_update("1.7.2", ReleaseAnswer::Body(Vec::new())).is_none());
}

#[test]
fn the_cache_answers_when_nothing_has_changed() {
    let cached = |text: Option<&str>| {
        let answer = ReleaseAnswer::NotModified(text.map(|s| s.to_string()));
        let info = check_for_update("1.7.2", answer).unwrap();
        (info.has_update, info.latest)
    };
    assert_eq!(cached(Some("1.8.0")), (true, "1.8.0".to_string()));
    assert_eq!(cached(Some("1.7.2")), (false, "1.7.2".to_string()));
    assert_eq!(cached(Some("")), (false, String::new()));
    assert_eq!(cached(None), (false, String::new()));
    assert_eq!(cached_latest(Some("x".to_string())).as_deref(), Some("x"));
    assert_eq!(cached_latest(Some(String::new())), None);
}

#[test]
fn versions_lose_their_leading_v() {
    let info = release_info("1", Some("v1".to_string()), None, None);
    assert!(!info.has_update);
    assert_eq!(info.latest, "1");
    let info = release_info("1", Some("1v".to_string()), None, Some("u".to_string()));
    assert_eq!((info.latest.as_str(), info.download_url.as_deref()), ("1v", Some("u")));
}
