//! What the windows and the tray icon show, and what they ask for.

use std::collections::HashMap;

use vstd::prelude::*;

use crate::proxy::config;
use crate::proxy::config::{CliArgs, ConfigFile, ProxyConfig};
use crate::proxy::hexadecimal;
use crate::proxy::hexadecimal::hex_encode;
use crate::proxy::text;
use crate::proxy::text::{chars_of, decimal_text, join_texts, parse_number, text_of};
use crate::utils::update_check::UpdateInfo;

verus! {

/// What the windows show.
#[derive(Debug)]
pub struct GuiState {
    pub window_open: bool,
    pub settings_open: bool,
    pub wizard_open: bool,
    pub update_available: Option<String>,
    pub link_host: String,
    pub link_port: u16,
    pub link_secret: String,
    pub link_domain_hex: String,
    pub log_path: Option<String>,
    pub config_path: String,
}

impl Default for GuiState {
    fn default() -> (state: Self)
        ensures
            !state.window_open,
            !state.settings_open,
            !state.wizard_open,
            state.update_available is None,
            state.link_host@.len() == 0,
            state.link_port == 0,
            state.link_secret@.len() == 0,
            state.link_domain_hex@.len() == 0,
            state.log_path is None,
            state.config_path@.len() == 0,
    {
        GuiState {
            window_open: false,
            settings_open: false,
            wizard_open: false,
            update_available: None,
            link_host: String::new(),
            link_port: 0,
            link_secret: String::new(),
            link_domain_hex: String::new(),
            log_path: None,
            config_path: String::new(),
        }
    }
}

/// The link that sets a client up: with a Fake TLS domain, in hexadecimal, or without one.
pub open spec fn link(
    host: Seq<char>,
    port: u16,
    secret: Seq<char>,
    domain_hex: Seq<char>,
) -> Seq<char> {
    "tg://proxy?server="@ + host + "&port="@ + text::decimal(port as nat) + (if domain_hex.len()
        == 0 {
        "&secret=dd"@ + secret
    } else {
        "&secret=ee"@ + secret + domain_hex
    })
}

/// Writes the link that sets a client up.
pub fn proxy_link(host: &str, port: u16, secret: &str, domain_hex: &str) -> (out: String)
    ensures
        out@ == link(host@, port, secret@, domain_hex@),
{
    let mut out = "tg://proxy?server=".to_owned();
    out.append(host);
    out.append("&port=");
    out.append(decimal_text(port as u64).as_str());
    if domain_hex.is_empty() {
        out.append("&secret=dd");
        out.append(secret);
    } else {
        out.append("&secret=ee");
        out.append(secret);
        out.append(domain_hex);
    }
    assert(out@ =~= link(host@, port, secret@, domain_hex@));
    out
}

/// The link that the windows show.
pub fn link_text(state: &GuiState) -> (out: String)
    ensures
        out@ == link(
            state.link_host@,
            state.link_port,
            state.link_secret@,
            state.link_domain_hex@,
        ),
{
    proxy_link(
        state.link_host.as_str(),
        state.link_port,
        state.link_secret.as_str(),
        state.link_domain_hex.as_str(),
    )
}

/// What the windows show at the start: the link's fields come from the settings, and the wizard
/// is open on the first run.
pub fn initial_state(
    config: &ProxyConfig,
    link_host: Option<String>,
    config_path: String,
    first_run: bool,
) -> (state: GuiState)
    ensures
        !state.window_open,
        !state.settings_open,
        state.wizard_open == first_run,
        state.update_available is None,
        state.link_host@ == match link_host {
            Some(h) => h@,
            None => Seq::empty(),
        },
        state.link_port == config.port,
        state.link_secret@ == config.secret@,
        state.link_domain_hex@ == hexadecimal::hex_text(
            vstd::utf8::encode_utf8(config.fake_tls_domain@),
        ),
        text::text_option(state.log_path) == text::text_option(config.log_file),
        state.config_path == config_path,
{
    let host: String = match link_host {
        Some(h) => h,
        None => String::new(),
    };
    let log_path: Option<String> = match &config.log_file {
        Some(path) => Some(path.clone()),
        None => None,
    };
    GuiState {
        window_open: false,
        settings_open: false,
        wizard_open: first_run,
        update_available: None,
        link_host: host,
        link_port: config.port,
        link_secret: config.secret.clone(),
        link_domain_hex: hex_encode(config.fake_tls_domain.as_str().as_bytes()),
        log_path,
        config_path,
    }
}

/// An entry of the tray icon's menu.
#[derive(Debug, Clone, Copy, PartialEq, Eq, Structural)]
pub enum TrayItem {
    Open,
    Settings,
    OpenInTelegram,
    CopyLink,
    OpenLogs,
    Restart,
    CheckForUpdates,
    Quit,
}

/// What an entry of the tray icon's menu asks for.
#[derive(Debug)]
pub enum TrayAction {
    /// Show the window.
    ShowWindow,
    /// Open this address in the browser.
    OpenUrl(String),
    /// Put this text on the clipboard.
    Copy(String),
    /// Start the proxy anew with this configuration file.
    Restart(String),
    /// Ask whether there is a newer release.
    CheckForUpdates,
    /// Take the icon away.
    Quit,
    /// Nothing is to be done.
    Nothing,
}

/// A path with `/` in place of each `\`.
pub open spec fn forward_slashes(path: Seq<char>) -> Seq<char> {
    path.map_values(
        |c: char|
            if c == '\\' {
                '/'
            } else {
                c
            },
    )
}

fn with_forward_slashes(path: &str) -> (out: String)
    ensures
        out@ == forward_slashes(path@),
{
    let chars = chars_of(path);
    let mut out: Vec<char> = Vec::new();
    let mut i: usize = 0;
    while i < chars.len()
        invariant
            chars@ == path@,
            i <= chars@.len(),
            out@ =~= forward_slashes(path@).take(i as int),
        decreases chars@.len() - i,
    {
        if chars[i] == '\\' {
            out.push('/');
        } else {
            out.push(chars[i]);
        }
        i = i + 1;
    }
    assert(out@ =~= forward_slashes(path@));
    text_of(out)
}

/// Decides what an entry of the tray icon's menu asks for.
pub fn choose_tray_item(state: &mut GuiState, item: TrayItem) -> (action: TrayAction)
    ensures
        *final(state) == match item {
            TrayItem::Open => GuiState { window_open: true, ..*old(state) },
            TrayItem::Settings => GuiState { settings_open: true, ..*old(state) },
            _ => *old(state),
        },
        ({
            let shown = link(
                old(state).link_host@,
                old(state).link_port,
                old(state).link_secret@,
                old(state).link_domain_hex@,
            );
            match item {
                TrayItem::Open => action is ShowWindow,
                TrayItem::Settings => action is ShowWindow,
                TrayItem::OpenInTelegram => action matches TrayAction::OpenUrl(url) && url@
                    == shown,
                TrayItem::CopyLink => action matches TrayAction::Copy(s) && s@ == shown,
                TrayItem::OpenLogs => match old(state).log_path {
                    Some(path) => {
                        &&& action matches TrayAction::OpenUrl(url)
                        &&& url@ == "file://"@ + forward_slashes(path@)
                    },
                    None => action is Nothing,
                },
                TrayItem::Restart => action matches TrayAction::Restart(path) && path@ == old(
                    state,
                ).config_path@,
                TrayItem::CheckForUpdates => action is CheckForUpdates,
                TrayItem::Quit => action is Quit,
            }
        }),
{
    match item {
        TrayItem::Open => {
            state.window_open = true;
            TrayAction::ShowWindow
        },
        TrayItem::Settings => {
            state.settings_open = true;
            TrayAction::ShowWindow
        },
        TrayItem::OpenInTelegram => TrayAction::OpenUrl(link_text(state)),
        TrayItem::CopyLink => TrayAction::Copy(link_text(state)),
        TrayItem::OpenLogs => match &state.log_path {
            Some(path) => {
                let mut url = "file://".to_owned();
                url.append(with_forward_slashes(path.as_str()).as_str());
                TrayAction::OpenUrl(url)
            },
            None => TrayAction::Nothing,
        },
        TrayItem::Restart => TrayAction::Restart(state.config_path.clone()),
        TrayItem::CheckForUpdates => TrayAction::CheckForUpdates,
        TrayItem::Quit => TrayAction::Quit,
    }
}

/// Notes a newer release.
pub fn note_update(state: &mut GuiState, info: UpdateInfo)
    ensures
        *final(state) == if info.has_update {
            GuiState { update_available: Some(info.latest), ..*old(state) }
        } else {
            *old(state)
        },
{
    if info.has_update {
        state.update_available = Some(info.latest);
    }
}

/// The settings as the settings window shows them: numbers as they are typed in.
#[derive(Debug)]
pub struct SettingsState {
    pub host: String,
    pub port: String,
    pub secret: String,
    pub fake_tls_domain: String,
    pub proxy_protocol: bool,
    pub no_cfproxy: bool,
    pub pool_size: String,
    pub buf_kb: String,
    pub cfproxy_domain: String,
    pub cfproxy_worker_domain: String,
    pub dc_entries: Vec<(String, String)>,
    pub log_file: String,
    pub log_max_mb: String,
    pub log_backups: String,
    pub autostart: bool,
}

/// The data centres' addresses as the settings window shows them.
pub open spec fn entry_views(entries: Seq<(String, String)>) -> Seq<(Seq<char>, Seq<char>)> {
    entries.map_values(|e: (String, String)| (e.0@, e.1@))
}

/// The data centres' addresses, their numbers in decimal.
pub open spec fn shown_redirects(redirects: Seq<(u32, String)>) -> Seq<(Seq<char>, Seq<char>)> {
    redirects.map_values(|e: (u32, String)| (text::decimal(e.0 as nat), e.1@))
}

/// The data centres' addresses that the settings window's entries name: an entry without a
/// number or without an address is left out, and a later one for the same number replaces an
/// earlier one.
pub open spec fn typed_redirects(entries: Seq<(Seq<char>, Seq<char>)>) -> Map<u32, Seq<char>>
    decreases entries.len(),
{
    if entries.len() == 0 {
        Map::empty()
    } else {
        let before = typed_redirects(entries.drop_last());
        let (dc, ip) = entries.last();
        match text::parsed_number(dc, 0xffff_ffff) {
            Some(n) => if ip.len() > 0 {
                before.insert(n as u32, ip)
            } else {
                before
            },
            None => before,
        }
    }
}

/// A list of data centres' addresses as a map: a later one for the same number replaces an
/// earlier one.
pub open spec fn redirect_map(redirects: Seq<(u32, String)>) -> Map<u32, Seq<char>>
    decreases redirects.len(),
{
    if redirects.len() == 0 {
        Map::empty()
    } else {
        let (dc, ip) = redirects.last();
        redirect_map(redirects.drop_last()).insert(dc, ip@)
    }
}

/// The data centres' addresses that the settings window shows are read back as they were.
pub proof fn law_redirects_read_back(redirects: Seq<(u32, String)>)
    requires
        forall|i: int| 0 <= i < redirects.len() ==> (#[trigger] redirects[i]).1@.len() > 0,
    ensures
        typed_redirects(shown_redirects(redirects)) == redirect_map(redirects),
    decreases redirects.len(),
{
    if redirects.len() > 0 {
        let before = redirects.drop_last();
        let last = redirects[redirects.len() - 1];
        assert forall|i: int| 0 <= i < before.len() implies (#[trigger] before[i]).1@.len() > 0 by {
            assert(before[i] == redirects[i]);
        }
        law_redirects_read_back(before);
        assert(shown_redirects(redirects).drop_last() =~= shown_redirects(before));
        assert(shown_redirects(redirects).last() == (text::decimal(last.0 as nat), last.1@));
        text::law_decimal_read_back(last.0 as nat, 0xffff_ffff);
    }
}

/// The numbers that the settings window shows are read back as they were.
pub proof fn law_numbers_read_back(n: nat, max: nat)
    requires
        n <= max,
    ensures
        typed_number(text::decimal(n), max) == Some(n as int),
{
    text::law_decimal_read_back(n, max);
}

/// A number as it was typed in, none if it is no number or too large.
pub open spec fn typed_number(s: Seq<char>, max: nat) -> Option<int> {
    match text::parsed_number(s, max) {
        Some(n) => Some(n as int),
        None => None,
    }
}

/// A list with one text, none if the text is empty.
pub open spec fn one_text(list: Option<Vec<String>>, s: Seq<char>) -> bool {
    if s.len() == 0 {
        list is None
    } else {
        list matches Some(texts) && text::text_views(texts@) == seq![s]
    }
}

fn listed(s: &String) -> (list: Option<Vec<String>>)
    ensures
        one_text(list, s@),
{
    if s.as_str().is_empty() {
        None
    } else {
        let mut texts: Vec<String> = Vec::new();
        texts.push(s.clone());
        assert(text::text_views(texts@) =~= seq![s@]);
        Some(texts)
    }
}

fn typed_usize(s: &str) -> (out: Option<usize>)
    ensures
        stored_number(out) == typed_number(s@, usize::MAX as nat),
{
    match parse_number(s, usize::MAX as u64) {
        Some(n) => Some(n as usize),
        None => None,
    }
}

/// A number as it stands in the configuration file.
pub open spec fn stored_number(n: Option<usize>) -> Option<int> {
    match n {
        Some(v) => Some(v as int),
        None => None,
    }
}

impl SettingsState {
    /// The settings window shows these settings, with the data centres' addresses in this order.
    pub open spec fn shows(&self, config: ProxyConfig, redirects: Seq<(u32, String)>) -> bool {
        &&& self.host@ == config.host@
        &&& self.port@ == text::decimal(config.port as nat)
        &&& self.secret@ == config.secret@
        &&& self.fake_tls_domain@ == config.fake_tls_domain@
        &&& self.proxy_protocol == config.proxy_protocol
        &&& self.no_cfproxy == !config.fallback_cfproxy
        &&& self.pool_size@ == text::decimal(config.pool_size as nat)
        &&& self.buf_kb@ == text::decimal((config.buffer_size / 1024) as nat)
        &&& self.cfproxy_domain@ == text::joined(
            text::text_views(config.cfproxy_user_domains@),
            ", "@,
        )
        &&& self.cfproxy_worker_domain@ == text::joined(
            text::text_views(config.cfproxy_worker_domains@),
            ", "@,
        )
        &&& entry_views(self.dc_entries@) == shown_redirects(redirects)
        &&& self.log_file@ == match config.log_file {
            Some(path) => path@,
            None => Seq::empty(),
        }
        &&& self.log_max_mb@ == text::decimal(config.log_max_mb as nat)
        &&& self.log_backups@ == text::decimal(config.log_backups as nat)
        &&& self.autostart == config.autostart
    }

    /// This configuration file holds the settings window's fields: a number that is none is left
    /// out, and so are a log file, domains and addresses of which there are none.
    pub open spec fn saved_as(&self, file: ConfigFile) -> bool {
        let typed = typed_redirects(entry_views(self.dc_entries@));
        &&& text::text_option(file.host) == Some(self.host@)
        &&& (match file.port {
            Some(p) => Some(p as int),
            None => None,
        }) == typed_number(self.port@, 65535)
        &&& text::text_option(file.secret) == Some(self.secret@)
        &&& text::text_option(file.fake_tls_domain) == Some(self.fake_tls_domain@)
        &&& file.proxy_protocol == Some(self.proxy_protocol)
        &&& file.no_cfproxy == Some(self.no_cfproxy)
        &&& stored_number(file.pool_size) == typed_number(self.pool_size@, usize::MAX as nat)
        &&& stored_number(file.buf_kb) == typed_number(self.buf_kb@, usize::MAX as nat)
        &&& one_text(file.cfproxy_domain, self.cfproxy_domain@)
        &&& one_text(file.cfproxy_worker_domain, self.cfproxy_worker_domain@)
        &&& match file.dc_ip {
            Some(map) => text::text_map(map@) == typed && !typed.dom().is_empty(),
            None => typed.dom().is_empty(),
        }
        &&& text::text_option(file.log_file) == if self.log_file@.len() == 0 {
            None
        } else {
            Some(self.log_file@)
        }
        &&& (match file.log_max_mb {
            Some(n) => Some(n as int),
            None => None,
        }) == typed_number(self.log_max_mb@, u64::MAX as nat)
        &&& stored_number(file.log_backups) == typed_number(self.log_backups@, usize::MAX as nat)
        &&& file.autostart == Some(self.autostart)
    }

    /// The settings window's fields for the settings that the proxy runs with. `redirects` holds
    /// the data centres' addresses in the order in which they are to be shown.
    pub fn from_config(config: &ProxyConfig, redirects: &Vec<(u32, String)>) -> (s: Self)
        ensures
            s.shows(*config, redirects@),
    {
        let mut dc_entries: Vec<(String, String)> = Vec::new();
        let mut i: usize = 0;
        while i < redirects.len()
            invariant
                i <= redirects@.len(),
                entry_views(dc_entries@) =~= shown_redirects(redirects@).take(i as int),
            decreases redirects@.len() - i,
        {
            let ghost before = entry_views(dc_entries@);
            let entry = (decimal_text(redirects[i].0 as u64), redirects[i].1.clone());
            let ghost shown = (entry.0@, entry.1@);
            dc_entries.push(entry);
            assert(entry_views(dc_entries@) =~= before.push(shown));
            assert(shown_redirects(redirects@).take(i + 1) =~= shown_redirects(redirects@).take(
                i as int,
            ).push(shown));
            i = i + 1;
        }
        assert(shown_redirects(redirects@).take(i as int) =~= shown_redirects(redirects@));
        let log_file: String = match &config.log_file {
            Some(path) => path.clone(),
            None => String::new(),
        };
        SettingsState {
            host: config.host.clone(),
            port: decimal_text(config.port as u64),
            secret: config.secret.clone(),
            fake_tls_domain: config.fake_tls_domain.clone(),
            proxy_protocol: config.proxy_protocol,
            no_cfproxy: !config.fallback_cfproxy,
            pool_size: decimal_text(config.pool_size as u64),
            buf_kb: decimal_text((config.buffer_size / 1024) as u64),
            cfproxy_domain: join_texts(&config.cfproxy_user_domains, ", "),
            cfproxy_worker_domain: join_texts(&config.cfproxy_worker_domains, ", "),
            dc_entries,
            log_file,
            log_max_mb: decimal_text(config.log_max_mb),
            log_backups: decimal_text(config.log_backups as u64),
            autostart: config.autostart,
        }
    }

    fn redirects(&self) -> (map: HashMap<u32, String>)
        ensures
            text::text_map(map@) == typed_redirects(entry_views(self.dc_entries@)),
    {
        let ghost all = entry_views(self.dc_entries@);
        let mut map: HashMap<u32, String> = HashMap::new();
        let mut i: usize = 0;
        assert(text::text_map(map@) =~= typed_redirects(all.take(0)));
        while i < self.dc_entries.len()
            invariant
                i <= self.dc_entries@.len(),
                all == entry_views(self.dc_entries@),
                text::text_map(map@) == typed_redirects(all.take(i as int)),
            decreases self.dc_entries@.len() - i,
        {
            let ghost before = map@;
            proof {
                assert(all.take(i + 1).drop_last() =~= all.take(i as int));
                assert(all.take(i + 1).last() == all[i as int]);
            }
            match parse_number(self.dc_entries[i].0.as_str(), 0xffff_ffff) {
                Some(dc) => {
                    if !self.dc_entries[i].1.as_str().is_empty() {
                        let ip = self.dc_entries[i].1.clone();
                        let ghost shown = ip@;
                        map.insert(dc as u32, ip);
                        assert(text::text_map(map@) =~= text::text_map(before).insert(
                            dc as u32,
                            shown,
                        ));
                    }
                },
                None => {},
            }
            i = i + 1;
        }
        assert(all.take(i as int) =~= all);
        map
    }

    /// The configuration file that the settings window's fields give.
    pub fn build_config_file(&self) -> (file: ConfigFile)
        ensures
            self.saved_as(file),
    {
        let map = self.redirects();
        let ghost typed = typed_redirects(entry_views(self.dc_entries@));
        proof {
            assert(map@.dom() =~= typed.dom());
        }
        let dc_ip: Option<HashMap<u32, String>> = if map.is_empty() {
            None
        } else {
            Some(map)
        };
        let port: Option<u16> = match parse_number(self.port.as_str(), 65535) {
            Some(p) => Some(p as u16),
            None => None,
        };
        let log_file: Option<String> = if self.log_file.as_str().is_empty() {
            None
        } else {
            Some(self.log_file.clone())
        };
        ConfigFile {
            host: Some(self.host.clone()),
            port,
            secret: Some(self.secret.clone()),
            fake_tls_domain: Some(self.fake_tls_domain.clone()),
            proxy_protocol: Some(self.proxy_protocol),
            no_cfproxy: Some(self.no_cfproxy),
            pool_size: typed_usize(self.pool_size.as_str()),
            buf_kb: typed_usize(self.buf_kb.as_str()),
            cfproxy_domain: listed(&self.cfproxy_domain),
            cfproxy_worker_domain: listed(&self.cfproxy_worker_domain),
            dc_ip,
            log_file,
            log_max_mb: parse_number(self.log_max_mb.as_str(), u64::MAX),
            log_backups: typed_usize(self.log_backups.as_str()),
            autostart: Some(self.autostart),
        }
    }
}

/// A command line that leaves everything to the configuration file.
pub open spec fn is_bare(args: CliArgs) -> bool {
    &&& args.port == 1443
    &&& args.host@ == "127.0.0.1"@
    &&& args.secret is None
    &&& args.dc_ip@.len() == 0
    &&& args.log_file is None
    &&& args.buf_kb == 256
    &&& args.pool_size == 4
    &&& args.cfproxy_domain@.len() == 0
    &&& args.cfproxy_worker_domain@.len() == 0
    &&& !args.no_cfproxy
    &&& args.fake_tls_domain@.len() == 0
    &&& !args.proxy_protocol
    &&& !args.autostart
}

/// Domains that are saved in one line and read again come back as they were.
proof fn lemma_saved_domains(list: Seq<Seq<char>>, args: Seq<String>, file: Option<Vec<String>>)
    requires
        config::is_plain_list(list),
        args.len() == 0,
        one_text(file, text::joined(list, ", "@)),
    ensures
        config::chosen_domains(args, file) == list,
{
    config::law_domain_list_reads_back(list);
    if text::joined(list, ", "@).len() == 0 {
        config::lemma_plain_line_empty(list);
        assert(list =~= Seq::<Seq<char>>::empty());
    }
}

/// Settings that are shown, saved without a change and read again come back as they were: all
/// but the size and the number of the log files, which only the command line sets. Cloudflare
/// domains come back if they are read as they are written.
pub proof fn law_saved_settings_come_back(
    config: ProxyConfig,
    redirects: Seq<(u32, String)>,
    shown: SettingsState,
    file: ConfigFile,
    args: CliArgs,
    made_up: Seq<char>,
    again: ProxyConfig,
)
    requires
        shown.shows(config, redirects),
        shown.saved_as(file),
        is_bare(args),
        redirects.len() > 0,
        forall|i: int| 0 <= i < redirects.len() ==> (#[trigger] redirects[i]).1@.len() > 0,
        config.buffer_size >= 4096,
        config.buffer_size % 1024 == 0,
        config.log_file matches Some(path) ==> path@.len() > 0,
        config::is_outcome(Ok(again), args, file, made_up),
    ensures
        again.port == config.port,
        again.host@ == config.host@,
        again.secret@ == config.secret@,
        text::text_map(again.dc_redirects@) == redirect_map(redirects),
        again.buffer_size == config.buffer_size,
        again.pool_size == config.pool_size,
        again.fallback_cfproxy == config.fallback_cfproxy,
        again.fake_tls_domain@ == config.fake_tls_domain@,
        again.proxy_protocol == config.proxy_protocol,
        text::text_option(again.log_file) == text::text_option(config.log_file),
        again.autostart == config.autostart,
        ({
            let user = text::text_views(config.cfproxy_user_domains@);
            config::is_plain_list(user) ==> text::text_views(again.cfproxy_user_domains@) == user
        }),
        ({
            let workers = text::text_views(config.cfproxy_worker_domains@);
            config::is_plain_list(workers) ==> text::text_views(again.cfproxy_worker_domains@)
                == workers
        }),
{
    law_redirects_read_back(redirects);
    law_numbers_read_back(config.port as nat, 65535);
    law_numbers_read_back(config.pool_size as nat, usize::MAX as nat);
    law_numbers_read_back((config.buffer_size / 1024) as nat, usize::MAX as nat);
    assert(redirect_map(redirects).dom().contains(redirects.last().0));
    assert(again.fake_tls_domain@ =~= config.fake_tls_domain@);
    let user = text::text_views(config.cfproxy_user_domains@);
    if config::is_plain_list(user) {
        lemma_saved_domains(user, args.cfproxy_domain@, file.cfproxy_domain);
    }
    let workers = text::text_views(config.cfproxy_worker_domains@);
    if config::is_plain_list(workers) {
        lemma_saved_domains(workers, args.cfproxy_worker_domain@, file.cfproxy_worker_domain);
    }
}

/// The link: the host, the port in decimal, and the secret behind `dd`, or behind `ee` and before
/// the domain where there is one.
pub proof fn law_link(host: Seq<char>, port: u16, secret: Seq<char>, domain_hex: Seq<char>)
    ensures
        domain_hex.len() == 0 ==> link(host, port, secret, domain_hex) == "tg://proxy?server="@
            + host + "&port="@ + text::decimal(port as nat) + ("&secret=dd"@ + secret),
        domain_hex.len() > 0 ==> link(host, port, secret, domain_hex) == "tg://proxy?server="@
            + host + "&port="@ + text::decimal(port as nat) + ("&secret=ee"@ + secret + domain_hex),
{
}

/// A path keeps all its characters but the backslashes, each of which becomes a slash.
pub proof fn law_forward_slashes(path: Seq<char>, i: int)
    requires
        0 <= i < path.len(),
    ensures
        forward_slashes(path).len() == path.len(),
        path[i] == '\\' ==> forward_slashes(path)[i] == '/',
        path[i] != '\\' ==> forward_slashes(path)[i] == path[i],
{
}

/// An entry of the settings window with a number up to 4294967295 and an address adds that address,
/// in place of an earlier one for the same number; any other entry adds nothing.
pub proof fn law_typed_redirects(
    entries: Seq<(Seq<char>, Seq<char>)>,
    dc: Seq<char>,
    ip: Seq<char>,
)
    ensures
        typed_redirects(Seq::empty()) == Map::<u32, Seq<char>>::empty(),
        ({
            let number = text::parsed_number(dc, 4294967295);
            typed_redirects(entries.push((dc, ip))) == if number is Some && ip.len() > 0 {
                typed_redirects(entries).insert(number->0 as u32, ip)
            } else {
                typed_redirects(entries)
            }
        }),
{
    assert(entries.push((dc, ip)).drop_last() =~= entries);
}

/// The window shows each setting in its own field: texts as they are, numbers in decimal, the
/// buffer in KB, domains in one line with `, ` between them, data centres one by one.
pub proof fn law_window_shows(
    shown: SettingsState,
    config: ProxyConfig,
    redirects: Seq<(u32, String)>,
)
    requires
        shown.shows(config, redirects),
    ensures
        shown.host@ == config.host@,
        shown.port@ == text::decimal(config.port as nat),
        shown.secret@ == config.secret@,
        shown.fake_tls_domain@ == config.fake_tls_domain@,
        shown.proxy_protocol == config.proxy_protocol,
        shown.no_cfproxy != config.fallback_cfproxy,
        shown.pool_size@ == text::decimal(config.pool_size as nat),
        shown.buf_kb@ == text::decimal((config.buffer_size / 1024) as nat),
        shown.cfproxy_domain@ == text::joined(
            text::text_views(config.cfproxy_user_domains@),
            ", "@,
        ),
        shown.cfproxy_worker_domain@ == text::joined(
            text::text_views(config.cfproxy_worker_domains@),
            ", "@,
        ),
        shown.dc_entries@.len() == redirects.len(),
        forall|i: int|
            0 <= i < redirects.len() ==> (#[trigger] shown.dc_entries@[i]).0@ == text::decimal(
                redirects[i].0 as nat,
            ) && shown.dc_entries@[i].1@ == redirects[i].1@,
        config.log_file matches Some(path) ==> shown.log_file@ == path@,
        config.log_file is None ==> shown.log_file@.len() == 0,
        shown.log_max_mb@ == text::decimal(config.log_max_mb as nat),
        shown.log_backups@ == text::decimal(config.log_backups as nat),
        shown.autostart == config.autostart,
{
    let views = entry_views(shown.dc_entries@);
    assert(views.len() == shown_redirects(redirects).len());
    assert forall|i: int| 0 <= i < redirects.len() implies (#[trigger] shown.dc_entries@[i]).0@
        == text::decimal(redirects[i].0 as nat) && shown.dc_entries@[i].1@ == redirects[i].1@ by {
        assert(views[i] == shown_redirects(redirects)[i]);
    }
}

/// The file that is saved holds each field of the window in its own place: flags and texts as they
/// are, numbers as they were typed in if they are numbers that fit, a log file, domains and
/// addresses if there are any.
pub proof fn law_window_saved(shown: SettingsState, file: ConfigFile)
    requires
        shown.saved_as(file),
    ensures
        file.host matches Some(host) && host@ == shown.host@,
        file.secret matches Some(secret) && secret@ == shown.secret@,
        file.fake_tls_domain matches Some(domain) && domain@ == shown.fake_tls_domain@,
        file.proxy_protocol == Some(shown.proxy_protocol),
        file.no_cfproxy == Some(shown.no_cfproxy),
        file.autostart == Some(shown.autostart),
        match text::parsed_number(shown.port@, 65535) {
            Some(n) => file.port matches Some(p) && p == n,
            None => file.port is None,
        },
        match text::parsed_number(shown.pool_size@, usize::MAX as nat) {
            Some(n) => file.pool_size matches Some(p) && p == n,
            None => file.pool_size is None,
        },
        match text::parsed_number(shown.buf_kb@, usize::MAX as nat) {
            Some(n) => file.buf_kb matches Some(p) && p == n,
            None => file.buf_kb is None,
        },
        match text::parsed_number(shown.log_max_mb@, u64::MAX as nat) {
            Some(n) => file.log_max_mb matches Some(p) && p == n,
            None => file.log_max_mb is None,
        },
        match text::parsed_number(shown.log_backups@, usize::MAX as nat) {
            Some(n) => file.log_backups matches Some(p) && p == n,
            None => file.log_backups is None,
        },
        shown.cfproxy_domain@.len() == 0 ==> file.cfproxy_domain is None,
        shown.cfproxy_domain@.len() > 0 ==> (file.cfproxy_domain matches Some(list) && list@.len()
            == 1 && list@[0]@ == shown.cfproxy_domain@),
        shown.cfproxy_worker_domain@.len() == 0 ==> file.cfproxy_worker_domain is None,
        shown.cfproxy_worker_domain@.len() > 0 ==> (file.cfproxy_worker_domain matches Some(list)
            && list@.len() == 1 && list@[0]@ == shown.cfproxy_worker_domain@),
        shown.log_file@.len() == 0 ==> file.log_file is None,
        shown.log_file@.len() > 0 ==> (file.log_file matches Some(path) && path@
            == shown.log_file@),
        ({
            let typed = typed_redirects(entry_views(shown.dc_entries@));
            match file.dc_ip {
                Some(map) => text::text_map(map@) == typed && exists|dc: u32|
                    typed.contains_key(dc),
                None => forall|dc: u32| !typed.contains_key(dc),
            }
        }),
{
    if shown.cfproxy_domain@.len() > 0 {
        let list = file.cfproxy_domain->0@;
        assert(text::text_views(list).len() == 1);
        assert(text::text_views(list)[0] == list[0]@);
    }
    if shown.cfproxy_worker_domain@.len() > 0 {
        let list = file.cfproxy_worker_domain->0@;
        assert(text::text_views(list).len() == 1);
        assert(text::text_views(list)[0] == list[0]@);
    }
    let typed = typed_redirects(entry_views(shown.dc_entries@));
    if file.dc_ip is Some {
        let dc = typed.dom().choose();
        assert(typed.dom().contains(dc));
        assert(typed.contains_key(dc));
    }
}

} // verus!
