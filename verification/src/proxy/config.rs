//! The proxy's settings: from the command line, from the configuration file, and their defaults.

use std::collections::HashMap;

use vstd::prelude::*;

use crate::proxy::hexadecimal::{hex_decode, hex_encode};
use crate::proxy::random::{random_bytes, random_range};
use crate::proxy::text::{
    chars_between, chars_of, debug_text, parse_number, push_new, same_text, span_end, split_chars,
    text_of, trimmed,
};
use crate::proxy::{hexadecimal, text};

verus! {

/// The settings that the proxy runs with.
#[derive(Debug, Clone)]
pub struct ProxyConfig {
    pub port: u16,
    pub host: String,
    pub secret: String,
    pub dc_redirects: HashMap<u32, String>,
    pub buffer_size: usize,
    pub pool_size: usize,
    pub fallback_cfproxy: bool,
    pub cfproxy_user_domains: Vec<String>,
    pub cfproxy_worker_domains: Vec<String>,
    pub fake_tls_domain: String,
    pub proxy_protocol: bool,
    pub log_file: Option<String>,
    pub log_max_mb: u64,
    pub log_backups: usize,
    pub autostart: bool,
}

/// The data centres that are reached by their own address unless the settings say otherwise.
pub open spec fn default_redirects() -> Map<u32, Seq<char>> {
    Map::<u32, Seq<char>>::empty().insert(2, "149.154.167.220"@).insert(4, "149.154.167.220"@)
}

fn default_redirect_map() -> (map: HashMap<u32, String>)
    ensures
        text::text_map(map@) == default_redirects(),
{
    let mut map: HashMap<u32, String> = HashMap::new();
    map.insert(2, "149.154.167.220".to_owned());
    map.insert(4, "149.154.167.220".to_owned());
    assert(text::text_map(map@) =~= default_redirects());
    map
}

impl Default for ProxyConfig {
    fn default() -> (config: Self)
        ensures
            config.port == 1443,
            config.host@ == "127.0.0.1"@,
            exists|bytes: Seq<u8>|
                bytes.len() == 16 && config.secret@ == #[trigger] hexadecimal::hex_text(bytes),
            text::text_map(config.dc_redirects@) == default_redirects(),
            config.buffer_size == 262144,
            config.pool_size == 4,
            config.fallback_cfproxy,
            config.cfproxy_user_domains@.len() == 0,
            config.cfproxy_worker_domains@.len() == 0,
            config.fake_tls_domain@.len() == 0,
            !config.proxy_protocol,
            config.log_file is None,
            config.log_max_mb == 5,
            config.log_backups == 0,
            !config.autostart,
    {
        ProxyConfig {
            port: 1443,
            host: "127.0.0.1".to_owned(),
            secret: ProxyConfig::random_secret(),
            dc_redirects: default_redirect_map(),
            buffer_size: 262144,
            pool_size: 4,
            fallback_cfproxy: true,
            cfproxy_user_domains: Vec::new(),
            cfproxy_worker_domains: Vec::new(),
            fake_tls_domain: String::new(),
            proxy_protocol: false,
            log_file: None,
            log_max_mb: 5,
            log_backups: 0,
            autostart: false,
        }
    }
}

impl ProxyConfig {
    /// 16 random bytes in hexadecimal.
    fn random_secret() -> (secret: String)
        ensures
            exists|bytes: Seq<u8>|
                bytes.len() == 16 && secret@ == #[trigger] hexadecimal::hex_text(bytes),
    {
        let bytes = random_bytes(16);
        hex_encode(bytes.as_slice())
    }

    /// The secret's bytes, if it is written in hexadecimal.
    pub fn secret_bytes(&self) -> (out: Option<Vec<u8>>)
        ensures
            out is Some <==> hexadecimal::is_hex(self.secret@),
            out matches Some(bytes) ==> bytes@ == hexadecimal::hex_bytes(self.secret@),
    {
        hex_decode(self.secret.as_str())
    }
}

/// What `DC:IP` says: the number of a data centre and its address, or why it says nothing.
pub open spec fn dc_ip_entry(entry: Seq<char>) -> Result<(u32, Seq<char>), Seq<char>> {
    let n = text::span(entry, seq![':']) as int;
    if n >= entry.len() {
        Err("Invalid --dc-ip format "@ + text::debug_quoted(entry) + ", expected DC:IP"@)
    } else {
        let ip = entry.skip(n + 1);
        match text::parsed_number(entry.take(n), 0xffff_ffff) {
            None => Err("Invalid DC number: "@ + entry.take(n)),
            Some(dc) => if ip.contains('.') {
                Ok((dc as u32, ip))
            } else {
                Err("Invalid IP: "@ + ip)
            },
        }
    }
}

/// What a list of `DC:IP` says. A later entry for the same data centre replaces an earlier one;
/// the first entry that says nothing decides the error.
pub open spec fn dc_ip_map(list: Seq<Seq<char>>) -> Result<Map<u32, Seq<char>>, Seq<char>>
    decreases list.len(),
{
    if list.len() == 0 {
        Ok(Map::empty())
    } else {
        match dc_ip_map(list.drop_last()) {
            Err(e) => Err(e),
            Ok(map) => match dc_ip_entry(list.last()) {
                Err(e) => Err(e),
                Ok((dc, ip)) => Ok(map.insert(dc, ip)),
            },
        }
    }
}

/// The result of `dc_ip_entry` in terms of views.
pub open spec fn entry_view(out: Result<(u32, String), String>) -> Result<
    (u32, Seq<char>),
    Seq<char>,
> {
    match out {
        Ok((dc, ip)) => Ok((dc, ip@)),
        Err(e) => Err(e@),
    }
}

/// The result of `parse_dc_ip_list` in terms of views.
pub open spec fn redirects_view(out: Result<HashMap<u32, String>, String>) -> Result<
    Map<u32, Seq<char>>,
    Seq<char>,
> {
    match out {
        Ok(map) => Ok(text::text_map(map@)),
        Err(e) => Err(e@),
    }
}

fn parse_dc_ip(entry: &str) -> (out: Result<(u32, String), String>)
    ensures
        entry_view(out) == dc_ip_entry(entry@),
{
    let chars = chars_of(entry);
    assert(chars@.skip(0) =~= chars@);
    assert([':']@ =~= seq![':']);
    let n = span_end(&chars, 0, [':'].as_slice());
    if n >= chars.len() {
        let mut message = "Invalid --dc-ip format ".to_owned();
        message.append(debug_text(entry).as_str());
        message.append(", expected DC:IP");
        return Err(message);
    }
    assert(chars@.subrange(0, n as int) =~= entry@.take(n as int));
    assert(chars@.subrange(n + 1, chars@.len() as int) =~= entry@.skip(n + 1));
    let number = text_of(chars_between(&chars, 0, n));
    let ip_chars = chars_between(&chars, n + 1, chars.len());
    match parse_number(number.as_str(), 0xffff_ffff) {
        None => {
            let mut message = "Invalid DC number: ".to_owned();
            message.append(number.as_str());
            Err(message)
        },
        Some(dc) => {
            assert(['.']@ =~= seq!['.']);
            assert(ip_chars@.skip(0) =~= ip_chars@);
            let dot = span_end(&ip_chars, 0, ['.'].as_slice());
            proof {
                text::lemma_span_bound(ip_chars@, seq!['.']);
                assert(seq!['.'][0] == '.');
                if dot < ip_chars@.len() {
                    assert(ip_chars@[dot as int] == '.');
                } else if ip_chars@.contains('.') {
                    let i = choose|i: int| 0 <= i < ip_chars@.len() && ip_chars@[i] == '.';
                    assert(seq!['.'].contains(ip_chars@[i]));
                }
            }
            let has_dot: bool = dot < ip_chars.len();
            let ip = text_of(ip_chars);
            if !has_dot {
                let mut message = "Invalid IP: ".to_owned();
                message.append(ip.as_str());
                return Err(message);
            }
            Ok((dc as u32, ip))
        },
    }
}

/// Reads a list of `DC:IP`.
pub fn parse_dc_ip_list(list: &[String]) -> (out: Result<HashMap<u32, String>, String>)
    ensures
        redirects_view(out) == dc_ip_map(text::text_views(list@)),
{
    let mut map: HashMap<u32, String> = HashMap::new();
    let ghost all = text::text_views(list@);
    let mut i: usize = 0;
    assert(text::text_map(map@) =~= Map::<u32, Seq<char>>::empty());
    while i < list.len()
        invariant
            i <= list@.len(),
            all == text::text_views(list@),
            dc_ip_map(all.take(i as int)) == Ok::<Map<u32, Seq<char>>, Seq<char>>(
                text::text_map(map@),
            ),
        decreases list@.len() - i,
    {
        proof {
            assert(all.take(i + 1).drop_last() =~= all.take(i as int));
            assert(all.take(i + 1).last() == list@[i as int]@);
        }
        match parse_dc_ip(list[i].as_str()) {
            Err(message) => {
                proof {
                    lemma_dc_ip_error_stays(all, i + 1);
                }
                return Err(message);
            },
            Ok((dc, ip)) => {
                let ghost before = map@;
                map.insert(dc, ip);
                assert(text::text_map(map@) =~= text::text_map(before).insert(dc, ip@));
            },
        }
        i = i + 1;
    }
    assert(all.take(i as int) =~= all);
    Ok(map)
}

/// What decides the error of a list's beginning decides the error of the list.
proof fn lemma_dc_ip_error_stays(list: Seq<Seq<char>>, n: int)
    requires
        0 <= n <= list.len(),
        dc_ip_map(list.take(n)) is Err,
    ensures
        dc_ip_map(list) == dc_ip_map(list.take(n)),
    decreases list.len() - n,
{
    if n == list.len() {
        assert(list.take(n) =~= list);
    } else {
        assert(list.take(n + 1).drop_last() =~= list.take(n));
        lemma_dc_ip_error_stays(list, n + 1);
    }
}

/// The characters between domains.
pub open spec fn separators() -> Seq<char> {
    seq![',', ';', ' ']
}

/// Texts without the white space at their ends.
pub open spec fn all_trimmed(list: Seq<Seq<char>>) -> Seq<Seq<char>> {
    list.map_values(|s: Seq<char>| text::trim(s))
}

/// Texts in lower case.
pub open spec fn all_lower(list: Seq<Seq<char>>) -> Seq<Seq<char>> {
    list.map_values(|s: Seq<char>| text::lower_case(s))
}

/// What one text holds between commas, semicolons and blanks, without the white space around it:
/// blank pieces are left out.
pub open spec fn words(item: Seq<char>) -> Seq<Seq<char>> {
    text::without_empty(all_trimmed(text::pieces(item, separators())))
}

/// The domains that one text names.
pub open spec fn named_domains(item: Seq<char>) -> Seq<Seq<char>> {
    all_lower(words(item))
}

/// The domains that a list of texts names, with repetitions and empty ones.
pub open spec fn all_named_domains(list: Seq<Seq<char>>) -> Seq<Seq<char>>
    decreases list.len(),
{
    if list.len() == 0 {
        Seq::empty()
    } else {
        all_named_domains(list.drop_last()) + named_domains(list.last())
    }
}

/// The domains that a list of texts names, each once, in the order in which they come first.
pub open spec fn domain_list(list: Seq<Seq<char>>) -> Seq<Seq<char>> {
    text::with_new(Seq::empty(), text::without_empty(all_named_domains(list)))
}

/// Reads lists of domains.
pub fn coerce_domain_list(value: Option<&[String]>) -> (out: Vec<String>)
    ensures
        text::text_views(out@) == match value {
            Some(list) => domain_list(text::text_views(list@)),
            None => Seq::empty(),
        },
{
    let mut result: Vec<String> = Vec::new();
    assert(text::text_views(result@) =~= Seq::<Seq<char>>::empty());
    match value {
        None => result,
        Some(list) => {
            let ghost all = text::text_views(list@);
            let mut i: usize = 0;
            while i < list.len()
                invariant
                    i <= list@.len(),
                    all == text::text_views(list@),
                    text::text_views(result@) == domain_list(all.take(i as int)),
                decreases list@.len() - i,
            {
                let ghost item = all[i as int];
                let ghost before = all_named_domains(all.take(i as int));
                proof {
                    assert(item == list@[i as int]@);
                    assert([',', ';', ' ']@ =~= separators());
                }
                let pieces = split_chars(&chars_of(list[i].as_str()), [',', ';', ' '].as_slice());
                let ghost cut = all_trimmed(text::pieces(item, separators()));
                let mut j: usize = 0;
                assert(before + all_lower(text::without_empty(cut.take(0))) =~= before);
                while j < pieces.len()
                    invariant
                        j <= pieces@.len(),
                        cut == all_trimmed(text::char_views(pieces@)),
                        text::text_views(result@) == text::with_new(
                            Seq::empty(),
                            text::without_empty(
                                before + all_lower(text::without_empty(cut.take(j as int))),
                            ),
                        ),
                    decreases pieces@.len() - j,
                {
                    let ghost kept = text::without_empty(cut.take(j as int));
                    let ghost so_far = before + all_lower(kept);
                    let word = trimmed(&pieces[j]);
                    proof {
                        assert(text::char_views(pieces@)[j as int] == pieces@[j as int]@);
                        assert(cut[j as int] == word@);
                        assert(cut.take(j + 1).drop_last() =~= cut.take(j as int));
                        assert(cut.take(j + 1).last() == word@);
                    }
                    if word.len() > 0 {
                        let ghost word_text = word@;
                        let domain = text_of(word).as_str().to_lowercase();
                        proof {
                            let next = before + all_lower(kept.push(word_text));
                            assert(next.drop_last() =~= so_far);
                            assert(next.last() == domain@);
                            text::lemma_with_new_steps(
                                Seq::empty(),
                                text::without_empty(so_far),
                                domain@,
                            );
                        }
                        if !domain.as_str().is_empty() {
                            push_new(&mut result, domain);
                        }
                    }
                    j = j + 1;
                }
                proof {
                    assert(cut.take(j as int) =~= cut);
                    assert(all.take(i + 1).drop_last() =~= all.take(i as int));
                    assert(all.take(i + 1).last() == item);
                }
                i = i + 1;
            }
            assert(all.take(i as int) =~= all);
            result
        },
    }
}

/// Reading lists of domains gives every domain that they name, none of them empty and none of
/// them twice.
pub proof fn law_domain_list(list: Seq<Seq<char>>)
    ensures
        domain_list(list).no_duplicates(),
        forall|s: Seq<char>| #[trigger]
            domain_list(list).contains(s) <==> all_named_domains(list).contains(s) && s.len() > 0,
{
    text::law_without_empty(all_named_domains(list));
    text::law_with_new(Seq::empty(), text::without_empty(all_named_domains(list)));
}

/// A domain that is read as it is written: in lower case, without white space around it, and
/// without separators.
pub open spec fn is_plain_domain(d: Seq<char>) -> bool {
    &&& d.len() > 0
    &&& text::is_unbroken(d, separators())
    &&& text::trim(d) == d
    &&& text::lower_case(d) == d
}

/// Domains that are read as they are written, none of them twice.
pub open spec fn is_plain_list(list: Seq<Seq<char>>) -> bool {
    &&& list.no_duplicates()
    &&& forall|i: int| 0 <= i < list.len() ==> is_plain_domain(#[trigger] list[i])
}

proof fn lemma_plain_prefix(list: Seq<Seq<char>>)
    requires
        is_plain_list(list),
        list.len() > 0,
    ensures
        is_plain_list(list.drop_last()),
        is_plain_domain(list.last()),
{
    let before = list.drop_last();
    assert(list.last() == list[list.len() - 1]);
    assert forall|i: int, j: int|
        0 <= i < before.len() && 0 <= j < before.len() && i != j implies before[i]
        != before[j] by {
        assert(before[i] == list[i] && before[j] == list[j]);
    }
    assert forall|i: int| 0 <= i < before.len() implies is_plain_domain(#[trigger] before[i]) by {
        assert(before[i] == list[i]);
    }
}

/// A plain domain by itself names itself.
proof fn lemma_plain_word(d: Seq<char>)
    requires
        is_plain_domain(d),
    ensures
        words(d) == seq![d],
        named_domains(d) == seq![d],
{
    text::lemma_pieces_unbroken(d, separators());
    assert(all_trimmed(seq![d]) =~= seq![d]);
    assert forall|i: int| 0 <= i < seq![d].len() implies (#[trigger] seq![d][i]).len() > 0 by {}
    text::lemma_without_empty_all(seq![d]);
    assert(all_lower(seq![d]) =~= seq![d]);
}

/// Plain domains, one in each text, are named one by one.
proof fn lemma_plain_named(list: Seq<Seq<char>>)
    requires
        is_plain_list(list),
    ensures
        all_named_domains(list) == list,
    decreases list.len(),
{
    if list.len() == 0 {
        assert(list =~= Seq::<Seq<char>>::empty());
    } else {
        lemma_plain_prefix(list);
        lemma_plain_named(list.drop_last());
        lemma_plain_word(list.last());
        assert(list.drop_last() + seq![list.last()] =~= list);
    }
}

/// Plain domains in one line, with `, ` between each two of them, are its words.
proof fn lemma_plain_line(list: Seq<Seq<char>>)
    requires
        is_plain_list(list),
    ensures
        words(text::joined(list, ", "@)) == list,
    decreases list.len(),
{
    reveal_strlit(", ");
    let line = text::joined(list, ", "@);
    let stops = separators();
    assert(stops[0] == ',' && stops[2] == ' ');
    let nothing = Seq::<char>::empty();
    if list.len() == 0 {
        text::lemma_pieces_unbroken(line, stops);
        assert(all_trimmed(seq![nothing]) =~= seq![nothing]);
        assert(seq![nothing].drop_last() =~= Seq::<Seq<char>>::empty());
        assert(text::without_empty(seq![nothing].drop_last()).len() == 0);
        assert(list =~= Seq::<Seq<char>>::empty());
    } else if list.len() == 1 {
        lemma_plain_word(list[0]);
        assert(list =~= seq![list[0]]);
    } else {
        let last = list.last();
        lemma_plain_prefix(list);
        lemma_plain_line(list.drop_last());
        let before = text::joined(list.drop_last(), ", "@);
        assert(line =~= (before.push(',') + nothing).push(' ') + last);
        text::lemma_pieces_back(before, ',', nothing, stops);
        text::lemma_pieces_back(before.push(',') + nothing, ' ', last, stops);
        let cut = all_trimmed(text::pieces(before, stops));
        assert(all_trimmed(text::pieces(line, stops)) =~= cut.push(nothing).push(last));
        assert(cut.push(nothing).push(last).drop_last() =~= cut.push(nothing));
        assert(cut.push(nothing).drop_last() =~= cut);
        assert(text::without_empty(cut.push(nothing)) == text::without_empty(cut));
        assert(list.drop_last().push(last) =~= list);
    }
}

/// A list of plain domains reads back as itself, and so does the one line that it makes with
/// `, ` between each two of them.
pub proof fn law_domain_list_reads_back(list: Seq<Seq<char>>)
    ensures
        is_plain_list(list) ==> domain_list(list) == list,
        is_plain_list(list) ==> domain_list(seq![text::joined(list, ", "@)]) == list,
{
    if is_plain_list(list) {
        lemma_plain_named(list);
        lemma_plain_line(list);
        text::lemma_without_empty_all(list);
        text::lemma_with_new_distinct(list);
        let line = text::joined(list, ", "@);
        assert(seq![line].drop_last() =~= Seq::<Seq<char>>::empty());
        assert(all_lower(list) =~= list) by {
            assert forall|i: int| 0 <= i < list.len() implies all_lower(list)[i] == list[i] by {
                assert(is_plain_domain(list[i]));
            }
        }
        assert(all_named_domains(seq![line].drop_last()).len() == 0);
        assert(all_named_domains(seq![line]) =~= list);
    }
}

/// Lower-casing a text a second time changes nothing, and lower-casing it once adds no separator
/// to it and no white space at its ends.
pub open spec fn lowers_cleanly(s: Seq<char>) -> bool {
    let lower = text::lower_case(s);
    &&& text::lower_case(lower) == lower
    &&& text::is_unbroken(s, separators()) ==> text::is_unbroken(lower, separators())
    &&& text::trim(s) == s ==> text::trim(lower) == lower
}

/// Every word of a list of texts lowers cleanly.
pub open spec fn all_lower_cleanly(list: Seq<Seq<char>>) -> bool {
    forall|i: int, j: int|
        0 <= i < list.len() && 0 <= j < words(list[i]).len() ==> lowers_cleanly(
            #[trigger] words(list[i])[j],
        )
}

/// A word holds no separator, and no white space at its ends.
proof fn lemma_word(item: Seq<char>, j: int)
    requires
        0 <= j < words(item).len(),
    ensures
        words(item)[j].len() > 0,
        text::is_unbroken(words(item)[j], separators()),
        text::trim(words(item)[j]) == words(item)[j],
{
    let pieces = text::pieces(item, separators());
    let cut = all_trimmed(pieces);
    let word = words(item)[j];
    text::law_without_empty(cut);
    assert(words(item).contains(word));
    let i = choose|i: int| 0 <= i < cut.len() && cut[i] == word;
    text::lemma_pieces_are_unbroken(item, separators(), i);
    text::lemma_trim_unbroken(pieces[i], separators());
}

/// Every domain that the words of a list name is plain, if it is not empty.
proof fn lemma_named_are_plain(list: Seq<Seq<char>>, k: int)
    requires
        all_lower_cleanly(list),
        0 <= k < all_named_domains(list).len(),
        all_named_domains(list)[k].len() > 0,
    ensures
        is_plain_domain(all_named_domains(list)[k]),
    decreases list.len(),
{
    let before = list.drop_last();
    let earlier = all_named_domains(before);
    let last = list.len() - 1;
    if k < earlier.len() {
        assert forall|i: int, j: int|
            0 <= i < before.len() && 0 <= j < words(before[i]).len() implies lowers_cleanly(
            #[trigger] words(before[i])[j],
        ) by {
            assert(before[i] == list[i]);
            assert(lowers_cleanly(words(list[i])[j]));
        }
        lemma_named_are_plain(before, k);
    } else {
        let j = k - earlier.len();
        lemma_word(list[last], j);
        assert(lowers_cleanly(words(list[last])[j]));
    }
}

/// Whatever is read as a list of domains reads back as itself, and so does the one line that it
/// makes with `, ` between each two of them, if its words lower cleanly.
pub proof fn law_coerced_list_reads_back(list: Seq<Seq<char>>)
    ensures
        all_lower_cleanly(list) ==> {
            let v = domain_list(list);
            &&& is_plain_list(v)
            &&& domain_list(v) == v
            &&& domain_list(seq![text::joined(v, ", "@)]) == v
        },
{
    if all_lower_cleanly(list) {
        let v = domain_list(list);
        law_domain_list(list);
        assert forall|i: int| 0 <= i < v.len() implies is_plain_domain(#[trigger] v[i]) by {
            assert(v.contains(v[i]));
            let named = all_named_domains(list);
            let k = choose|k: int| 0 <= k < named.len() && named[k] == v[i];
            lemma_named_are_plain(list, k);
        }
        law_domain_list_reads_back(v);
    }
}

/// The line that plain domains make is empty only if there are none.
pub proof fn lemma_plain_line_empty(list: Seq<Seq<char>>)
    requires
        is_plain_list(list),
        text::joined(list, ", "@).len() == 0,
    ensures
        list.len() == 0,
{
    if list.len() > 0 {
        lemma_plain_prefix(list);
        assert(list.last() == list[list.len() - 1]);
    }
}

/// The configuration file: what it does not say is none.
#[derive(Debug, Clone)]
pub struct ConfigFile {
    pub host: Option<String>,
    pub port: Option<u16>,
    pub secret: Option<String>,
    pub fake_tls_domain: Option<String>,
    pub proxy_protocol: Option<bool>,
    pub no_cfproxy: Option<bool>,
    pub pool_size: Option<usize>,
    pub buf_kb: Option<usize>,
    pub cfproxy_domain: Option<Vec<String>>,
    pub cfproxy_worker_domain: Option<Vec<String>>,
    pub dc_ip: Option<HashMap<u32, String>>,
    pub log_file: Option<String>,
    pub log_max_mb: Option<u64>,
    pub log_backups: Option<usize>,
    pub autostart: Option<bool>,
}

impl ConfigFile {
    /// A file that says nothing.
    pub fn empty() -> (file: Self)
        ensures
            file == (ConfigFile {
                host: None,
                port: None,
                secret: None,
                fake_tls_domain: None,
                proxy_protocol: None,
                no_cfproxy: None,
                pool_size: None,
                buf_kb: None,
                cfproxy_domain: None,
                cfproxy_worker_domain: None,
                dc_ip: None,
                log_file: None,
                log_max_mb: None,
                log_backups: None,
                autostart: None,
            }),
    {
        ConfigFile {
            host: None,
            port: None,
            secret: None,
            fake_tls_domain: None,
            proxy_protocol: None,
            no_cfproxy: None,
            pool_size: None,
            buf_kb: None,
            cfproxy_domain: None,
            cfproxy_worker_domain: None,
            dc_ip: None,
            log_file: None,
            log_max_mb: None,
            log_backups: None,
            autostart: None,
        }
    }
}

/// The command line, with the defaults filled in.
#[derive(Debug, Clone)]
pub struct CliArgs {
    pub port: u16,
    pub host: String,
    pub secret: Option<String>,
    pub dc_ip: Vec<String>,
    pub log_file: Option<String>,
    pub log_max_mb: u64,
    pub log_backups: usize,
    pub buf_kb: usize,
    pub pool_size: usize,
    pub cfproxy_domain: Vec<String>,
    pub cfproxy_worker_domain: Vec<String>,
    pub no_cfproxy: bool,
    pub fake_tls_domain: String,
    pub proxy_protocol: bool,
    pub autostart: bool,
}

/// Why the settings cannot be used.
#[derive(Debug)]
pub enum SettingsError {
    /// A `DC:IP` on the command line says nothing.
    DcIp(String),
    /// The secret on the command line does not have 32 bytes.
    SecretLength,
    /// The secret on the command line is not hexadecimal.
    SecretNotHex,
}

impl SettingsError {
    /// The error as it is shown.
    pub open spec fn text(self) -> Seq<char> {
        match self {
            SettingsError::DcIp(e) => e@,
            SettingsError::SecretLength => "Secret must be exactly 32 hex characters"@,
            SettingsError::SecretNotHex => "Secret must be valid hex"@,
        }
    }

    /// The error as it is shown.
    pub fn message(&self) -> (out: String)
        ensures
            out@ == self.text(),
    {
        match self {
            SettingsError::DcIp(e) => e.clone(),
            SettingsError::SecretLength => "Secret must be exactly 32 hex characters".to_owned(),
            SettingsError::SecretNotHex => "Secret must be valid hex".to_owned(),
        }
    }
}

/// The data centres that are reached by their own address: those of the command line, else those
/// of the file, else the defaults.
pub open spec fn chosen_redirects(args: CliArgs, file: ConfigFile) -> Result<
    Map<u32, Seq<char>>,
    Seq<char>,
> {
    if args.dc_ip@.len() > 0 {
        dc_ip_map(text::text_views(args.dc_ip@))
    } else {
        match file.dc_ip {
            Some(map) => Ok(text::text_map(map@)),
            None => Ok(default_redirects()),
        }
    }
}

/// The secret: that of the command line, else that of the file, else one made up.
pub open spec fn chosen_secret(args: CliArgs, file: ConfigFile, made_up: Seq<char>) -> Result<
    Seq<char>,
    SettingsError,
> {
    match args.secret {
        Some(s) => if vstd::utf8::encode_utf8(s@).len() != 32 {
            Err(SettingsError::SecretLength)
        } else if !hexadecimal::is_hex(s@) {
            Err(SettingsError::SecretNotHex)
        } else {
            Ok(s@)
        },
        None => match file.secret {
            Some(s) => Ok(s@),
            None => Ok(made_up),
        },
    }
}

/// A flag that either the command line or the file sets.
pub open spec fn chosen_flag(arg: bool, file: Option<bool>) -> bool {
    arg || file == Some(true)
}

/// A value of the command line, unless it is the default and the file has one.
pub open spec fn chosen_number(arg: int, default: int, file: Option<int>) -> int {
    if arg != default {
        arg
    } else {
        match file {
            Some(n) => n,
            None => default,
        }
    }
}

/// A number of the file.
pub open spec fn file_number(n: Option<usize>) -> Option<int> {
    match n {
        Some(v) => Some(v as int),
        None => None,
    }
}

/// The host: that of the command line, unless it is the default and the file has one.
pub open spec fn chosen_host(args: CliArgs, file: ConfigFile) -> Seq<char> {
    if args.host@ != "127.0.0.1"@ {
        args.host@
    } else {
        match file.host {
            Some(h) => h@,
            None => args.host@,
        }
    }
}

/// The Fake TLS domain: that of the command line, else that of the file, else none.
pub open spec fn chosen_tls_domain(args: CliArgs, file: ConfigFile) -> Seq<char> {
    if args.fake_tls_domain@.len() > 0 {
        args.fake_tls_domain@
    } else {
        match file.fake_tls_domain {
            Some(d) => d@,
            None => Seq::empty(),
        }
    }
}

/// Domains: those of the command line, else those of the file.
pub open spec fn chosen_domains(args: Seq<String>, file: Option<Vec<String>>) -> Seq<Seq<char>> {
    if args.len() > 0 {
        domain_list(text::text_views(args))
    } else {
        match file {
            Some(list) => domain_list(text::text_views(list@)),
            None => Seq::empty(),
        }
    }
}

/// The socket buffer in KB: that of the command line, unless it is the default and the file has
/// one; at least four.
pub open spec fn chosen_buffer_kb(args: CliArgs, file: ConfigFile) -> int {
    let kb = chosen_number(args.buf_kb as int, 256, file_number(file.buf_kb));
    if kb < 4 {
        4
    } else {
        kb
    }
}

/// The log file: that of the command line, else that of the file.
pub open spec fn chosen_log_file(args: CliArgs, file: ConfigFile) -> Option<Seq<char>> {
    if args.log_file is Some {
        text::text_option(args.log_file)
    } else {
        text::text_option(file.log_file)
    }
}

/// The settings that a command line and a file give, with the secret that was chosen.
pub open spec fn is_config(
    config: ProxyConfig,
    args: CliArgs,
    file: ConfigFile,
    secret: Seq<char>,
    redirects: Map<u32, Seq<char>>,
) -> bool {
    &&& config.port == (if args.port != 1443 {
        args.port
    } else {
        match file.port {
            Some(p) => p,
            None => 1443,
        }
    })
    &&& config.host@ == chosen_host(args, file)
    &&& config.secret@ == secret
    &&& text::text_map(config.dc_redirects@) == redirects
    &&& config.buffer_size == 1024 * chosen_buffer_kb(args, file)
    &&& config.pool_size == chosen_number(args.pool_size as int, 4, file_number(file.pool_size))
    &&& config.fallback_cfproxy == !chosen_flag(args.no_cfproxy, file.no_cfproxy)
    &&& text::text_views(config.cfproxy_user_domains@) == chosen_domains(
        args.cfproxy_domain@,
        file.cfproxy_domain,
    )
    &&& text::text_views(config.cfproxy_worker_domains@) == chosen_domains(
        args.cfproxy_worker_domain@,
        file.cfproxy_worker_domain,
    )
    &&& config.fake_tls_domain@ == chosen_tls_domain(args, file)
    &&& config.proxy_protocol == chosen_flag(args.proxy_protocol, file.proxy_protocol)
    &&& text::text_option(config.log_file) == chosen_log_file(args, file)
    &&& config.log_max_mb == args.log_max_mb
    &&& config.log_backups == args.log_backups
    &&& config.autostart == chosen_flag(args.autostart, file.autostart)
}

/// The outcome of reading the settings, if `made_up` is the secret that is made up. A bad
/// `DC:IP` is reported before a bad secret.
pub open spec fn is_outcome(
    out: Result<ProxyConfig, SettingsError>,
    args: CliArgs,
    file: ConfigFile,
    made_up: Seq<char>,
) -> bool {
    match chosen_redirects(args, file) {
        Err(e) => out matches Err(SettingsError::DcIp(message)) && message@ == e,
        Ok(redirects) => match chosen_secret(args, file, made_up) {
            Err(bad) => out matches Err(e) && e == bad,
            Ok(secret) => out matches Ok(config) && is_config(
                config,
                args,
                file,
                secret,
                redirects,
            ),
        },
    }
}

fn text_or(first: &Option<String>, otherwise: &str) -> (out: String)
    ensures
        out@ == match *first {
            Some(s) => s@,
            None => otherwise@,
        },
{
    match first {
        Some(s) => s.clone(),
        None => otherwise.to_owned(),
    }
}

fn flag_set(arg: bool, file: Option<bool>) -> (set: bool)
    ensures
        set == chosen_flag(arg, file),
        set == (arg || file == Some(true)),
{
    if arg {
        return true;
    }
    match file {
        Some(flag) => flag,
        None => false,
    }
}

fn number_chosen(arg: usize, default: usize, file: Option<usize>) -> (n: usize)
    ensures
        n == chosen_number(arg as int, default as int, file_number(file)),
{
    if arg != default {
        return arg;
    }
    match file {
        Some(n) => n,
        None => default,
    }
}

fn domains_chosen(args: &Vec<String>, file: &Option<Vec<String>>) -> (out: Vec<String>)
    ensures
        text::text_views(out@) == chosen_domains(args@, *file),
{
    if args.len() > 0 {
        return coerce_domain_list(Some(args.as_slice()));
    }
    match file {
        Some(list) => coerce_domain_list(Some(list.as_slice())),
        None => coerce_domain_list(None),
    }
}

/// The socket buffer in KB.
pub fn buffer_kb(args: &CliArgs, file: &ConfigFile) -> (kb: usize)
    ensures
        kb == chosen_buffer_kb(*args, *file),
{
    let kb: usize = number_chosen(args.buf_kb, 256, file.buf_kb);
    if kb < 4 {
        4
    } else {
        kb
    }
}

/// The log file.
pub fn log_file_chosen(args: &CliArgs, file: &ConfigFile) -> (out: Option<String>)
    ensures
        text::text_option(out) == chosen_log_file(*args, *file),
{
    match &args.log_file {
        Some(path) => Some(path.clone()),
        None => match &file.log_file {
            Some(path) => Some(path.clone()),
            None => None,
        },
    }
}

/// Reads the settings, for a given secret to fall back on.
#[verifier::rlimit(40)]
pub fn resolve_config_with(args: &CliArgs, file: &ConfigFile, made_up: String) -> (out: Result<
    ProxyConfig,
    SettingsError,
>)
    requires
        1024 * chosen_buffer_kb(*args, *file) <= usize::MAX,
    ensures
        is_outcome(out, *args, *file, made_up@),
        out matches Ok(config) ==> {
            &&& config.fallback_cfproxy <==> !args.no_cfproxy && file.no_cfproxy != Some(true)
            &&& config.proxy_protocol <==> args.proxy_protocol || file.proxy_protocol == Some(true)
            &&& config.autostart <==> args.autostart || file.autostart == Some(true)
            &&& args.port != 1443 ==> config.port == args.port
            &&& args.host@ != "127.0.0.1"@ ==> config.host@ == args.host@
            &&& args.secret matches Some(s) ==> config.secret@ == s@
            &&& args.pool_size != 4 ==> config.pool_size == args.pool_size
            &&& args.buf_kb != 256 && args.buf_kb >= 4 ==> config.buffer_size == 1024 * args.buf_kb
            &&& args.fake_tls_domain@.len() > 0 ==> config.fake_tls_domain@
                == args.fake_tls_domain@
            &&& args.log_file matches Some(path) ==> config.log_file matches Some(chosen)
                && chosen@ == path@
        },
{
    let redirects: HashMap<u32, String> = if args.dc_ip.len() > 0 {
        match parse_dc_ip_list(args.dc_ip.as_slice()) {
            Ok(map) => map,
            Err(message) => {
                return Err(SettingsError::DcIp(message));
            },
        }
    } else {
        match &file.dc_ip {
            Some(map) => map.clone(),
            None => default_redirect_map(),
        }
    };
    assert(chosen_redirects(*args, *file) == Ok::<Map<u32, Seq<char>>, Seq<char>>(
        text::text_map(redirects@),
    ));
    let secret: String = match &args.secret {
        Some(s) => {
            if s.as_str().as_bytes().len() != 32 {
                return Err(SettingsError::SecretLength);
            }
            if hex_decode(s.as_str()).is_none() {
                return Err(SettingsError::SecretNotHex);
            }
            s.clone()
        },
        None => match &file.secret {
            Some(s) => s.clone(),
            None => made_up,
        },
    };
    let host: String = if !same_text(args.host.as_str(), "127.0.0.1") {
        args.host.clone()
    } else {
        text_or(&file.host, args.host.as_str())
    };
    let port: u16 = if args.port != 1443 {
        args.port
    } else {
        match file.port {
            Some(p) => p,
            None => 1443,
        }
    };
    let fake_tls_domain: String = if !args.fake_tls_domain.as_str().is_empty() {
        args.fake_tls_domain.clone()
    } else {
        match &file.fake_tls_domain {
            Some(d) => d.clone(),
            None => text_of(Vec::new()),
        }
    };
    assert(fake_tls_domain@ =~= chosen_tls_domain(*args, *file));
    let kb: usize = buffer_kb(args, file);
    Ok(
        ProxyConfig {
            port,
            host,
            secret,
            dc_redirects: redirects,
            buffer_size: kb * 1024,
            pool_size: number_chosen(args.pool_size, 4, file.pool_size),
            fallback_cfproxy: !flag_set(args.no_cfproxy, file.no_cfproxy),
            cfproxy_user_domains: domains_chosen(&args.cfproxy_domain, &file.cfproxy_domain),
            cfproxy_worker_domains: domains_chosen(
                &args.cfproxy_worker_domain,
                &file.cfproxy_worker_domain,
            ),
            fake_tls_domain,
            proxy_protocol: flag_set(args.proxy_protocol, file.proxy_protocol),
            log_file: log_file_chosen(args, file),
            log_max_mb: args.log_max_mb,
            log_backups: args.log_backups,
            autostart: flag_set(args.autostart, file.autostart),
        },
    )
}

/// A lower-case hexadecimal digit.
pub open spec fn is_lower_hex(c: char) -> bool {
    '0' <= c <= '9' || 'a' <= c <= 'f'
}

/// A secret that can be made up: 32 lower-case hexadecimal digits.
pub open spec fn is_made_up_secret(s: Seq<char>) -> bool {
    &&& s.len() == 32
    &&& forall|i: int| 0 <= i < 32 ==> is_lower_hex(#[trigger] s[i])
}

/// Makes up a secret of 32 random hexadecimal digits.
fn make_up_secret() -> (secret: String)
    ensures
        is_made_up_secret(secret@),
{
    let mut chars: Vec<char> = Vec::new();
    while chars.len() < 32
        invariant
            chars@.len() <= 32,
            forall|i: int| 0 <= i < chars@.len() ==> is_lower_hex(#[trigger] chars@[i]),
        decreases 32 - chars@.len(),
    {
        let d: u8 = random_range(0, 16) as u8;
        let code: u8 = if d < 10 {
            48 + d
        } else {
            87 + d
        };
        chars.push(code as char);
    }
    text_of(chars)
}

/// Reads the settings. Where neither the command line nor the file has a secret, one is made up.
pub fn resolve_config(args: &CliArgs, file: &ConfigFile) -> (out: Result<
    ProxyConfig,
    SettingsError,
>)
    requires
        1024 * chosen_buffer_kb(*args, *file) <= usize::MAX,
    ensures
        exists|made_up: Seq<char>|
            is_made_up_secret(made_up) && #[trigger] is_outcome(out, *args, *file, made_up),
        out matches Ok(config) ==> {
            &&& config.fallback_cfproxy <==> !args.no_cfproxy && file.no_cfproxy != Some(true)
            &&& config.proxy_protocol <==> args.proxy_protocol || file.proxy_protocol == Some(true)
            &&& config.autostart <==> args.autostart || file.autostart == Some(true)
            &&& args.port != 1443 ==> config.port == args.port
            &&& args.host@ != "127.0.0.1"@ ==> config.host@ == args.host@
            &&& args.secret matches Some(s) ==> config.secret@ == s@
            &&& args.pool_size != 4 ==> config.pool_size == args.pool_size
            &&& args.buf_kb != 256 && args.buf_kb >= 4 ==> config.buffer_size == 1024 * args.buf_kb
            &&& args.fake_tls_domain@.len() > 0 ==> config.fake_tls_domain@
                == args.fake_tls_domain@
            &&& args.log_file matches Some(path) ==> config.log_file matches Some(chosen)
                && chosen@ == path@
        },
{
    let made_up = make_up_secret();
    let ghost secret = made_up@;
    let out = resolve_config_with(args, file, made_up);
    assert(is_outcome(out, *args, *file, secret));
    out
}

/// A secret that is made up can be used.
pub proof fn law_made_up_secret_is_hex(s: Seq<char>)
    requires
        is_made_up_secret(s),
    ensures
        hexadecimal::is_hex(s),
        hexadecimal::hex_bytes(s).len() == 16,
{
    assert forall|i: int| 0 <= i < s.len() implies hexadecimal::hex_value(#[trigger] s[i])
        >= 0 by {
        assert(is_lower_hex(s[i]));
    }
}

/// Where each setting comes from. A flag holds if the command line or the file sets it, whatever
/// the other one says. A number or a host of the command line holds unless it is the default; then
/// that of the file holds, and the default if the file has none. Domains, addresses, the secret
/// and the log file of the command line hold if it has any, else those of the file. The buffer has
/// at least four times 1024 bytes.
pub proof fn law_command_line_then_file_then_default(
    config: ProxyConfig,
    args: CliArgs,
    file: ConfigFile,
    made_up: Seq<char>,
)
    requires
        is_outcome(Ok(config), args, file, made_up),
    ensures
        args.no_cfproxy ==> !config.fallback_cfproxy,
        !args.no_cfproxy ==> (config.fallback_cfproxy <==> file.no_cfproxy != Some(true)),
        args.proxy_protocol ==> config.proxy_protocol,
        !args.proxy_protocol ==> (config.proxy_protocol <==> file.proxy_protocol == Some(true)),
        args.autostart ==> config.autostart,
        !args.autostart ==> (config.autostart <==> file.autostart == Some(true)),
        args.port != 1443 ==> config.port == args.port,
        args.port == 1443 && file.port is Some ==> Some(config.port) == file.port,
        args.port == 1443 && file.port is None ==> config.port == 1443,
        args.host@ != "127.0.0.1"@ ==> config.host@ == args.host@,
        args.host@ == "127.0.0.1"@ ==> match file.host {
            Some(host) => config.host@ == host@,
            None => config.host@ == "127.0.0.1"@,
        },
        args.pool_size != 4 ==> config.pool_size == args.pool_size,
        args.pool_size == 4 && file.pool_size is Some ==> Some(config.pool_size) == file.pool_size,
        args.pool_size == 4 && file.pool_size is None ==> config.pool_size == 4,
        config.buffer_size >= 4096,
        args.buf_kb != 256 && args.buf_kb >= 4 ==> config.buffer_size == 1024 * args.buf_kb,
        args.buf_kb != 256 && args.buf_kb < 4 ==> config.buffer_size == 4096,
        args.buf_kb == 256 ==> match file.buf_kb {
            Some(kb) => config.buffer_size == if kb < 4 {
                4096
            } else {
                1024 * kb
            },
            None => config.buffer_size == 262144,
        },
        match args.secret {
            Some(s) => config.secret@ == s@ && hexadecimal::is_hex(s@)
                && vstd::utf8::encode_utf8(s@).len() == 32,
            None => match file.secret {
                Some(s) => config.secret@ == s@,
                None => config.secret@ == made_up,
            },
        },
        args.fake_tls_domain@.len() > 0 ==> config.fake_tls_domain@ == args.fake_tls_domain@,
        args.fake_tls_domain@.len() == 0 ==> match file.fake_tls_domain {
            Some(domain) => config.fake_tls_domain@ == domain@,
            None => config.fake_tls_domain@.len() == 0,
        },
        match args.log_file {
            Some(path) => config.log_file matches Some(chosen) && chosen@ == path@,
            None => match file.log_file {
                Some(path) => config.log_file matches Some(chosen) && chosen@ == path@,
                None => config.log_file is None,
            },
        },
        config.log_max_mb == args.log_max_mb,
        config.log_backups == args.log_backups,
        args.cfproxy_domain@.len() > 0 ==> text::text_views(config.cfproxy_user_domains@)
            == domain_list(text::text_views(args.cfproxy_domain@)),
        args.cfproxy_domain@.len() == 0 ==> text::text_views(config.cfproxy_user_domains@) == (
        match file.cfproxy_domain {
            Some(list) => domain_list(text::text_views(list@)),
            None => Seq::empty(),
        }),
        args.cfproxy_worker_domain@.len() > 0 ==> text::text_views(config.cfproxy_worker_domains@)
            == domain_list(text::text_views(args.cfproxy_worker_domain@)),
        args.cfproxy_worker_domain@.len() == 0 ==> text::text_views(config.cfproxy_worker_domains@)
            == (match file.cfproxy_worker_domain {
            Some(list) => domain_list(text::text_views(list@)),
            None => Seq::empty(),
        }),
        args.dc_ip@.len() > 0 ==> dc_ip_map(text::text_views(args.dc_ip@)) == Ok::<
            Map<u32, Seq<char>>,
            Seq<char>,
        >(text::text_map(config.dc_redirects@)),
        args.dc_ip@.len() == 0 ==> match file.dc_ip {
            Some(map) => text::text_map(config.dc_redirects@) == text::text_map(map@),
            None => {
                &&& forall|dc: u32| #[trigger]
                    config.dc_redirects@.contains_key(dc) <==> dc == 2 || dc == 4
                &&& config.dc_redirects@[2]@ == "149.154.167.220"@
                &&& config.dc_redirects@[4]@ == "149.154.167.220"@
            },
        },
{
    if args.dc_ip@.len() == 0 && file.dc_ip is None {
        let map = text::text_map(config.dc_redirects@);
        assert(map == default_redirects());
        assert forall|dc: u32| #[trigger] config.dc_redirects@.contains_key(dc) <==> dc == 2 || dc
            == 4 by {
            assert(map.contains_key(dc) <==> config.dc_redirects@.contains_key(dc));
        }
        assert(map[2] == config.dc_redirects@[2]@);
        assert(map[4] == config.dc_redirects@[4]@);
    }
}

/// Settings are refused for two reasons only, both on the command line: a data centre's address
/// that says nothing, and a secret that is not 32 bytes long or not hexadecimal. The first is
/// reported first.
pub proof fn law_settings_refused(
    out: Result<ProxyConfig, SettingsError>,
    args: CliArgs,
    file: ConfigFile,
    made_up: Seq<char>,
)
    requires
        is_outcome(out, args, file, made_up),
    ensures
        args.dc_ip@.len() == 0 && args.secret is None ==> out is Ok,
        args.dc_ip@.len() > 0 ==> match dc_ip_map(text::text_views(args.dc_ip@)) {
            Err(why) => out matches Err(SettingsError::DcIp(message)) && message@ == why,
            Ok(_) => !(out matches Err(SettingsError::DcIp(_))),
        },
        args.dc_ip@.len() == 0 ==> (args.secret matches Some(s) ==> {
            let len = vstd::utf8::encode_utf8(s@).len();
            &&& len != 32 ==> out == Err::<ProxyConfig, SettingsError>(SettingsError::SecretLength)
            &&& len == 32 && !hexadecimal::is_hex(s@) ==> out == Err::<ProxyConfig, SettingsError>(
                SettingsError::SecretNotHex,
            )
            &&& len == 32 && hexadecimal::is_hex(s@) ==> out is Ok
        }),
{
}

/// What one entry for a data centre says: the text before its first colon is the number, the text
/// behind it the address, which has to hold a point.
pub proof fn law_dc_ip_entry(number: Seq<char>, ip: Seq<char>)
    requires
        !number.contains(':'),
    ensures
        dc_ip_entry(number) == Err::<(u32, Seq<char>), Seq<char>>(
            "Invalid --dc-ip format "@ + text::debug_quoted(number) + ", expected DC:IP"@,
        ),
        ({
            let entry = number + seq![':'] + ip;
            match text::parsed_number(number, 4294967295) {
                None => dc_ip_entry(entry) == Err::<(u32, Seq<char>), Seq<char>>(
                    "Invalid DC number: "@ + number,
                ),
                Some(dc) => if ip.contains('.') {
                    dc_ip_entry(entry) == Ok::<(u32, Seq<char>), Seq<char>>((dc as u32, ip))
                } else {
                    dc_ip_entry(entry) == Err::<(u32, Seq<char>), Seq<char>>(
                        "Invalid IP: "@ + ip,
                    )
                },
            }
        }),
{
    let colon = seq![':'];
    let entry = number + colon + ip;
    let n = text::span(entry, colon) as int;
    text::lemma_span_bound(entry, colon);
    text::lemma_span_bound(number, colon);
    assert(colon[0] == ':');
    assert(entry[number.len() as int] == ':');
    if n < number.len() {
        assert(colon.contains(entry[n]));
        assert(entry[n] == number[n]);
        assert(number.contains(':'));
    }
    if n > number.len() {
        assert(!colon.contains(entry[number.len() as int]));
    }
    assert(entry.take(n) =~= number);
    assert(entry.skip(n + 1) =~= ip);
    let m = text::span(number, colon) as int;
    if m < number.len() {
        assert(colon.contains(number[m]));
        assert(number.contains(':'));
    }
}

/// What a list of entries says: each entry adds its address, in place of an earlier one for the
/// same data centre, and the first bad entry spoils the list.
pub proof fn law_dc_ip_list(list: Seq<Seq<char>>, more: Seq<char>)
    ensures
        dc_ip_map(Seq::empty()) == Ok::<Map<u32, Seq<char>>, Seq<char>>(Map::empty()),
        match dc_ip_map(list) {
            Err(e) => dc_ip_map(list.push(more)) == Err::<Map<u32, Seq<char>>, Seq<char>>(e),
            Ok(map) => match dc_ip_entry(more) {
                Err(e) => dc_ip_map(list.push(more)) == Err::<Map<u32, Seq<char>>, Seq<char>>(e),
                Ok((dc, ip)) => dc_ip_map(list.push(more)) == Ok::<
                    Map<u32, Seq<char>>,
                    Seq<char>,
                >(map.insert(dc, ip)),
            },
        },
{
    assert(list.push(more).drop_last() =~= list);
}

/// A text without a comma, a semicolon or a blank names one domain: itself, trimmed and in lower
/// case, if anything is left of it.
pub proof fn law_one_domain(w: Seq<char>)
    requires
        forall|i: int| 0 <= i < w.len() ==> #[trigger] w[i] != ',' && w[i] != ';' && w[i] != ' ',
    ensures
        ({
            let domain = text::lower_case(text::trim(w));
            domain_list(seq![w]) == if text::trim(w).len() == 0 || domain.len() == 0 {
                Seq::empty()
            } else {
                seq![domain]
            }
        }),
{
    let word = text::trim(w);
    let none = Seq::<Seq<char>>::empty();
    text::law_pieces(w, ',', w, separators());
    assert(text::pieces(w, separators()) == seq![w]);
    assert(all_trimmed(seq![w]) =~= seq![word]);
    text::law_lists_grow_at_the_end(none, none, word);
    assert(none.push(word) =~= seq![word]);
    let domain = text::lower_case(word);
    assert(all_lower(seq![word]) =~= seq![domain]);
    assert(all_lower(none) =~= none);
    assert(seq![w].drop_last() =~= none);
    assert(all_named_domains(seq![w].drop_last()) =~= none);
    assert(all_named_domains(seq![w]) =~= named_domains(w));
    text::law_lists_grow_at_the_end(none, none, domain);
    assert(none.push(domain) =~= seq![domain]);
    assert(!none.contains(domain));
}

/// Leaving out empty texts from two lists, one behind the other.
proof fn lemma_without_empty_concat(a: Seq<Seq<char>>, b: Seq<Seq<char>>)
    ensures
        text::without_empty(a + b) == text::without_empty(a) + text::without_empty(b),
    decreases b.len(),
{
    if b.len() == 0 {
        assert(a + b =~= a);
        assert(text::without_empty(a) + text::without_empty(b) =~= text::without_empty(a));
    } else {
        lemma_without_empty_concat(a, b.drop_last());
        text::law_lists_grow_at_the_end(a, a + b.drop_last(), b.last());
        text::law_lists_grow_at_the_end(a, b.drop_last(), b.last());
        assert(a + b =~= (a + b.drop_last()).push(b.last()));
        assert(b =~= b.drop_last().push(b.last()));
        assert(text::without_empty(a + b) =~= text::without_empty(a) + text::without_empty(b));
    }
}

/// A comma, a semicolon and a blank separate domains: a text with one of them, wherever it stands,
/// names what the texts before and behind it name, as two texts in a list do. And two lists, one
/// behind the other, name what the first one names and then what is new in the second one.
pub proof fn law_domains_separated(a: Seq<char>, b: Seq<char>, separator: char)
    requires
        separator == ',' || separator == ';' || separator == ' ',
    ensures
        domain_list(seq![a.push(separator) + b]) == domain_list(seq![a, b]),
        domain_list(seq![a, b]) == text::with_new(domain_list(seq![a]), domain_list(seq![b])),
{
    let none = Seq::<Seq<char>>::empty();
    let stops = separators();
    assert(stops[0] == ',' && stops[1] == ';' && stops[2] == ' ');
    text::law_pieces(a, separator, b, stops);
    let whole = a.push(separator) + b;
    let pa = text::pieces(a, stops);
    let pb = text::pieces(b, stops);
    assert(all_trimmed(pa + pb) =~= all_trimmed(pa) + all_trimmed(pb));
    lemma_without_empty_concat(all_trimmed(pa), all_trimmed(pb));
    assert(all_lower(words(a) + words(b)) =~= all_lower(words(a)) + all_lower(words(b)));
    assert(named_domains(whole) == named_domains(a) + named_domains(b));
    lemma_one_item(whole);
    lemma_one_item(a);
    lemma_one_item(b);
    assert(seq![a, b].drop_last() =~= seq![a]);
    assert(all_named_domains(seq![a, b]) == named_domains(a) + named_domains(b));
    lemma_without_empty_concat(named_domains(a), named_domains(b));
    let na = text::without_empty(named_domains(a));
    let nb = text::without_empty(named_domains(b));
    text::lemma_with_new_concat(none, na, nb);
    lemma_with_new_of_new(text::with_new(none, na), nb);
}

/// What a list with one text names.
proof fn lemma_one_item(item: Seq<char>)
    ensures
        all_named_domains(seq![item]) == named_domains(item),
{
    assert(seq![item].drop_last() =~= Seq::<Seq<char>>::empty());
    assert(all_named_domains(seq![item].drop_last()).len() == 0);
    assert(all_named_domains(seq![item]) =~= named_domains(item));
}

/// Adding what is new in a list adds the same whether its repetitions are left out before or not.
proof fn lemma_with_new_of_new(first: Seq<Seq<char>>, list: Seq<Seq<char>>)
    ensures
        text::with_new(first, list) == text::with_new(first, text::with_new(Seq::empty(), list)),
    decreases list.len(),
{
    let none = Seq::<Seq<char>>::empty();
    if list.len() > 0 {
        let before = list.drop_last();
        let last = list.last();
        lemma_with_new_of_new(first, before);
        let once = text::with_new(none, before);
        assert(list =~= before.push(last));
        text::law_lists_grow_at_the_end(first, before, last);
        text::law_lists_grow_at_the_end(none, before, last);
        text::law_lists_grow_at_the_end(first, once, last);
        text::law_with_new(first, once);
    }
}

/// A made-up secret: 32 characters, each one of `0` to `9` and `a` to `f`.
pub proof fn law_made_up_secret(s: Seq<char>)
    ensures
        is_made_up_secret(s) <==> s.len() == 32 && forall|i: int|
            0 <= i < 32 ==> '0' <= #[trigger] s[i] <= '9' || 'a' <= s[i] <= 'f',
{
    if s.len() == 32 && forall|i: int|
        0 <= i < 32 ==> '0' <= #[trigger] s[i] <= '9' || 'a' <= s[i] <= 'f' {
        assert(is_made_up_secret(s));
    }
    if is_made_up_secret(s) {
        assert forall|i: int| 0 <= i < 32 implies '0' <= #[trigger] s[i] <= '9' || 'a' <= s[i]
            <= 'f' by {
            assert(is_lower_hex(s[i]));
        }
    }
}

/// The views of results, and how errors are shown.
pub proof fn law_result_views(
    dc: u32,
    ip: String,
    map: HashMap<u32, String>,
    e: String,
)
    ensures
        entry_view(Ok((dc, ip))) == Ok::<(u32, Seq<char>), Seq<char>>((dc, ip@)),
        entry_view(Err(e)) == Err::<(u32, Seq<char>), Seq<char>>(e@),
        redirects_view(Ok(map)) == Ok::<Map<u32, Seq<char>>, Seq<char>>(text::text_map(map@)),
        redirects_view(Err(e)) == Err::<Map<u32, Seq<char>>, Seq<char>>(e@),
        SettingsError::DcIp(e).text() == e@,
        SettingsError::SecretLength.text() == "Secret must be exactly 32 hex characters"@,
        SettingsError::SecretNotHex.text() == "Secret must be valid hex"@,
{
}

} // verus!
