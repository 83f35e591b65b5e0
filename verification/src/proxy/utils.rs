//! The constants of the obfuscated MTProto transport, and where the data centres are.

use std::collections::HashMap;

use vstd::prelude::*;

use crate::proxy::text;
use crate::proxy::text::{decimal_text, same_text};

verus! {

pub const ZERO_64: [u8; 64] = [
    0, 0, 0, 0, 0, 0, 0, 0, 0, 0, 0, 0, 0, 0, 0, 0,
    0, 0, 0, 0, 0, 0, 0, 0, 0, 0, 0, 0, 0, 0, 0, 0,
    0, 0, 0, 0, 0, 0, 0, 0, 0, 0, 0, 0, 0, 0, 0, 0,
    0, 0, 0, 0, 0, 0, 0, 0, 0, 0, 0, 0, 0, 0, 0, 0,
];

pub const HANDSHAKE_LEN: usize = 64;

pub const SKIP_LEN: usize = 8;

pub const PREKEY_LEN: usize = 32;

pub const KEY_LEN: usize = 32;

pub const IV_LEN: usize = 16;

pub const PROTO_TAG_POS: usize = 56;

pub const DC_IDX_POS: usize = 60;

pub const PROTO_TAG_ABRIDGED: [u8; 4] = [0xef, 0xef, 0xef, 0xef];

pub const PROTO_TAG_INTERMEDIATE: [u8; 4] = [0xee, 0xee, 0xee, 0xee];

pub const PROTO_TAG_SECURE: [u8; 4] = [0xdd, 0xdd, 0xdd, 0xdd];

pub const PROTO_ABRIDGED_INT: u32 = 0xEFEF_EFEF;

pub const PROTO_INTERMEDIATE_INT: u32 = 0xEEEE_EEEE;

pub const PROTO_PADDED_INTERMEDIATE_INT: u32 = 0xDDDD_DDDD;

pub const RESERVED_FIRST_BYTES: [u8; 1] = [0xEF];

pub const RESERVED_STARTS: [[u8; 4]; 6] = [
    [0x48, 0x45, 0x41, 0x44],
    [0x50, 0x4F, 0x53, 0x54],
    [0x47, 0x45, 0x54, 0x20],
    [0xee, 0xee, 0xee, 0xee],
    [0xdd, 0xdd, 0xdd, 0xdd],
    [0x16, 0x03, 0x01, 0x02],
];

pub const RESERVED_CONTINUE: [u8; 4] = [0x00, 0x00, 0x00, 0x00];

/// The address of a data centre, where it is known.
pub open spec fn default_ip(dc: u32) -> Option<Seq<char>> {
    if dc == 1 {
        Some("149.154.175.50"@)
    } else if dc == 2 {
        Some("149.154.167.51"@)
    } else if dc == 3 {
        Some("149.154.175.100"@)
    } else if dc == 4 {
        Some("149.154.167.91"@)
    } else if dc == 5 {
        Some("149.154.171.5"@)
    } else if dc == 203 {
        Some("91.105.192.100"@)
    } else {
        None
    }
}

/// The addresses of the data centres.
pub fn dc_default_ips() -> (ips: HashMap<u32, &'static str>)
    ensures
        forall|dc: u32| #[trigger] ips@.contains_key(dc) <==> default_ip(dc) is Some,
        forall|dc: u32| #[trigger] ips@.contains_key(dc) ==> default_ip(dc) == Some(ips@[dc]@),
        ips@[1]@ == "149.154.175.50"@,
        ips@[2]@ == "149.154.167.51"@,
        ips@[3]@ == "149.154.175.100"@,
        ips@[4]@ == "149.154.167.91"@,
        ips@[5]@ == "149.154.171.5"@,
        ips@[203]@ == "91.105.192.100"@,
{
    let mut ips: HashMap<u32, &'static str> = HashMap::new();
    ips.insert(1, "149.154.175.50");
    ips.insert(2, "149.154.167.51");
    ips.insert(3, "149.154.175.100");
    ips.insert(4, "149.154.167.91");
    ips.insert(5, "149.154.171.5");
    ips.insert(203, "91.105.192.100");
    ips
}

/// The web front of a data centre: the plain one, or the second one.
pub open spec fn ws_domain(dc: u32, second: bool) -> Seq<char> {
    let number: nat = if dc == 203 {
        2
    } else {
        dc as nat
    };
    "kws"@ + text::decimal(number) + (if second {
        "-1.web.telegram.org"@
    } else {
        ".web.telegram.org"@
    })
}

fn ws_domain_text(dc: u32, second: bool) -> (out: String)
    ensures
        out@ == ws_domain(dc, second),
{
    let number: u64 = if dc == 203 {
        2
    } else {
        dc as u64
    };
    let mut out = "kws".to_owned();
    out.append(decimal_text(number).as_str());
    if second {
        out.append("-1.web.telegram.org");
    } else {
        out.append(".web.telegram.org");
    }
    out
}

/// The web fronts of a data centre, in the order in which they are tried: for media the second
/// one comes first.
pub fn ws_domains(dc: u32, is_media: bool) -> (out: Vec<String>)
    ensures
        text::text_views(out@) == seq![ws_domain(dc, is_media), ws_domain(dc, !is_media)],
{
    let mut out: Vec<String> = Vec::new();
    out.push(ws_domain_text(dc, is_media));
    out.push(ws_domain_text(dc, !is_media));
    assert(text::text_views(out@) =~= seq![ws_domain(dc, is_media), ws_domain(dc, !is_media)]);
    out
}

/// The host to write into a link: the host that the proxy listens on, or, where it listens on
/// all of them, the machine's own address `local_ip` as far as it is known.
pub fn get_link_host(host: &str, local_ip: Option<String>) -> (out: Option<String>)
    ensures
        host@ == "0.0.0.0"@ ==> out == local_ip,
        host@ != "0.0.0.0"@ ==> (out matches Some(h) && h@ == host@),
{
    if same_text(host, "0.0.0.0") {
        local_ip
    } else {
        Some(host.to_owned())
    }
}

/// The data centres whose address is known, and their addresses.
pub proof fn law_known_addresses(dc: u32)
    ensures
        default_ip(dc) is Some <==> 1 <= dc <= 5 || dc == 203,
        dc == 1 ==> default_ip(dc) == Some("149.154.175.50"@),
        dc == 2 ==> default_ip(dc) == Some("149.154.167.51"@),
        dc == 3 ==> default_ip(dc) == Some("149.154.175.100"@),
        dc == 4 ==> default_ip(dc) == Some("149.154.167.91"@),
        dc == 5 ==> default_ip(dc) == Some("149.154.171.5"@),
        dc == 203 ==> default_ip(dc) == Some("91.105.192.100"@),
{
}

/// The two fronts of a data centre bear its number, but those of 203 the number 2; the second one
/// has `-1` behind the number.
pub proof fn law_fronts_bear_the_number(dc: u32)
    ensures
        dc != 203 ==> ws_domain(dc, false) == "kws"@ + text::decimal(dc as nat)
            + ".web.telegram.org"@,
        dc != 203 ==> ws_domain(dc, true) == "kws"@ + text::decimal(dc as nat)
            + "-1.web.telegram.org"@,
        ws_domain(203, false) == ws_domain(2, false),
        ws_domain(203, true) == ws_domain(2, true),
{
}

/// The numbers of the three transports and the tags that stand for them.
pub proof fn law_transports()
    ensures
        PROTO_TAG_ABRIDGED@ == seq![0xefu8, 0xef, 0xef, 0xef],
        PROTO_TAG_INTERMEDIATE@ == seq![0xeeu8, 0xee, 0xee, 0xee],
        PROTO_TAG_SECURE@ == seq![0xddu8, 0xdd, 0xdd, 0xdd],
        PROTO_ABRIDGED_INT == 0xEFEF_EFEF,
        PROTO_INTERMEDIATE_INT == 0xEEEE_EEEE,
        PROTO_PADDED_INTERMEDIATE_INT == 0xDDDD_DDDD,
        HANDSHAKE_LEN == 64,
{
    assert(PROTO_TAG_ABRIDGED@ =~= seq![0xefu8, 0xef, 0xef, 0xef]);
    assert(PROTO_TAG_INTERMEDIATE@ =~= seq![0xeeu8, 0xee, 0xee, 0xee]);
    assert(PROTO_TAG_SECURE@ =~= seq![0xddu8, 0xdd, 0xdd, 0xdd]);
}

} // verus!
