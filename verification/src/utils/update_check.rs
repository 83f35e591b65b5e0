//! Whether there is a newer release.

use vstd::prelude::*;

use crate::proxy::text;
use crate::proxy::text::{chars_between, chars_of, same_text, text_of};

verus! {

/// What is known of the latest release.
#[derive(Debug)]
pub struct UpdateInfo {
    pub has_update: bool,
    pub latest: String,
    pub html_url: String,
    pub download_url: Option<String>,
}

/// What the release server answered.
#[derive(Debug)]
pub enum ReleaseAnswer {
    /// Nothing has changed since the last time, when this was the latest version.
    NotModified(Option<String>),
    /// The description of the latest release.
    Body(Vec<u8>),
}

/// Whether some bytes are one JSON value.
pub uninterp spec fn is_json(body: Seq<u8>) -> bool;

/// The text that a member of a JSON object holds.
pub uninterp spec fn json_member(body: Seq<u8>, member: Seq<char>) -> Option<Seq<char>>;

/// The text that a member of the object at a position of a list holds, where the list is itself a
/// member of a JSON object.
pub uninterp spec fn json_list_member(
    body: Seq<u8>,
    list: Seq<char>,
    index: usize,
    member: Seq<char>,
) -> Option<Seq<char>>;

/// Calls `serde_json::from_slice` for a `serde_json::Value`. Claims that whether it succeeds
/// depends on the bytes alone.
#[verifier::external_body]
fn is_valid_json(body: &[u8]) -> (valid: bool)
    ensures
        valid == is_json(body@),
{
    serde_json::from_slice::<serde_json::Value>(body).is_ok()
}

/// Calls `serde_json::from_slice`, then `Value::get` and `Value::as_str`. Claims that the result
/// depends on the bytes and the member's name alone.
#[verifier::external_body]
fn json_member_text(body: &[u8], member: &str) -> (out: Option<String>)
    ensures
        text::text_option(out) == json_member(body@, member@),
{
    let value: serde_json::Value = serde_json::from_slice(body).ok()?;
    value.get(member)?.as_str().map(|s| s.to_string())
}

/// Calls `serde_json::from_slice`, then `Value::get` with the list's name, with the index and with
/// the member's name, and `Value::as_str`. Claims that the result depends on the bytes, the index
/// and the two names alone.
#[verifier::external_body]
fn json_list_member_text(body: &[u8], list: &str, index: usize, member: &str) -> (out: Option<
    String,
>)
    ensures
        text::text_option(out) == json_list_member(body@, list@, index, member@),
{
    let value: serde_json::Value = serde_json::from_slice(body).ok()?;
    value.get(list)?.get(index)?.get(member)?.as_str().map(|s| s.to_string())
}

/// A version without the `v`s that it may start with.
pub open spec fn without_v(version: Seq<char>) -> Seq<char>
    decreases version.len(),
{
    if version.len() > 0 && version[0] == 'v' {
        without_v(version.drop_first())
    } else {
        version
    }
}

fn strip_v(version: &str) -> (out: String)
    ensures
        out@ == without_v(version@),
{
    let chars = chars_of(version);
    let mut from: usize = 0;
    assert(chars@.skip(0) =~= chars@);
    while from < chars.len() && chars[from] == 'v'
        invariant
            from <= chars@.len(),
            without_v(chars@.skip(from as int)) == without_v(chars@),
        decreases chars@.len() - from,
    {
        assert(chars@.skip(from as int).drop_first() =~= chars@.skip(from + 1));
        from = from + 1;
    }
    assert(chars@.subrange(from as int, chars@.len() as int) =~= chars@.skip(from as int));
    text_of(chars_between(&chars, from, chars.len()))
}

/// An optional text, or another one instead.
pub open spec fn option_or(s: Option<Seq<char>>, otherwise: Seq<char>) -> Seq<char> {
    match s {
        Some(t) => t,
        None => otherwise,
    }
}

/// What is known of a release with these fields.
pub open spec fn is_release(
    info: UpdateInfo,
    current_version: Seq<char>,
    tag_name: Option<Seq<char>>,
    html_url: Option<Seq<char>>,
    download_url: Option<Seq<char>>,
) -> bool {
    &&& info.latest@ == without_v(option_or(tag_name, "unknown"@))
    &&& info.has_update == (info.latest@ != current_version)
    &&& info.html_url@ == option_or(html_url, ""@)
    &&& text::text_option(info.download_url) == download_url
}

/// What is known of a release with these fields.
pub fn release_info(
    current_version: &str,
    tag_name: Option<String>,
    html_url: Option<String>,
    download_url: Option<String>,
) -> (info: UpdateInfo)
    ensures
        is_release(
            info,
            current_version@,
            text::text_option(tag_name),
            text::text_option(html_url),
            text::text_option(download_url),
        ),
{
    let latest: String = match tag_name {
        Some(tag) => strip_v(tag.as_str()),
        None => strip_v("unknown"),
    };
    let html_url: String = match html_url {
        Some(url) => url,
        None => "".to_owned(),
    };
    let has_update: bool = !same_text(latest.as_str(), current_version);
    UpdateInfo { has_update, latest, html_url, download_url }
}

/// The version that was the latest the last time, from what the cache holds: an empty cache says
/// nothing.
pub fn cached_latest(cache: Option<String>) -> (out: Option<String>)
    ensures
        out == match cache {
            Some(s) => if s@.len() > 0 {
                Some(s)
            } else {
                None
            },
            None => None,
        },
{
    match cache {
        Some(s) => if s.as_str().is_empty() {
            None
        } else {
            Some(s)
        },
        None => None,
    }
}

/// Judges what the release server answered: none if the description is no JSON.
pub fn check_for_update(current_version: &str, answer: ReleaseAnswer) -> (out: Option<UpdateInfo>)
    ensures
        match answer {
            ReleaseAnswer::NotModified(cache) => {
                let cached = option_or(text::text_option(cache), ""@);
                &&& out matches Some(info)
                &&& info.latest@ == cached
                &&& info.has_update == (cached.len() > 0 && cached != current_version@)
                &&& info.html_url@ == ""@
                &&& info.download_url is None
            },
            ReleaseAnswer::Body(body) => {
                &&& out is Some <==> is_json(body@)
                &&& out matches Some(info) ==> is_release(
                    info,
                    current_version@,
                    json_member(body@, "tag_name"@),
                    json_member(body@, "html_url"@),
                    json_list_member(body@, "assets"@, 0, "browser_download_url"@),
                )
            },
        },
{
    match answer {
        ReleaseAnswer::NotModified(cache) => {
            proof {
                reveal_strlit("");
            }
            let cached: String = match cached_latest(cache) {
                Some(version) => version,
                None => "".to_owned(),
            };
            proof {
                if cache is Some && cache->0@.len() == 0 {
                    assert(cache->0@ =~= ""@);
                }
            }
            let has_update: bool = !cached.as_str().is_empty() && !same_text(
                cached.as_str(),
                current_version,
            );
            Some(
                UpdateInfo {
                    has_update,
                    latest: cached,
                    html_url: "".to_owned(),
                    download_url: None,
                },
            )
        },
        ReleaseAnswer::Body(body) => {
            let bytes = body.as_slice();
            if !is_valid_json(bytes) {
                return None;
            }
            let tag_name = json_member_text(bytes, "tag_name");
            let html_url = json_member_text(bytes, "html_url");
            let download_url = json_list_member_text(bytes, "assets", 0, "browser_download_url");
            Some(release_info(current_version, tag_name, html_url, download_url))
        },
    }
}

/// A version loses every `v` that it starts with, and nothing else.
pub proof fn law_leading_v_lost(version: Seq<char>)
    ensures
        without_v(version).len() <= version.len(),
        without_v(version) == version.skip(version.len() - without_v(version).len()),
        forall|i: int|
            0 <= i < version.len() - without_v(version).len() ==> #[trigger] version[i] == 'v',
        without_v(version).len() > 0 ==> without_v(version)[0] != 'v',
    decreases version.len(),
{
    if version.len() > 0 && version[0] == 'v' {
        let rest = version.drop_first();
        law_leading_v_lost(rest);
        let n = version.len() - without_v(version).len();
        assert(rest.skip(n - 1) =~= version.skip(n));
        assert forall|i: int| 0 <= i < n implies #[trigger] version[i] == 'v' by {
            if i > 0 {
                assert(rest[i - 1] == version[i]);
            }
        }
    } else {
        assert(version.skip(0) =~= version);
    }
}

/// What is known of a release: its version without the leading `v`s, `unknown` if it has no tag;
/// that it is newer exactly if that version is not the one that is running; and its addresses.
pub proof fn law_release_known(
    info: UpdateInfo,
    current_version: Seq<char>,
    tag_name: Option<Seq<char>>,
    html_url: Option<Seq<char>>,
    download_url: Option<Seq<char>>,
)
    requires
        is_release(info, current_version, tag_name, html_url, download_url),
    ensures
        tag_name matches Some(tag) ==> info.latest@ == without_v(tag),
        tag_name is None ==> info.latest@ == "unknown"@,
        info.has_update <==> info.latest@ != current_version,
        html_url matches Some(url) ==> info.html_url@ == url,
        html_url is None ==> info.html_url@.len() == 0,
        download_url matches Some(url) ==> info.download_url matches Some(u) && u@ == url,
        download_url is None ==> info.download_url is None,
{
    reveal_strlit("");
    reveal_strlit("unknown");
    assert(without_v("unknown"@) == "unknown"@);
}

} // verus!
