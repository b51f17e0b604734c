//! The Twitch endpoints: the URLs the downloader asks for and how it reads the replies.

use vstd::prelude::*;
use vstd::utf8::{decode_utf8, valid_utf8};
use crate::error::{TwitchErrorView, TwitchError};
use crate::http::Fetch;
use crate::json::{json_item_at, json_text_valid, JsonDoc, JsonItem, JsonItemView};
use crate::manager::{SegmentEntry, SegmentEntryView};
use crate::number::{nat_text, u64_text};
use crate::query::{build_query, pairs_view, query_text};
use crate::strings::{has_prefix, push_str, starts_with, str_eq};

verus! {

/// The root of the Twitch API.
pub const API_URL: &'static str = "https://api.twitch.tv/";
/// The GraphQL endpoint.
pub const GQL_URL: &'static str = "https://gql.twitch.tv/gql";
/// The client id sent to the API.
pub const CLIENT_ID: &'static str = "jzkbprff40iqj646a697cyrvl0zt2m6";
/// The client id sent to the GraphQL endpoint.
pub const GQL_CLIENT_ID: &'static str = "kimne78kx3ncx6brgo4mv6wki5h1ko";
/// The user agent sent with every request.
pub const USER_AGENT: &'static str = "Mozilla/5.0 (Windows NT 10.0; Win64; x64; rv:67.0) Gecko/20100101 Firefox/67.0";
/// The GraphQL query that lists the channels of the All Access Pass.
pub const ALL_ACCESS_QUERY: &'static str = "[{\"operationName\":\"MultiviewGetChanletDetails\",\"variables\":{\"channelLogin\":\"overwatchleague\"},\"extensions\":{\"persistedQuery\":{\"version\":1,\"sha256Hash\":\"23e36d2b3a68dcb2f634dd5d7682e3a918a5598f63ad3a6415a6df602e3f7447\"}}}]";

/// The text of a byte string, when it is UTF-8 (`std::str::from_utf8`).
#[verifier::external_body]
fn utf8_text(bytes: &[u8]) -> (r: Option<&str>)
    ensures
        r is Some <==> valid_utf8(bytes@),
        r matches Some(s) ==> s@ == decode_utf8(bytes@),
{
    std::str::from_utf8(bytes).ok()
}

// ---------------------------------------------------------------------------
// The URLs asked for.
// ---------------------------------------------------------------------------

/// The query of the access-token request.
pub open spec fn token_params(token: Seq<char>) -> Seq<(Seq<char>, Seq<char>)> {
    seq![
        ("need_https"@, "true"@),
        ("oauth_token"@, token),
        ("platform"@, "web"@),
        ("player_backend"@, "mediaplayer"@),
        ("player_type"@, "site"@),
    ]
}

/// The URL of a channel's access token.
pub open spec fn access_token_url_text(name: Seq<char>, token: Seq<char>) -> Seq<char> {
    API_URL@ + "api/channels/"@ + name + "/access_token?"@ + query_text(token_params(token))
}

/// The query of the playlist request, with the signature and the token of the access token.
pub open spec fn playlist_params(sig: Seq<char>, token: Seq<char>) -> Seq<(Seq<char>, Seq<char>)> {
    seq![
        ("allow_source"@, "true"@),
        ("baking_bread"@, "false"@),
        ("baking_brownies"@, "false"@),
        ("baking_brownies_timeout"@, "1050"@),
        ("fast_bread"@, "true"@),
        ("p"@, "5886656"@),
        ("player_backend"@, "mediaplayer"@),
        ("playlist_include_framerate"@, "true"@),
        ("reassignments_supported"@, "true"@),
        ("rtqos"@, "open_asia"@),
        ("sig"@, sig),
        ("token"@, token),
        ("cdm"@, "wv"@),
    ]
}

/// The URL of a channel's master playlist.
pub open spec fn playlist_url_text(name: Seq<char>, sig: Seq<char>, token: Seq<char>) -> Seq<char> {
    "https://usher.ttvnw.net/api/channel/hls/"@ + name + ".m3u8?"@ + query_text(playlist_params(sig, token))
}

/// The URL of a channel's access token, with the OAuth token.
pub fn access_token_url(name: &str, token: &str) -> (r: String)
    ensures
        r@ == access_token_url_text(name@, token@),
{
    let mut params: Vec<(&str, &str)> = Vec::new();
    params.push(("need_https", "true"));
    params.push(("oauth_token", token));
    params.push(("platform", "web"));
    params.push(("player_backend", "mediaplayer"));
    params.push(("player_type", "site"));
    assert(pairs_view(params@) =~= token_params(token@));
    let query = build_query(params);
    let mut r = String::new();
    push_str(&mut r, API_URL);
    push_str(&mut r, "api/channels/");
    push_str(&mut r, name);
    push_str(&mut r, "/access_token?");
    push_str(&mut r, &query);
    r
}

/// The URL of a channel's master playlist, with the signature and the token of its access token.
pub fn playlist_url(name: &str, sig: &str, token: &str) -> (r: String)
    ensures
        r@ == playlist_url_text(name@, sig@, token@),
{
    let mut params: Vec<(&str, &str)> = Vec::new();
    params.push(("allow_source", "true"));
    params.push(("baking_bread", "false"));
    params.push(("baking_brownies", "false"));
    params.push(("baking_brownies_timeout", "1050"));
    params.push(("fast_bread", "true"));
    params.push(("p", "5886656"));
    params.push(("player_backend", "mediaplayer"));
    params.push(("playlist_include_framerate", "true"));
    params.push(("reassignments_supported", "true"));
    params.push(("rtqos", "open_asia"));
    params.push(("sig", sig));
    params.push(("token", token));
    params.push(("cdm", "wv"));
    assert(pairs_view(params@) =~= playlist_params(sig@, token@));
    let query = build_query(params);
    let mut r = String::new();
    push_str(&mut r, "https://usher.ttvnw.net/api/channel/hls/");
    push_str(&mut r, name);
    push_str(&mut r, ".m3u8?");
    push_str(&mut r, &query);
    r
}

/// The request that lists the channels of the All Access Pass.
pub fn all_access_request() -> (r: Fetch)
    ensures
        r@.url == GQL_URL@,
        r@.post == ALL_ACCESS_QUERY@,
        r@.header.len() == 0,
{
    let mut f = Fetch::new();
    f.set_url(GQL_URL.to_string());
    f.set_post(ALL_ACCESS_QUERY.to_string());
    f
}

// ---------------------------------------------------------------------------
// Playlists, as read by `m3u8_rs`.
// ---------------------------------------------------------------------------

/// The URIs of the variant streams of a master playlist, in the order `m3u8_rs`
/// gives them; `None` when it does not parse.
pub uninterp spec fn master_variant_uris(bytes: Seq<u8>) -> Option<Seq<Seq<char>>>;

/// The variant URIs of a master playlist (`m3u8_rs::parse_master_playlist_res`).
/// The contract names the result.
#[verifier::external_body]
fn parse_master_variants(bytes: &[u8]) -> (r: Option<Vec<String>>)
    ensures
        match r {
            Some(v) => master_variant_uris(bytes@) == Some(v@.map_values(|s: String| s@)),
            None => master_variant_uris(bytes@) is None,
        },
{
    m3u8_rs::parse_master_playlist_res(bytes).ok().map(|p| p.variants.into_iter().map(|v| v.uri).collect())
}

/// A segment of a media playlist: its URI, its duration in the `Display` form of the
/// parsed number, and its program date and time as written.
pub struct MediaEntry {
    pub uri: String,
    pub duration: String,
    pub program_date_time: Option<String>,
}

/// The abstract value of a media playlist segment.
pub struct MediaEntryView {
    pub uri: Seq<char>,
    pub duration: Seq<char>,
    pub program_date_time: Option<Seq<char>>,
}

impl View for MediaEntry {
    type V = MediaEntryView;

    open spec fn view(&self) -> MediaEntryView {
        MediaEntryView {
            uri: self.uri@,
            duration: self.duration@,
            program_date_time: match &self.program_date_time {
                Some(s) => Some(s@),
                None => None,
            },
        }
    }
}

/// Whether a byte is an ASCII digit.
pub open spec fn is_digit_byte(b: u8) -> bool {
    48 <= b <= 57
}

/// The value of a run of ASCII digits.
pub open spec fn digits_value(s: Seq<u8>) -> int
    decreases s.len(),
{
    if s.len() == 0 {
        0
    } else {
        digits_value(s.drop_last()) * 10 + (s.last() - 48)
    }
}

/// `t` starts with exactly `n` digits, followed by a byte that is not one.
pub open spec fn digit_run_is(t: Seq<u8>, n: int) -> bool {
    &&& 0 <= n < t.len()
    &&& forall|k: int| 0 <= k < n ==> is_digit_byte(#[trigger] t[k])
    &&& !is_digit_byte(t[n])
}

/// A `BYTERANGE` value that `m3u8_rs` reads as a byte range `<n>[@<o>]` without
/// panicking: it starts with digits worth at most `i32::MAX`, and something follows
/// them.
pub open spec fn byte_range_readable(v: Seq<u8>) -> bool {
    exists|n: int| #[trigger] digit_run_is(v, n) && 0 < n && digits_value(v.take(n)) <= 2147483647
}

/// The bytes of `#EXT-X-MAP:`.
pub open spec fn map_tag_bytes() -> Seq<u8> {
    seq![35u8, 69u8, 88u8, 84u8, 45u8, 88u8, 45u8, 77u8, 65u8, 80u8, 58u8]
}

/// The bytes of the attribute name `BYTERANGE`.
pub open spec fn byterange_name() -> Seq<u8> {
    seq![66u8, 89u8, 84u8, 69u8, 82u8, 65u8, 78u8, 71u8, 69u8]
}

/// The first position at or after `i` whose byte is in `set`.
pub open spec fn find_from(s: Seq<u8>, i: int, set: Seq<u8>) -> Option<int>
    decreases s.len() - i,
{
    if i < 0 || i >= s.len() {
        None
    } else if set.contains(s[i]) {
        Some(i)
    } else {
        find_from(s, i + 1, set)
    }
}

/// The first position at or after `i` whose byte is not a space or a tab (or the end).
pub open spec fn skip_blanks(s: Seq<u8>, i: int) -> int
    decreases s.len() - i,
{
    if i < 0 || i >= s.len() {
        i
    } else if s[i] == 32u8 || s[i] == 9u8 {
        skip_blanks(s, i + 1)
    } else {
        i
    }
}

/// One step of reading an attribute list the way `m3u8_rs` does: the input ends
/// before the attribute does, the list stops here, or one `name=value` attribute is
/// read and reading goes on at `next`.
pub enum AttrStep {
    Incomplete,
    Stop,
    Pair { key: Seq<u8>, value: Seq<u8>, next: int },
}

/// After a value that ends before position `r`: an optional `,` follows, and the end
/// of the input there leaves the attribute incomplete.
pub open spec fn attr_after(b: Seq<u8>, key: Seq<u8>, value: Seq<u8>, r: int) -> AttrStep {
    if r >= b.len() {
        AttrStep::Incomplete
    } else {
        AttrStep::Pair { key, value, next: if b[r] == 44u8 { r + 1 } else { r } }
    }
}

/// An unquoted value starting at `v` (`v` in the input): the bytes up to the next `,`,
/// CR or LF; none of them, or no such byte before the end, does not make a value.
pub open spec fn attr_unquoted(b: Seq<u8>, key: Seq<u8>, v: int) -> AttrStep {
    if b[v] == 44u8 || b[v] == 13u8 || b[v] == 10u8 {
        AttrStep::Stop
    } else {
        match find_from(b, v, seq![44u8, 13u8, 10u8]) {
            None => AttrStep::Incomplete,
            Some(u) => if valid_utf8(b.subrange(v, u)) {
                attr_after(b, key, b.subrange(v, u), u)
            } else {
                AttrStep::Stop
            },
        }
    }
}

/// The attribute that starts at position `i` of the input, read as `m3u8_rs`'s
/// `key_value_pair` reads it after skipping blanks: a name up to the first `=`, then a
/// quoted value or, failing that, an unquoted one.
pub open spec fn attr_step(b: Seq<u8>, i: int) -> AttrStep {
    let j = skip_blanks(b, i);
    if j >= b.len() {
        AttrStep::Incomplete
    } else if b[j] == 13u8 || b[j] == 10u8 {
        AttrStep::Stop
    } else {
        match find_from(b, j, seq![61u8]) {
            None => AttrStep::Incomplete,
            Some(e) => {
                let key = b.subrange(j, e);
                let v = e + 1;
                if !valid_utf8(key) {
                    AttrStep::Stop
                } else if v >= b.len() {
                    AttrStep::Incomplete
                } else if b[v] == 34u8 {
                    let w = v + 1;
                    if w >= b.len() {
                        AttrStep::Incomplete
                    } else if b[w] == 34u8 {
                        attr_unquoted(b, key, v)
                    } else {
                        match find_from(b, w, seq![34u8]) {
                            None => AttrStep::Incomplete,
                            Some(q) => if valid_utf8(b.subrange(w, q)) {
                                attr_after(b, key, b.subrange(w, q), q + 1)
                            } else {
                                attr_unquoted(b, key, v)
                            },
                        }
                    }
                } else {
                    attr_unquoted(b, key, v)
                }
            },
        }
    }
}

/// `find_from` finds the first byte of the set at or after `i`, or tells there is none.
pub proof fn lemma_find_from(s: Seq<u8>, i: int, set: Seq<u8>)
    ensures
        find_from(s, i, set) matches Some(k) ==> 0 <= i <= k < s.len() && set.contains(s[k]) && forall|j: int|
            i <= j < k ==> !set.contains(#[trigger] s[j]),
        find_from(s, i, set) is None ==> forall|j: int| 0 <= i <= j < s.len() ==> !set.contains(#[trigger] s[j]),
    decreases s.len() - i,
{
    if 0 <= i < s.len() && !set.contains(s[i]) {
        lemma_find_from(s, i + 1, set);
    }
}

/// `skip_blanks` moves forward, and stays within the input.
pub proof fn lemma_skip_blanks(s: Seq<u8>, i: int)
    requires
        0 <= i,
    ensures
        i <= skip_blanks(s, i),
        i <= s.len() ==> skip_blanks(s, i) <= s.len(),
        i > s.len() ==> skip_blanks(s, i) == i,
    decreases s.len() - i,
{
    if 0 <= i < s.len() && (s[i] == 32u8 || s[i] == 9u8) {
        lemma_skip_blanks(s, i + 1);
    }
}

/// Reading an attribute moves forward and stays within the input.
pub proof fn lemma_attr_step_moves(b: Seq<u8>, i: int)
    requires
        0 <= i <= b.len(),
    ensures
        attr_step(b, i) matches AttrStep::Pair { next, .. } ==> i < next <= b.len(),
{
    let j = skip_blanks(b, i);
    lemma_skip_blanks(b, i);
    if j < b.len() {
        lemma_find_from(b, j, seq![61u8]);
        if let Some(e) = find_from(b, j, seq![61u8]) {
            let v = e + 1;
            if v < b.len() {
                lemma_find_from(b, v, seq![44u8, 13u8, 10u8]);
                if v + 1 < b.len() {
                    lemma_find_from(b, v + 1, seq![34u8]);
                }
            }
        }
    }
}

/// The attributes of an attribute list starting at position `i`, as `m3u8_rs`'s
/// `key_value_pairs` reads them; `None` when the input ends inside one, which makes
/// `m3u8_rs` give up on the tag.
pub open spec fn attr_list(b: Seq<u8>, i: int) -> Option<Seq<(Seq<u8>, Seq<u8>)>>
    decreases b.len() - i,
{
    if i < 0 || i > b.len() {
        None
    } else {
        match attr_step(b, i) {
            AttrStep::Incomplete => None,
            AttrStep::Stop => Some(Seq::empty()),
            AttrStep::Pair { key, value, next } => {
                proof {
                    lemma_attr_step_moves(b, i);
                }
                match attr_list(b, next) {
                    None => None,
                    Some(rest) => Some(seq![(key, value)] + rest),
                }
            },
        }
    }
}

/// The value of the last attribute named `key` (later attributes replace earlier
/// ones, as in the map `m3u8_rs` collects them into).
pub open spec fn last_value(ps: Seq<(Seq<u8>, Seq<u8>)>, key: Seq<u8>) -> Option<Seq<u8>>
    decreases ps.len(),
{
    if ps.len() == 0 {
        None
    } else if ps.last().0 == key {
        Some(ps.last().1)
    } else {
        last_value(ps.drop_last(), key)
    }
}

/// The attribute list of an `#EXT-X-MAP:` tag whose attributes start at `i` does not
/// make `m3u8_rs` panic: it is not read whole, or it has no `BYTERANGE`, or its
/// `BYTERANGE` reads as a byte range.
pub open spec fn map_attrs_safe(b: Seq<u8>, i: int) -> bool {
    match attr_list(b, i) {
        None => true,
        Some(ps) => match last_value(ps, byterange_name()) {
            None => true,
            Some(v) => byte_range_readable(v),
        },
    }
}

/// Every `#EXT-X-MAP:` in the bytes has an attribute list that `m3u8_rs` reads without
/// panicking. `m3u8_rs` panics on a media playlist only at an `#EXT-X-MAP:` tag whose
/// `BYTERANGE` does not read as `<n>[@<o>]`; this holds of every playlist where it does
/// not. An `#EXT-X-MAP:` that `m3u8_rs` does not read as a tag (inside a URI line, say)
/// is tested all the same.
pub open spec fn byte_ranges_readable(b: Seq<u8>) -> bool {
    forall|p: int|
        0 <= p && p + 11 <= b.len() && #[trigger] b.subrange(p, p + 11) == map_tag_bytes() ==> map_attrs_safe(
            b,
            p + 11,
        )
}

/// The first position at or after `i` whose byte is in `set`.
fn find_byte_from(b: &[u8], i: usize, set: &[u8]) -> (r: Option<usize>)
    requires
        i <= b@.len(),
    ensures
        match r {
            Some(k) => find_from(b@, i as int, set@) == Some(k as int),
            None => find_from(b@, i as int, set@) is None,
        },
{
    let mut k: usize = i;
    while k < b.len()
        invariant
            i <= k <= b@.len(),
            find_from(b@, i as int, set@) == find_from(b@, k as int, set@),
        decreases b.len() - k,
    {
        let c = b[k];
        let mut m: usize = 0;
        let mut found = false;
        while m < set.len()
            invariant
                m <= set@.len(),
                found == exists|j: int| 0 <= j < m && set@[j] == c,
            decreases set.len() - m,
        {
            if set[m] == c {
                found = true;
            }
            m = m + 1;
        }
        assert(found == set@.contains(c));
        if found {
            return Some(k);
        }
        k = k + 1;
    }
    None
}

/// The first position at or after `i` that is not a space or a tab.
fn skip_blanks_from(b: &[u8], i: usize) -> (r: usize)
    requires
        i <= b@.len(),
    ensures
        r as int == skip_blanks(b@, i as int),
        i <= r <= b@.len(),
{
    let mut k: usize = i;
    while k < b.len() && (b[k] == 32u8 || b[k] == 9u8)
        invariant
            i <= k <= b@.len(),
            skip_blanks(b@, i as int) == skip_blanks(b@, k as int),
        decreases b.len() - k,
    {
        k = k + 1;
    }
    k
}

/// Whether a byte string is UTF-8.
fn is_utf8(b: &[u8], s: usize, e: usize) -> (r: bool)
    requires
        s <= e <= b@.len(),
    ensures
        r == valid_utf8(b@.subrange(s as int, e as int)),
{
    utf8_text(vstd::slice::slice_subrange(b, s, e)).is_some()
}

/// One step of reading an attribute list, with the attribute as positions in the input.
enum AttrStepAt {
    Incomplete,
    Stop,
    Pair { key: (usize, usize), value: (usize, usize), next: usize },
}

/// The positional step and the step it stands for agree.
spec fn step_at_is(b: Seq<u8>, r: AttrStepAt, s: AttrStep) -> bool {
    match r {
        AttrStepAt::Incomplete => s is Incomplete,
        AttrStepAt::Stop => s is Stop,
        AttrStepAt::Pair { key, value, next } => {
            &&& key.0 <= key.1 <= b.len()
            &&& value.0 <= value.1 <= b.len()
            &&& next <= b.len()
            &&& s == AttrStep::Pair {
                key: b.subrange(key.0 as int, key.1 as int),
                value: b.subrange(value.0 as int, value.1 as int),
                next: next as int,
            }
        },
    }
}

fn attr_after_at(b: &[u8], key: (usize, usize), value: (usize, usize), r: usize) -> (out: AttrStepAt)
    requires
        key.0 <= key.1 <= b@.len(),
        value.0 <= value.1 <= b@.len(),
        r <= b@.len(),
    ensures
        step_at_is(
            b@,
            out,
            attr_after(
                b@,
                b@.subrange(key.0 as int, key.1 as int),
                b@.subrange(value.0 as int, value.1 as int),
                r as int,
            ),
        ),
{
    if r >= b.len() {
        AttrStepAt::Incomplete
    } else {
        AttrStepAt::Pair { key, value, next: if b[r] == 44u8 { r + 1 } else { r } }
    }
}

fn attr_unquoted_at(b: &[u8], key: (usize, usize), v: usize) -> (out: AttrStepAt)
    requires
        key.0 <= key.1 <= b@.len(),
        v < b@.len(),
    ensures
        step_at_is(b@, out, attr_unquoted(b@, b@.subrange(key.0 as int, key.1 as int), v as int)),
{
    if b[v] == 44u8 || b[v] == 13u8 || b[v] == 10u8 {
        return AttrStepAt::Stop;
    }
    let ends: [u8; 3] = [44u8, 13u8, 10u8];
    assert(ends@ == seq![44u8, 13u8, 10u8]);
    match find_byte_from(b, v, &ends) {
        None => AttrStepAt::Incomplete,
        Some(u) => {
            proof {
                lemma_find_from(b@, v as int, seq![44u8, 13u8, 10u8]);
            }
            if is_utf8(b, v, u) {
                attr_after_at(b, key, (v, u), u)
            } else {
                AttrStepAt::Stop
            }
        },
    }
}

fn attr_step_at(b: &[u8], i: usize) -> (out: AttrStepAt)
    requires
        i <= b@.len(),
    ensures
        step_at_is(b@, out, attr_step(b@, i as int)),
{
    let j = skip_blanks_from(b, i);
    if j >= b.len() {
        return AttrStepAt::Incomplete;
    }
    if b[j] == 13u8 || b[j] == 10u8 {
        return AttrStepAt::Stop;
    }
    let eq: [u8; 1] = [61u8];
    assert(eq@ == seq![61u8]);
    let e = match find_byte_from(b, j, &eq) {
        None => {
            return AttrStepAt::Incomplete;
        },
        Some(e) => e,
    };
    proof {
        lemma_find_from(b@, j as int, seq![61u8]);
    }
    if !is_utf8(b, j, e) {
        return AttrStepAt::Stop;
    }
    let v = e + 1;
    if v >= b.len() {
        return AttrStepAt::Incomplete;
    }
    if b[v] == 34u8 {
        let w = v + 1;
        if w >= b.len() {
            return AttrStepAt::Incomplete;
        }
        if b[w] == 34u8 {
            return attr_unquoted_at(b, (j, e), v);
        }
        let qt: [u8; 1] = [34u8];
        assert(qt@ == seq![34u8]);
        match find_byte_from(b, w, &qt) {
            None => AttrStepAt::Incomplete,
            Some(q) => {
                proof {
                    lemma_find_from(b@, w as int, seq![34u8]);
                }
                if is_utf8(b, w, q) {
                    attr_after_at(b, (j, e), (w, q), q + 1)
                } else {
                    attr_unquoted_at(b, (j, e), v)
                }
            },
        }
    } else {
        attr_unquoted_at(b, (j, e), v)
    }
}

/// Whether the bytes from `s` to `e` are `BYTERANGE`.
fn is_byterange_name(b: &[u8], s: usize, e: usize) -> (r: bool)
    requires
        s <= e <= b@.len(),
    ensures
        r == (b@.subrange(s as int, e as int) == byterange_name()),
{
    let name: [u8; 9] = [66u8, 89u8, 84u8, 69u8, 82u8, 65u8, 78u8, 71u8, 69u8];
    assert(name@ =~= byterange_name());
    if e - s != 9 {
        assert(b@.subrange(s as int, e as int).len() != byterange_name().len());
        return false;
    }
    let mut k: usize = 0;
    while k < 9
        invariant
            s + 9 == e,
            e <= b@.len(),
            name@ == byterange_name(),
            k <= 9,
            forall|j: int| 0 <= j < k ==> b@[s + j] == name@[j],
        decreases 9 - k,
    {
        if b[s + k] != name[k] {
            assert(b@.subrange(s as int, e as int)[k as int] != byterange_name()[k as int]);
            return false;
        }
        k = k + 1;
    }
    assert(b@.subrange(s as int, e as int) =~= byterange_name());
    true
}

/// Whether the bytes from `s` to `e` read as a byte range.
fn byte_range_ok(b: &[u8], s: usize, e: usize) -> (r: bool)
    requires
        s <= e <= b@.len(),
    ensures
        r == byte_range_readable(b@.subrange(s as int, e as int)),
{
    let ghost t = b@.subrange(s as int, e as int);
    let mut i: usize = s;
    let mut v: u64 = 0;
    let mut big = false;
    while i < e && 48u8 <= b[i] && b[i] <= 57u8
        invariant
            s <= i <= e,
            e <= b@.len(),
            t == b@.subrange(s as int, e as int),
            forall|k: int| 0 <= k < i - s ==> is_digit_byte(#[trigger] t[k]),
            !big ==> v == digits_value(t.take(i - s)) && v <= 2147483647,
            big ==> digits_value(t.take(i - s)) > 2147483647,
        decreases e - i,
    {
        let d = b[i];
        proof {
            let j = i - s;
            assert(t[j] == d);
            assert(t.take(j + 1).drop_last() =~= t.take(j));
            assert(t.take(j + 1).last() == d);
            assert(digits_value(t.take(j + 1)) == digits_value(t.take(j)) * 10 + (d - 48));
        }
        if !big {
            let nv: u64 = v * 10 + (d - 48) as u64;
            if nv > 2147483647 {
                big = true;
            } else {
                v = nv;
            }
        }
        i = i + 1;
    }
    let n: usize = i - s;
    let ok = n > 0 && i < e && !big;
    proof {
        if i < e {
            assert(t[n as int] == b@[i as int]);
        }
        if ok {
            assert(digit_run_is(t, n as int));
        } else if byte_range_readable(t) {
            let m = choose|m: int|
                #[trigger] digit_run_is(t, m) && 0 < m && digits_value(t.take(m)) <= 2147483647;
            if m < n {
                assert(is_digit_byte(t[m]));
            } else if m > n {
                assert(is_digit_byte(t[n as int]));
                assert(t[n as int] == b@[i as int]);
            }
        }
    }
    ok
}

/// Prepends read attributes to the outcome of reading the rest of a list.
spec fn prepend_pairs(
    pre: Seq<(Seq<u8>, Seq<u8>)>,
    rest: Option<Seq<(Seq<u8>, Seq<u8>)>>,
) -> Option<Seq<(Seq<u8>, Seq<u8>)>> {
    match rest {
        None => None,
        Some(r) => Some(pre + r),
    }
}

/// Whether the attribute list starting at `i` is safe for `m3u8_rs`.
fn map_attrs_ok(b: &[u8], i: usize) -> (r: bool)
    requires
        i <= b@.len(),
    ensures
        r == map_attrs_safe(b@, i as int),
{
    let ghost mut pre: Seq<(Seq<u8>, Seq<u8>)> = Seq::empty();
    let mut last: Option<(usize, usize)> = None;
    let mut p: usize = i;
    assert(prepend_pairs(pre, attr_list(b@, p as int)) =~= attr_list(b@, i as int)) by {
        if let Some(r) = attr_list(b@, i as int) {
            assert(pre + r =~= r);
        }
    }
    loop
        invariant
            p <= b@.len(),
            prepend_pairs(pre, attr_list(b@, p as int)) == attr_list(b@, i as int),
            match last {
                Some((s, e)) => s <= e <= b@.len() && last_value(pre, byterange_name()) == Some(
                    b@.subrange(s as int, e as int),
                ),
                None => last_value(pre, byterange_name()) is None,
            },
        decreases b@.len() - p,
    {
        let step = attr_step_at(b, p);
        proof {
            lemma_attr_step_moves(b@, p as int);
        }
        match step {
            AttrStepAt::Incomplete => {
                return true;
            },
            AttrStepAt::Stop => {
                assert(attr_list(b@, p as int) == Some(Seq::<(Seq<u8>, Seq<u8>)>::empty()));
                assert(pre + Seq::<(Seq<u8>, Seq<u8>)>::empty() =~= pre);
                return match last {
                    None => true,
                    Some((s, e)) => byte_range_ok(b, s, e),
                };
            },
            AttrStepAt::Pair { key, value, next } => {
                let ghost kv = (b@.subrange(key.0 as int, key.1 as int), b@.subrange(value.0 as int, value.1 as int));
                proof {
                    let rest = attr_list(b@, next as int);
                    assert(attr_list(b@, p as int) == prepend_pairs(seq![kv], rest));
                    match rest {
                        Some(r) => {
                            assert(pre + (seq![kv] + r) =~= pre.push(kv) + r);
                        },
                        None => {},
                    }
                    assert(pre.push(kv).drop_last() =~= pre);
                    pre = pre.push(kv);
                }
                if is_byterange_name(b, key.0, key.1) {
                    last = Some(value);
                }
                p = next;
            },
        }
    }
}

/// Whether every `#EXT-X-MAP:` in the bytes has an attribute list that `m3u8_rs` reads
/// without panicking.
pub fn byte_ranges_checked(b: &[u8]) -> (r: bool)
    ensures
        r == byte_ranges_readable(b@),
{
    let tag: [u8; 11] = [35u8, 69u8, 88u8, 84u8, 45u8, 88u8, 45u8, 77u8, 65u8, 80u8, 58u8];
    assert(tag@ =~= map_tag_bytes());
    let mut p: usize = 0;
    while p < b.len() && b.len() - p >= 11
        invariant
            tag@ == map_tag_bytes(),
            forall|j: int|
                0 <= j < p && j + 11 <= b@.len() && #[trigger] b@.subrange(j, j + 11) == map_tag_bytes()
                    ==> map_attrs_safe(b@, j + 11),
        decreases b.len() - p,
    {
        let mut k: usize = 0;
        let mut here = true;
        while k < 11
            invariant
                p + 11 <= b.len(),
                tag@ == map_tag_bytes(),
                k <= 11,
                here == forall|j: int| 0 <= j < k ==> b@[p + j] == tag@[j],
            decreases 11 - k,
        {
            if b[p + k] != tag[k] {
                here = false;
            }
            k = k + 1;
        }
        proof {
            if here {
                assert(b@.subrange(p as int, p + 11) =~= map_tag_bytes());
            } else {
                let j = choose|j: int| 0 <= j < 11 && b@[p + j] != tag@[j];
                assert(b@.subrange(p as int, p + 11)[j] != map_tag_bytes()[j]);
            }
        }
        if here && !map_attrs_ok(b, p + 11) {
            return false;
        }
        p = p + 1;
    }
    assert forall|j: int|
        0 <= j && j + 11 <= b@.len() && #[trigger] b@.subrange(j, j + 11) == map_tag_bytes() implies map_attrs_safe(
        b@,
        j + 11,
    ) by {
        assert(j < p);
    }
    true
}

/// The segments of a media playlist, in the order `m3u8_rs` gives them; `None` when it
/// does not parse.
pub uninterp spec fn media_playlist_entries(bytes: Seq<u8>) -> Option<Seq<MediaEntryView>>;

/// The segments of a media playlist (`m3u8_rs::parse_media_playlist_res`), each with
/// its duration written out by `Display`. The contract names the result. `m3u8_rs`
/// panics on an `EXT-X-MAP` tag whose `BYTERANGE` does not read as `<n>[@<o>]`, which
/// `requires` leaves out through `byte_ranges_readable`.
#[verifier::external_body]
fn parse_media_entries(bytes: &[u8]) -> (r: Option<Vec<MediaEntry>>)
    requires
        byte_ranges_readable(bytes@),
    ensures
        match r {
            Some(v) => media_playlist_entries(bytes@) == Some(v@.map_values(|e: MediaEntry| e@)),
            None => media_playlist_entries(bytes@) is None,
        },
{
    m3u8_rs::parse_media_playlist_res(bytes).ok().map(|p| p.segments.into_iter().map(|s| MediaEntry {
        uri: s.uri,
        duration: s.duration.to_string(),
        program_date_time: s.program_date_time,
    }).collect())
}

/// The Unix time of a date and time text, as `chrono` reads a `DateTime<Utc>`; `None`
/// when it does not read.
pub uninterp spec fn utc_seconds_of(text: Seq<char>) -> Option<i64>;

/// The Unix time of a date and time text (`str::parse::<chrono::DateTime<chrono::Utc>>`
/// followed by `timestamp`). The contract names the result.
#[verifier::external_body]
fn parse_utc_seconds(text: &str) -> (r: Option<i64>)
    ensures
        r == utc_seconds_of(text@),
{
    text.parse::<chrono::DateTime<chrono::Utc>>().ok().map(|t| t.timestamp())
}

/// The time of a segment: its program date and time when it reads, otherwise `now`.
pub open spec fn entry_time(e: MediaEntryView, now: int) -> int {
    match e.program_date_time {
        Some(x) => match utc_seconds_of(x) {
            Some(t) => t as int,
            None => now,
        },
        None => now,
    }
}

/// The segments that are downloaded: those whose URI starts with `https://`, in order.
pub open spec fn listed_segments(es: Seq<MediaEntryView>, now: int) -> Seq<SegmentEntryView>
    decreases es.len(),
{
    if es.len() == 0 {
        Seq::<SegmentEntryView>::empty()
    } else {
        let prev = listed_segments(es.drop_last(), now);
        let e = es.last();
        if has_prefix(e.uri, "https://"@) {
            prev.push(SegmentEntryView { time: entry_time(e, now), duration: e.duration, url: e.uri })
        } else {
            prev
        }
    }
}

/// The segments of a media playlist as `m3u8_rs` reads it: `None` when it does not
/// parse, or when an `#EXT-X-MAP:` has a `BYTERANGE` that does not read (which
/// `m3u8_rs` would not survive).
pub open spec fn media_entries_of(bytes: Seq<u8>) -> Option<Seq<MediaEntryView>> {
    if byte_ranges_readable(bytes) {
        media_playlist_entries(bytes)
    } else {
        None
    }
}

/// What a listing of a media playlist gives: its `https://` segments with their times,
/// or a parse error.
pub open spec fn list_result(bytes: Seq<u8>, now: int) -> Result<Seq<SegmentEntryView>, TwitchErrorView> {
    match media_entries_of(bytes) {
        Some(es) => Ok(listed_segments(es, now)),
        None => Err(TwitchErrorView::ParseError(Seq::<char>::empty())),
    }
}

/// A segment with its time, duration and URI.
pub open spec fn segment_of(e: MediaEntryView, now: int) -> SegmentEntryView {
    SegmentEntryView { time: entry_time(e, now), duration: e.duration, url: e.uri }
}

/// What a full listing of a media playlist gives: every segment with its time, in
/// order, or a parse error.
pub open spec fn list_all_result(bytes: Seq<u8>, now: int) -> Result<Seq<SegmentEntryView>, TwitchErrorView> {
    match media_entries_of(bytes) {
        Some(es) => Ok(es.map_values(|e: MediaEntryView| segment_of(e, now))),
        None => Err(TwitchErrorView::ParseError(Seq::<char>::empty())),
    }
}

/// The segments of a fetched media playlist, after checking its byte ranges.
fn read_entries(playlist: &[u8]) -> (r: Option<Vec<MediaEntry>>)
    ensures
        match media_entries_of(playlist@) {
            Some(es) => r matches Some(v) && v@.map_values(|e: MediaEntry| e@) == es,
            None => r is None,
        },
{
    if !byte_ranges_checked(playlist) {
        return None;
    }
    parse_media_entries(playlist)
}

/// The time of a segment: its program date and time when it reads, otherwise `now`.
fn segment_time(e: &MediaEntry, now: i64) -> (r: i64)
    ensures
        r == entry_time(e@, now as int),
{
    match &e.program_date_time {
        Some(x) => match parse_utc_seconds(x) {
            Some(t) => t,
            None => now,
        },
        None => now,
    }
}

/// Reads a fetched media playlist: each segment whose URI starts with `https://`, in
/// order, with its time (its program date and time, or `now` when it has none that
/// reads), its duration and its URI. A playlist that does not parse, or that has an
/// `#EXT-X-MAP:` whose attribute list, read whole, ends with a `BYTERANGE` that does
/// not read as `<n>[@<o>]` (where `m3u8_rs` would panic), gives a parse error.
pub fn list(playlist: &[u8], now: i64) -> (r: Result<Vec<SegmentEntry>, TwitchError>)
    ensures
        match list_result(playlist@, now as int) {
            Ok(s) => (r matches Ok(v) && v@.map_values(|e: SegmentEntry| e@) == s),
            Err(e) => (r matches Err(x) && x@ == e),
        },
{
    let entries = match read_entries(playlist) {
        Some(v) => v,
        None => {
            return Err(TwitchError::ParseError(String::new()));
        },
    };
    let ghost es = entries@.map_values(|e: MediaEntry| e@);
    let mut out: Vec<SegmentEntry> = Vec::new();
    let mut i: usize = 0;
    while i < entries.len()
        invariant
            es == entries@.map_values(|e: MediaEntry| e@),
            i <= entries@.len(),
            out@.map_values(|e: SegmentEntry| e@) == listed_segments(es.take(i as int), now as int),
        decreases entries.len() - i,
    {
        let e = &entries[i];
        proof {
            assert(es.take(i + 1).drop_last() == es.take(i as int));
            assert(es.take(i + 1).last() == e@);
            reveal_strlit("https://");
        }
        if starts_with(&e.uri, "https://") {
            let time = segment_time(e, now);
            let ghost before = out@.map_values(|e: SegmentEntry| e@);
            out.push(SegmentEntry { time, duration: e.duration.clone(), url: e.uri.clone() });
            assert(out@.map_values(|e: SegmentEntry| e@) =~= before.push(
                SegmentEntryView { time: entry_time(e@, now as int), duration: e@.duration, url: e@.uri },
            ));
        }
        i = i + 1;
    }
    assert(es.take(entries@.len() as int) == es);
    Ok(out)
}

/// Reads a fetched media playlist keeping every segment, in order, whatever its URI,
/// with its time (its program date and time, or `now` when it has none that reads),
/// its duration and its URI; a parse error as `list` gives one.
pub fn list_all(playlist: &[u8], now: i64) -> (r: Result<Vec<SegmentEntry>, TwitchError>)
    ensures
        match list_all_result(playlist@, now as int) {
            Ok(s) => (r matches Ok(v) && v@.map_values(|e: SegmentEntry| e@) == s),
            Err(e) => (r matches Err(x) && x@ == e),
        },
{
    let entries = match read_entries(playlist) {
        Some(v) => v,
        None => {
            return Err(TwitchError::ParseError(String::new()));
        },
    };
    let ghost es = entries@.map_values(|e: MediaEntry| e@);
    let mut out: Vec<SegmentEntry> = Vec::new();
    let mut i: usize = 0;
    while i < entries.len()
        invariant
            es == entries@.map_values(|e: MediaEntry| e@),
            i <= entries@.len(),
            out@.map_values(|e: SegmentEntry| e@) == es.take(i as int).map_values(
                |e: MediaEntryView| segment_of(e, now as int),
            ),
        decreases entries.len() - i,
    {
        let e = &entries[i];
        let time = segment_time(e, now);
        let ghost before = out@.map_values(|e: SegmentEntry| e@);
        out.push(SegmentEntry { time, duration: e.duration.clone(), url: e.uri.clone() });
        proof {
            assert(es[i as int] == e@);
            assert(out@.map_values(|e: SegmentEntry| e@) =~= before.push(segment_of(e@, now as int)));
            assert(es.take(i + 1).map_values(|e: MediaEntryView| segment_of(e, now as int)) =~= es.take(
                i as int,
            ).map_values(|e: MediaEntryView| segment_of(e, now as int)).push(segment_of(es[i as int], now as int)));
        }
        i = i + 1;
    }
    assert(es.take(entries@.len() as int) == es);
    Ok(out)
}

/// Every segment taken from a listing starts with `https://`.
pub proof fn lemma_listed_segments_are_https(es: Seq<MediaEntryView>, now: int)
    ensures
        forall|k: int|
            0 <= k < listed_segments(es, now).len() ==> has_prefix(
                (#[trigger] listed_segments(es, now)[k]).url,
                "https://"@,
            ),
        listed_segments(es, now).len() <= es.len(),
    decreases es.len(),
{
    if es.len() > 0 {
        lemma_listed_segments_are_https(es.drop_last(), now);
        let prev = listed_segments(es.drop_last(), now);
        assert forall|k: int| 0 <= k < listed_segments(es, now).len() implies has_prefix(
            (#[trigger] listed_segments(es, now)[k]).url,
            "https://"@,
        ) by {
            if k < prev.len() {
                assert(listed_segments(es, now)[k] == prev[k]);
            }
        }
    }
}

// ---------------------------------------------------------------------------
// Resolving a channel to the URL of its stream.
// ---------------------------------------------------------------------------

/// Where the lookup of a channel's stream stands.
pub enum ChannelLookup {
    /// The access token is to be fetched from `url`.
    AwaitingToken { name: String, url: String },
    /// The master playlist is to be fetched from `url`.
    AwaitingPlaylist { url: String },
    /// The stream's media playlist is at this URL.
    Resolved(String),
    /// A request or a reply failed.
    Failed(TwitchError),
    /// A reply was not of the form expected (not UTF-8, or a token field that is not a
    /// string): the lookup stops without a result.
    Abandoned,
}

/// The abstract value of a lookup.
pub enum ChannelLookupView {
    AwaitingToken { name: Seq<char>, url: Seq<char> },
    AwaitingPlaylist { url: Seq<char> },
    Resolved(Seq<char>),
    Failed(TwitchErrorView),
    Abandoned,
}

impl View for ChannelLookup {
    type V = ChannelLookupView;

    open spec fn view(&self) -> ChannelLookupView {
        match self {
            ChannelLookup::AwaitingToken { name, url } => ChannelLookupView::AwaitingToken {
                name: name@,
                url: url@,
            },
            ChannelLookup::AwaitingPlaylist { url } => ChannelLookupView::AwaitingPlaylist { url: url@ },
            ChannelLookup::Resolved(u) => ChannelLookupView::Resolved(u@),
            ChannelLookup::Failed(e) => ChannelLookupView::Failed(e@),
            ChannelLookup::Abandoned => ChannelLookupView::Abandoned,
        }
    }
}

/// A reply to a request: its body, or why the request failed.
pub open spec fn reply_view(r: &Result<Vec<u8>, TwitchError>) -> Result<Seq<u8>, TwitchErrorView> {
    match r {
        Ok(b) => Ok(b@),
        Err(e) => Err(e@),
    }
}

/// A token field reads as text when it is a string or absent.
pub open spec fn token_field_ok(item: JsonItemView) -> bool {
    item is Missing || item is Str
}

/// The text of a token field: the string, or empty when absent.
pub open spec fn field_text(item: JsonItemView) -> Seq<char> {
    match item {
        JsonItemView::Str(s) => s,
        _ => Seq::<char>::empty(),
    }
}

/// The pointer to the signature of an access token.
pub open spec fn sig_pointer() -> Seq<char> {
    "/sig"@
}

/// The pointer to the token of an access token.
pub open spec fn token_pointer() -> Seq<char> {
    "/token"@
}

/// The lookup that starts a channel: fetch its access token.
pub open spec fn start_lookup(name: Seq<char>, token: Seq<char>) -> ChannelLookupView {
    ChannelLookupView::AwaitingToken { name, url: access_token_url_text(name, token) }
}

/// The step after the access token's body arrived.
pub open spec fn after_token(name: Seq<char>, body: Seq<u8>) -> ChannelLookupView {
    if !valid_utf8(body) {
        ChannelLookupView::Abandoned
    } else {
        let text = decode_utf8(body);
        if !json_text_valid(text) {
            ChannelLookupView::Failed(TwitchErrorView::Json)
        } else {
            let sig = json_item_at(text, sig_pointer());
            let token = json_item_at(text, token_pointer());
            if !(token_field_ok(sig) && token_field_ok(token)) {
                ChannelLookupView::Abandoned
            } else {
                ChannelLookupView::AwaitingPlaylist {
                    url: playlist_url_text(name, field_text(sig), field_text(token)),
                }
            }
        }
    }
}

/// The step after the master playlist's body arrived: its first variant, if any.
pub open spec fn after_playlist(body: Seq<u8>) -> ChannelLookupView {
    match master_variant_uris(body) {
        Some(uris) => if uris.len() == 0 {
            ChannelLookupView::Failed(TwitchErrorView::ParseError(Seq::<char>::empty()))
        } else {
            ChannelLookupView::Resolved(uris[0])
        },
        None => ChannelLookupView::Failed(TwitchErrorView::ParseError(Seq::<char>::empty())),
    }
}

/// One step of a lookup on the reply to its pending request; a finished lookup stays as it is.
pub open spec fn advance_lookup(s: ChannelLookupView, reply: Result<Seq<u8>, TwitchErrorView>) -> ChannelLookupView {
    match s {
        ChannelLookupView::AwaitingToken { name, url } => match reply {
            Err(e) => ChannelLookupView::Failed(e),
            Ok(body) => after_token(name, body),
        },
        ChannelLookupView::AwaitingPlaylist { url } => match reply {
            Err(e) => ChannelLookupView::Failed(e),
            Ok(body) => after_playlist(body),
        },
        _ => s,
    }
}

/// A lookup that asks for nothing more.
pub open spec fn lookup_finished(s: ChannelLookupView) -> bool {
    !(s is AwaitingToken || s is AwaitingPlaylist)
}

/// Starts resolving a channel with an OAuth token (which may be empty): the first
/// request is the channel's access token.
pub fn channel(name: String, token: String) -> (r: ChannelLookup)
    ensures
        r@ == start_lookup(name@, token@),
{
    let url = access_token_url(&name, &token);
    ChannelLookup::AwaitingToken { name, url }
}

/// The playlist URL for an access token whose fields are strings or absent.
fn playlist_url_from_token(name: &str, doc: &JsonDoc) -> (r: String)
    requires
        token_field_ok(json_item_at(doc@, sig_pointer())),
        token_field_ok(json_item_at(doc@, token_pointer())),
    ensures
        r@ == playlist_url_text(
            name@,
            field_text(json_item_at(doc@, sig_pointer())),
            field_text(json_item_at(doc@, token_pointer())),
        ),
{
    let sig_item = doc.lookup("/sig");
    let token_item = doc.lookup("/token");
    let empty = String::new();
    let sig: &str = match &sig_item {
        JsonItem::Str(s) => s.as_str(),
        _ => empty.as_str(),
    };
    let token: &str = match &token_item {
        JsonItem::Str(s) => s.as_str(),
        _ => empty.as_str(),
    };
    playlist_url(name, sig, token)
}

impl ChannelLookup {
    /// The URL to fetch next, while the lookup is under way.
    pub fn pending_url(&self) -> (r: Option<String>)
        ensures
            match self@ {
                ChannelLookupView::AwaitingToken { name, url } => (r matches Some(u) && u@ == url),
                ChannelLookupView::AwaitingPlaylist { url } => (r matches Some(u) && u@ == url),
                _ => r is None,
            },
    {
        match self {
            ChannelLookup::AwaitingToken { name, url } => Some(url.clone()),
            ChannelLookup::AwaitingPlaylist { url } => Some(url.clone()),
            _ => None,
        }
    }

    /// The stream's URL once resolved.
    pub fn resolved(&self) -> (r: Option<String>)
        ensures
            match self@ {
                ChannelLookupView::Resolved(u) => (r matches Some(x) && x@ == u),
                _ => r is None,
            },
    {
        match self {
            ChannelLookup::Resolved(u) => Some(u.clone()),
            _ => None,
        }
    }

    /// Takes the reply to the pending request: an access token gives the master
    /// playlist's URL, a master playlist gives its first variant's URI.
    pub fn advance(self, reply: Result<Vec<u8>, TwitchError>) -> (r: ChannelLookup)
        ensures
            r@ == advance_lookup(self@, reply_view(&reply)),
    {
        match self {
            ChannelLookup::AwaitingToken { name, url } => match reply {
                Err(e) => ChannelLookup::Failed(e),
                Ok(body) => match utf8_text(body.as_slice()) {
                    None => ChannelLookup::Abandoned,
                    Some(text) => match JsonDoc::parse(text) {
                        Err(_) => ChannelLookup::Failed(TwitchError::Json),
                        Ok(doc) => {
                            proof {
                                reveal_strlit("/sig");
                                reveal_strlit("/token");
                            }
                            let sig_item = doc.lookup("/sig");
                            let token_item = doc.lookup("/token");
                            let sig_ok = match sig_item {
                                JsonItem::Missing => true,
                                JsonItem::Str(_) => true,
                                _ => false,
                            };
                            let token_ok = match token_item {
                                JsonItem::Missing => true,
                                JsonItem::Str(_) => true,
                                _ => false,
                            };
                            if sig_ok && token_ok {
                                ChannelLookup::AwaitingPlaylist { url: playlist_url_from_token(&name, &doc) }
                            } else {
                                ChannelLookup::Abandoned
                            }
                        },
                    },
                },
            },
            ChannelLookup::AwaitingPlaylist { url } => match reply {
                Err(e) => ChannelLookup::Failed(e),
                Ok(body) => match parse_master_variants(body.as_slice()) {
                    None => ChannelLookup::Failed(TwitchError::ParseError(String::new())),
                    Some(uris) => {
                        if uris.len() == 0 {
                            ChannelLookup::Failed(TwitchError::ParseError(String::new()))
                        } else {
                            let first = uris[0].clone();
                            ChannelLookup::Resolved(first)
                        }
                    },
                },
            },
            other => other,
        }
    }
}

/// A lookup asks for at most two requests: whatever the two replies, it is finished
/// after them, and a finished lookup does not change.
pub proof fn lemma_lookup_finishes_after_two_replies(
    name: Seq<char>,
    token: Seq<char>,
    first: Result<Seq<u8>, TwitchErrorView>,
    second: Result<Seq<u8>, TwitchErrorView>,
    later: Result<Seq<u8>, TwitchErrorView>,
)
    ensures
        lookup_finished(advance_lookup(advance_lookup(start_lookup(name, token), first), second)),
        advance_lookup(advance_lookup(advance_lookup(start_lookup(name, token), first), second), later)
            == advance_lookup(advance_lookup(start_lookup(name, token), first), second),
{
}

/// A resolved lookup names the first variant of the master playlist it was given.
pub proof fn lemma_resolved_is_first_variant(s: ChannelLookupView, body: Seq<u8>)
    requires
        s is AwaitingPlaylist,
        advance_lookup(s, Ok(body)) is Resolved,
    ensures
        master_variant_uris(body) matches Some(uris) && uris.len() > 0 && advance_lookup(s, Ok(body))
            == ChannelLookupView::Resolved(uris[0]),
{
}

// ---------------------------------------------------------------------------
// The channels of the All Access Pass.
// ---------------------------------------------------------------------------

/// A channel of the All Access Pass: its id, the channel login, its display title,
/// and the player and the team it shows.
pub struct OwlChannel {
    pub id: String,
    pub channel: String,
    pub name: String,
    pub player: String,
    pub team: String,
}

/// The abstract value of an All Access Pass channel.
pub struct OwlChannelView {
    pub id: Seq<char>,
    pub channel: Seq<char>,
    pub name: Seq<char>,
    pub player: Seq<char>,
    pub team: Seq<char>,
}

impl View for OwlChannel {
    type V = OwlChannelView;

    open spec fn view(&self) -> OwlChannelView {
        OwlChannelView {
            id: self.id@,
            channel: self.channel@,
            name: self.name@,
            player: self.player@,
            team: self.team@,
        }
    }
}

/// The pointer to the list of channels in the reply.
pub open spec fn chanlets_pointer() -> Seq<char> {
    "/0/data/user/channel/chanlets"@
}

/// The pointer to the `i`-th channel.
pub open spec fn chanlet_pointer(i: nat) -> Seq<char> {
    chanlets_pointer() + "/"@ + nat_text(i)
}

/// The pointer to the attribute list of the `i`-th channel.
pub open spec fn attrs_pointer(i: nat) -> Seq<char> {
    chanlet_pointer(i) + "/contentAttributes"@
}

/// The pointer to a field of the `j`-th attribute of the `i`-th channel.
pub open spec fn attr_field_pointer(i: nat, j: nat, field: Seq<char>) -> Seq<char> {
    attrs_pointer(i) + "/"@ + nat_text(j) + "/"@ + field
}

/// The pointer to the id of the `i`-th channel.
pub open spec fn id_pointer(i: nat) -> Seq<char> {
    chanlet_pointer(i) + "/id"@
}

/// The pointer to the login of the owner of the `i`-th channel.
pub open spec fn login_pointer(i: nat) -> Seq<char> {
    chanlet_pointer(i) + "/owner/login"@
}

/// What the attributes read so far say: the title, the player, the team, and whether
/// all three were found (then the rest is not read).
pub struct AttrScan {
    pub title: Seq<char>,
    pub player: Seq<char>,
    pub team: Seq<char>,
    pub stopped: bool,
}

/// The attributes of channel `i` after reading the first `j`, stopping once the title,
/// the player and the team are all non-empty.
pub open spec fn attr_scan(text: Seq<char>, i: nat, j: nat) -> AttrScan
    decreases j,
{
    if j == 0 {
        AttrScan {
            title: Seq::<char>::empty(),
            player: Seq::<char>::empty(),
            team: Seq::<char>::empty(),
            stopped: false,
        }
    } else {
        let s = attr_scan(text, i, (j - 1) as nat);
        if s.stopped {
            s
        } else {
            let key = field_text(json_item_at(text, attr_field_pointer(i, (j - 1) as nat, "key"@)));
            let value = field_text(json_item_at(text, attr_field_pointer(i, (j - 1) as nat, "value"@)));
            let title = if key == "displayTitle"@ { value } else { s.title };
            let player = if key == "player"@ { value } else { s.player };
            let team = if key == "team"@ { value } else { s.team };
            AttrScan { title, player, team, stopped: title.len() > 0 && player.len() > 0 && team.len() > 0 }
        }
    }
}

/// The attributes of channel `i` that are read have a string key and a string value.
pub open spec fn attrs_shape_ok(text: Seq<char>, i: nat, k: nat) -> bool {
    forall|j: nat|
        j < k && !(#[trigger] attr_scan(text, i, j)).stopped ==> json_item_at(
            text,
            attr_field_pointer(i, j, "key"@),
        ) is Str && json_item_at(text, attr_field_pointer(i, j, "value"@)) is Str
}

/// The number of attributes of channel `i`.
pub open spec fn attr_count(text: Seq<char>, i: nat) -> nat {
    match json_item_at(text, attrs_pointer(i)) {
        JsonItemView::Array(k) => k,
        _ => 0,
    }
}

/// Channel `i` has an attribute list, readable attributes, a string id and a string owner login.
pub open spec fn chanlet_shape_ok(text: Seq<char>, i: nat) -> bool {
    &&& json_item_at(text, attrs_pointer(i)) is Array
    &&& attrs_shape_ok(text, i, attr_count(text, i))
    &&& json_item_at(text, id_pointer(i)) is Str
    &&& json_item_at(text, login_pointer(i)) is Str
}

/// The number of channels in the reply.
pub open spec fn chanlet_count(text: Seq<char>) -> nat {
    match json_item_at(text, chanlets_pointer()) {
        JsonItemView::Array(m) => m,
        _ => 0,
    }
}

/// The reply has the form the channel list is read from: a non-empty array whose first
/// element leads to a list of well-formed channels.
pub open spec fn owl_shape_ok(text: Seq<char>) -> bool {
    &&& json_item_at(text, Seq::<char>::empty()) matches JsonItemView::Array(n) && n > 0
    &&& json_item_at(text, chanlets_pointer()) is Array
    &&& forall|i: nat| i < chanlet_count(text) ==> #[trigger] chanlet_shape_ok(text, i)
}

/// The `i`-th channel of the reply.
pub open spec fn owl_channel_at(text: Seq<char>, i: nat) -> OwlChannelView {
    let s = attr_scan(text, i, attr_count(text, i));
    OwlChannelView {
        id: field_text(json_item_at(text, id_pointer(i))),
        channel: field_text(json_item_at(text, login_pointer(i))),
        name: s.title,
        player: s.player,
        team: s.team,
    }
}

/// The channels of the reply, in order.
pub open spec fn owl_channels_of(text: Seq<char>) -> Seq<OwlChannelView> {
    Seq::new(chanlet_count(text), |i: int| owl_channel_at(text, i as nat))
}

/// The pointer to the `i`-th channel.
fn chanlet_pointer_of(i: usize) -> (r: String)
    ensures
        r@ == chanlet_pointer(i as nat),
{
    let mut r = String::new();
    push_str(&mut r, "/0/data/user/channel/chanlets");
    push_str(&mut r, "/");
    let n = u64_text(i as u64);
    push_str(&mut r, &n);
    r
}

/// The pointer to a field of the `j`-th attribute of the `i`-th channel.
fn attr_field_pointer_of(i: usize, j: usize, field: &str) -> (r: String)
    ensures
        r@ == attr_field_pointer(i as nat, j as nat, field@),
{
    let mut r = chanlet_pointer_of(i);
    push_str(&mut r, "/contentAttributes");
    push_str(&mut r, "/");
    let n = u64_text(j as u64);
    push_str(&mut r, &n);
    push_str(&mut r, "/");
    push_str(&mut r, field);
    r
}

/// A pointer below the `i`-th channel.
fn chanlet_sub_pointer(i: usize, tail: &str) -> (r: String)
    ensures
        r@ == chanlet_pointer(i as nat) + tail@,
{
    let mut r = chanlet_pointer_of(i);
    push_str(&mut r, tail);
    r
}

/// The number of elements of an array item.
fn array_len(item: &JsonItem) -> (r: Option<usize>)
    ensures
        match item@ {
            JsonItemView::Array(n) => r == Some(n as usize),
            _ => r is None,
        },
{
    match item {
        JsonItem::Array(n) => Some(*n),
        _ => None,
    }
}

/// The text of a string item, or empty.
fn item_text(item: &JsonItem) -> (r: String)
    ensures
        r@ == field_text(item@),
{
    match item {
        JsonItem::Str(s) => s.clone(),
        _ => String::new(),
    }
}

/// Reads the attributes of channel `i` as the scan does, checking that each attribute
/// read has a string key and a string value; `None` when one does not.
fn scan_attrs(doc: &JsonDoc, i: usize, k: usize) -> (r: Option<(String, String, String)>)
    ensures
        r is Some <==> attrs_shape_ok(doc@, i as nat, k as nat),
        r matches Some(t) ==> t.0@ == attr_scan(doc@, i as nat, k as nat).title && t.1@ == attr_scan(
            doc@,
            i as nat,
            k as nat,
        ).player && t.2@ == attr_scan(doc@, i as nat, k as nat).team,
{
    let ghost text = doc@;
    let mut title = String::new();
    let mut player = String::new();
    let mut team = String::new();
    let mut j: usize = 0;
    proof {
        reveal_strlit("key");
        reveal_strlit("value");
        reveal_strlit("displayTitle");
        reveal_strlit("player");
        reveal_strlit("team");
    }
    while j < k
        invariant
            text == doc@,
            j <= k,
            !attr_scan(text, i as nat, j as nat).stopped,
            title@ == attr_scan(text, i as nat, j as nat).title,
            player@ == attr_scan(text, i as nat, j as nat).player,
            team@ == attr_scan(text, i as nat, j as nat).team,
            forall|jj: nat|
                jj < j && !(#[trigger] attr_scan(text, i as nat, jj)).stopped ==> json_item_at(
                    text,
                    attr_field_pointer(i as nat, jj, "key"@),
                ) is Str && json_item_at(text, attr_field_pointer(i as nat, jj, "value"@)) is Str,
        decreases k - j,
    {
        let key_item = doc.lookup(&attr_field_pointer_of(i, j, "key"));
        let value_item = doc.lookup(&attr_field_pointer_of(i, j, "value"));
        let (key, value) = match (&key_item, &value_item) {
            (JsonItem::Str(kk), JsonItem::Str(vv)) => (kk.clone(), vv.clone()),
            _ => {
                return None;
            },
        };
        if str_eq(&key, "displayTitle") {
            title = value.clone();
        }
        if str_eq(&key, "player") {
            player = value.clone();
        }
        if str_eq(&key, "team") {
            team = value.clone();
        }
        proof {
            assert(attr_scan(text, i as nat, (j + 1) as nat) == attr_scan(text, i as nat, (j as nat + 1) as nat));
        }
        if !title.as_str().is_empty() && !player.as_str().is_empty() && !team.as_str().is_empty() {
            proof {
                let s = attr_scan(text, i as nat, (j + 1) as nat);
                assert(s.stopped);
                assert forall|jj: nat| jj < k && !(#[trigger] attr_scan(text, i as nat, jj)).stopped implies json_item_at(
                    text,
                    attr_field_pointer(i as nat, jj, "key"@),
                ) is Str && json_item_at(text, attr_field_pointer(i as nat, jj, "value"@)) is Str by {
                    if jj > j {
                        lemma_scan_stays_stopped(text, i as nat, (j + 1) as nat, jj);
                    }
                }
                lemma_scan_stays_stopped(text, i as nat, (j + 1) as nat, k as nat);
            }
            return Some((title, player, team));
        }
        j = j + 1;
    }
    Some((title, player, team))
}

/// Once the scan has stopped it does not change.
proof fn lemma_scan_stays_stopped(text: Seq<char>, i: nat, j1: nat, j2: nat)
    requires
        j1 <= j2,
        attr_scan(text, i, j1).stopped,
    ensures
        attr_scan(text, i, j2) == attr_scan(text, i, j1),
    decreases j2 - j1,
{
    if j1 < j2 {
        lemma_scan_stays_stopped(text, i, j1, (j2 - 1) as nat);
    }
}

/// Reads channel `i`, checking its form; `None` when it is not well-formed.
fn read_chanlet(doc: &JsonDoc, i: usize) -> (r: Option<OwlChannel>)
    ensures
        r is Some <==> chanlet_shape_ok(doc@, i as nat),
        r matches Some(c) ==> c@ == owl_channel_at(doc@, i as nat),
{
    proof {
        reveal_strlit("/contentAttributes");
        reveal_strlit("/id");
        reveal_strlit("/owner/login");
    }
    let attrs_item = doc.lookup(&chanlet_sub_pointer(i, "/contentAttributes"));
    let k = match array_len(&attrs_item) {
        Some(k) => k,
        None => {
            return None;
        },
    };
    let scanned = scan_attrs(doc, i, k);
    let id_item = doc.lookup(&chanlet_sub_pointer(i, "/id"));
    let login_item = doc.lookup(&chanlet_sub_pointer(i, "/owner/login"));
    match (scanned, &id_item, &login_item) {
        (Some((title, player, team)), JsonItem::Str(id), JsonItem::Str(login)) => Some(OwlChannel {
            id: id.clone(),
            channel: login.clone(),
            name: title,
            player,
            team,
        }),
        _ => None,
    }
}

/// Reads the channels of the All Access Pass from the reply to `all_access_request`:
/// `None` when the reply is JSON without the expected form (a non-empty array whose
/// first element holds `data.user.channel.chanlets`, each channel with string
/// attributes as far as they are read, a string `id` and a string `owner.login`);
/// otherwise the channels in order, or a JSON error when the reply does not parse.
/// Each channel's title, player and team come from its attributes `displayTitle`,
/// `player` and `team`; they are read in order until all three are non-empty.
pub fn get_all_access_channels(response: &[u8]) -> (r: Option<Result<Vec<OwlChannel>, TwitchError>>)
    requires
        valid_utf8(response@),
    ensures
        !json_text_valid(decode_utf8(response@)) ==> (r matches Some(Err(e)) && e@ == TwitchErrorView::Json),
        json_text_valid(decode_utf8(response@)) ==> (r is None <==> !owl_shape_ok(decode_utf8(response@))),
        json_text_valid(decode_utf8(response@)) && owl_shape_ok(decode_utf8(response@)) ==> (r matches Some(Ok(v))
            && v@.map_values(|c: OwlChannel| c@) == owl_channels_of(decode_utf8(response@))),
{
    let text = match utf8_text(response) {
        Some(t) => t,
        None => {
            return None;
        },
    };
    let doc = match JsonDoc::parse(text) {
        Ok(d) => d,
        Err(_) => {
            return Some(Err(TwitchError::Json));
        },
    };
    let ghost t = doc@;
    proof {
        reveal_strlit("/0/data/user/channel/chanlets");
        reveal_strlit("");
        assert(""@ =~= Seq::<char>::empty());
    }
    let root = doc.lookup("");
    match array_len(&root) {
        Some(n) => {
            if n == 0 {
                return None;
            }
        },
        None => {
            return None;
        },
    }
    let chanlets = doc.lookup("/0/data/user/channel/chanlets");
    let m = match array_len(&chanlets) {
        Some(m) => m,
        None => {
            return None;
        },
    };
    assert(m == chanlet_count(t));
    let mut out: Vec<OwlChannel> = Vec::new();
    let mut i: usize = 0;
    while i < m
        invariant
            t == doc@,
            t == decode_utf8(response@),
            json_text_valid(t),
            m == chanlet_count(t),
            i <= m,
            out@.len() == i,
            forall|ii: int| 0 <= ii < i ==> (#[trigger] out@[ii])@ == owl_channel_at(t, ii as nat),
            forall|ii: nat| ii < i ==> #[trigger] chanlet_shape_ok(t, ii),
        decreases m - i,
    {
        match read_chanlet(&doc, i) {
            Some(c) => {
                out.push(c);
            },
            None => {
                assert(!chanlet_shape_ok(t, i as nat));
                return None;
            },
        }
        i = i + 1;
    }
    assert(out@.map_values(|c: OwlChannel| c@) =~= owl_channels_of(t));
    Some(Ok(out))
}

/// The URIs that a listing keeps: those starting with `https://`.
pub open spec fn is_https_entry(e: MediaEntryView) -> bool {
    has_prefix(e.uri, "https://"@)
}

/// A listing keeps every `https://` segment of the playlist and nothing else, in the
/// playlist's order, each with its time, duration and URI; a full listing keeps every
/// segment.
pub proof fn lemma_listing_keeps_every_https_segment(bytes: Seq<u8>, now: int)
    ensures
        media_entries_of(bytes) matches Some(es) ==> list_result(bytes, now) == Ok::<
            Seq<SegmentEntryView>,
            TwitchErrorView,
        >(
            es.filter(|e: MediaEntryView| is_https_entry(e)).map_values(|e: MediaEntryView| segment_of(e, now)),
        ),
        media_entries_of(bytes) matches Some(es) ==> list_all_result(bytes, now) == Ok::<
            Seq<SegmentEntryView>,
            TwitchErrorView,
        >(
            es.map_values(|e: MediaEntryView| segment_of(e, now)),
        ),
        media_entries_of(bytes) is None ==> list_result(bytes, now) == Err::<Seq<SegmentEntryView>, TwitchErrorView>(
            TwitchErrorView::ParseError(Seq::<char>::empty()),
        ) && list_all_result(bytes, now) == Err::<Seq<SegmentEntryView>, TwitchErrorView>(
            TwitchErrorView::ParseError(Seq::<char>::empty()),
        ),
{
    if let Some(es) = media_entries_of(bytes) {
        lemma_listed_segments_filter(es, now);
    }
}

proof fn lemma_listed_segments_filter(es: Seq<MediaEntryView>, now: int)
    ensures
        listed_segments(es, now) == es.filter(|e: MediaEntryView| is_https_entry(e)).map_values(
            |e: MediaEntryView| segment_of(e, now),
        ),
    decreases es.len(),
{
    let pred = |e: MediaEntryView| is_https_entry(e);
    let f = |e: MediaEntryView| segment_of(e, now);
    reveal(Seq::filter);
    if es.len() == 0 {
        assert(es.filter(pred) =~= Seq::<MediaEntryView>::empty());
        assert(listed_segments(es, now) =~= es.filter(pred).map_values(f));
    } else {
        lemma_listed_segments_filter(es.drop_last(), now);
        let sub = es.drop_last().filter(pred);
        if pred(es.last()) {
            assert(es.filter(pred) == sub.push(es.last()));
            assert(sub.push(es.last()).map_values(f) =~= sub.map_values(f).push(f(es.last())));
        } else {
            assert(es.filter(pred) == sub);
        }
    }
}

/// A master playlist that parses with at least one variant resolves the lookup to its
/// first variant; one that does not parse, or has no variant, fails the lookup with a
/// parse error.
pub proof fn lemma_playlist_resolves_to_first_variant(url: Seq<char>, body: Seq<u8>, uris: Seq<Seq<char>>)
    ensures
        master_variant_uris(body) == Some(uris) && uris.len() > 0 ==> advance_lookup(
            ChannelLookupView::AwaitingPlaylist { url },
            Ok(body),
        ) == ChannelLookupView::Resolved(uris[0]),
        master_variant_uris(body) is None || master_variant_uris(body) == Some(Seq::<Seq<char>>::empty())
            ==> advance_lookup(ChannelLookupView::AwaitingPlaylist { url }, Ok(body))
            == ChannelLookupView::Failed(TwitchErrorView::ParseError(Seq::<char>::empty())),
{
}

/// The key of the `j`-th attribute of channel `i`, and its value.
pub open spec fn attr_key_is(text: Seq<char>, i: nat, j: nat, key: Seq<char>) -> bool {
    json_item_at(text, attr_field_pointer(i, j, "key"@)) == JsonItemView::Str(key)
}

/// The `j`-th attribute of channel `i` has this string value.
pub open spec fn attr_value_is(text: Seq<char>, i: nat, j: nat, value: Seq<char>) -> bool {
    json_item_at(text, attr_field_pointer(i, j, "value"@)) == JsonItemView::Str(value)
}

proof fn lemma_scan_state(
    text: Seq<char>,
    i: nat,
    j: nat,
    jt: nat,
    jp: nat,
    jm: nat,
    vt: Seq<char>,
    vp: Seq<char>,
    vm: Seq<char>,
    k: nat,
)
    requires
        j <= k,
        attr_key_is(text, i, jt, "displayTitle"@) && attr_value_is(text, i, jt, vt) && vt.len() > 0,
        attr_key_is(text, i, jp, "player"@) && attr_value_is(text, i, jp, vp) && vp.len() > 0,
        attr_key_is(text, i, jm, "team"@) && attr_value_is(text, i, jm, vm) && vm.len() > 0,
        forall|x: nat| x < k && #[trigger] attr_key_is(text, i, x, "displayTitle"@) ==> x == jt,
        forall|x: nat| x < k && #[trigger] attr_key_is(text, i, x, "player"@) ==> x == jp,
        forall|x: nat| x < k && #[trigger] attr_key_is(text, i, x, "team"@) ==> x == jm,
    ensures
        attr_scan(text, i, j) == (AttrScan {
            title: if jt < j { vt } else { Seq::<char>::empty() },
            player: if jp < j { vp } else { Seq::<char>::empty() },
            team: if jm < j { vm } else { Seq::<char>::empty() },
            stopped: jt < j && jp < j && jm < j,
        }),
    decreases j,
{
    if j > 0 {
        let x = (j - 1) as nat;
        lemma_scan_state(text, i, x, jt, jp, jm, vt, vp, vm, k);
        let s = attr_scan(text, i, x);
        reveal_strlit("displayTitle");
        reveal_strlit("player");
        reveal_strlit("team");
        if !s.stopped {
            let item = json_item_at(text, attr_field_pointer(i, x, "key"@));
            let key = field_text(item);
            let value = field_text(json_item_at(text, attr_field_pointer(i, x, "value"@)));
            assert(key == "displayTitle"@ <==> x == jt) by {
                if key == "displayTitle"@ {
                    assert(item is Str);
                    assert(attr_key_is(text, i, x, "displayTitle"@));
                }
            }
            assert(key == "player"@ <==> x == jp) by {
                if key == "player"@ {
                    assert(item is Str);
                    assert(attr_key_is(text, i, x, "player"@));
                }
            }
            assert(key == "team"@ <==> x == jm) by {
                if key == "team"@ {
                    assert(item is Str);
                    assert(attr_key_is(text, i, x, "team"@));
                }
            }
            if x == jt {
                assert(value == vt);
            }
            if x == jp {
                assert(value == vp);
            }
            if x == jm {
                assert(value == vm);
            }
        }
    }
}

/// Reading a channel's attributes goes on until the title, the player and the team have
/// all been found: when the attributes hold one `displayTitle`, one `player` and one
/// `team`, each with a non-empty string value, the channel gets exactly those three
/// values, wherever they stand in the list.
pub proof fn lemma_scan_finds_title_player_and_team(
    text: Seq<char>,
    i: nat,
    k: nat,
    jt: nat,
    jp: nat,
    jm: nat,
    vt: Seq<char>,
    vp: Seq<char>,
    vm: Seq<char>,
)
    requires
        jt < k && jp < k && jm < k,
        attr_key_is(text, i, jt, "displayTitle"@) && attr_value_is(text, i, jt, vt) && vt.len() > 0,
        attr_key_is(text, i, jp, "player"@) && attr_value_is(text, i, jp, vp) && vp.len() > 0,
        attr_key_is(text, i, jm, "team"@) && attr_value_is(text, i, jm, vm) && vm.len() > 0,
        forall|x: nat| x < k && #[trigger] attr_key_is(text, i, x, "displayTitle"@) ==> x == jt,
        forall|x: nat| x < k && #[trigger] attr_key_is(text, i, x, "player"@) ==> x == jp,
        forall|x: nat| x < k && #[trigger] attr_key_is(text, i, x, "team"@) ==> x == jm,
    ensures
        attr_scan(text, i, k).title == vt,
        attr_scan(text, i, k).player == vp,
        attr_scan(text, i, k).team == vm,
{
    lemma_scan_state(text, i, k, jt, jp, jm, vt, vp, vm, k);
}

} // verus!
