use twitchdl::error::TwitchError;
use twitchdl::http::{client_id_headers, header_line, uses_tls, Fetch};
use twitchdl::twitch::{
    access_token_url, all_access_request, byte_ranges_checked, channel, get_all_access_channels, list, list_all,
    playlist_url, ChannelLookup,
    ALL_ACCESS_QUERY, CLIENT_ID, GQL_CLIENT_ID, GQL_URL, USER_AGENT,
};

const MASTER: &str = "#EXTM3U\n#EXT-X-STREAM-INF:BANDWIDTH=1280000,RESOLUTION=1280x720\nhttps://video.example/720p.m3u8\n#EXT-X-STREAM-INF:BANDWIDTH=640000\nhttps://video.example/360p.m3u8\n";

const MEDIA: &str = "#EXTM3U\n#EXT-X-VERSION:3\n#EXT-X-TARGETDURATION:2\n#EXT-X-MEDIA-SEQUENCE:100\n#EXT-X-PROGRAM-DATE-TIME:2019-03-13T10:26:54.000Z\n#EXTINF:2.000,live\nhttps://video.example/seg100.ts\n#EXTINF:2.500,live\nhttps://video.example/seg101.ts\n#EXTINF:2.000,live\nhttp://video.example/seg102.ts\n";

#[test]
fn access_token_url_is_built() {
    assert_eq!(
        access_token_url("esl_csgo", "abc"),
        "https://api.twitch.tv/api/channels/esl_csgo/access_token?need_https=true&oauth_token=abc&platform=web&player_backend=mediaplayer&player_type=site"
    );
}

#[test]
fn playlist_url_is_built() {
    assert_eq!(
        playlist_url("esl_csgo", "s1", "{\"a\":1}"),
        "https://usher.ttvnw.net/api/channel/hls/esl_csgo.m3u8?allow_source=true&baking_bread=false&baking_brownies=false&baking_brownies_timeout=1050&fast_bread=true&p=5886656&player_backend=mediaplayer&playlist_include_framerate=true&reassignments_supported=true&rtqos=open_asia&sig=s1&token=%7B%22a%22%3A1%7D&cdm=wv"
    );
}

#[test]
fn channel_lookup_resolves_the_first_variant() {
    let s = channel("esl_csgo".to_string(), "".to_string());
    assert_eq!(s.pending_url().unwrap(), access_token_url("esl_csgo", ""));
    let s = s.advance(Ok(b"{\"token\":\"tok\",\"sig\":\"sg\"}".to_vec()));
    assert_eq!(s.pending_url().unwrap(), playlist_url("esl_csgo", "sg", "tok"));
    let s = s.advance(Ok(MASTER.as_bytes().to_vec()));
    assert!(s.pending_url().is_none());
    assert_eq!(s.resolved().unwrap(), "https://video.example/720p.m3u8");
    // A finished lookup does not change.
    let s = s.advance(Err(TwitchError::Json));
    assert_eq!(s.resolved().unwrap(), "https://video.example/720p.m3u8");
}

#[test]
fn missing_token_fields_are_empty() {
    let s = channel("c".to_string(), "t".to_string()).advance(Ok(b"{}".to_vec()));
    assert_eq!(s.pending_url().unwrap(), playlist_url("c", "", ""));
}

#[test]
fn channel_lookup_failures() {
    let s = channel("c".to_string(), "t".to_string()).advance(Err(TwitchError::Http("timeout".to_string())));
    assert!(matches!(s, ChannelLookup::Failed(TwitchError::Http(ref m)) if m == "timeout"));
    let s = channel("c".to_string(), "t".to_string()).advance(Ok(b"not json".to_vec()));
    assert!(matches!(s, ChannelLookup::Failed(TwitchError::Json)));
    let s = channel("c".to_string(), "t".to_string()).advance(Ok(vec![0xff, 0xfe]));
    assert!(matches!(s, ChannelLookup::Abandoned));
    let s = channel("c".to_string(), "t".to_string()).advance(Ok(b"{\"sig\":1}".to_vec()));
    assert!(matches!(s, ChannelLookup::Abandoned));
    let s = channel("c".to_string(), "t".to_string()).advance(Ok(b"{}".to_vec()));
    let s = s.advance(Ok(b"#EXTM3U\n".to_vec()));
    assert!(matches!(s, ChannelLookup::Failed(TwitchError::ParseError(ref m)) if m.is_empty()));
    assert!(s.pending_url().is_none());
}

#[test]
fn media_playlist_is_listed() {
    let got = list(MEDIA.as_bytes(), 42).ok().unwrap();
    assert_eq!(got.len(), 2);
    assert_eq!(got[0].time, 1552472814);
    assert_eq!(got[0].duration, "2");
    assert_eq!(got[0].url, "https://video.example/seg100.ts");
    assert_eq!(got[1].time, 42);
    assert_eq!(got[1].duration, "2.5");
    assert_eq!(got[1].url, "https://video.example/seg101.ts");
}

#[test]
fn an_unreadable_media_playlist_is_a_parse_error() {
    match list(b"\xff\xfe garbage", 0) {
        Err(TwitchError::ParseError(m)) => assert_eq!(m, ""),
        Err(e) => panic!("unexpected error {}", e.message()),
        Ok(v) => assert!(v.is_empty(), "got {} entries", v.len()),
    }
}

#[test]
fn error_messages() {
    assert_eq!(TwitchError::ParseError("x".to_string()).message(), "parse error: 'x'");
    assert_eq!(TwitchError::Json.message(), "JSON error");
    assert_eq!(TwitchError::Http("boom".to_string()).message(), "boom");
    assert_eq!(TwitchError::Http("boom".to_string()).duplicate().message(), "boom");
}

const GQL: &str = r#"[{"data":{"user":{"channel":{"chanlets":[
  {"id":"1","owner":{"login":"owl_main"},"contentAttributes":[
     {"key":"displayTitle","value":"Main Stream / Map"},{"key":"player","value":"all"},{"key":"team","value":"all"},{"key":"ignored","value":5}]},
  {"id":"2","owner":{"login":"owl_pov_ameng"},"contentAttributes":[
     {"key":"team","value":"Chengdu"},{"key":"player","value":"ameng"},{"key":"displayTitle","value":"ameng POV"}]},
  {"id":"3","owner":{"login":"owl_x"},"contentAttributes":[]}
]}}}}]"#;

#[test]
fn all_access_channels_are_read() {
    let got = get_all_access_channels(GQL.as_bytes()).unwrap().ok().unwrap();
    assert_eq!(got.len(), 3);
    assert_eq!(got[0].id, "1");
    assert_eq!(got[0].channel, "owl_main");
    assert_eq!(got[0].name, "Main Stream / Map");
    assert_eq!(got[1].player, "ameng");
    assert_eq!(got[1].team, "Chengdu");
    assert_eq!(got[1].name, "ameng POV");
    assert_eq!(got[2].name, "");
    assert_eq!(got[2].player, "");
}

#[test]
fn all_access_replies_of_another_form() {
    assert!(matches!(get_all_access_channels(b"nope"), Some(Err(TwitchError::Json))));
    assert!(get_all_access_channels(b"[]").is_none());
    assert!(get_all_access_channels(b"{\"0\":{}}").is_none());
    assert!(get_all_access_channels(br#"[{"data":{"user":{"channel":{"chanlets":[{"id":1}]}}}}]"#).is_none());
    let empty = get_all_access_channels(br#"[{"data":{"user":{"channel":{"chanlets":[]}}}}]"#).unwrap().ok().unwrap();
    assert!(empty.is_empty());
}

#[test]
fn requests_carry_client_ids() {
    let r = all_access_request();
    assert_eq!(r.url(), GQL_URL);
    assert_eq!(r.post(), ALL_ACCESS_QUERY);
    assert!(r.is_post());
    let h = r.request_headers();
    assert_eq!(h.len(), 2);
    assert_eq!(h[0], ("client-id".to_string(), GQL_CLIENT_ID.to_string()));
    assert_eq!(h[1], ("User-Agent".to_string(), USER_AGENT.to_string()));
    let mut f = Fetch::new();
    f.header.push(("Authorization".to_string(), "OAuth x".to_string()));
    f.set_url("https://api.twitch.tv/kraken".to_string());
    assert!(!f.is_post());
    let h = f.request_headers();
    assert_eq!(h.len(), 3);
    assert_eq!(h[0].0, "Authorization");
    assert_eq!(h[1], ("client-id".to_string(), CLIENT_ID.to_string()));
    assert!(client_id_headers("https://usher.ttvnw.net/x").is_empty());
    assert_eq!(header_line("client-id", CLIENT_ID), format!("client-id: {}", CLIENT_ID));
    assert!(uses_tls("https://x"));
    assert!(!uses_tls("http://x"));
}

#[test]
fn a_full_listing_keeps_every_segment() {
    let got = list_all(MEDIA.as_bytes(), 42).ok().unwrap();
    assert_eq!(got.len(), 3);
    assert_eq!(got[0].time, 1552472814);
    assert_eq!(got[1].duration, "2.5");
    assert_eq!(got[2].url, "http://video.example/seg102.ts");
    assert_eq!(got[2].time, 42);
}

#[test]
fn byte_ranges_are_checked_before_parsing() {
    assert!(byte_ranges_checked(MEDIA.as_bytes()));
    assert!(byte_ranges_checked(b"#EXT-X-MAP:URI=\"a\",BYTERANGE=\"100@0\"\n"));
    assert!(byte_ranges_checked(b"#EXT-X-MAP:URI=\"a\",BYTERANGE=100@0\n"));
    assert!(!byte_ranges_checked(b"#EXT-X-MAP:URI=\"a\",BYTERANGE=\"abc\"\n"));
    assert!(!byte_ranges_checked(b"#EXT-X-MAP:URI=\"a\",BYTERANGE=\"100\"\n"));
    assert!(!byte_ranges_checked(b"#EXT-X-MAP:URI=\"a\",BYTERANGE=99999999999@0\n"));
    let bad = "#EXTM3U\n#EXT-X-TARGETDURATION:2\n#EXT-X-MAP:URI=\"a\",BYTERANGE=\"abc\"\n#EXTINF:2.000,\nhttps://v/s.ts\n";
    assert!(matches!(list(bad.as_bytes(), 0), Err(TwitchError::ParseError(ref m)) if m.is_empty()));
    assert!(matches!(list_all(bad.as_bytes(), 0), Err(TwitchError::ParseError(ref m)) if m.is_empty()));
    let good = "#EXTM3U\n#EXT-X-TARGETDURATION:2\n#EXT-X-MAP:URI=\"a\",BYTERANGE=\"100@0\"\n#EXTINF:2.000,\nhttps://v/s.ts\n";
    assert_eq!(list(good.as_bytes(), 0).ok().unwrap().len(), 1);
}

#[test]
fn only_map_tag_byte_ranges_are_tested() {
    let in_uri = "#EXTM3U\n#EXTINF:2.000,live\nhttps://v/1.ts?BYTERANGE=x\n";
    assert!(byte_ranges_checked(in_uri.as_bytes()));
    let got = list(in_uri.as_bytes(), 7).ok().unwrap();
    assert_eq!(got.len(), 1);
    assert_eq!(got[0].url, "https://v/1.ts?BYTERANGE=x");
    assert_eq!(list_all(in_uri.as_bytes(), 7).ok().unwrap().len(), 1);
    assert!(byte_ranges_checked(b"#EXT-X-MAP:URI=\"a\",XBYTERANGE=\"abc\"\n"));
    assert!(byte_ranges_checked(b"#EXT-X-MAP:URI=\"a\",BYTERANGE=\"abc\""));
    assert!(byte_ranges_checked(b"#EXT-X-MAP:BYTERANGE=\"abc\",BYTERANGE=\"1@2\"\n"));
    assert!(!byte_ranges_checked(b"#EXT-X-MAP:BYTERANGE=\"1@2\",BYTERANGE=\"abc\"\n"));
    assert!(!byte_ranges_checked(b"#EXT-X-MAP: URI=\"a\", BYTERANGE=7\n"));
    assert!(byte_ranges_checked(b"#EXT-X-MAP:URI=\"a\"\n#EXTINF:1,\nBYTERANGE=x\n"));
}

#[test]
fn accepted_map_tags_are_read_by_m3u8_rs() {
    let cases = [
        "#EXTM3U\n#EXT-X-MAP:URI=\"a\",BYTERANGE=\"abc\"",
        "#EXTM3U\n#EXT-X-MAP:BYTERANGE=\"abc\",BYTERANGE=\"1@2\"\n#EXTINF:2,\nhttps://v/1.ts\n",
        "#EXTM3U\n#EXT-X-MAP:URI=\"a\",XBYTERANGE=\"abc\"\n#EXTINF:2,\nhttps://v/1.ts\n",
        "#EXTM3U\n#EXT-X-MAP:URI=\"a\",BYTERANGE=12@\n#EXTINF:2,\nhttps://v/1.ts\n",
        "#EXTM3U\n#EXT-X-MAP:URI=\"a\",BYTERANGE=12x\n#EXTINF:2,\nhttps://v/1.ts\n",
    ];
    for c in cases.iter() {
        assert!(byte_ranges_checked(c.as_bytes()));
        let _ = list(c.as_bytes(), 0);
        let _ = list_all(c.as_bytes(), 0);
    }
}
