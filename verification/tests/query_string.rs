use twitchdl::query::build_query;

#[test]
fn plain_pairs_are_joined_in_order() {
    let q = build_query(vec![("need_https", "true"), ("platform", "web")]);
    assert_eq!(q, "need_https=true&platform=web");
}

#[test]
fn empty_query_is_empty() {
    assert_eq!(build_query(vec![]), "");
    assert_eq!(build_query(vec![("", "")]), "=");
}

#[test]
fn reserved_and_non_ascii_characters_are_encoded() {
    let q = build_query(vec![("a b", "c&d=é"), ("x*-._", "~!")]);
    assert_eq!(q, "a+b=c%26d%3D%C3%A9&x*-._=%7E%21");
}

#[test]
fn query_splits_back_into_its_pairs() {
    let pairs = vec![("k&1", "v=1"), ("k 2", ""), ("", "v3")];
    let q = build_query(pairs.clone());
    let pieces: Vec<&str> = q.split('&').collect();
    assert_eq!(pieces.len(), pairs.len());
    for p in pieces {
        assert_eq!(p.split('=').count(), 2);
    }
}

#[test]
fn a_built_query_decodes_to_its_pairs() {
    let pairs = vec![("k&1", "v=1"), ("k 2", ""), ("", "v3"), ("é+%", "a b+c")];
    let q = build_query(pairs.clone());
    let decoded: Vec<(String, String)> =
        url::form_urlencoded::parse(q.as_bytes()).map(|(k, v)| (k.into_owned(), v.into_owned())).collect();
    let expected: Vec<(String, String)> = pairs.iter().map(|(k, v)| (k.to_string(), v.to_string())).collect();
    assert_eq!(decoded, expected);
}
