use collection::url::{decode_url, encode_url, Authority, ParseError, Query, URLScheme, Url};

#[test]
fn url_parse() {
    let url =
        Url::parse("https://user@www.domain.com:3232/path1/path2/path3?name=david&age=23#about")
            .unwrap();
    assert_eq!(url.scheme(), URLScheme::HTTPS);
    assert_eq!(url.userinfo(), Some("user"));
    assert_eq!(url.host(), "www.domain.com");
    assert_eq!(url.port(), Some(3232));
    assert_eq!(url.path(), "/path1/path2/path3");
    assert_eq!(url.path_segments(), vec!["path1", "path2", "path3"]);
    let query_parameters = url.query();
    assert_eq!(query_parameters.get("name"), Some(&"david".to_string()));
    assert_eq!(query_parameters.get("age"), Some(&"23".to_string()));
    assert_eq!(url.fragment(), Some("about"));
}

#[test]
fn test_url_parse() {
    let url =
        Url::parse("https://user@www.domain.com:3232/path1/path2/path3?name=david&age=23#about")
            .unwrap();
    assert_eq!(url.scheme(), URLScheme::HTTPS);
    assert_eq!(url.userinfo(), Some("user"));
    assert_eq!(url.host(), "www.domain.com");
    assert_eq!(url.port(), Some(3232));
    assert_eq!(url.path(), "/path1/path2/path3");
    assert_eq!(url.path_segments(), vec!["path1", "path2", "path3"]);
    let query_parameters = url.query();
    assert_eq!(query_parameters.get("name"), Some(&"david".to_string()));
    assert_eq!(query_parameters.get("age"), Some(&"23".to_string()));
    assert_eq!(url.fragment(), Some("about"));
}

#[test]
fn scheme_names() {
    assert_eq!(URLScheme::HTTPS.as_str(), "https");
    assert_eq!(URLScheme::HTTP.as_str(), "http");
    assert_eq!(URLScheme::FILE.as_str(), "file");
    assert_eq!(URLScheme::FTP.as_str(), "ftp");
}

#[test]
fn scheme_case_is_ignored() {
    let url = Url::parse("HTTPS://host/").unwrap();
    assert_eq!(url.scheme(), URLScheme::HTTPS);
    assert_eq!(url.host(), "host");
    assert_eq!(url.userinfo(), None);
    assert_eq!(url.port(), None);
    assert_eq!(url.path(), "/");
    assert_eq!(url.fragment(), None);
}

#[test]
fn minimal_url_has_empty_path() {
    let url = Url::parse("ftp://mirror").unwrap();
    assert_eq!(url.scheme(), URLScheme::FTP);
    assert_eq!(url.host(), "mirror");
    assert_eq!(url.path(), "");
    assert_eq!(url.path_segments(), Vec::<&str>::new());
    assert_eq!(url.query().get("any"), None);
}

#[test]
fn fragment_without_query() {
    let url = Url::parse("http://h/p#frag").unwrap();
    assert_eq!(url.path(), "/p");
    assert_eq!(url.fragment(), Some("frag"));
}

#[test]
fn each_parse_fault_has_its_input() {
    assert_eq!(Url::parse("no-colon-here").unwrap_err(), ParseError::Malformed);
    assert_eq!(Url::parse(":missing//scheme").unwrap_err(), ParseError::Malformed);
    assert_eq!(Url::parse("http:/one-slash").unwrap_err(), ParseError::Malformed);
    assert_eq!(Url::parse("http:///empty-authority").unwrap_err(), ParseError::Malformed);
    assert_eq!(Url::parse("gopher://host").unwrap_err(), ParseError::InvalidScheme);
    assert_eq!(Url::parse("http://@host").unwrap_err(), ParseError::InvalidAuthority);
    assert_eq!(Url::parse("http://host:").unwrap_err(), ParseError::InvalidPort);
    assert_eq!(Url::parse("http://host:12x").unwrap_err(), ParseError::InvalidPort);
    assert_eq!(Url::parse("http://host:4294967296").unwrap_err(), ParseError::InvalidPort);
    assert_eq!(Url::parse("http://host/p?noequals").unwrap_err(), ParseError::InvalidQuery);
    assert_eq!(Url::parse("http://host/p?=v").unwrap_err(), ParseError::InvalidQuery);
    assert_eq!(Url::parse("http://host/p?k=").unwrap_err(), ParseError::InvalidQuery);
}

#[test]
fn later_query_pair_wins() {
    let url = Url::parse("http://h/p?a=1&b=2&a=3").unwrap();
    assert_eq!(url.query().get("a"), Some(&"3".to_string()));
    assert_eq!(url.query().get("b"), Some(&"2".to_string()));
    assert_eq!(url.query().to_string(), "a=1&b=2&a=3");
}

#[test]
fn query_value_may_hold_equals() {
    let url = Url::parse("http://h/p?expr=1=2").unwrap();
    assert_eq!(url.query().get("expr"), Some(&"1=2".to_string()));
}

#[test]
fn authority_parse_and_to_string() {
    let authority = Authority::parse("user@www.domain.com:3232").unwrap();
    assert_eq!(authority.to_string(), "user@www.domain.com:3232");

    let bare = Authority::parse("www.domain.com").unwrap();
    assert_eq!(bare.to_string(), "www.domain.com");

    assert_eq!(Authority::parse("@host").unwrap_err(), ParseError::InvalidAuthority);
    assert_eq!(Authority::parse("host:0x10").unwrap_err(), ParseError::InvalidPort);
}

#[test]
fn empty_query_renders_empty() {
    let q = Query::new();
    assert_eq!(q.to_string(), "");
    assert_eq!(q.get("missing"), None);
}

#[test]
fn url_to_string_writes_back() {
    let input = "https://user@www.domain.com:3232/path1/path2/path3?name=david&age=23#about";
    let url = Url::parse(input).unwrap();
    assert_eq!(url.to_string(), input);

    let plain = Url::parse("HTTP://h/p").unwrap();
    assert_eq!(plain.to_string(), "http://h/p");
}

#[test]
fn test_pair_endcode_decode_url() {
    assert_eq!(
        encode_url("user@somemail.com:some@@pa??!#$ord"),
        "user%40somemail.com%3Asome%40%40pa%3F%3F%21%23%24ord"
    );
    assert_eq!(
        decode_url("user%40somemail.com%3Asome%40%40pa%3F%3F%21%23%24ord").unwrap(),
        String::from("user@somemail.com:some@@pa??!#$ord")
    );
    assert_eq!(encode_url("/패스/사용자?이름=아무개&나이=32"), "%2F%ED%8C%A8%EC%8A%A4%2F%EC%82%AC%EC%9A%A9%EC%9E%90%3F%EC%9D%B4%EB%A6%84%3D%EC%95%84%EB%AC%B4%EA%B0%9C%26%EB%82%98%EC%9D%B4%3D32");
    assert_eq!(decode_url("%2F%ED%8C%A8%EC%8A%A4%2F%EC%82%AC%EC%9A%A9%EC%9E%90%3F%EC%9D%B4%EB%A6%84%3D%EC%95%84%EB%AC%B4%EA%B0%9C%26%EB%82%98%EC%9D%B4%3D32").unwrap(), String::from("/패스/사용자?이름=아무개&나이=32"));
}

#[test]
fn decode_passes_plain_text_through() {
    assert_eq!(decode_url("plain text!").unwrap(), "plain text!");
    assert_eq!(decode_url("a%20b").unwrap(), "a b");
    assert_eq!(decode_url("").unwrap(), "");
}

#[test]
fn decode_refuses_broken_escapes() {
    assert_eq!(decode_url("%").unwrap_err(), ParseError::InvalidEncoding);
    assert_eq!(decode_url("%4").unwrap_err(), ParseError::InvalidEncoding);
    assert_eq!(decode_url("%GG").unwrap_err(), ParseError::InvalidEncoding);
    // a lone continuation byte
    assert_eq!(decode_url("%80").unwrap_err(), ParseError::InvalidEncoding);
    // a two-byte lead without its continuation escape
    assert_eq!(decode_url("%C3x").unwrap_err(), ParseError::InvalidEncoding);
    // a two-byte lead followed by a non-continuation byte
    assert_eq!(decode_url("%C3%28").unwrap_err(), ParseError::InvalidEncoding);
    // an overlong encoding of NUL
    assert_eq!(decode_url("%C0%80").unwrap_err(), ParseError::InvalidEncoding);
    // a surrogate
    assert_eq!(decode_url("%ED%A0%80").unwrap_err(), ParseError::InvalidEncoding);
    // past the largest scalar
    assert_eq!(decode_url("%F4%90%80%80").unwrap_err(), ParseError::InvalidEncoding);
}

#[test]
fn encode_escapes_reserved_ascii() {
    assert_eq!(encode_url("abc-123_~."), "abc-123_~.");
    assert_eq!(encode_url("a/b?c"), "a%2Fb%3Fc");
    assert_eq!(encode_url("100%"), "100%25");
}
