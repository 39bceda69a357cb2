use ssr_manager::cli::{expect_value, Argument};
use ssr_manager::codec::encode;
use ssr_manager::errors::{Field, ResolveError};
use ssr_manager::ssr::{
    encode_ssr_link, parse_link_body, parse_params, resolve_ssr_link, resolve_ssr_raw,
    resolve_ssr_rss, Node,
};

fn enc(text: &str) -> String {
    encode(&text.as_bytes().to_vec())
}

fn link_of(record: &str) -> String {
    format!("ssr://{}", enc(record))
}

fn sample_record(remark: &str) -> String {
    format!(
        "1.2.3.4:8080:origin:aes-256-cfb:plain:{}/?obfsparam={}&remarks={}&group={}",
        enc("pw"),
        enc(""),
        enc(remark),
        enc("G1")
    )
}

#[test]
fn resolves_concrete_subscription() {
    let body = format!("{}\n", link_of(&sample_record("MyNode")));
    let nodes = resolve_ssr_rss(&body).unwrap();
    assert_eq!(nodes.len(), 1);
    let node = &nodes[0];
    assert_eq!(node.ip, "1.2.3.4");
    assert_eq!(node.port, 8080);
    assert_eq!(node.protocol, "origin");
    assert_eq!(node.method, "aes-256-cfb");
    assert_eq!(node.obfs, "plain");
    assert_eq!(node.password, "pw");
    assert_eq!(node.obfsparam, "");
    assert_eq!(node.name, "MyNode");
    assert_eq!(node.group, "G1");
}

#[test]
fn missing_scheme_prefix() {
    assert!(matches!(
        resolve_ssr_link("ss://AAA"),
        Err(ResolveError::InvalidScheme)
    ));
    assert!(matches!(
        resolve_ssr_link(""),
        Err(ResolveError::InvalidScheme)
    ));
}

#[test]
fn missing_separator_is_params_not_found() {
    assert_eq!(
        resolve_ssr_raw("1.2.3.4:8080:origin:aes:plain:cHc").unwrap_err(),
        ResolveError::NotFound(Field::Params)
    );
}

#[test]
fn too_few_fields_name_the_first_absent_one() {
    assert_eq!(
        resolve_ssr_raw("1.2.3.4/?x=").unwrap_err(),
        ResolveError::NotFound(Field::Port)
    );
    assert_eq!(
        resolve_ssr_raw("1.2.3.4:8080/?x=").unwrap_err(),
        ResolveError::NotFound(Field::Protocol)
    );
    assert_eq!(
        resolve_ssr_raw("1.2.3.4:8080:origin/?x=").unwrap_err(),
        ResolveError::NotFound(Field::Method)
    );
    assert_eq!(
        resolve_ssr_raw("1.2.3.4:8080:origin:aes/?x=").unwrap_err(),
        ResolveError::NotFound(Field::Obfs)
    );
    assert_eq!(
        resolve_ssr_raw("1.2.3.4:8080:origin:aes:plain/?x=").unwrap_err(),
        ResolveError::NotFound(Field::Password)
    );
}

#[test]
fn non_numeric_port() {
    assert_eq!(
        resolve_ssr_raw("1.2.3.4:abc:origin:aes:plain:cHc/?x=").unwrap_err(),
        ResolveError::MalformedInteger
    );
}

#[test]
fn port_extremes_parse() {
    let zero = format!("h:0:p:m:o:{}/?obfsparam=&remarks=&group=", enc("pw"));
    assert_eq!(resolve_ssr_raw(&zero).unwrap().port, 0);
    let max = format!("h:4294967295:p:m:o:{}/?obfsparam=&remarks=&group=", enc("pw"));
    assert_eq!(resolve_ssr_raw(&max).unwrap().port, 4294967295);
    let zeros = format!("h:0080:p:m:o:{}/?obfsparam=&remarks=&group=", enc("pw"));
    assert_eq!(resolve_ssr_raw(&zeros).unwrap().port, 80);
}

#[test]
fn empty_port_field_is_malformed() {
    assert_eq!(
        resolve_ssr_raw("h::p:m:o:cHc/?obfsparam=&remarks=&group=").unwrap_err(),
        ResolveError::MalformedInteger
    );
}

#[test]
fn oversized_port() {
    assert_eq!(
        resolve_ssr_raw("1.2.3.4:99999999999:origin:aes:plain:cHc/?x=").unwrap_err(),
        ResolveError::MalformedInteger
    );
}

#[test]
fn missing_required_parameter_keys() {
    let base = format!("1.2.3.4:8080:origin:aes:plain:{}", enc("pw"));
    assert_eq!(
        resolve_ssr_raw(&format!("{}/?remarks=&group=", base)).unwrap_err(),
        ResolveError::NotFound(Field::Obfsparam)
    );
    assert_eq!(
        resolve_ssr_raw(&format!("{}/?obfsparam=&group=", base)).unwrap_err(),
        ResolveError::NotFound(Field::Remarks)
    );
    assert_eq!(
        resolve_ssr_raw(&format!("{}/?obfsparam=&remarks=", base)).unwrap_err(),
        ResolveError::NotFound(Field::Group)
    );
}

#[test]
fn parameter_pair_without_equals_sign() {
    assert_eq!(
        resolve_ssr_raw("1.2.3.4:8080:origin:aes:plain:cHc/?novalue").unwrap_err(),
        ResolveError::NotFound(Field::ParamValue)
    );
}

#[test]
fn duplicate_parameter_key_keeps_last() {
    let record = format!(
        "1.2.3.4:8080:origin:aes:plain:{}/?obfsparam={}&remarks={}&group={}&obfsparam={}",
        enc("pw"),
        enc("first"),
        enc("n"),
        enc("g"),
        enc("second")
    );
    let node = resolve_ssr_raw(&record).unwrap();
    assert_eq!(node.obfsparam, "second");
}

#[test]
fn fields_beyond_the_sixth_are_ignored() {
    let record = format!(
        "1.2.3.4:8080:origin:aes:plain:{}:extra/?obfsparam=&remarks=&group=",
        enc("pw")
    );
    let node = resolve_ssr_raw(&record).unwrap();
    assert_eq!(node.password, "pw");
}

#[test]
fn blank_lines_do_not_add_nodes_or_disturb_order() {
    let body = format!(
        "\n{}\n\n\n{}\n",
        link_of(&sample_record("first")),
        link_of(&sample_record("second"))
    );
    let nodes = resolve_ssr_rss(&body).unwrap();
    assert_eq!(nodes.len(), 2);
    assert_eq!(nodes[0].name, "first");
    assert_eq!(nodes[1].name, "second");
}

#[test]
fn whitespace_only_line_is_not_blank() {
    let body = format!("{}\n \n", link_of(&sample_record("a")));
    assert!(matches!(
        resolve_ssr_rss(&body),
        Err(ResolveError::InvalidScheme)
    ));
}

#[test]
fn second_of_three_lines_failing_aborts_everything() {
    let bad = link_of(&format!(
        "1.2.3.4:8080:origin:aes:plain:{}/?obfsparam=&remarks=",
        enc("pw")
    ));
    let body = format!(
        "{}\n{}\n{}\n",
        link_of(&sample_record("one")),
        bad,
        link_of(&sample_record("three"))
    );
    assert_eq!(
        resolve_ssr_rss(&body).unwrap_err(),
        ResolveError::NotFound(Field::Group)
    );
}

#[test]
fn empty_subscription_is_empty() {
    assert_eq!(resolve_ssr_rss("").unwrap().len(), 0);
}

#[test]
fn bad_base64_line_is_decode_error() {
    assert!(matches!(
        resolve_ssr_link("ssr://!!!"),
        Err(ResolveError::DecodeError)
    ));
}

#[test]
fn parse_link_body_splits_the_record() {
    let record = format!("10.0.0.1:443:origin:rc4-md5:tls:{}/?a=&b=", enc("secret"));
    let parts = parse_link_body(&record).unwrap();
    assert_eq!(parts.ip, "10.0.0.1");
    assert_eq!(parts.port, 443);
    assert_eq!(parts.protocol, "origin");
    assert_eq!(parts.method, "rc4-md5");
    assert_eq!(parts.obfs, "tls");
    assert_eq!(parts.password, "secret");
    assert_eq!(parts.params_raw, "a=&b=");
}

#[test]
fn parse_params_decodes_values() {
    let raw = format!("a={}&b=", enc("value"));
    let params = parse_params(&raw).unwrap();
    assert_eq!(params.get("a").unwrap().as_str(), "value");
    assert_eq!(params.get("b").unwrap().as_str(), "");
    assert!(params.get("c").is_none());
}

#[test]
fn built_link_resolves_back_to_the_node() {
    let node = Node {
        ip: "9.8.7.6".to_string(),
        port: 65535,
        protocol: "auth_sha1_v4".to_string(),
        method: "chacha20".to_string(),
        obfs: "http_simple".to_string(),
        password: "p@ss=word&?".to_string(),
        obfsparam: "obfs.example.com".to_string(),
        name: "My Node \u{2603}".to_string(),
        group: "Group One".to_string(),
    };
    let link = encode_ssr_link(&node);
    let back = resolve_ssr_link(&link).unwrap();
    assert_eq!(back.ip, node.ip);
    assert_eq!(back.port, node.port);
    assert_eq!(back.protocol, node.protocol);
    assert_eq!(back.method, node.method);
    assert_eq!(back.obfs, node.obfs);
    assert_eq!(back.password, node.password);
    assert_eq!(back.obfsparam, node.obfsparam);
    assert_eq!(back.name, node.name);
    assert_eq!(back.group, node.group);
}

#[test]
fn redacted_copy_hides_password_only() {
    let node = resolve_ssr_raw(&sample_record("n")).unwrap();
    let shown = node.redacted();
    assert_eq!(shown.password, "<HIDDEN>");
    assert_eq!(shown.name, node.name);
    assert_eq!(node.password, "pw");
}

#[test]
fn error_messages_name_the_missing_item() {
    assert_eq!(
        ResolveError::not_found(Field::Group).message(),
        "can not found 'group' in link"
    );
    assert_eq!(Field::Remarks.name(), "remarks");
    assert_eq!(
        ResolveError::InvalidScheme.message(),
        "link does not start with 'ssr://'"
    );
}

#[test]
fn expect_value_returns_the_value() {
    let arg = Some(Argument::Value("rss.txt".to_string()));
    assert_eq!(expect_value(arg, "rssFile"), "rss.txt");
}
