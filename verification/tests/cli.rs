use starknet_lb::cli::{SpecParseError, UpstreamSpec, UpstreamSpecParser};

fn dns(raw: &str) -> (String, String) {
    match UpstreamSpecParser.parse_ref(raw) {
        Ok(UpstreamSpec::Dns(spec)) => (spec.host_port, spec.path),
        other => panic!("expected a DNS spec, got {:?}", other),
    }
}

#[test]
fn dns_spec_gets_default_port_and_root_path() {
    assert_eq!(
        dns("dns:pathfinder.default.svc.cluster.local"),
        ("pathfinder.default.svc.cluster.local:9545".to_string(), "/".to_string())
    );
}

#[test]
fn dns_spec_keeps_given_port() {
    assert_eq!(
        dns("dns:pathfinder.default.svc.cluster.local:8080"),
        ("pathfinder.default.svc.cluster.local:8080".to_string(), "/".to_string())
    );
}

#[test]
fn dns_spec_keeps_given_path() {
    assert_eq!(
        dns("dns:pathfinder.default.svc.cluster.local/rpc/v0_7"),
        ("pathfinder.default.svc.cluster.local:9545".to_string(), "/rpc/v0_7".to_string())
    );
}

#[test]
fn dns_spec_with_port_and_path() {
    assert_eq!(
        dns("dns:pathfinder.default.svc.cluster.local:8080/rpc/v0_7"),
        ("pathfinder.default.svc.cluster.local:8080".to_string(), "/rpc/v0_7".to_string())
    );
}

#[test]
fn dns_spec_splits_at_first_slash() {
    assert_eq!(dns("dns:h/a:b/c"), ("h:9545".to_string(), "/a:b/c".to_string()));
    assert_eq!(dns("dns:"), (":9545".to_string(), "/".to_string()));
}

#[test]
fn raw_url_spec_is_parsed() {
    match UpstreamSpecParser.parse_ref("https://starknet-mainnet.public.blastapi.io/rpc/v0_7") {
        Ok(UpstreamSpec::Raw(url)) => {
            assert_eq!(url, "https://starknet-mainnet.public.blastapi.io/rpc/v0_7")
        }
        other => panic!("expected a raw spec, got {:?}", other),
    }
}

#[test]
fn raw_url_spec_is_normalized() {
    match UpstreamSpecParser.parse_ref("HTTP://Example.COM") {
        Ok(UpstreamSpec::Raw(url)) => assert_eq!(url, "http://example.com/"),
        other => panic!("expected a raw spec, got {:?}", other),
    }
}

#[test]
fn invalid_url_spec_is_refused() {
    match UpstreamSpecParser.parse_ref("not a url") {
        Err(err) => {
            assert_eq!(err, SpecParseError::InvalidUrl);
            assert_eq!(err.message(), "invalid url");
        }
        other => panic!("expected an error, got {:?}", other),
    }
}

#[test]
fn dns_prefix_is_case_sensitive() {
    // `DNS:` is not the DNS prefix, so the value is taken as a URL with scheme `dns`.
    match UpstreamSpecParser.parse_ref("DNS:upper.case") {
        Ok(UpstreamSpec::Raw(url)) => assert_eq!(url, "dns:upper.case"),
        other => panic!("expected a raw spec, got {:?}", other),
    }
}
