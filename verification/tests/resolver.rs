use starknet_lb::cli::{DnsSpec, UpstreamSpec};
use starknet_lb::resolver::{ResolveError, UpstreamResolver};
use starknet_lb::store::UpstreamResolvedEvent;

fn raw(url: &str) -> UpstreamSpec {
    UpstreamSpec::Raw(url.to_string())
}

fn dns(host_port: &str, path: &str) -> UpstreamSpec {
    UpstreamSpec::Dns(DnsSpec {
        host_port: host_port.to_string(),
        path: path.to_string(),
    })
}

fn endpoints(ids: &[starknet_lb::endpoint::UpstreamId]) -> Vec<String> {
    ids.iter().map(|id| id.endpoint.clone()).collect()
}

fn run(
    resolver: &mut UpstreamResolver,
    lookups: Vec<Option<Vec<&str>>>,
) -> Result<Option<UpstreamResolvedEvent>, ResolveError> {
    let lookups: Vec<Option<Vec<String>>> = lookups
        .into_iter()
        .map(|l| l.map(|addrs| addrs.into_iter().map(|a| a.to_string()).collect()))
        .collect();
    resolver.run_inner(&lookups)
}

#[test]
fn first_round_adds_raw_upstreams_once() {
    let mut resolver = UpstreamResolver::new(vec![
        raw("http://a.example/"),
        raw("http://b.example/"),
        raw("http://a.example/"),
    ]);
    let event = run(&mut resolver, vec![]).ok().unwrap().unwrap();
    assert_eq!(
        endpoints(&event.addition),
        vec!["http://a.example/".to_string(), "http://b.example/".to_string()]
    );
    assert!(event.removal.is_empty());
}

#[test]
fn settled_round_sends_no_event() {
    let mut resolver = UpstreamResolver::new(vec![raw("http://a.example/")]);
    assert!(run(&mut resolver, vec![None]).ok().unwrap().is_some());
    assert!(run(&mut resolver, vec![None]).ok().unwrap().is_none());
}

#[test]
fn dns_addresses_become_urls_under_the_path() {
    let mut resolver = UpstreamResolver::new(vec![dns("node.local:9545", "/rpc/v0_7")]);
    let event = run(&mut resolver, vec![Some(vec!["10.0.0.1:9545", "10.0.0.2:9545"])])
        .ok()
        .unwrap()
        .unwrap();
    assert_eq!(
        endpoints(&event.addition),
        vec![
            "http://10.0.0.2:9545/rpc/v0_7".to_string(),
            "http://10.0.0.1:9545/rpc/v0_7".to_string()
        ]
    );
}

#[test]
fn vanished_address_is_removed_and_new_one_added() {
    let mut resolver = UpstreamResolver::new(vec![dns("node.local:9545", "/")]);
    run(&mut resolver, vec![Some(vec!["10.0.0.1:9545", "10.0.0.2:9545"])])
        .ok()
        .unwrap();
    let event = run(&mut resolver, vec![Some(vec!["10.0.0.2:9545", "10.0.0.3:9545"])])
        .ok()
        .unwrap()
        .unwrap();
    assert_eq!(endpoints(&event.addition), vec!["http://10.0.0.3:9545/".to_string()]);
    assert_eq!(endpoints(&event.removal), vec!["http://10.0.0.1:9545/".to_string()]);
}

#[test]
fn failed_lookup_removes_its_upstreams() {
    let mut resolver = UpstreamResolver::new(vec![dns("node.local:9545", "/"), raw("http://b.example/")]);
    run(&mut resolver, vec![Some(vec!["10.0.0.1:9545"]), None])
        .ok()
        .unwrap();
    let event = run(&mut resolver, vec![None, None]).ok().unwrap().unwrap();
    assert!(event.addition.is_empty());
    assert_eq!(endpoints(&event.removal), vec!["http://10.0.0.1:9545/".to_string()]);
}

#[test]
fn invalid_address_url_fails_the_round_and_changes_nothing() {
    let mut resolver = UpstreamResolver::new(vec![dns("node.local:9545", "/")]);
    run(&mut resolver, vec![Some(vec!["10.0.0.1:9545"])]).ok().unwrap();
    match run(&mut resolver, vec![Some(vec!["10.0.0.2:9545", "[bad"])]) {
        Err(ResolveError::InvalidUrl(url)) => assert_eq!(url, "http://[bad/"),
        _ => panic!("expected an invalid url"),
    }
    // The earlier upstream is still known: the same lookup again is quiet.
    assert!(run(&mut resolver, vec![Some(vec!["10.0.0.1:9545"])])
        .ok()
        .unwrap()
        .is_none());
}

#[test]
fn upstream_specs_are_kept() {
    let resolver = UpstreamResolver::new(vec![raw("http://a.example/"), dns("n:1", "/")]);
    assert_eq!(resolver.upstream_specs().len(), 2);
}
