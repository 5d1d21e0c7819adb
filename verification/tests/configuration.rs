use fourward::alias::{run, set_alias, AliasCmd};
use fourward::config::{
    ApiConfig, AwsConfig, ConfigError, DnsProvider, DomainConfig, EngineSettings, FourwardConfig,
    RateLimitConfig,
};
use fourward::deploy::{
    alias_map_json, is_up_to_date, stack_parameters, stack_state, StackState, StackWatch, WatchStep,
};
use fourward::forward::{
    alias_map, banner_enabled, relay, relay_settings, resolve_destinations,
};
use fourward::setup::{default_stack_name, initial_config, sandbox_line, use_case, Answers};
use serde_json::Value;

fn sample() -> &'static str {
    r#"{
        "version": "1",
        "project": "demo",
        "aws": {"region": "us-east-1", "profile": "default", "stack_name": "fourward-demo"},
        "api": {"enabled": true, "cors": ["*"], "rate_limit": {"requests_per_second": 100, "burst": 200}},
        "settings": {"banner_enabled": true, "retention_days": 1, "sender_format": "{name} (via {alias}) <relay@{domain}>"},
        "domains": [
            {"domain": "example.com", "dns_provider": "route53", "catch_all": "me@gmail.com", "routes": {"support": ["a@x.com", "b@x.com"]}}
        ]
    }"#
}

fn text(v: &Value) -> String {
    v.as_str().unwrap().to_string()
}

fn list(v: &Value) -> Vec<String> {
    v.as_array().unwrap().iter().map(text).collect()
}

fn domain(v: &Value) -> DomainConfig {
    DomainConfig {
        domain: text(&v["domain"]),
        dns_provider: if v["dns_provider"] == "route53" {
            DnsProvider::Route53
        } else {
            DnsProvider::External
        },
        catch_all: v["catch_all"].as_str().map(|s| s.to_string()),
        routes: v["routes"]
            .as_object()
            .unwrap()
            .iter()
            .map(|(k, d)| (k.clone(), list(d)))
            .collect(),
    }
}

fn decode(s: &str) -> Result<FourwardConfig, String> {
    let v: Value = serde_json::from_str(s).map_err(|e| e.to_string())?;
    Ok(FourwardConfig {
        version: text(&v["version"]),
        project: text(&v["project"]),
        aws: AwsConfig {
            region: text(&v["aws"]["region"]),
            profile: text(&v["aws"]["profile"]),
            stack_name: text(&v["aws"]["stack_name"]),
        },
        api: ApiConfig {
            enabled: v["api"]["enabled"].as_bool().unwrap(),
            cors: list(&v["api"]["cors"]),
            rate_limit: RateLimitConfig {
                requests_per_second: v["api"]["rate_limit"]["requests_per_second"].as_u64().unwrap()
                    as u32,
                burst: v["api"]["rate_limit"]["burst"].as_u64().unwrap() as u32,
            },
        },
        settings: EngineSettings {
            banner_enabled: v["settings"]["banner_enabled"].as_bool().unwrap(),
            retention_days: v["settings"]["retention_days"].as_u64().unwrap() as u32,
            sender_format: text(&v["settings"]["sender_format"]),
        },
        domains: v["domains"].as_array().unwrap().iter().map(domain).collect(),
    })
}

fn config() -> FourwardConfig {
    FourwardConfig::from_json(decode(sample())).unwrap()
}

fn problem(cfg: &FourwardConfig) -> String {
    cfg.validate().unwrap_err().message()
}

#[test]
fn parses_and_validates() {
    let cfg = FourwardConfig::from_json(decode(sample())).unwrap();
    assert_eq!(cfg.project, "demo");
    assert_eq!(cfg.domains.len(), 1);
}

#[test]
fn rejects_empty_domains() {
    let mut cfg = FourwardConfig::from_json(decode(sample())).unwrap();
    cfg.domains.clear();
    assert!(cfg.validate().is_err());
}

#[test]
fn resolves_routes_and_catch_all() {
    let cfg = FourwardConfig::from_json(decode(sample())).unwrap();
    assert_eq!(
        cfg.resolve("support", "example.com"),
        vec!["a@x.com".to_string(), "b@x.com".to_string()]
    );
    assert_eq!(
        cfg.resolve("unknown", "example.com"),
        vec!["me@gmail.com".to_string()]
    );
    assert!(cfg.resolve("support", "other.com").is_empty());
}

#[test]
fn renders_sender() {
    let cfg = FourwardConfig::from_json(decode(sample())).unwrap();
    let from = cfg.render_sender("Acme", "support", "example.com");
    assert!(from.contains("relay@example.com"));
    assert!(from.contains("via support"));
}

#[test]
fn a_text_that_is_no_json_is_a_parse_error() {
    match FourwardConfig::from_file_contents(decode("{")) {
        Err(ConfigError::Parse(e)) => {
            assert_eq!(ConfigError::Parse(e.clone()).message(), format!("failed to parse config: {e}"));
        }
        other => panic!("{other:?}"),
    }
}

#[test]
fn each_problem_has_its_message() {
    let mut cfg = config();
    cfg.project = " \t".to_string();
    assert_eq!(problem(&cfg), "validation error: project must not be empty");

    let mut cfg = config();
    cfg.domains.clear();
    assert_eq!(problem(&cfg), "validation error: at least one domain is required");

    let mut cfg = config();
    cfg.domains[0].domain = "localhost".to_string();
    assert_eq!(problem(&cfg), "validation error: invalid domain: localhost");

    let mut cfg = config();
    cfg.domains[0].routes[0].0 = "  ".to_string();
    assert_eq!(problem(&cfg), "validation error: alias must not be empty");

    let mut cfg = config();
    cfg.domains[0].routes[0].1.clear();
    assert_eq!(
        problem(&cfg),
        "validation error: alias 'support' must have at least one destination"
    );

    let mut cfg = config();
    cfg.domains[0].routes[0].1[1] = "nobody".to_string();
    assert_eq!(problem(&cfg), "validation error: invalid destination email: nobody");

    let mut cfg = config();
    cfg.domains[0].catch_all = Some("me".to_string());
    assert_eq!(problem(&cfg), "validation error: invalid catch_all email: me");
}

#[test]
fn aliases_and_domains_resolve_in_any_case() {
    let cfg = config();
    assert_eq!(cfg.resolve("SUPPORT", "Example.COM"), vec!["a@x.com", "b@x.com"]);
}

#[test]
fn an_exact_alias_comes_before_one_in_another_case() {
    let mut cfg = config();
    cfg.domains[0].routes.insert(0, ("SUPPORT".to_string(), vec!["c@x.com".to_string()]));
    assert_eq!(cfg.resolve("support", "example.com"), vec!["a@x.com", "b@x.com"]);
    assert_eq!(cfg.resolve("SUPPORT", "example.com"), vec!["c@x.com"]);
    assert_eq!(cfg.resolve("Support", "example.com"), vec!["c@x.com"]);
}

#[test]
fn a_domain_without_catch_all_resolves_to_nothing() {
    let mut cfg = config();
    cfg.domains[0].catch_all = None;
    assert!(cfg.resolve("unknown", "example.com").is_empty());
}

#[test]
fn the_sender_is_rendered_exactly() {
    let cfg = config();
    assert_eq!(
        cfg.render_sender("Acme", "support", "example.com"),
        "Acme (via support) <relay@example.com>"
    );
    assert_eq!(
        cfg.render_sender("  ", "support", "example.com"),
        "support (via support) <relay@example.com>"
    );
}

#[test]
fn defaults() {
    let limit = RateLimitConfig::default();
    assert_eq!((limit.requests_per_second, limit.burst), (100, 200));
    let settings = EngineSettings::default();
    assert!(settings.banner_enabled);
    assert_eq!(settings.retention_days, 1);
    assert_eq!(settings.sender_format, "{name} (via {alias}) <relay@{domain}>");
    assert_eq!(DnsProvider::default(), DnsProvider::Route53);
    assert_eq!(fourward::config::default_profile(), "default");
    assert_eq!(fourward::config::default_version(), "1");
    assert_eq!(fourward::config::default_rps(), 100);
    assert_eq!(fourward::config::default_burst(), 200);
    assert_eq!(fourward::config::default_retention(), 1);
    assert!(fourward::config::default_true());
}

#[test]
fn alias_list_shows_routes_and_catch_all() {
    let mut cfg = config();
    let out = run(&mut cfg, &AliasCmd::List).unwrap();
    assert!(!out.edited);
    assert_eq!(
        out.lines,
        vec![
            "support@example.com -> a@x.com,b@x.com",
            "*@example.com -> me@gmail.com (catch-all)",
        ]
    );
}

#[test]
fn a_set_alias_is_kept_in_lowercase_and_resolves() {
    let mut cfg = config();
    let cmd = AliasCmd::Put {
        route: "Sales@EXAMPLE.com".to_string(),
        dests: " s@x.com, ,t@x.com ".to_string(),
    };
    let out = run(&mut cfg, &cmd).unwrap();
    assert!(out.edited);
    assert_eq!(out.lines, vec!["updated Sales@EXAMPLE.com"]);
    assert_eq!(cfg.domains[0].routes[1].0, "sales");
    assert_eq!(cfg.resolve("sales", "example.com"), vec!["s@x.com", "t@x.com"]);
    assert_eq!(cfg.resolve("support", "example.com"), vec!["a@x.com", "b@x.com"]);
}

#[test]
fn setting_an_alias_again_replaces_its_destinations() {
    let mut cfg = config();
    set_alias(&mut cfg, "support@example.com", "z@x.com").unwrap();
    assert_eq!(cfg.domains[0].routes.len(), 1);
    assert_eq!(cfg.resolve("support", "example.com"), vec!["z@x.com"]);
}

#[test]
fn a_removed_alias_falls_to_the_catch_all() {
    let mut cfg = config();
    cfg.domains[0].routes.push(("Support".to_string(), vec!["c@x.com".to_string()]));
    let out = run(&mut cfg, &AliasCmd::Rm { route: "Support@example.com".to_string() }).unwrap();
    assert_eq!(out.lines, vec!["removed Support@example.com"]);
    assert!(cfg.domains[0].routes.is_empty());
    assert_eq!(cfg.resolve("support", "example.com"), vec!["me@gmail.com"]);
}

#[test]
fn editing_needs_an_alias_and_a_known_domain() {
    let mut cfg = config();
    assert_eq!(
        run(&mut cfg, &AliasCmd::Rm { route: "support".to_string() }).unwrap_err(),
        "route must be alias@domain"
    );
    assert_eq!(
        set_alias(&mut cfg, "a@other.com", "b@x.com").unwrap_err(),
        "domain other.com not in config"
    );
    assert_eq!(cfg.domains[0].routes.len(), 1);
}

#[test]
fn deployed_routes_are_the_configured_ones() {
    let mut cfg = config();
    set_alias(&mut cfg, "sales@example.com", "s@x.com").unwrap();
    let json = alias_map_json(&cfg);
    let map = alias_map(Some(&json));
    assert_eq!(map.len(), 2);
    assert_eq!(resolve_destinations("sales", "example.com", &map, None), vec!["s@x.com"]);
    assert_eq!(
        resolve_destinations("support", "example.com", &map, Some("me@gmail.com")),
        vec!["a@x.com", "b@x.com"]
    );
}

#[test]
fn of_two_routes_for_an_address_the_later_is_deployed() {
    let mut cfg = config();
    let mut again = cfg.domains[0].clone();
    again.routes[0].1 = vec!["later@x.com".to_string()];
    cfg.domains.push(again);
    let map = alias_map(Some(&alias_map_json(&cfg)));
    assert_eq!(map.len(), 1);
    assert_eq!(resolve_destinations("support", "example.com", &map, None), vec!["later@x.com"]);
}

#[test]
fn a_text_that_is_no_map_gives_no_routes() {
    assert!(alias_map(None).is_empty());
    assert!(alias_map(Some("[1]")).is_empty());
    assert!(alias_map(Some("")).is_empty());
}

#[test]
fn stack_parameters_in_order() {
    let mut cfg = config();
    let mut other = cfg.domains[0].clone();
    other.domain = "Example.org".to_string();
    other.routes.clear();
    cfg.domains.push(other);
    let got = stack_parameters(&cfg);
    let keys: Vec<&str> = got.iter().map(|p| p.0.as_str()).collect();
    assert_eq!(
        keys,
        vec![
            "ProjectName",
            "DomainName",
            "RelayDomain",
            "AliasMapJson",
            "CatchAll",
            "BannerEnabled",
            "ApiEnabled",
            "AllowedDomains",
            "RetentionDays",
            "RateLimitRequestsPerSecond",
            "RateLimitBurst",
        ]
    );
    let values: Vec<&str> = got.iter().map(|p| p.1.as_str()).collect();
    assert_eq!(values[0], "demo");
    assert_eq!(values[1], "example.com");
    assert_eq!(values[2], "example.com");
    assert_eq!(values[3], r#"{"support@example.com":["a@x.com","b@x.com"]}"#);
    assert_eq!(values[4], "me@gmail.com");
    assert_eq!(values[5], "true");
    assert_eq!(&values[9..], &["100", "200"]);
    assert_eq!(values[6], "true");
    assert_eq!(values[7], "example.com,Example.org");
    assert_eq!(values[8], "1");
    assert!(banner_enabled(Some(values[5])));
    assert_eq!(fourward::api::allowed_domains(values[7]), vec!["example.com", "example.org"]);
}

#[test]
fn a_switched_off_banner_stays_off() {
    let mut cfg = config();
    cfg.settings.banner_enabled = false;
    assert!(!banner_enabled(Some(&stack_parameters(&cfg)[5].1)));
}

#[test]
fn stack_states() {
    assert_eq!(stack_state("CREATE_COMPLETE"), StackState::Settled);
    assert_eq!(stack_state("UPDATE_COMPLETE_CLEANUP_IN_PROGRESS"), StackState::Pending);
    assert_eq!(stack_state("CREATE_IN_PROGRESS"), StackState::Pending);
    assert_eq!(stack_state("CREATE_FAILED"), StackState::Failed);
    assert_eq!(stack_state("ROLLBACK_COMPLETE"), StackState::Failed);
    assert_eq!(stack_state("UPDATE_ROLLBACK_COMPLETE"), StackState::Failed);
    assert_eq!(stack_state("UPDATE_COMPLETE"), StackState::Settled);
    assert_eq!(stack_state("UPDATE_ROLLBACK_FAILED"), StackState::Failed);
    assert!(is_up_to_date("ValidationError: No updates are to be performed."));
    assert!(!is_up_to_date("AccessDenied"));
}

fn answers() -> Answers {
    Answers {
        domain: "example.com".to_string(),
        region: "eu-west-1".to_string(),
        stack: "4ward-example-com".to_string(),
        alias: "hello".to_string(),
        dest: "me@gmail.com".to_string(),
        catch_all: String::new(),
        api: true,
        dns_provider: "external".to_string(),
    }
}

#[test]
fn the_first_configuration_routes_its_alias() {
    assert_eq!(default_stack_name("mail.example.com"), "4ward-mail-example-com");
    let cfg = initial_config(&answers()).unwrap();
    assert_eq!(cfg.project, "4ward");
    assert_eq!(cfg.aws.region, "eu-west-1");
    assert_eq!(cfg.aws.stack_name, "4ward-example-com");
    assert_eq!(cfg.api.cors, vec!["*"]);
    assert_eq!(cfg.domains[0].dns_provider, DnsProvider::External);
    assert_eq!(cfg.resolve("hello", "example.com"), vec!["me@gmail.com"]);
    assert!(cfg.resolve("other", "example.com").is_empty());
}

#[test]
fn a_catch_all_may_stand_in_the_place_of_the_first_alias() {
    let mut a = answers();
    a.catch_all = "all@gmail.com".to_string();
    a.api = false;
    let cfg = initial_config(&a).unwrap();
    assert!(!cfg.api.enabled);
    assert_eq!(cfg.resolve("hello", "example.com"), vec!["me@gmail.com"]);
    assert_eq!(cfg.resolve("other", "example.com"), vec!["all@gmail.com"]);
    a.alias = " ".to_string();
    a.dest = String::new();
    let cfg = initial_config(&a).unwrap();
    assert!(cfg.domains[0].routes.is_empty());
    assert_eq!(cfg.resolve("hello", "example.com"), vec!["all@gmail.com"]);
    a.catch_all = " ".to_string();
    assert!(initial_config(&a).is_err());
}

#[test]
fn a_deployed_domain_routes_as_configured() {
    let cfg = config();
    let parameters = stack_parameters(&cfg);
    let value = |name: &str| parameters.iter().find(|p| p.0 == name).unwrap().1.clone();
    let (json, catch_all) = (value("AliasMapJson"), value("CatchAll"));
    let s = relay_settings(Some("example.com"), None, Some(&json), Some(&catch_all), None).unwrap();
    for alias in ["support", "SUPPORT", "unknown"] {
        for domain in ["example.com", "Example.COM"] {
            assert_eq!(
                resolve_destinations(alias, domain, &s.routes, s.catch_all.as_deref()),
                cfg.resolve(alias, domain)
            );
        }
    }
}

#[test]
fn answers_are_validated() {
    let mut a = answers();
    a.dest = "me".to_string();
    assert_eq!(
        initial_config(&a).unwrap_err().message(),
        "validation error: invalid destination email: me"
    );
    let mut a = answers();
    a.dns_provider = "route53".to_string();
    assert_eq!(initial_config(&a).unwrap().domains[0].dns_provider, DnsProvider::Route53);
}

#[test]
fn texts_for_the_account() {
    assert_eq!(sandbox_line(true), "Sandbox mode: NO (production)");
    assert_eq!(sandbox_line(false), "Sandbox mode: YES (request-production to lift)");
    assert_eq!(
        use_case("https://x.io", "ops@x.io"),
        "Transactional email for https://x.io. Automated bounce/complaint handling via SES reputation alarms, transactional account events only (verification codes, receipts, alerts), double opt-in for any marketing. Contact: ops@x.io."
    );
}

#[test]
fn the_default_form_is_the_sender_of_relayed_mail() {
    let cfg = config();
    let raw = b"From: Alice <alice@example.org>\r\nTo: support@example.com\r\n\r\nHi";
    let s = relay_settings(Some("example.com"), None, None, Some("you@gmail.com"), None).unwrap();
    let out = relay(raw, &s).unwrap().unwrap();
    let msg = mail_parser::MessageParser::default().parse(&out.raw).unwrap();
    let from = msg.from().unwrap().first().unwrap().clone();
    assert_eq!(
        cfg.render_sender("Alice", "support", "example.com"),
        format!("{} <{}>", from.name().unwrap(), from.address().unwrap())
    );
}

#[test]
fn editing_one_domain_leaves_the_others() {
    let mut cfg = config();
    let mut other = cfg.domains[0].clone();
    other.domain = "example.org".to_string();
    cfg.domains.push(other);
    set_alias(&mut cfg, "support@example.com", "z@x.com").unwrap();
    assert_eq!(cfg.resolve("support", "example.org"), vec!["a@x.com", "b@x.com"]);
    assert_eq!(cfg.resolve("support", "example.com"), vec!["z@x.com"]);
}

fn seen(step: WatchStep) -> String {
    match step {
        WatchStep::LookAgain => "again".to_string(),
        WatchStep::Finish => "finish".to_string(),
        WatchStep::Fail(why) => why,
    }
}

#[test]
fn a_stack_is_watched_for_a_while() {
    let mut watch = StackWatch::new();
    for _ in 0..59 {
        assert_eq!(seen(watch.on_look(Some("CREATE_IN_PROGRESS"))), "again");
    }
    assert_eq!(seen(watch.on_look(None)), "finish");
    assert_eq!(seen(watch.on_look(None)), "finish");
    let mut watch = StackWatch::new();
    assert_eq!(seen(watch.on_look(None)), "again");
    assert_eq!(seen(watch.on_look(Some("CREATE_COMPLETE"))), "finish");
    let mut watch = StackWatch::new();
    assert_eq!(seen(watch.on_look(Some("CREATE_FAILED"))), "stack failed: CREATE_FAILED");
}

#[test]
fn deployed_routes_are_found_in_any_case() {
    let mut cfg = config();
    cfg.domains[0].routes[0].0 = "Support".to_string();
    let map = alias_map(Some(&alias_map_json(&cfg)));
    assert_eq!(
        resolve_destinations("support", "EXAMPLE.com", &map, None),
        vec!["a@x.com", "b@x.com"]
    );
}
