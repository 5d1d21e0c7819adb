//! Setting a project up: the first configuration, the request for production access, and what is
//! said of the account.
use vstd::prelude::*;

use crate::config::{
    config_problem, default_sender_format, domains_of, has_distinct_aliases, is_valid,
    is_valid_domain, is_valid_route, law_valid_means_no_problem, ApiConfig, AwsConfig, ConfigError,
    ConfigProblem, DnsProvider, DomainConfig, DomainText, EngineSettings, FourwardConfig,
    RateLimitConfig,
};
use crate::routes::table;
use crate::text::{blank, copy_of, is_blank, replace, replace_text, same_text, texts};

verus! {

broadcast use vstd::seq_lib::group_seq_properties;

/// The name that is proposed for the stack of a domain.
pub fn default_stack_name(domain: &str) -> (r: String)
    ensures
        r@ == "4ward-"@ + replace(domain@, "."@, "-"@),
{
    proof {
        reveal_strlit(".");
    }
    let mut out = copy_of("4ward-");
    out.append(replace_text(domain, ".", "-").as_str());
    out
}

/// What is answered when a project is set up.
#[derive(Debug, Clone)]
pub struct Answers {
    /// The domain.
    pub domain: String,
    /// The region.
    pub region: String,
    /// The name of the stack.
    pub stack: String,
    /// The first alias; blank where there is a catch-all in its place.
    pub alias: String,
    /// Where its mail goes.
    pub dest: String,
    /// Where the mail for all other aliases goes; blank where it goes nowhere.
    pub catch_all: String,
    /// Whether the sending interface is wanted.
    pub api: bool,
    /// Who serves the domain's DNS records: `route53` or anything else.
    pub dns_provider: String,
}

/// The catch-all of a first configuration: what was answered, unless that is blank.
pub open spec fn first_catch_all(a: Answers) -> Option<Seq<char>> {
    if is_blank(a.catch_all@) {
        None
    } else {
        Some(a.catch_all@)
    }
}

/// The routes of a first configuration: one for the first alias, and none where a catch-all stands
/// in its place.
pub open spec fn first_routes(a: Answers) -> Seq<(Seq<char>, Seq<Seq<char>>)> {
    if is_blank(a.alias@) && first_catch_all(a) is Some {
        seq![]
    } else {
        seq![(a.alias@, seq![a.dest@])]
    }
}

/// The only domain of a first configuration.
pub open spec fn first_domain_of(a: Answers) -> DomainText {
    DomainText {
        domain: a.domain@,
        dns_provider: if a.dns_provider@ == "route53"@ {
            DnsProvider::Route53
        } else {
            DnsProvider::External
        },
        catch_all: first_catch_all(a),
        routes: first_routes(a),
    }
}

/// Whether `c` is the first configuration for the answers.
pub open spec fn is_initial(c: FourwardConfig, a: Answers) -> bool {
    &&& c.version@ == "1"@
    &&& c.project@ == "4ward"@
    &&& c.aws.region@ == a.region@
    &&& c.aws.profile@ == "default"@
    &&& c.aws.stack_name@ == a.stack@
    &&& c.api.enabled == a.api
    &&& texts(c.api.cors@) == seq!["*"@]
    &&& c.api.rate_limit.requests_per_second == 100
    &&& c.api.rate_limit.burst == 200
    &&& c.settings.banner_enabled
    &&& c.settings.retention_days == 1
    &&& c.settings.sender_format@ == "{name} (via {alias}) <relay@{domain}>"@
    &&& domains_of(c.domains@) == seq![first_domain_of(a)]
}

/// The first configuration for the answers, if they make a valid one.
pub fn initial_config(a: &Answers) -> (r: Result<FourwardConfig, ConfigError>)
    ensures
        match config_problem("4ward"@, seq![first_domain_of(*a)]) {
            None => r matches Ok(c) && is_initial(c, *a) && has_distinct_aliases(
                domains_of(c.domains@),
            ),
            Some(e) => r matches Err(x) && x@ == ConfigProblem::Validation(e),
        },
{
    let catch_all = if blank(a.catch_all.as_str()) {
        None
    } else {
        Some(copy_of(a.catch_all.as_str()))
    };
    let mut routes: Vec<(String, Vec<String>)> = Vec::new();
    if catch_all.is_none() || !blank(a.alias.as_str()) {
        let mut dests: Vec<String> = Vec::new();
        dests.push(copy_of(a.dest.as_str()));
        assert(texts(dests@) =~= seq![a.dest@]);
        routes.push((copy_of(a.alias.as_str()), dests));
    }
    assert(table(routes@) =~= first_routes(*a));
    let mut cors: Vec<String> = Vec::new();
    cors.push(copy_of("*"));
    assert(texts(cors@) =~= seq!["*"@]);
    let mut domains: Vec<DomainConfig> = Vec::new();
    domains.push(
        DomainConfig {
            domain: copy_of(a.domain.as_str()),
            dns_provider: if same_text(a.dns_provider.as_str(), "route53") {
                DnsProvider::Route53
            } else {
                DnsProvider::External
            },
            catch_all,
            routes,
        },
    );
    assert(domains_of(domains@) =~= seq![first_domain_of(*a)]);
    let cfg = FourwardConfig {
        version: copy_of("1"),
        project: copy_of("4ward"),
        aws: AwsConfig {
            region: copy_of(a.region.as_str()),
            profile: copy_of("default"),
            stack_name: copy_of(a.stack.as_str()),
        },
        api: ApiConfig {
            enabled: a.api,
            cors,
            rate_limit: RateLimitConfig { requests_per_second: 100, burst: 200 },
        },
        settings: EngineSettings {
            banner_enabled: true,
            retention_days: 1,
            sender_format: default_sender_format(),
        },
        domains,
    };
    match cfg.validate() {
        Ok(()) => Ok(cfg),
        Err(e) => Err(e),
    }
}

/// What the request for production access says that mail is sent for.
pub fn use_case(website: &str, contact: &str) -> (r: String)
    ensures
        r@ == "Transactional email for "@ + website@
            + ". Automated bounce/complaint handling via SES reputation alarms, transactional account events only (verification codes, receipts, alerts), double opt-in for any marketing. Contact: "@
            + contact@ + "."@,
{
    let mut out = copy_of("Transactional email for ");
    out.append(website);
    out.append(
        ". Automated bounce/complaint handling via SES reputation alarms, transactional account events only (verification codes, receipts, alerts), double opt-in for any marketing. Contact: ",
    );
    out.append(contact);
    out.append(".");
    out
}

/// What is said of the account: whether it is in the sandbox.
pub fn sandbox_line(production: bool) -> (r: String)
    ensures
        r@ == (if production {
            "Sandbox mode: NO (production)"@
        } else {
            "Sandbox mode: YES (request-production to lift)"@
        }),
{
    if production {
        copy_of("Sandbox mode: NO (production)")
    } else {
        copy_of("Sandbox mode: YES (request-production to lift)")
    }
}

/// The answers make a valid configuration exactly where the domain has a dot, a catch-all is an
/// address, and the alias is not blank and its destination an address, unless a catch-all stands in
/// the alias's place.
pub proof fn law_answers_that_are_valid(a: Answers)
    ensures
        config_problem("4ward"@, seq![first_domain_of(a)]) is None <==> {
            &&& a.domain@.contains('.')
            &&& is_blank(a.catch_all@) || a.catch_all@.contains('@')
            &&& (is_blank(a.alias@) && !is_blank(a.catch_all@)) || (!is_blank(a.alias@)
                && a.dest@.contains('@'))
        },
{
    reveal_strlit("4ward");
    assert(!is_blank("4ward"@)) by {
        assert("4ward"@[0] == '4');
    }
    let ds = seq![first_domain_of(a)];
    law_valid_means_no_problem("4ward"@, ds);
    assert(ds[0] == first_domain_of(a));
    let d = first_domain_of(a);
    if d.routes.len() > 0 {
        assert(d.routes[0] == (a.alias@, seq![a.dest@]));
        assert(d.routes[0].1[0] == a.dest@);
    }
    if is_valid("4ward"@, ds) {
        assert(is_valid_domain(ds[0]));
        if d.routes.len() > 0 {
            assert(is_valid_route(d.routes[0]));
        }
    }
    if !is_blank(a.alias@) && a.dest@.contains('@') {
        assert(is_valid_route(d.routes[0]));
    }
}

} // verus!
