//! The configuration of a deployment: what `4ward.json` holds, when it is valid, and where it
//! routes mail.
use vstd::prelude::*;

use crate::routes::{distinct, exact, loose, route, routed, table};
use crate::text::{
    blank, copy_of, eq_ignore_case_text, has_char, is_blank, maybe_text, replace, replace_text,
    same_ignoring_case, texts,
};

verus! {

broadcast use vstd::seq_lib::group_seq_properties;

/// Why there is no configuration.
#[derive(Debug)]
pub enum ConfigError {
    /// The text is no configuration.
    Parse(String),
    /// The configuration is not valid.
    Validation(String),
}

/// A [`ConfigError`] by what its text holds.
pub enum ConfigProblem {
    Parse(Seq<char>),
    Validation(Seq<char>),
}

impl View for ConfigError {
    type V = ConfigProblem;

    open spec fn view(&self) -> ConfigProblem {
        match *self {
            ConfigError::Parse(e) => ConfigProblem::Parse(e@),
            ConfigError::Validation(e) => ConfigProblem::Validation(e@),
        }
    }
}

impl ConfigError {
    /// The error in words.
    pub fn message(&self) -> (r: String)
        ensures
            r@ == (match self@ {
                ConfigProblem::Parse(e) => "failed to parse config: "@ + e,
                ConfigProblem::Validation(e) => "validation error: "@ + e,
            }),
    {
        match self {
            ConfigError::Parse(e) => {
                let mut out = copy_of("failed to parse config: ");
                out.append(e.as_str());
                out
            },
            ConfigError::Validation(e) => {
                let mut out = copy_of("validation error: ");
                out.append(e.as_str());
                out
            },
        }
    }
}

// ---------------------------------------------------------------------------------------------
// What a configuration holds
// ---------------------------------------------------------------------------------------------

/// A configuration.
#[derive(Debug, Clone)]
pub struct FourwardConfig {
    /// The version of the schema.
    pub version: String,
    /// The name of the project.
    pub project: String,
    /// Where it is deployed.
    pub aws: AwsConfig,
    /// The sending interface.
    pub api: ApiConfig,
    /// The settings of the relay.
    pub settings: EngineSettings,
    /// The domains that mail is received for.
    pub domains: Vec<DomainConfig>,
}

/// Where a project is deployed.
#[derive(Debug, Clone)]
pub struct AwsConfig {
    /// The region.
    pub region: String,
    /// The profile of the credentials.
    pub profile: String,
    /// The name of the stack.
    pub stack_name: String,
}

/// The settings of the sending interface.
#[derive(Debug, Clone)]
pub struct ApiConfig {
    /// Whether there is one.
    pub enabled: bool,
    /// The origins that may call it.
    pub cors: Vec<String>,
    /// How often it may be called.
    pub rate_limit: RateLimitConfig,
}

/// How often the sending interface may be called.
#[derive(Debug, Clone, Copy)]
pub struct RateLimitConfig {
    /// Requests in a second.
    pub requests_per_second: u32,
    /// Requests at once.
    pub burst: u32,
}

/// The settings of the relay.
#[derive(Debug, Clone)]
pub struct EngineSettings {
    /// Whether the banner is put before a message's bodies.
    pub banner_enabled: bool,
    /// For how many days messages are kept.
    pub retention_days: u32,
    /// The sender of a relayed message, with `{name}`, `{alias}` and `{domain}` in it.
    pub sender_format: String,
}

/// Who serves a domain's DNS records.
#[derive(Debug, Clone, Copy, PartialEq, Eq, Structural)]
pub enum DnsProvider {
    /// Route 53.
    Route53,
    /// Anyone else.
    External,
}

/// A domain that mail is received for.
#[derive(Debug, Clone)]
pub struct DomainConfig {
    /// The domain.
    pub domain: String,
    /// Who serves its DNS records.
    pub dns_provider: DnsProvider,
    /// Where mail goes that no route is for.
    pub catch_all: Option<String>,
    /// The routes: local parts and their destinations.
    pub routes: Vec<(String, Vec<String>)>,
}

/// What a [`DomainConfig`] holds.
pub struct DomainText {
    pub domain: Seq<char>,
    pub dns_provider: DnsProvider,
    pub catch_all: Option<Seq<char>>,
    pub routes: Seq<(Seq<char>, Seq<Seq<char>>)>,
}

impl View for DomainConfig {
    type V = DomainText;

    open spec fn view(&self) -> DomainText {
        DomainText {
            domain: self.domain@,
            dns_provider: self.dns_provider,
            catch_all: maybe_text(self.catch_all),
            routes: table(self.routes@),
        }
    }
}

/// The domains of a configuration.
pub open spec fn domains_of(v: Seq<DomainConfig>) -> Seq<DomainText> {
    v.map_values(|d: DomainConfig| d@)
}

// ---------------------------------------------------------------------------------------------
// Defaults
// ---------------------------------------------------------------------------------------------

/// The profile where none is given.
pub fn default_profile() -> (r: String)
    ensures
        r@ == "default"@,
{
    copy_of("default")
}

/// What is on unless it is switched off.
pub fn default_true() -> (r: bool)
    ensures
        r,
{
    true
}

/// The days for which messages are kept where nothing is said.
pub fn default_retention() -> (r: u32)
    ensures
        r == 1,
{
    1
}

/// The sender's form where none is given.
pub fn default_sender_format() -> (r: String)
    ensures
        r@ == "{name} (via {alias}) <relay@{domain}>"@,
{
    copy_of("{name} (via {alias}) <relay@{domain}>")
}

/// The version where none is given.
pub fn default_version() -> (r: String)
    ensures
        r@ == "1"@,
{
    copy_of("1")
}

/// The requests in a second where a limit leaves them out.
pub fn default_rps() -> (r: u32)
    ensures
        r == 100,
{
    100
}

/// The requests at once where a limit leaves them out.
pub fn default_burst() -> (r: u32)
    ensures
        r == 200,
{
    200
}

impl Default for RateLimitConfig {
    /// The limit where none is given at all: that of a limit with both numbers left out.
    fn default() -> (r: Self)
        ensures
            r.requests_per_second == 100,
            r.burst == 200,
    {
        RateLimitConfig { requests_per_second: default_rps(), burst: default_burst() }
    }
}

impl Default for EngineSettings {
    fn default() -> (r: Self)
        ensures
            r.banner_enabled,
            r.retention_days == 1,
            r.sender_format@ == "{name} (via {alias}) <relay@{domain}>"@,
    {
        EngineSettings {
            banner_enabled: true,
            retention_days: 1,
            sender_format: default_sender_format(),
        }
    }
}

impl Default for DnsProvider {
    fn default() -> (r: Self)
        ensures
            r == DnsProvider::Route53,
    {
        DnsProvider::Route53
    }
}

// ---------------------------------------------------------------------------------------------
// Validity
// ---------------------------------------------------------------------------------------------

/// What is wrong with the first destination that is no address.
pub open spec fn destination_problem(dests: Seq<Seq<char>>) -> Option<Seq<char>>
    decreases dests.len(),
{
    if dests.len() == 0 {
        None
    } else if !dests[0].contains('@') {
        Some("invalid destination email: "@ + dests[0])
    } else {
        destination_problem(dests.skip(1))
    }
}

/// What is wrong with a route.
pub open spec fn route_problem(alias: Seq<char>, dests: Seq<Seq<char>>) -> Option<Seq<char>> {
    if is_blank(alias) {
        Some("alias must not be empty"@)
    } else if dests.len() == 0 {
        Some("alias '"@ + alias + "' must have at least one destination"@)
    } else {
        destination_problem(dests)
    }
}

/// What is wrong with the first route that is not valid.
pub open spec fn routes_problem(t: Seq<(Seq<char>, Seq<Seq<char>>)>) -> Option<Seq<char>>
    decreases t.len(),
{
    if t.len() == 0 {
        None
    } else {
        match route_problem(t[0].0, t[0].1) {
            Some(e) => Some(e),
            None => routes_problem(t.skip(1)),
        }
    }
}

/// What is wrong with a domain.
pub open spec fn domain_problem(d: DomainText) -> Option<Seq<char>> {
    if !d.domain.contains('.') {
        Some("invalid domain: "@ + d.domain)
    } else {
        match routes_problem(d.routes) {
            Some(e) => Some(e),
            None => match d.catch_all {
                Some(c) => if c.contains('@') {
                    None
                } else {
                    Some("invalid catch_all email: "@ + c)
                },
                None => None,
            },
        }
    }
}

/// What is wrong with the first domain that is not valid.
pub open spec fn domains_problem(ds: Seq<DomainText>) -> Option<Seq<char>>
    decreases ds.len(),
{
    if ds.len() == 0 {
        None
    } else {
        match domain_problem(ds[0]) {
            Some(e) => Some(e),
            None => domains_problem(ds.skip(1)),
        }
    }
}

/// The first thing that is wrong with a configuration.
pub open spec fn config_problem(project: Seq<char>, ds: Seq<DomainText>) -> Option<Seq<char>> {
    if is_blank(project) {
        Some("project must not be empty"@)
    } else if ds.len() == 0 {
        Some("at least one domain is required"@)
    } else {
        domains_problem(ds)
    }
}

/// Whether each destination is an address.
pub open spec fn are_addresses(dests: Seq<Seq<char>>) -> bool {
    forall|i: int| 0 <= i < dests.len() ==> (#[trigger] dests[i]).contains('@')
}

/// Whether a route has an alias and destinations that are addresses.
pub open spec fn is_valid_route(r: (Seq<char>, Seq<Seq<char>>)) -> bool {
    !is_blank(r.0) && r.1.len() > 0 && are_addresses(r.1)
}

/// Whether a domain has a dot in its name, valid routes, and a catch-all that is an address if
/// it has one.
pub open spec fn is_valid_domain(d: DomainText) -> bool {
    &&& d.domain.contains('.')
    &&& forall|i: int| 0 <= i < d.routes.len() ==> is_valid_route(#[trigger] d.routes[i])
    &&& d.catch_all matches Some(c) ==> c.contains('@')
}

/// Whether no domain has two routes for the same alias.
pub open spec fn has_distinct_aliases(ds: Seq<DomainText>) -> bool {
    forall|i: int| 0 <= i < ds.len() ==> distinct((#[trigger] ds[i]).routes)
}

/// Whether a configuration has a project and at least one domain, and each domain is valid.
pub open spec fn is_valid(project: Seq<char>, ds: Seq<DomainText>) -> bool {
    &&& !is_blank(project)
    &&& ds.len() > 0
    &&& forall|i: int| 0 <= i < ds.len() ==> is_valid_domain(#[trigger] ds[i])
}

proof fn lemma_destinations(dests: Seq<Seq<char>>)
    ensures
        destination_problem(dests) is None <==> are_addresses(dests),
    decreases dests.len(),
{
    if dests.len() > 0 {
        lemma_destinations(dests.skip(1));
        assert forall|i: int| are_addresses(dests.skip(1)) && dests[0].contains('@') && 0 <= i
            < dests.len() implies (#[trigger] dests[i]).contains('@') by {
            if i > 0 {
                assert(dests.skip(1)[i - 1] == dests[i]);
            }
        }
        assert forall|i: int| are_addresses(dests) && 0 <= i < dests.skip(1).len() implies (
        #[trigger] dests.skip(1)[i]).contains('@') by {
            assert(dests.skip(1)[i] == dests[i + 1]);
        }
    }
}

proof fn lemma_routes(t: Seq<(Seq<char>, Seq<Seq<char>>)>)
    ensures
        routes_problem(t) is None <==> forall|i: int|
            0 <= i < t.len() ==> is_valid_route(#[trigger] t[i]),
    decreases t.len(),
{
    if t.len() > 0 {
        lemma_destinations(t[0].1);
        let rest = t.skip(1);
        lemma_routes(rest);
        if routes_problem(t) is None {
            assert forall|i: int| 0 <= i < t.len() implies is_valid_route(#[trigger] t[i]) by {
                if i > 0 {
                    assert(rest[i - 1] == t[i]);
                }
            }
        }
        if forall|i: int| 0 <= i < t.len() ==> is_valid_route(#[trigger] t[i]) {
            assert(is_valid_route(t[0]));
            assert forall|i: int| 0 <= i < rest.len() implies is_valid_route(
                #[trigger] rest[i],
            ) by {
                assert(rest[i] == t[i + 1]);
            }
        }
    }
}

proof fn lemma_domains(ds: Seq<DomainText>)
    ensures
        domains_problem(ds) is None <==> forall|i: int|
            0 <= i < ds.len() ==> is_valid_domain(#[trigger] ds[i]),
    decreases ds.len(),
{
    if ds.len() > 0 {
        lemma_routes(ds[0].routes);
        let rest = ds.skip(1);
        lemma_domains(rest);
        if domains_problem(ds) is None {
            assert forall|i: int| 0 <= i < ds.len() implies is_valid_domain(#[trigger] ds[i]) by {
                if i > 0 {
                    assert(rest[i - 1] == ds[i]);
                }
            }
        }
        if forall|i: int| 0 <= i < ds.len() ==> is_valid_domain(#[trigger] ds[i]) {
            assert(is_valid_domain(ds[0]));
            assert forall|i: int| 0 <= i < rest.len() implies is_valid_domain(
                #[trigger] rest[i],
            ) by {
                assert(rest[i] == ds[i + 1]);
            }
        }
    }
}

/// Nothing is wrong with a configuration exactly where it is valid.
pub proof fn law_valid_means_no_problem(project: Seq<char>, ds: Seq<DomainText>)
    ensures
        config_problem(project, ds) is None <==> is_valid(project, ds),
{
    lemma_domains(ds);
}

fn problem_with_route(alias: &str, dests: &Vec<String>) -> (r: Option<String>)
    ensures
        maybe_text(r) == route_problem(alias@, texts(dests@)),
{
    if blank(alias) {
        return Some(copy_of("alias must not be empty"));
    }
    if dests.len() == 0 {
        let mut out = copy_of("alias '");
        out.append(alias);
        out.append("' must have at least one destination");
        return Some(out);
    }
    let ghost all = texts(dests@);
    assert(all.skip(0) =~= all);
    for i in 0..dests.len()
        invariant
            all == texts(dests@),
            all.len() > 0,
            !is_blank(alias@),
            destination_problem(all) == destination_problem(all.skip(i as int)),
    {
        assert(all.skip(i as int)[0] == dests@[i as int]@);
        assert(all.skip(i as int).skip(1) =~= all.skip(i + 1));
        if !has_char(dests[i].as_str(), '@') {
            let mut out = copy_of("invalid destination email: ");
            out.append(dests[i].as_str());
            return Some(out);
        }
    }
    None
}

fn problem_with_domain(d: &DomainConfig) -> (r: Option<String>)
    ensures
        maybe_text(r) == domain_problem(d@),
{
    if !has_char(d.domain.as_str(), '.') {
        let mut out = copy_of("invalid domain: ");
        out.append(d.domain.as_str());
        return Some(out);
    }
    let ghost all = table(d.routes@);
    assert(all.skip(0) =~= all);
    for i in 0..d.routes.len()
        invariant
            all == table(d.routes@),
            d@.domain.contains('.'),
            routes_problem(all) == routes_problem(all.skip(i as int)),
    {
        assert(all.skip(i as int)[0] == (d.routes@[i as int].0@, texts(d.routes@[i as int].1@)));
        assert(all.skip(i as int).skip(1) =~= all.skip(i + 1));
        let problem = problem_with_route(d.routes[i].0.as_str(), &d.routes[i].1);
        if problem.is_some() {
            return problem;
        }
    }
    match &d.catch_all {
        Some(c) => if !has_char(c.as_str(), '@') {
            let mut out = copy_of("invalid catch_all email: ");
            out.append(c.as_str());
            Some(out)
        } else {
            None
        },
        None => None,
    }
}

/// The destinations for an alias in a domain: by its routes, or else by its catch-all.
pub open spec fn resolved_in(d: DomainText, alias: Seq<char>) -> Seq<Seq<char>> {
    match routed(d.routes, alias) {
        Some(dests) => dests,
        None => match d.catch_all {
            Some(c) => seq![c],
            None => seq![],
        },
    }
}

fn resolve_in(d: &DomainConfig, alias: &str) -> (r: Vec<String>)
    ensures
        texts(r@) == resolved_in(d@, alias@),
{
    match route(&d.routes, alias) {
        Some(dests) => return dests,
        None => {},
    }
    let mut out: Vec<String> = Vec::new();
    if let Some(c) = &d.catch_all {
        out.push(copy_of(c.as_str()));
        assert(texts(out@) =~= seq![c@]);
    } else {
        assert(texts(out@) =~= seq![]);
    }
    out
}

/// The destinations for an alias of a domain: by the first of the domains that has the name.
pub open spec fn resolved(ds: Seq<DomainText>, alias: Seq<char>, domain: Seq<char>) -> Seq<
    Seq<char>,
>
    decreases ds.len(),
{
    if ds.len() == 0 {
        seq![]
    } else if same_ignoring_case(ds[0].domain, domain) {
        resolved_in(ds[0], alias)
    } else {
        resolved(ds.skip(1), alias, domain)
    }
}

/// The sender's form with the three names in it.
pub open spec fn rendered(
    format: Seq<char>,
    sender_name: Seq<char>,
    alias: Seq<char>,
    domain: Seq<char>,
) -> Seq<char> {
    let name = if is_blank(sender_name) {
        alias
    } else {
        sender_name
    };
    replace(
        replace(replace(format, "{name}"@, name), "{alias}"@, alias),
        "{domain}"@,
        domain,
    )
}

impl FourwardConfig {
    /// The configuration that a JSON text was decoded to, if it is valid. `decoded` is what the
    /// decoder gave: the configuration, or what it found wrong with the text.
    pub fn from_json(decoded: Result<FourwardConfig, String>) -> (r: Result<
        FourwardConfig,
        ConfigError,
    >)
        ensures
            match decoded {
                Ok(c) => match config_problem(c.project@, domains_of(c.domains@)) {
                    None => r == Ok::<FourwardConfig, ConfigError>(c),
                    Some(e) => r matches Err(x) && x@ == ConfigProblem::Validation(e),
                },
                Err(e) => r matches Err(x) && x@ == ConfigProblem::Parse(e@),
            },
    {
        match decoded {
            Ok(cfg) => match cfg.validate() {
                Ok(()) => Ok(cfg),
                Err(e) => Err(e),
            },
            Err(e) => Err(ConfigError::Parse(e)),
        }
    }

    /// The configuration that the contents of a file were decoded to, if it is valid.
    pub fn from_file_contents(decoded: Result<FourwardConfig, String>) -> (r: Result<
        FourwardConfig,
        ConfigError,
    >)
        ensures
            match decoded {
                Ok(c) => match config_problem(c.project@, domains_of(c.domains@)) {
                    None => r == Ok::<FourwardConfig, ConfigError>(c),
                    Some(e) => r matches Err(x) && x@ == ConfigProblem::Validation(e),
                },
                Err(e) => r matches Err(x) && x@ == ConfigProblem::Parse(e@),
            },
    {
        Self::from_json(decoded)
    }

    /// Whether the configuration is valid, and the first thing that is wrong where it is not.
    #[verifier::rlimit(30)]
    pub fn validate(&self) -> (r: Result<(), ConfigError>)
        ensures
            match config_problem(self.project@, domains_of(self.domains@)) {
                None => r is Ok,
                Some(e) => r matches Err(x) && x@ == ConfigProblem::Validation(e),
            },
            r is Ok <==> is_valid(self.project@, domains_of(self.domains@)),
    {
        let ghost all = domains_of(self.domains@);
        proof {
            law_valid_means_no_problem(self.project@, all);
        }
        if blank(self.project.as_str()) {
            return Err(ConfigError::Validation(copy_of("project must not be empty")));
        }
        if self.domains.len() == 0 {
            return Err(ConfigError::Validation(copy_of("at least one domain is required")));
        }
        assert(all.skip(0) =~= all);
        for i in 0..self.domains.len()
            invariant
                all == domains_of(self.domains@),
                all.len() > 0,
                !is_blank(self.project@),
                config_problem(self.project@, all) is None <==> is_valid(self.project@, all),
                domains_problem(all) == domains_problem(all.skip(i as int)),
        {
            assert(all.skip(i as int)[0] == self.domains@[i as int]@);
            assert(all.skip(i as int).skip(1) =~= all.skip(i + 1));
            match problem_with_domain(&self.domains[i]) {
                Some(e) => return Err(ConfigError::Validation(e)),
                None => {},
            }
        }
        Ok(())
    }

    /// The destinations for an alias of a domain. Mail that no route is for goes to the domain's
    /// catch-all; without one, and for a domain that is not in the configuration, there are no
    /// destinations.
    pub fn resolve(&self, alias: &str, domain: &str) -> (r: Vec<String>)
        ensures
            texts(r@) == resolved(domains_of(self.domains@), alias@, domain@),
    {
        let ghost all = domains_of(self.domains@);
        assert(all.skip(0) =~= all);
        for i in 0..self.domains.len()
            invariant
                all == domains_of(self.domains@),
                resolved(all, alias@, domain@) == resolved(all.skip(i as int), alias@, domain@),
        {
            assert(all.skip(i as int)[0] == self.domains@[i as int]@);
            assert(all.skip(i as int).skip(1) =~= all.skip(i + 1));
            let d = &self.domains[i];
            if eq_ignore_case_text(d.domain.as_str(), domain) {
                return resolve_in(d, alias);
            }
        }
        let out: Vec<String> = Vec::new();
        assert(texts(out@) =~= seq![]);
        out
    }

    /// The sender that a relayed message is shown to come from.
    pub fn render_sender(&self, sender_name: &str, alias: &str, domain: &str) -> (r: String)
        ensures
            r@ == rendered(self.settings.sender_format@, sender_name@, alias@, domain@),
    {
        let name = if blank(sender_name) {
            alias
        } else {
            sender_name
        };
        proof {
            reveal_strlit("{name}");
            reveal_strlit("{alias}");
            reveal_strlit("{domain}");
        }
        let named = replace_text(self.settings.sender_format.as_str(), "{name}", name);
        let aliased = replace_text(named.as_str(), "{alias}", alias);
        replace_text(aliased.as_str(), "{domain}", domain)
    }
}

/// A valid configuration routes mail to addresses only, and the mail for each of its aliases to
/// at least one.
pub proof fn law_valid_routes_to_addresses(
    project: Seq<char>,
    ds: Seq<DomainText>,
    alias: Seq<char>,
    domain: Seq<char>,
)
    requires
        is_valid(project, ds),
    ensures
        are_addresses(resolved(ds, alias, domain)),
        forall|i: int, j: int|
            0 <= i < ds.len() && 0 <= j < ds[i].routes.len() && !earlier_namesake(ds, i)
                ==> resolved(ds, (#[trigger] ds[i].routes[j]).0, ds[i].domain).len() > 0,
{
    assert forall|i: int| 0 <= i < ds.len() implies is_valid_domain(#[trigger] ds[i]) by {}
    lemma_resolved_are_addresses(ds, alias, domain);
    assert forall|i: int, j: int|
        0 <= i < ds.len() && 0 <= j < ds[i].routes.len() && !earlier_namesake(ds, i) implies resolved(
        ds,
        (#[trigger] ds[i].routes[j]).0,
        ds[i].domain,
    ).len() > 0 by {
        lemma_resolved_at(ds, ds[i].routes[j].0, ds[i].domain, i);
        lemma_routed_entry(ds[i].routes, j);
        lemma_routed_is_valid(ds[i].routes, ds[i].routes[j].0);
        assert(is_valid_domain(ds[i]));
    }
}

/// Whether a domain stands before the `i`th under the same name.
pub open spec fn earlier_namesake(ds: Seq<DomainText>, i: int) -> bool {
    exists|k: int| 0 <= k < i && same_ignoring_case((#[trigger] ds[k]).domain, ds[i].domain)
}

proof fn lemma_resolved_are_addresses(ds: Seq<DomainText>, alias: Seq<char>, domain: Seq<char>)
    requires
        forall|i: int| 0 <= i < ds.len() ==> is_valid_domain(#[trigger] ds[i]),
    ensures
        are_addresses(resolved(ds, alias, domain)),
    decreases ds.len(),
{
    if ds.len() > 0 {
        assert(is_valid_domain(ds[0]));
        if same_ignoring_case(ds[0].domain, domain) {
            lemma_routed_is_valid(ds[0].routes, alias);
        } else {
            let rest = ds.skip(1);
            assert forall|i: int| 0 <= i < rest.len() implies is_valid_domain(
                #[trigger] rest[i],
            ) by {
                assert(rest[i] == ds[i + 1]);
            }
            lemma_resolved_are_addresses(rest, alias, domain);
        }
    }
}

/// The first domain of a name decides.
pub proof fn lemma_resolved_at(
    ds: Seq<DomainText>,
    alias: Seq<char>,
    domain: Seq<char>,
    i: int,
)
    requires
        0 <= i < ds.len(),
        same_ignoring_case(ds[i].domain, domain),
        forall|k: int| 0 <= k < i ==> !same_ignoring_case((#[trigger] ds[k]).domain, domain),
    ensures
        resolved(ds, alias, domain) == resolved(seq![ds[i]], alias, domain),
    decreases i,
{
    if i == 0 {
        assert(seq![ds[0]][0] == ds[0]);
    } else {
        assert(!same_ignoring_case(ds[0].domain, domain));
        let rest = ds.skip(1);
        assert forall|k: int| 0 <= k < i - 1 implies !same_ignoring_case(
            (#[trigger] rest[k]).domain,
            domain,
        ) by {
            assert(rest[k] == ds[k + 1]);
        }
        lemma_resolved_at(rest, alias, domain, i - 1);
    }
}

/// An entry's key is routed.
proof fn lemma_routed_entry(t: Seq<(Seq<char>, Seq<Seq<char>>)>, j: int)
    requires
        0 <= j < t.len(),
    ensures
        routed(t, t[j].0) is Some,
    decreases j,
{
    lemma_exact_some(t, j);
}

proof fn lemma_exact_some(t: Seq<(Seq<char>, Seq<Seq<char>>)>, j: int)
    requires
        0 <= j < t.len(),
    ensures
        exact(t, t[j].0) is Some,
    decreases j,
{
    if j > 0 && t[0].0 != t[j].0 {
        lemma_exact_some(t.skip(1), j - 1);
    }
}

/// Where all entries are valid, the destinations of a routed key are addresses, and there is at
/// least one.
proof fn lemma_routed_is_valid(t: Seq<(Seq<char>, Seq<Seq<char>>)>, key: Seq<char>)
    requires
        forall|i: int| 0 <= i < t.len() ==> is_valid_route(#[trigger] t[i]),
    ensures
        routed(t, key) matches Some(d) ==> are_addresses(d) && d.len() > 0,
        exact(t, key) matches Some(d) ==> are_addresses(d) && d.len() > 0,
        loose(t, key) matches Some(d) ==> are_addresses(d) && d.len() > 0,
    decreases t.len(),
{
    if t.len() > 0 {
        assert(is_valid_route(t[0]));
        let rest = t.skip(1);
        assert forall|i: int| 0 <= i < rest.len() implies is_valid_route(#[trigger] rest[i]) by {
            assert(rest[i] == t[i + 1]);
        }
        lemma_routed_is_valid(rest, key);
    }
}

} // verus!
