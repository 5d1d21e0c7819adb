//! Deployment: what the configuration hands on to the stack, and when the stack is settled.
use vstd::prelude::*;

use crate::api::domain_list;
use crate::config::{domains_of, resolved, DomainConfig, DomainText, FourwardConfig};
use crate::forward::{destinations_of, maybe_str, or_empty};
use crate::routes::{
    as_map, distinct, exact, law_case_does_not_matter, law_set_keeps_distinct, law_set_keeps_others,
    law_set_then_routed, lemma_exact, lemma_exact_none, lemma_loose_none, map_of_json, set_route,
    table, table_to_json, with_route,
};
use crate::text::{
    contains_text, copy_all, copy_of, decimal, decimal_text, fold_case, has_text, join, join_texts,
    lemma_first_of_is, same_ignoring_case, split, texts,
};

verus! {

broadcast use vstd::seq_lib::group_seq_properties;

// ---------------------------------------------------------------------------------------------
// The routing table
// ---------------------------------------------------------------------------------------------

/// The address of an alias.
pub open spec fn address_of(alias: Seq<char>, domain: Seq<char>) -> Seq<char> {
    alias + "@"@ + domain
}

/// The routes of a domain by the addresses of their aliases.
pub open spec fn addressed(d: DomainText) -> Seq<(Seq<char>, Seq<Seq<char>>)> {
    d.routes.map_values(|r: (Seq<char>, Seq<Seq<char>>)| (address_of(r.0, d.domain), r.1))
}

/// The routes of all domains by the addresses of their aliases, one domain after the other.
pub open spec fn all_routes(ds: Seq<DomainText>) -> Seq<(Seq<char>, Seq<Seq<char>>)>
    decreases ds.len(),
{
    if ds.len() == 0 {
        seq![]
    } else {
        all_routes(ds.drop_last()) + addressed(ds.last())
    }
}

/// The table that holds a list of routes; of two with the same key the later one counts.
pub open spec fn gathered(list: Seq<(Seq<char>, Seq<Seq<char>>)>) -> Seq<
    (Seq<char>, Seq<Seq<char>>),
>
    decreases list.len(),
{
    if list.len() == 0 {
        seq![]
    } else {
        with_route(gathered(list.drop_last()), list.last().0, list.last().1)
    }
}

/// The routing table that is deployed.
pub open spec fn deployed(ds: Seq<DomainText>) -> Seq<(Seq<char>, Seq<Seq<char>>)> {
    gathered(all_routes(ds))
}

/// A table of gathered routes has no double keys.
proof fn lemma_gathered_distinct(list: Seq<(Seq<char>, Seq<Seq<char>>)>)
    ensures
        distinct(gathered(list)),
    decreases list.len(),
{
    if list.len() > 0 {
        lemma_gathered_distinct(list.drop_last());
        law_set_keeps_distinct(gathered(list.drop_last()), list.last().0, list.last().1);
    }
}

fn deployed_routes(domains: &Vec<DomainConfig>) -> (r: Vec<(String, Vec<String>)>)
    ensures
        table(r@) == deployed(domains_of(domains@)),
{
    let ghost ds = domains_of(domains@);
    let mut out: Vec<(String, Vec<String>)> = Vec::new();
    assert(table(out@) =~= seq![]);
    for i in 0..domains.len()
        invariant
            ds == domains_of(domains@),
            table(out@) == gathered(all_routes(ds.take(i as int))),
    {
        let d = &domains[i];
        let ghost before = all_routes(ds.take(i as int));
        let ghost here = addressed(d@);
        assert(before + here.take(0) =~= before);
        for j in 0..d.routes.len()
            invariant
                here == addressed(d@),
                table(out@) == gathered(before + here.take(j as int)),
        {
            let mut key = copy_of(d.routes[j].0.as_str());
            key.append("@");
            key.append(d.domain.as_str());
            let ghost list = before + here.take(j + 1);
            assert(list.drop_last() =~= before + here.take(j as int));
            assert(list.last() == here[j as int]);
            set_route(&mut out, key, copy_all(&d.routes[j].1));
        }
        assert(here.take(d.routes@.len() as int) =~= here);
        assert(ds.take(i + 1).drop_last() =~= ds.take(i as int));
        assert(ds.take(i + 1).last() == d@);
    }
    assert(ds.take(ds.len() as int) =~= ds);
    out
}

/// The routing table that is deployed, as JSON.
pub fn alias_map_json(cfg: &FourwardConfig) -> (r: String)
    ensures
        map_of_json(r@) == Some(as_map(deployed(domains_of(cfg.domains@)))),
{
    let routes = deployed_routes(&cfg.domains);
    proof {
        lemma_gathered_distinct(all_routes(domains_of(cfg.domains@)));
    }
    match table_to_json(&routes) {
        Some(s) => s,
        None => copy_of("{}"),
    }
}

// ---------------------------------------------------------------------------------------------
// The parameters of the stack
// ---------------------------------------------------------------------------------------------

/// The word for a truth value.
pub open spec fn word(b: bool) -> Seq<char> {
    if b {
        "true"@
    } else {
        "false"@
    }
}

fn word_for(b: bool) -> (r: String)
    ensures
        r@ == word(b),
{
    if b {
        copy_of("true")
    } else {
        copy_of("false")
    }
}

/// The name of the first domain; empty where there is none.
pub open spec fn first_domain(ds: Seq<DomainText>) -> Seq<char> {
    if ds.len() > 0 {
        ds[0].domain
    } else {
        Seq::empty()
    }
}

/// The catch-all of the first domain; empty where there is none.
pub open spec fn first_catch_all(ds: Seq<DomainText>) -> Seq<char> {
    if ds.len() > 0 {
        or_empty(ds[0].catch_all)
    } else {
        Seq::empty()
    }
}

/// The names of the domains.
pub open spec fn domain_names(ds: Seq<DomainText>) -> Seq<Seq<char>> {
    ds.map_values(|d: DomainText| d.domain)
}

/// The names and values of a list of parameters.
pub open spec fn parameters(v: Seq<(String, String)>) -> Seq<(Seq<char>, Seq<char>)> {
    v.map_values(|p: (String, String)| (p.0@, p.1@))
}

/// The parameters of the stack, where `json` is the routing table.
pub open spec fn parameter_list(cfg: FourwardConfig, json: Seq<char>) -> Seq<
    (Seq<char>, Seq<char>),
> {
    let ds = domains_of(cfg.domains@);
    seq![
        ("ProjectName"@, cfg.project@),
        ("DomainName"@, first_domain(ds)),
        ("RelayDomain"@, first_domain(ds)),
        ("AliasMapJson"@, json),
        ("CatchAll"@, first_catch_all(ds)),
        ("BannerEnabled"@, word(cfg.settings.banner_enabled)),
        ("ApiEnabled"@, word(cfg.api.enabled)),
        ("AllowedDomains"@, join(domain_names(ds), ","@)),
        ("RetentionDays"@, decimal(cfg.settings.retention_days as nat)),
        (
            "RateLimitRequestsPerSecond"@,
            decimal(cfg.api.rate_limit.requests_per_second as nat),
        ),
        ("RateLimitBurst"@, decimal(cfg.api.rate_limit.burst as nat)),
    ]
}

fn names_of(domains: &Vec<DomainConfig>) -> (r: Vec<String>)
    ensures
        texts(r@) == domain_names(domains_of(domains@)),
{
    let mut out: Vec<String> = Vec::new();
    for i in 0..domains.len()
        invariant
            out@.len() == i,
            forall|j: int| 0 <= j < i ==> (#[trigger] out@[j])@ == domains@[j].domain@,
    {
        out.push(copy_of(domains[i].domain.as_str()));
    }
    assert(texts(out@) =~= domain_names(domains_of(domains@)));
    out
}

/// Whether a parameter has the value, and is there only once.
pub open spec fn is_set(ps: Seq<(Seq<char>, Seq<char>)>, name: Seq<char>, value: Seq<char>) -> bool {
    exists|i: int|
        0 <= i < ps.len() && #[trigger] ps[i] == (name, value) && forall|j: int|
            0 <= j < ps.len() && j != i ==> (#[trigger] ps[j]).0 != name
}

/// The parameters have different names.
proof fn lemma_parameter_names(cfg: FourwardConfig, json: Seq<char>)
    ensures
        parameter_list(cfg, json).len() == 11,
        forall|i: int, j: int|
            0 <= i < 11 && 0 <= j < 11 && i != j ==> (#[trigger] parameter_list(cfg, json)[i]).0 != (
            #[trigger] parameter_list(cfg, json)[j]).0,
{
    reveal_strlit("ProjectName");
    reveal_strlit("DomainName");
    reveal_strlit("RelayDomain");
    reveal_strlit("AliasMapJson");
    reveal_strlit("CatchAll");
    reveal_strlit("BannerEnabled");
    reveal_strlit("ApiEnabled");
    reveal_strlit("AllowedDomains");
    reveal_strlit("RetentionDays");
    reveal_strlit("RateLimitRequestsPerSecond");
    reveal_strlit("RateLimitBurst");
    assert("ProjectName"@.len() == 11 && "ProjectName"@[0] == 'P');
    assert("DomainName"@.len() == 10 && "DomainName"@[0] == 'D');
    assert("RelayDomain"@.len() == 11 && "RelayDomain"@[0] == 'R');
    assert("AliasMapJson"@.len() == 12 && "AliasMapJson"@[0] == 'A');
    assert("CatchAll"@.len() == 8 && "CatchAll"@[0] == 'C');
    assert("BannerEnabled"@.len() == 13 && "BannerEnabled"@[0] == 'B');
    assert("ApiEnabled"@.len() == 10 && "ApiEnabled"@[0] == 'A');
    assert("AllowedDomains"@.len() == 14 && "AllowedDomains"@[0] == 'A');
    assert("RetentionDays"@.len() == 13 && "RetentionDays"@[0] == 'R');
    assert("RateLimitRequestsPerSecond"@.len() == 26 && "RateLimitRequestsPerSecond"@[0] == 'R');
    assert("RateLimitBurst"@.len() == 14 && "RateLimitBurst"@[0] == 'R');
}

proof fn lemma_is_set(cfg: FourwardConfig, json: Seq<char>, i: int)
    requires
        0 <= i < 11,
    ensures
        is_set(
            parameter_list(cfg, json),
            parameter_list(cfg, json)[i].0,
            parameter_list(cfg, json)[i].1,
        ),
{
    lemma_parameter_names(cfg, json);
    let ps = parameter_list(cfg, json);
    assert(ps[i] == (ps[i].0, ps[i].1));
}

/// Each parameter of the stack is there once, with what the configuration says of its own setting:
/// the words `true` and `false` for what is switched on and off, and the first domain and its
/// catch-all, or nothing where there is none.
pub proof fn law_parameters(cfg: FourwardConfig, json: Seq<char>)
    ensures
        parameter_list(cfg, json).len() == 11,
        is_set(
            parameter_list(cfg, json),
            "ProjectName"@,
            cfg.project@,
        ),
        is_set(
            parameter_list(cfg, json),
            "DomainName"@,
            (if cfg.domains@.len() > 0 {
                cfg.domains@[0].domain@
            } else {
                Seq::empty()
            }),
        ),
        is_set(
            parameter_list(cfg, json),
            "RelayDomain"@,
            (if cfg.domains@.len() > 0 {
                cfg.domains@[0].domain@
            } else {
                Seq::empty()
            }),
        ),
        is_set(
            parameter_list(cfg, json),
            "AliasMapJson"@,
            json,
        ),
        is_set(
            parameter_list(cfg, json),
            "CatchAll"@,
            (if cfg.domains@.len() > 0 && cfg.domains@[0].catch_all is Some {
                cfg.domains@[0].catch_all->0@
            } else {
                Seq::empty()
            }),
        ),
        is_set(
            parameter_list(cfg, json),
            "BannerEnabled"@,
            (if cfg.settings.banner_enabled {
                "true"@
            } else {
                "false"@
            }),
        ),
        is_set(
            parameter_list(cfg, json),
            "ApiEnabled"@,
            (if cfg.api.enabled {
                "true"@
            } else {
                "false"@
            }),
        ),
        is_set(
            parameter_list(cfg, json),
            "AllowedDomains"@,
            join(
                Seq::new(cfg.domains@.len(), |i: int| cfg.domains@[i].domain@),
                ","@,
            ),
        ),
        is_set(
            parameter_list(cfg, json),
            "RetentionDays"@,
            decimal(cfg.settings.retention_days as nat),
        ),
        is_set(
            parameter_list(cfg, json),
            "RateLimitRequestsPerSecond"@,
            decimal(cfg.api.rate_limit.requests_per_second as nat),
        ),
        is_set(
            parameter_list(cfg, json),
            "RateLimitBurst"@,
            decimal(cfg.api.rate_limit.burst as nat),
        ),
{
    let ps = parameter_list(cfg, json);
    lemma_parameter_names(cfg, json);
    assert(domain_names(domains_of(cfg.domains@)) =~= Seq::new(
        cfg.domains@.len(),
        |i: int| cfg.domains@[i].domain@,
    ));
    lemma_is_set(cfg, json, 0);
    lemma_is_set(cfg, json, 1);
    lemma_is_set(cfg, json, 2);
    lemma_is_set(cfg, json, 3);
    lemma_is_set(cfg, json, 4);
    lemma_is_set(cfg, json, 5);
    lemma_is_set(cfg, json, 6);
    lemma_is_set(cfg, json, 7);
    lemma_is_set(cfg, json, 8);
    lemma_is_set(cfg, json, 9);
    lemma_is_set(cfg, json, 10);
}

/// The parameters of the stack, where `json` is the routing table.
pub fn parameters_with(cfg: &FourwardConfig, json: &str) -> (r: Vec<(String, String)>)
    ensures
        parameters(r@) == parameter_list(*cfg, json@),
        r@.len() == 11,
        is_set(
            parameters(r@),
            "ProjectName"@,
            cfg.project@,
        ),
        is_set(
            parameters(r@),
            "DomainName"@,
            (if cfg.domains@.len() > 0 {
                cfg.domains@[0].domain@
            } else {
                Seq::empty()
            }),
        ),
        is_set(
            parameters(r@),
            "RelayDomain"@,
            (if cfg.domains@.len() > 0 {
                cfg.domains@[0].domain@
            } else {
                Seq::empty()
            }),
        ),
        is_set(
            parameters(r@),
            "AliasMapJson"@,
            json@,
        ),
        is_set(
            parameters(r@),
            "CatchAll"@,
            (if cfg.domains@.len() > 0 && cfg.domains@[0].catch_all is Some {
                cfg.domains@[0].catch_all->0@
            } else {
                Seq::empty()
            }),
        ),
        is_set(
            parameters(r@),
            "BannerEnabled"@,
            (if cfg.settings.banner_enabled {
                "true"@
            } else {
                "false"@
            }),
        ),
        is_set(
            parameters(r@),
            "ApiEnabled"@,
            (if cfg.api.enabled {
                "true"@
            } else {
                "false"@
            }),
        ),
        is_set(
            parameters(r@),
            "AllowedDomains"@,
            join(
                Seq::new(cfg.domains@.len(), |i: int| cfg.domains@[i].domain@),
                ","@,
            ),
        ),
        is_set(
            parameters(r@),
            "RetentionDays"@,
            decimal(cfg.settings.retention_days as nat),
        ),
        is_set(
            parameters(r@),
            "RateLimitRequestsPerSecond"@,
            decimal(cfg.api.rate_limit.requests_per_second as nat),
        ),
        is_set(
            parameters(r@),
            "RateLimitBurst"@,
            decimal(cfg.api.rate_limit.burst as nat),
        ),
{
    proof {
        law_parameters(*cfg, json@);
    }
    let domain = if cfg.domains.len() > 0 {
        copy_of(cfg.domains[0].domain.as_str())
    } else {
        String::new()
    };
    let catch_all = if cfg.domains.len() > 0 {
        match &cfg.domains[0].catch_all {
            Some(c) => copy_of(c.as_str()),
            None => String::new(),
        }
    } else {
        String::new()
    };
    let mut out: Vec<(String, String)> = Vec::new();
    out.push((copy_of("ProjectName"), copy_of(cfg.project.as_str())));
    out.push((copy_of("DomainName"), copy_of(domain.as_str())));
    out.push((copy_of("RelayDomain"), domain));
    out.push((copy_of("AliasMapJson"), copy_of(json)));
    out.push((copy_of("CatchAll"), catch_all));
    out.push((copy_of("BannerEnabled"), word_for(cfg.settings.banner_enabled)));
    out.push((copy_of("ApiEnabled"), word_for(cfg.api.enabled)));
    out.push((copy_of("AllowedDomains"), join_texts(&names_of(&cfg.domains), ",")));
    out.push((copy_of("RetentionDays"), decimal_text(cfg.settings.retention_days as u64)));
    out.push(
        (
            copy_of("RateLimitRequestsPerSecond"),
            decimal_text(cfg.api.rate_limit.requests_per_second as u64),
        ),
    );
    out.push((copy_of("RateLimitBurst"), decimal_text(cfg.api.rate_limit.burst as u64)));
    assert(parameters(out@) =~= parameter_list(*cfg, json@));
    out
}

/// The parameters of the stack.
pub fn stack_parameters(cfg: &FourwardConfig) -> (r: Vec<(String, String)>)
    ensures
        exists|json: Seq<char>|
            map_of_json(json) == Some(as_map(deployed(domains_of(cfg.domains@)))) && parameters(r@)
                == #[trigger] parameter_list(*cfg, json) && is_set(
                parameters(r@),
                "AliasMapJson"@,
                json,
            ),
        r@.len() == 11,
        is_set(
            parameters(r@),
            "ProjectName"@,
            cfg.project@,
        ),
        is_set(
            parameters(r@),
            "DomainName"@,
            (if cfg.domains@.len() > 0 {
                cfg.domains@[0].domain@
            } else {
                Seq::empty()
            }),
        ),
        is_set(
            parameters(r@),
            "RelayDomain"@,
            (if cfg.domains@.len() > 0 {
                cfg.domains@[0].domain@
            } else {
                Seq::empty()
            }),
        ),
        is_set(
            parameters(r@),
            "CatchAll"@,
            (if cfg.domains@.len() > 0 && cfg.domains@[0].catch_all is Some {
                cfg.domains@[0].catch_all->0@
            } else {
                Seq::empty()
            }),
        ),
        is_set(
            parameters(r@),
            "BannerEnabled"@,
            (if cfg.settings.banner_enabled {
                "true"@
            } else {
                "false"@
            }),
        ),
        is_set(
            parameters(r@),
            "ApiEnabled"@,
            (if cfg.api.enabled {
                "true"@
            } else {
                "false"@
            }),
        ),
        is_set(
            parameters(r@),
            "AllowedDomains"@,
            join(
                Seq::new(cfg.domains@.len(), |i: int| cfg.domains@[i].domain@),
                ","@,
            ),
        ),
        is_set(
            parameters(r@),
            "RetentionDays"@,
            decimal(cfg.settings.retention_days as nat),
        ),
        is_set(
            parameters(r@),
            "RateLimitRequestsPerSecond"@,
            decimal(cfg.api.rate_limit.requests_per_second as nat),
        ),
        is_set(
            parameters(r@),
            "RateLimitBurst"@,
            decimal(cfg.api.rate_limit.burst as nat),
        ),
{
    let json = alias_map_json(cfg);
    parameters_with(cfg, json.as_str())
}

// ---------------------------------------------------------------------------------------------
// The state of the stack
// ---------------------------------------------------------------------------------------------

/// How far a stack is.
#[derive(Debug, Clone, Copy, PartialEq, Eq, Structural)]
pub enum StackState {
    /// It has settled.
    Settled,
    /// It has failed.
    Failed,
    /// It is still being worked on.
    Pending,
}

/// How far a stack is, by its status.
pub open spec fn stack_state_of(status: Seq<char>) -> StackState {
    if has_text(status, "FAILED"@) || has_text(status, "ROLLBACK_COMPLETE"@) {
        StackState::Failed
    } else if has_text(status, "COMPLETE"@) && !has_text(status, "PROGRESS"@) {
        StackState::Settled
    } else {
        StackState::Pending
    }
}

/// How far a stack is, by its status.
pub fn stack_state(status: &str) -> (r: StackState)
    ensures
        r == stack_state_of(status@),
{
    if contains_text(status, "FAILED") || contains_text(status, "ROLLBACK_COMPLETE") {
        StackState::Failed
    } else if contains_text(status, "COMPLETE") && !contains_text(status, "PROGRESS") {
        StackState::Settled
    } else {
        StackState::Pending
    }
}

/// What is done while a stack is being worked on.
#[derive(Debug)]
pub enum WatchStep {
    /// It is looked at again.
    LookAgain,
    /// Nothing more is waited for.
    Finish,
    /// It has failed, for this reason.
    Fail(String),
}

/// What a [`WatchStep`] holds.
pub enum WatchText {
    LookAgain,
    Finish,
    Fail(Seq<char>),
}

impl View for WatchStep {
    type V = WatchText;

    open spec fn view(&self) -> WatchText {
        match *self {
            WatchStep::LookAgain => WatchText::LookAgain,
            WatchStep::Finish => WatchText::Finish,
            WatchStep::Fail(why) => WatchText::Fail(why@),
        }
    }
}

/// How often a stack is looked at before it is waited for no longer.
pub const LOOKS: u32 = 60;

/// The watch over a stack that is being worked on.
#[derive(Debug)]
pub struct StackWatch {
    looks_left: u32,
}

impl View for StackWatch {
    type V = nat;

    /// How often the stack is still looked at.
    closed spec fn view(&self) -> nat {
        self.looks_left as nat
    }
}

/// What a look at a stack leads to; a stack without a status is still being worked on. The
/// second argument says how often it is looked at after this look.
pub open spec fn after_look(status: Option<Seq<char>>, left: nat) -> WatchText {
    let go_on = if left > 0 {
        WatchText::LookAgain
    } else {
        WatchText::Finish
    };
    match status {
        None => go_on,
        Some(s) => match stack_state_of(s) {
            StackState::Settled => WatchText::Finish,
            StackState::Failed => WatchText::Fail("stack failed: "@ + s),
            StackState::Pending => go_on,
        },
    }
}

impl StackWatch {
    /// Begins to watch.
    pub fn new() -> (r: StackWatch)
        ensures
            r@ == LOOKS,
    {
        StackWatch { looks_left: LOOKS }
    }

    /// Takes the status that a look at the stack gave; none where the look gave nothing.
    pub fn on_look(&mut self, status: Option<&str>) -> (r: WatchStep)
        ensures
            final(self)@ == (if old(self)@ > 0 {
                old(self)@ - 1
            } else {
                0
            }),
            r@ == after_look(maybe_str(status), final(self)@),
    {
        if self.looks_left > 0 {
            self.looks_left = self.looks_left - 1;
        }
        let go_on = if self.looks_left > 0 {
            WatchStep::LookAgain
        } else {
            WatchStep::Finish
        };
        match status {
            None => go_on,
            Some(s) => match stack_state(s) {
                StackState::Settled => WatchStep::Finish,
                StackState::Failed => {
                    let mut why = copy_of("stack failed: ");
                    why.append(s);
                    WatchStep::Fail(why)
                },
                StackState::Pending => go_on,
            },
        }
    }
}

/// Whether an update was refused because there is nothing to update.
pub fn is_up_to_date(error: &str) -> (r: bool)
    ensures
        r == has_text(error@, "No updates"@),
{
    contains_text(error, "No updates")
}

// ---------------------------------------------------------------------------------------------
// What is deployed is what was configured
// ---------------------------------------------------------------------------------------------

/// Of gathered routes the last one with a key counts.
proof fn lemma_gathered_last(list: Seq<(Seq<char>, Seq<Seq<char>>)>, i: int)
    requires
        0 <= i < list.len(),
        forall|j: int| i < j < list.len() ==> (#[trigger] list[j]).0 != list[i].0,
    ensures
        exact(gathered(list), list[i].0) == Some(list[i].1),
    decreases list.len(),
{
    let before = gathered(list.drop_last());
    if i == list.len() - 1 {
        law_set_then_routed(before, list[i].0, list[i].1);
    } else {
        assert(list[list.len() - 1].0 != list[i].0);
        law_set_keeps_others(before, list.last().0, list.last().1, list[i].0);
        lemma_gathered_last(list.drop_last(), i);
    }
}

/// Tables that are the same map find the same.
proof fn lemma_same_map(
    a: Seq<(Seq<char>, Seq<Seq<char>>)>,
    b: Seq<(Seq<char>, Seq<Seq<char>>)>,
    key: Seq<char>,
)
    requires
        as_map(a) == as_map(b),
    ensures
        exact(a, key) == exact(b, key),
{
    assert(as_map(a).dom().contains(key) == (exact(a, key) is Some));
    assert(as_map(b).dom().contains(key) == (exact(b, key) is Some));
    if exact(a, key) is Some {
        assert(as_map(a)[key] == exact(a, key)->0);
        assert(as_map(b)[key] == exact(b, key)->0);
    }
}

/// A table that is the same map as the deployed one finds, for each address, the last route that
/// the configuration has for it.
pub proof fn law_last_route_counts(
    ds: Seq<DomainText>,
    i: int,
    t: Seq<(Seq<char>, Seq<Seq<char>>)>,
)
    requires
        0 <= i < all_routes(ds).len(),
        forall|k: int|
            i < k < all_routes(ds).len() ==> (#[trigger] all_routes(ds)[k]).0 != all_routes(
                ds,
            )[i].0,
        as_map(t) == as_map(deployed(ds)),
    ensures
        exact(t, all_routes(ds)[i].0) == Some(all_routes(ds)[i].1),
{
    lemma_gathered_last(all_routes(ds), i);
    lemma_same_map(t, deployed(ds), all_routes(ds)[i].0);
}

/// A relay that was set up with the deployed routing table sends the mail for each configured
/// alias where the configuration says, whatever the catch-all, where no two routes of the
/// configuration are for the same address.
pub proof fn law_deployed_routes(
    ds: Seq<DomainText>,
    i: int,
    j: int,
    t: Seq<(Seq<char>, Seq<Seq<char>>)>,
    catch_all: Option<Seq<char>>,
)
    requires
        0 <= i < ds.len(),
        0 <= j < ds[i].routes.len(),
        distinct(all_routes(ds)),
        as_map(t) == as_map(deployed(ds)),
    ensures
        destinations_of(ds[i].routes[j].0, ds[i].domain, t, catch_all) == ds[i].routes[j].1,
{
    let e = (address_of(ds[i].routes[j].0, ds[i].domain), ds[i].routes[j].1);
    law_every_route_is_deployed(ds, i, j);
    let at = choose|at: int| 0 <= at < all_routes(ds).len() && all_routes(ds)[at] == e;
    law_last_route_counts(ds, at, t);
}

/// A relay that was set up with the deployed routing table finds a configured alias regardless
/// of letter case, where only one route of the configuration fits.
pub proof fn law_deployed_routes_in_any_case(
    ds: Seq<DomainText>,
    at: int,
    t: Seq<(Seq<char>, Seq<Seq<char>>)>,
    alias: Seq<char>,
    domain: Seq<char>,
    catch_all: Option<Seq<char>>,
)
    requires
        0 <= at < all_routes(ds).len(),
        same_ignoring_case(all_routes(ds)[at].0, address_of(alias, domain)),
        forall|k: int|
            0 <= k < all_routes(ds).len() && k != at ==> !same_ignoring_case(
                (#[trigger] all_routes(ds)[k]).0,
                address_of(alias, domain),
            ),
        distinct(t),
        as_map(t) == as_map(deployed(ds)),
    ensures
        destinations_of(alias, domain, t, catch_all) == all_routes(ds)[at].1,
{
    let list = all_routes(ds);
    let key = address_of(alias, domain);
    assert forall|k: int| at < k < list.len() implies (#[trigger] list[k]).0 != list[at].0 by {
        assert(!same_ignoring_case(list[k].0, key));
    }
    law_last_route_counts(ds, at, t);
    lemma_exact_at(t, list[at].0);
    let i = choose|i: int| 0 <= i < t.len() && t[i] == (list[at].0, list[at].1);
    assert forall|j: int| 0 <= j < t.len() && j != i implies !same_ignoring_case(
        (#[trigger] t[j]).0,
        key,
    ) by {
        if same_ignoring_case(t[j].0, key) {
            lemma_exact(t, t[j].0, j);
            lemma_same_map(t, deployed(ds), t[j].0);
            lemma_gathered_key(list, t[j].0);
            let k = choose|k: int| 0 <= k < list.len() && (#[trigger] list[k]).0 == t[j].0;
            assert(k == at);
            assert(t[i].0 == t[j].0);
        }
    }
    law_case_does_not_matter(t, key, i);
}

/// The case of letters is that of the parts, where two addresses have domains of the same name.
proof fn lemma_same_address(a: Seq<char>, b: Seq<char>, x: Seq<char>, y: Seq<char>)
    requires
        same_ignoring_case(x, y),
    ensures
        same_ignoring_case(address_of(a, x), address_of(b, y)) == same_ignoring_case(a, b),
{
    let at = "@"@;
    let fa = fold_case(a);
    let fb = fold_case(b);
    let end = fold_case(at) + fold_case(x);
    assert(fold_case(address_of(a, x)) =~= fa + end);
    assert(fold_case(address_of(b, y)) =~= fb + fold_case(at) + fold_case(y));
    assert(fold_case(address_of(b, y)) =~= fb + end);
    if fa + end == fb + end {
        assert(fa.len() == fb.len()) by {
            assert((fa + end).len() == (fb + end).len());
        }
        assert(fa =~= (fa + end).take(fa.len() as int));
        assert(fb =~= (fb + end).take(fb.len() as int));
    }
}

/// Whether no two aliases of a domain differ only in the case of letters.
pub open spec fn differ_in_any_case(t: Seq<(Seq<char>, Seq<Seq<char>>)>) -> bool {
    forall|i: int, j: int|
        0 <= i < j < t.len() ==> !same_ignoring_case((#[trigger] t[i]).0, (#[trigger] t[j]).0)
}

/// A relay that was set up with what is deployed of a configuration with one domain sends mail
/// where the configuration says: by its routes, and by its catch-all for all other aliases. Two
/// aliases that differ only in the case of letters are told apart by the configuration; the relay
/// may take the one for the other where the domain is written otherwise. An empty catch-all counts
/// as none in the relay.
pub proof fn law_deployed_domain(
    d: DomainText,
    t: Seq<(Seq<char>, Seq<Seq<char>>)>,
    alias: Seq<char>,
    domain: Seq<char>,
)
    requires
        same_ignoring_case(d.domain, domain),
        differ_in_any_case(d.routes),
        d.catch_all matches Some(c) ==> c.len() > 0,
        distinct(t),
        as_map(t) == as_map(deployed(seq![d])),
    ensures
        destinations_of(alias, domain, t, Some(first_catch_all(seq![d]))) == resolved(
            seq![d],
            alias,
            domain,
        ),
{
    let ds = seq![d];
    let list = all_routes(ds);
    let key = address_of(alias, domain);
    let catch_all = Some(first_catch_all(ds));
    assert(ds.drop_last().len() == 0);
    assert(all_routes(ds.drop_last()) =~= seq![]);
    assert(ds.last() == d);
    assert(list =~= addressed(d));
    assert forall|k: int| 0 <= k < list.len() implies same_ignoring_case(
        (#[trigger] list[k]).0,
        key,
    ) == same_ignoring_case(d.routes[k].0, alias) by {
        lemma_same_address(d.routes[k].0, alias, d.domain, domain);
    }
    if exists|k: int|
        0 <= k < d.routes.len() && same_ignoring_case((#[trigger] d.routes[k]).0, alias) {
        let at = choose|k: int|
            0 <= k < d.routes.len() && same_ignoring_case((#[trigger] d.routes[k]).0, alias);
        assert forall|k: int| 0 <= k < d.routes.len() && k != at implies !same_ignoring_case(
            (#[trigger] d.routes[k]).0,
            alias,
        ) by {
            if k < at {
                assert(!same_ignoring_case(d.routes[k].0, d.routes[at].0));
            } else {
                assert(!same_ignoring_case(d.routes[at].0, d.routes[k].0));
            }
        }
        assert(list[at].1 == d.routes[at].1);
        assert forall|k: int| 0 <= k < list.len() && k != at implies !same_ignoring_case(
            (#[trigger] list[k]).0,
            key,
        ) by {
            assert(!same_ignoring_case(d.routes[k].0, alias));
        }
        law_deployed_routes_in_any_case(ds, at, t, alias, domain, catch_all);
        law_case_does_not_matter(d.routes, alias, at);
    } else {
        assert forall|k: int| 0 <= k < d.routes.len() implies (#[trigger] d.routes[k]).0
            != alias by {
            assert(!same_ignoring_case(d.routes[k].0, alias));
        }
        lemma_exact_none(d.routes, alias);
        lemma_loose_none(d.routes, alias);
        assert forall|j: int| 0 <= j < t.len() implies !same_ignoring_case(
            (#[trigger] t[j]).0,
            key,
        ) by {
            lemma_exact(t, t[j].0, j);
            lemma_same_map(t, deployed(ds), t[j].0);
            lemma_gathered_key(list, t[j].0);
            let k = choose|k: int| 0 <= k < list.len() && (#[trigger] list[k]).0 == t[j].0;
            assert(!same_ignoring_case(d.routes[k].0, alias));
        }
        assert forall|j: int| 0 <= j < t.len() implies (#[trigger] t[j]).0 != key by {
            assert(!same_ignoring_case(t[j].0, key));
        }
        lemma_exact_none(t, key);
        lemma_loose_none(t, key);
    }
}

/// What is found under a key is an entry.
proof fn lemma_exact_at(t: Seq<(Seq<char>, Seq<Seq<char>>)>, key: Seq<char>)
    requires
        exact(t, key) is Some,
    ensures
        exists|i: int| 0 <= i < t.len() && t[i] == (key, exact(t, key)->0),
    decreases t.len(),
{
    if t[0].0 == key {
        assert(t[0] == (key, exact(t, key)->0));
    } else {
        let rest = t.skip(1);
        lemma_exact_at(rest, key);
        let i = choose|i: int| 0 <= i < rest.len() && rest[i] == (key, exact(rest, key)->0);
        assert(t[i + 1] == (key, exact(t, key)->0));
    }
}

/// A key of gathered routes is a key of one of them.
proof fn lemma_gathered_key(list: Seq<(Seq<char>, Seq<Seq<char>>)>, key: Seq<char>)
    requires
        exact(gathered(list), key) is Some,
    ensures
        exists|k: int| 0 <= k < list.len() && (#[trigger] list[k]).0 == key,
    decreases list.len(),
{
    if list.len() > 0 {
        if list.last().0 == key {
            assert(list[list.len() - 1].0 == key);
        } else {
            let rest = list.drop_last();
            law_set_keeps_others(gathered(rest), list.last().0, list.last().1, key);
            lemma_gathered_key(rest, key);
            let k = choose|k: int| 0 <= k < rest.len() && (#[trigger] rest[k]).0 == key;
            assert(list[k].0 == key);
        }
    }
}

/// Each route of a configuration is among the deployed ones, under its address.
pub proof fn law_every_route_is_deployed(ds: Seq<DomainText>, i: int, j: int)
    requires
        0 <= i < ds.len(),
        0 <= j < ds[i].routes.len(),
    ensures
        all_routes(ds).contains(
            (address_of(ds[i].routes[j].0, ds[i].domain), ds[i].routes[j].1),
        ),
    decreases ds.len(),
{
    let e = (address_of(ds[i].routes[j].0, ds[i].domain), ds[i].routes[j].1);
    let before = all_routes(ds.drop_last());
    if i < ds.len() - 1 {
        law_every_route_is_deployed(ds.drop_last(), i, j);
        let k = choose|k: int| 0 <= k < before.len() && before[k] == e;
        assert(all_routes(ds)[k] == e);
    } else {
        assert(addressed(ds[i])[j] == e);
        assert(all_routes(ds)[before.len() + j] == e);
    }
}

/// The banner is on in the relay exactly where it is on in the configuration.
pub proof fn law_banner_setting(b: bool)
    ensures
        (word(b) != "false"@ && word(b) != "0"@) == b,
{
    reveal_strlit("true");
    reveal_strlit("false");
    reveal_strlit("0");
    assert("true"@.len() == 4);
    assert("false"@.len() == 5);
}

/// A list is the same when its texts are joined from the front.
proof fn lemma_join_front(list: Seq<Seq<char>>, sep: Seq<char>)
    requires
        list.len() > 1,
    ensures
        join(list, sep) == list[0] + sep + join(list.skip(1), sep),
    decreases list.len(),
{
    let rest = list.skip(1);
    if list.len() == 2 {
        assert(list.drop_last() =~= seq![list[0]]);
        assert(rest =~= seq![list[1]]);
        assert(join(list.drop_last(), sep) == list[0]);
    } else {
        lemma_join_front(list.drop_last(), sep);
        assert(list.drop_last().skip(1) =~= rest.drop_last());
        assert(join(list, sep) =~= list[0] + sep + join(rest, sep));
    }
}

/// Splitting a joined list gives the list back, where no text of it has the separator in it.
proof fn lemma_split_join(list: Seq<Seq<char>>, c: char)
    requires
        list.len() > 0,
        forall|i: int| 0 <= i < list.len() ==> !(#[trigger] list[i]).contains(c),
    ensures
        split(join(list, seq![c]), c) == list,
    decreases list.len(),
{
    let s = join(list, seq![c]);
    assert(!list[0].contains(c));
    assert forall|j: int| 0 <= j < list[0].len() implies list[0][j] != c by {
        assert(list[0].contains(list[0][j]));
    }
    if list.len() == 1 {
        lemma_first_of_is(s, c, s.len() as int);
        assert(list =~= seq![list[0]]);
    } else {
        let rest = list.skip(1);
        assert forall|i: int| 0 <= i < rest.len() implies !(#[trigger] rest[i]).contains(c) by {
            assert(rest[i] == list[i + 1]);
        }
        lemma_join_front(list, seq![c]);
        lemma_split_join(rest, c);
        let n = list[0].len() as int;
        assert(s[n] == c);
        assert forall|j: int| 0 <= j < n implies s[j] != c by {
            assert(s[j] == list[0][j]);
        }
        lemma_first_of_is(s, c, n);
        assert(s.take(n) =~= list[0]);
        assert(s.skip(n + 1) =~= join(rest, seq![c]));
        assert(list =~= seq![list[0]] + rest);
    }
}

/// The domains that may send, as they are deployed, are those of the configuration in
/// lowercase, where no domain has a comma in its name.
pub proof fn law_allowed_domains(ds: Seq<DomainText>)
    requires
        ds.len() > 0,
        forall|i: int| 0 <= i < ds.len() ==> !(#[trigger] ds[i]).domain.contains(','),
    ensures
        domain_list(split(join(domain_names(ds), ","@), ',')) == domain_list(domain_names(ds)),
{
    reveal_strlit(",");
    assert(","@ =~= seq![',']);
    let names = domain_names(ds);
    assert forall|i: int| 0 <= i < names.len() implies !(#[trigger] names[i]).contains(',') by {
        assert(names[i] == ds[i].domain);
    }
    lemma_split_join(names, ',');
}

} // verus!
