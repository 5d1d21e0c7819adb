//! Editing the alias routes of a configuration.
use vstd::prelude::*;

use crate::config::{
    domains_of, has_distinct_aliases, lemma_resolved_at, resolved, DomainConfig, DomainText,
    FourwardConfig,
};
use crate::routes::{
    distinct, exact, law_remove_keeps_distinct, law_removed_is_gone, law_set_keeps_distinct,
    law_set_then_routed, remove_route, set_route, with_route, without_route,
};
use crate::text::{
    chars_of, copy_of, eq_ignore_case_text, join, join_texts, lowercase, runs, same_ignoring_case,
    split, split_at_each, split_once, split_once_at, text_of, texts, trim, trim_of, Class,
};

verus! {

broadcast use vstd::seq_lib::group_seq_properties;

/// What is done with the routes.
#[derive(Debug, Clone)]
pub enum AliasCmd {
    /// All routes are listed.
    List,
    /// The destinations of an alias are set.
    Put {
        /// The alias with its domain.
        route: String,
        /// The destinations, separated by commas.
        dests: String,
    },
    /// An alias is removed.
    Rm {
        /// The alias with its domain.
        route: String,
    },
}

// ---------------------------------------------------------------------------------------------
// Listing
// ---------------------------------------------------------------------------------------------

/// A route as a line.
pub open spec fn route_text(alias: Seq<char>, domain: Seq<char>, dests: Seq<Seq<char>>) -> Seq<char> {
    alias + "@"@ + domain + " -> "@ + join(dests, ","@)
}

/// The routes of a domain as lines.
pub open spec fn domain_lines(d: DomainText) -> Seq<Seq<char>> {
    d.routes.map_values(|r: (Seq<char>, Seq<Seq<char>>)| route_text(r.0, d.domain, r.1)) + (
    match d.catch_all {
        Some(c) => seq!["*@"@ + d.domain + " -> "@ + c + " (catch-all)"@],
        None => seq![],
    })
}

/// The routes of all domains as lines.
pub open spec fn all_lines(ds: Seq<DomainText>) -> Seq<Seq<char>>
    decreases ds.len(),
{
    if ds.len() == 0 {
        seq![]
    } else {
        all_lines(ds.drop_last()) + domain_lines(ds.last())
    }
}

fn lines_for(d: &DomainConfig) -> (r: Vec<String>)
    ensures
        texts(r@) == domain_lines(d@),
{
    let mut out: Vec<String> = Vec::new();
    for i in 0..d.routes.len()
        invariant
            out@.len() == i,
            forall|j: int|
                0 <= j < i ==> (#[trigger] out@[j])@ == route_text(
                    d@.routes[j].0,
                    d@.domain,
                    d@.routes[j].1,
                ),
    {
        let mut line = copy_of(d.routes[i].0.as_str());
        line.append("@");
        line.append(d.domain.as_str());
        line.append(" -> ");
        line.append(join_texts(&d.routes[i].1, ",").as_str());
        out.push(line);
    }
    let ghost plain = out@;
    if let Some(c) = &d.catch_all {
        let mut line = copy_of("*@");
        line.append(d.domain.as_str());
        line.append(" -> ");
        line.append(c.as_str());
        line.append(" (catch-all)");
        out.push(line);
    }
    assert(texts(out@) =~= domain_lines(d@));
    out
}

/// The routes of all domains as lines: aliases with their destinations, and catch-alls.
pub fn route_lines(domains: &Vec<DomainConfig>) -> (r: Vec<String>)
    ensures
        texts(r@) == all_lines(domains_of(domains@)),
{
    let ghost ds = domains_of(domains@);
    let mut out: Vec<String> = Vec::new();
    assert(texts(out@) =~= seq![]);
    for i in 0..domains.len()
        invariant
            ds == domains_of(domains@),
            texts(out@) == all_lines(ds.take(i as int)),
    {
        let ghost before = out@;
        let mut more = lines_for(&domains[i]);
        let ghost added = more@;
        out.append(&mut more);
        assert(out@ == before + added);
        assert(texts(out@) =~= texts(before) + texts(added));
        assert(ds.take(i + 1).drop_last() =~= ds.take(i as int));
        assert(ds.take(i + 1).last() == domains@[i as int]@);
    }
    assert(ds.take(ds.len() as int) =~= ds);
    out
}

// ---------------------------------------------------------------------------------------------
// Editing
// ---------------------------------------------------------------------------------------------

/// The destinations of a comma-separated list, trimmed, without the empty ones.
pub open spec fn destination_list(parts: Seq<Seq<char>>) -> Seq<Seq<char>>
    decreases parts.len(),
{
    if parts.len() == 0 {
        seq![]
    } else {
        let before = destination_list(parts.drop_last());
        let d = trim(parts.last());
        if d.len() > 0 {
            before.push(d)
        } else {
            before
        }
    }
}

fn destinations(list: &str) -> (r: Vec<String>)
    ensures
        texts(r@) == destination_list(split(list@, ',')),
{
    let cs = chars_of(list);
    let parts = split_at_each(cs.as_slice(), ',');
    let ghost all = split(list@, ',');
    let mut out: Vec<String> = Vec::new();
    assert(texts(out@) =~= seq![]);
    for i in 0..parts.len()
        invariant
            runs(parts@) == all,
            texts(out@) == destination_list(all.take(i as int)),
    {
        let ghost before = out@;
        assert(runs(parts@)[i as int] == parts@[i as int]@);
        assert(all.take(i + 1).drop_last() =~= all.take(i as int));
        assert(all.take(i + 1).last() == all[i as int]);
        let d = trim_of(parts[i], Class::White);
        if d.len() > 0 {
            out.push(text_of(d));
            assert(texts(out@) =~= texts(before).push(d@));
        }
    }
    assert(all.take(all.len() as int) =~= all);
    out
}

/// The place of the first domain of a name; the number of domains where there is none.
pub open spec fn domain_place(ds: Seq<DomainText>, domain: Seq<char>) -> int
    decreases ds.len(),
{
    if ds.len() == 0 {
        0
    } else if same_ignoring_case(ds[0].domain, domain) {
        0
    } else {
        1 + domain_place(ds.skip(1), domain)
    }
}

/// What [`domain_place`] is: a domain of the name stands there, and none before.
proof fn lemma_domain_place(ds: Seq<DomainText>, domain: Seq<char>)
    ensures
        0 <= domain_place(ds, domain) <= ds.len(),
        domain_place(ds, domain) < ds.len() ==> same_ignoring_case(
            ds[domain_place(ds, domain)].domain,
            domain,
        ),
        forall|k: int|
            0 <= k < domain_place(ds, domain) ==> !same_ignoring_case(
                (#[trigger] ds[k]).domain,
                domain,
            ),
    decreases ds.len(),
{
    if ds.len() > 0 && !same_ignoring_case(ds[0].domain, domain) {
        let rest = ds.skip(1);
        lemma_domain_place(rest, domain);
        assert forall|k: int| 0 <= k < domain_place(ds, domain) implies !same_ignoring_case(
            (#[trigger] ds[k]).domain,
            domain,
        ) by {
            if k > 0 {
                assert(rest[k - 1] == ds[k]);
            }
        }
    }
}

fn find_domain(domains: &Vec<DomainConfig>, domain: &str) -> (r: usize)
    ensures
        r == domain_place(domains_of(domains@), domain@),
        r <= domains@.len(),
{
    let ghost ds = domains_of(domains@);
    let mut i: usize = 0;
    assert(ds.skip(0) =~= ds);
    while i < domains.len()
        invariant
            i <= domains@.len(),
            ds == domains_of(domains@),
            domain_place(ds, domain@) == i + domain_place(ds.skip(i as int), domain@),
        decreases domains@.len() - i,
    {
        assert(ds.skip(i as int)[0] == domains@[i as int]@);
        assert(ds.skip(i as int).skip(1) =~= ds.skip(i + 1));
        if eq_ignore_case_text(domains[i].domain.as_str(), domain) {
            return i;
        }
        i += 1;
    }
    i
}

/// The routes of a domain with the destinations of an alias set.
pub open spec fn with_alias(d: DomainText, alias: Seq<char>, dests: Seq<Seq<char>>) -> DomainText {
    DomainText { routes: with_route(d.routes, lowercase(alias), dests), ..d }
}

/// The routes of a domain with an alias removed, in lowercase and as it is written.
pub open spec fn without_alias(d: DomainText, alias: Seq<char>) -> DomainText {
    DomainText { routes: without_route(without_route(d.routes, lowercase(alias)), alias), ..d }
}

/// Whether all but the domains is the same in two configurations.
pub open spec fn same_but_domains(a: FourwardConfig, b: FourwardConfig) -> bool {
    a.version == b.version && a.project == b.project && a.aws == b.aws && a.api == b.api
        && a.settings == b.settings
}

/// Where a route is to be edited: the alias and the place of the domain, or what is wrong.
pub open spec fn edit_place(ds: Seq<DomainText>, route: Seq<char>) -> Result<
    (Seq<char>, int),
    Seq<char>,
> {
    match split_once(route, '@') {
        None => Err("route must be alias@domain"@),
        Some((alias, domain)) => if domain_place(ds, domain) < ds.len() {
            Ok((alias, domain_place(ds, domain)))
        } else {
            Err("domain "@ + domain + " not in config"@)
        },
    }
}

fn place_of(domains: &Vec<DomainConfig>, route: &str) -> (r: Result<(String, usize), String>)
    ensures
        match edit_place(domains_of(domains@), route@) {
            Ok((alias, i)) => r matches Ok(p) && p.0@ == alias && p.1 == i && 0 <= i
                < domains@.len(),
            Err(e) => r matches Err(x) && x@ == e,
        },
{
    let cs = chars_of(route);
    match split_once_at(cs.as_slice(), '@') {
        None => Err(copy_of("route must be alias@domain")),
        Some(parts) => {
            let domain = text_of(parts.1);
            proof {
                lemma_domain_place(domains_of(domains@), domain@);
            }
            let i = find_domain(domains, domain.as_str());
            if i < domains.len() {
                Ok((text_of(parts.0), i))
            } else {
                let mut out = copy_of("domain ");
                out.append(domain.as_str());
                out.append(" not in config");
                Err(out)
            }
        },
    }
}

/// Sets the destinations of an alias, which is kept in lowercase, in the first domain of the
/// name.
pub fn set_alias(cfg: &mut FourwardConfig, route: &str, dests: &str) -> (r: Result<(), String>)
    ensures
        same_but_domains(*final(cfg), *old(cfg)),
        has_distinct_aliases(domains_of(old(cfg).domains@)) ==> has_distinct_aliases(
            domains_of(final(cfg).domains@),
        ),
        match edit_place(domains_of(old(cfg).domains@), route@) {
            Ok((alias, i)) => r is Ok && domains_of(final(cfg).domains@) == domains_of(
                old(cfg).domains@,
            ).update(
                i,
                with_alias(
                    domains_of(old(cfg).domains@)[i],
                    alias,
                    destination_list(split(dests@, ',')),
                ),
            ),
            Err(e) => r matches Err(x) && x@ == e && *final(cfg) == *old(cfg),
        },
{
    let (alias, i) = match place_of(&cfg.domains, route) {
        Ok(p) => p,
        Err(e) => return Err(e),
    };
    let ghost before = cfg.domains@;
    set_route(&mut cfg.domains[i].routes, alias.as_str().to_lowercase(), destinations(dests));
    assert(domains_of(cfg.domains@) =~= domains_of(before).update(
        i as int,
        with_alias(before[i as int]@, alias@, destination_list(split(dests@, ','))),
    ));
    proof {
        law_edit_keeps_aliases_distinct(
            domains_of(before),
            i as int,
            alias@,
            destination_list(split(dests@, ',')),
        );
    }
    Ok(())
}

/// Removes an alias from the first domain of the name.
pub fn remove_alias(cfg: &mut FourwardConfig, route: &str) -> (r: Result<(), String>)
    ensures
        same_but_domains(*final(cfg), *old(cfg)),
        has_distinct_aliases(domains_of(old(cfg).domains@)) ==> has_distinct_aliases(
            domains_of(final(cfg).domains@),
        ),
        match edit_place(domains_of(old(cfg).domains@), route@) {
            Ok((alias, i)) => r is Ok && domains_of(final(cfg).domains@) == domains_of(
                old(cfg).domains@,
            ).update(i, without_alias(domains_of(old(cfg).domains@)[i], alias)),
            Err(e) => r matches Err(x) && x@ == e && *final(cfg) == *old(cfg),
        },
{
    let (alias, i) = match place_of(&cfg.domains, route) {
        Ok(p) => p,
        Err(e) => return Err(e),
    };
    let ghost before = cfg.domains@;
    let small = alias.as_str().to_lowercase();
    remove_route(&mut cfg.domains[i].routes, small.as_str());
    remove_route(&mut cfg.domains[i].routes, alias.as_str());
    assert(domains_of(cfg.domains@) =~= domains_of(before).update(
        i as int,
        without_alias(before[i as int]@, alias@),
    ));
    proof {
        law_edit_keeps_aliases_distinct(domains_of(before), i as int, alias@, seq![]);
    }
    Ok(())
}

/// What carrying out a command gives.
#[derive(Debug)]
pub struct AliasOutcome {
    /// The lines to be shown.
    pub lines: Vec<String>,
    /// Whether the configuration was edited and is to be written.
    pub edited: bool,
}

fn one_line(word: &str, route: &str) -> (r: Vec<String>)
    ensures
        texts(r@) == seq![word@ + route@],
{
    let mut line = copy_of(word);
    line.append(route);
    let mut out: Vec<String> = Vec::new();
    out.push(line);
    assert(texts(out@) =~= seq![word@ + route@]);
    out
}

/// Carries out a command on a configuration.
pub fn run(cfg: &mut FourwardConfig, cmd: &AliasCmd) -> (r: Result<AliasOutcome, String>)
    ensures
        same_but_domains(*final(cfg), *old(cfg)),
        has_distinct_aliases(domains_of(old(cfg).domains@)) ==> has_distinct_aliases(
            domains_of(final(cfg).domains@),
        ),
        match *cmd {
            AliasCmd::List => r matches Ok(o) && !o.edited && texts(o.lines@) == all_lines(
                domains_of(old(cfg).domains@),
            ) && *final(cfg) == *old(cfg),
            AliasCmd::Put { route, dests } => match edit_place(
                domains_of(old(cfg).domains@),
                route@,
            ) {
                Ok((alias, i)) => r matches Ok(o) && o.edited && texts(o.lines@) == seq![
                    "updated "@ + route@,
                ] && domains_of(final(cfg).domains@) == domains_of(old(cfg).domains@).update(
                    i,
                    with_alias(
                        domains_of(old(cfg).domains@)[i],
                        alias,
                        destination_list(split(dests@, ',')),
                    ),
                ),
                Err(e) => r matches Err(x) && x@ == e && *final(cfg) == *old(cfg),
            },
            AliasCmd::Rm { route } => match edit_place(domains_of(old(cfg).domains@), route@) {
                Ok((alias, i)) => r matches Ok(o) && o.edited && texts(o.lines@) == seq![
                    "removed "@ + route@,
                ] && domains_of(final(cfg).domains@) == domains_of(old(cfg).domains@).update(
                    i,
                    without_alias(domains_of(old(cfg).domains@)[i], alias),
                ),
                Err(e) => r matches Err(x) && x@ == e && *final(cfg) == *old(cfg),
            },
        },
{
    match cmd {
        AliasCmd::List => Ok(AliasOutcome { lines: route_lines(&cfg.domains), edited: false }),
        AliasCmd::Put { route, dests } => match set_alias(cfg, route.as_str(), dests.as_str()) {
            Ok(()) => Ok(
                AliasOutcome { lines: one_line("updated ", route.as_str()), edited: true },
            ),
            Err(e) => Err(e),
        },
        AliasCmd::Rm { route } => match remove_alias(cfg, route.as_str()) {
            Ok(()) => Ok(
                AliasOutcome { lines: one_line("removed ", route.as_str()), edited: true },
            ),
            Err(e) => Err(e),
        },
    }
}

// ---------------------------------------------------------------------------------------------
// What editing does to routing
// ---------------------------------------------------------------------------------------------

/// After an alias was set, its mail goes to the destinations that were given.
pub proof fn law_set_then_resolve(
    ds: Seq<DomainText>,
    alias: Seq<char>,
    domain: Seq<char>,
    dests: Seq<Seq<char>>,
)
    requires
        domain_place(ds, domain) < ds.len(),
    ensures
        ({
            let i = domain_place(ds, domain);
            resolved(ds.update(i, with_alias(ds[i], alias, dests)), lowercase(alias), domain)
                == dests
        }),
{
    lemma_domain_place(ds, domain);
    let i = domain_place(ds, domain);
    let after = ds.update(i, with_alias(ds[i], alias, dests));
    assert forall|k: int| 0 <= k < i implies !same_ignoring_case(
        (#[trigger] after[k]).domain,
        domain,
    ) by {
        assert(after[k] == ds[k]);
    }
    lemma_resolved_at(after, lowercase(alias), domain, i);
    law_set_then_routed(ds[i].routes, lowercase(alias), dests);
    assert(seq![after[i]][0] == after[i]);
}

/// Editing a route of one domain changes nothing for a domain of another name.
pub proof fn law_edit_keeps_other_domains(
    ds: Seq<DomainText>,
    i: int,
    edited: DomainText,
    alias: Seq<char>,
    other: Seq<char>,
)
    requires
        0 <= i < ds.len(),
        edited.domain == ds[i].domain,
        !same_ignoring_case(ds[i].domain, other),
    ensures
        resolved(ds.update(i, edited), alias, other) == resolved(ds, alias, other),
    decreases i,
{
    let after = ds.update(i, edited);
    if i == 0 {
        assert(after.skip(1) =~= ds.skip(1));
    } else {
        assert(after.skip(1) =~= ds.skip(1).update(i - 1, edited));
        law_edit_keeps_other_domains(ds.skip(1), i - 1, edited, alias, other);
    }
}

/// After an alias was removed, no route of the domain has it as its key, neither as it is
/// written nor in lowercase; every other route is still there.
pub proof fn law_removed_alias_is_gone(d: DomainText, alias: Seq<char>)
    ensures
        exact(without_alias(d, alias).routes, alias) is None,
        exact(without_alias(d, alias).routes, lowercase(alias)) is None,
        forall|e: (Seq<char>, Seq<Seq<char>>)|
            #[trigger] without_alias(d, alias).routes.contains(e) <==> d.routes.contains(e) && e.0
                != alias && e.0 != lowercase(alias),
{
    let first = without_route(d.routes, lowercase(alias));
    law_removed_is_gone(d.routes, lowercase(alias));
    law_removed_is_gone(first, alias);
    let left = without_alias(d, alias).routes;
    if exact(left, lowercase(alias)) is Some {
        lemma_exact_is_entry(left, lowercase(alias));
        let e = choose|e: (Seq<char>, Seq<Seq<char>>)|
            #[trigger] left.contains(e) && e.0 == lowercase(alias);
        assert(first.contains(e));
    }
    assert forall|e: (Seq<char>, Seq<Seq<char>>)| #[trigger] left.contains(e) implies d.routes.contains(e) && e.0
        != alias && e.0 != lowercase(alias) by {
        assert(first.contains(e));
    }
    assert forall|e: (Seq<char>, Seq<Seq<char>>)| d.routes.contains(e) && e.0 != alias && e.0
        != lowercase(alias) implies #[trigger] left.contains(e) by {
        assert(first.contains(e));
    }
}

/// Editing leaves the aliases of each domain distinct.
pub proof fn law_edit_keeps_aliases_distinct(
    ds: Seq<DomainText>,
    i: int,
    alias: Seq<char>,
    dests: Seq<Seq<char>>,
)
    requires
        0 <= i < ds.len(),
    ensures
        has_distinct_aliases(ds) ==> has_distinct_aliases(
            ds.update(i, with_alias(ds[i], alias, dests)),
        ),
        has_distinct_aliases(ds) ==> has_distinct_aliases(ds.update(i, without_alias(ds[i], alias))),
{
    if has_distinct_aliases(ds) {
        let d = ds[i];
        assert(distinct(ds[i].routes));
        law_set_keeps_distinct(d.routes, lowercase(alias), dests);
        law_remove_keeps_distinct(d.routes, lowercase(alias));
        law_remove_keeps_distinct(without_route(d.routes, lowercase(alias)), alias);
    }
}

proof fn lemma_exact_is_entry(t: Seq<(Seq<char>, Seq<Seq<char>>)>, key: Seq<char>)
    requires
        exact(t, key) is Some,
    ensures
        exists|e: (Seq<char>, Seq<Seq<char>>)| #[trigger] t.contains(e) && e.0 == key,
    decreases t.len(),
{
    if t[0].0 == key {
        assert(t.contains(t[0]));
    } else {
        lemma_exact_is_entry(t.skip(1), key);
        let e = choose|e: (Seq<char>, Seq<Seq<char>>)|
            #[trigger] t.skip(1).contains(e) && e.0 == key;
        let j = choose|j: int| 0 <= j < t.skip(1).len() && t.skip(1)[j] == e;
        assert(t[j + 1] == e);
        assert(t.contains(e));
    }
}

} // verus!
