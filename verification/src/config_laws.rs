//! What configurations, their routes and their listing come to, stated on the domains, the aliases
//! and the answers that they are made of.
use vstd::prelude::*;
use vstd::utf8::is_ascii_chars;

use crate::alias::{
    all_lines, destination_list, domain_place, edit_place, with_alias, without_alias,
};
use crate::auth::is_known;
use crate::config::{
    config_problem, destination_problem, domain_problem, domains_of, domains_problem,
    is_valid_domain, is_valid_route, lemma_resolved_at, rendered, resolved, resolved_in,
    route_problem, routes_problem, DnsProvider, DomainText, FourwardConfig,
};
use crate::deploy::{after_look, stack_state_of, StackState, WatchText, LOOKS};
use crate::routes::{
    exact, law_set_keeps_others, law_set_then_routed, lemma_exact, lemma_exact_none, lemma_loose,
    lemma_loose_none, table,
};
use crate::setup::{is_initial, Answers};
use crate::text::{
    has_text, is_blank, join, lemma_replace_after, lemma_replace_whole, replace, same_ignoring_case,
    split, stands_at, texts, trim,
};
use crate::text_laws::{law_blank, law_lowercase, law_split_first, law_split_once};

verus! {

// ---------------------------------------------------------------------------------------------
// Listing
// ---------------------------------------------------------------------------------------------

/// The routes of a configuration are listed one domain after the other: those of a further domain
/// come after the others, a line for each route with its address and its destinations, and a line
/// for the catch-all where the domain has one.
pub proof fn law_listed(ds: Seq<DomainText>, d: DomainText)
    ensures
        all_lines(Seq::empty()).len() == 0,
        ({
            let before = all_lines(ds);
            let after = all_lines(ds.push(d));
            let n = before.len();
            let m = d.routes.len();
            &&& before.is_prefix_of(after)
            &&& after.len() == n + m + (if d.catch_all is Some {
                1int
            } else {
                0
            })
            &&& forall|j: int|
                0 <= j < m ==> #[trigger] after[n + j] == d.routes[j].0 + "@"@ + d.domain + " -> "@
                    + join(d.routes[j].1, ","@)
            &&& d.catch_all matches Some(c) ==> after[(n + m) as int] == "*@"@ + d.domain + " -> "@
                + c + " (catch-all)"@
        }),
{
    let before = all_lines(ds);
    let after = all_lines(ds.push(d));
    assert(ds.push(d).drop_last() =~= ds);
    assert(ds.push(d).last() == d);
    assert(before.is_prefix_of(after)) by {
        assert(after.subrange(0, before.len() as int) =~= before);
    }
}

/// Each route of each domain is listed.
pub proof fn law_every_route_is_listed(ds: Seq<DomainText>, i: int, j: int)
    requires
        0 <= i < ds.len(),
        0 <= j < ds[i].routes.len(),
    ensures
        all_lines(ds).contains(
            ds[i].routes[j].0 + "@"@ + ds[i].domain + " -> "@ + join(ds[i].routes[j].1, ","@),
        ),
    decreases ds.len(),
{
    let less = ds.drop_last();
    let d = ds.last();
    assert(less.push(d) =~= ds);
    law_listed(less, d);
    let line = ds[i].routes[j].0 + "@"@ + ds[i].domain + " -> "@ + join(ds[i].routes[j].1, ","@);
    let n: int = all_lines(less).len() as int;
    if i < less.len() {
        law_every_route_is_listed(less, i, j);
        let k = choose|k: int| 0 <= k < n && all_lines(less)[k] == line;
        assert(all_lines(ds).subrange(0, n)[k] == all_lines(ds)[k]);
    } else {
        assert(all_lines(ds)[n + j] == line);
    }
}

// ---------------------------------------------------------------------------------------------
// Editing
// ---------------------------------------------------------------------------------------------

/// Of a list of destinations the entries between the commas are taken, in order, without the white
/// space around them and without the blank ones.
pub proof fn law_destination_entry(first: Seq<char>, rest: Seq<char>)
    requires
        !first.contains(','),
    ensures
        destination_list(split(first + seq![','] + rest, ',')) == (if is_blank(first) {
            Seq::empty()
        } else {
            seq![trim(first)]
        }) + destination_list(split(rest, ',')),
        destination_list(split(first, ',')) == (if is_blank(first) {
            Seq::empty()
        } else {
            seq![trim(first)]
        }),
{
    law_split_first(first, rest, ',');
    lemma_destination_first(first, split(rest, ','));
    lemma_destination_first(first, Seq::empty());
    assert(seq![first] + Seq::<Seq<char>>::empty() =~= seq![first]);
    assert(destination_list(Seq::empty()) =~= Seq::empty());
}

proof fn lemma_destination_first(first: Seq<char>, parts: Seq<Seq<char>>)
    ensures
        destination_list(seq![first] + parts) == (if is_blank(first) {
            Seq::empty()
        } else {
            seq![trim(first)]
        }) + destination_list(parts),
    decreases parts.len(),
{
    let all = seq![first] + parts;
    let start = if is_blank(first) {
        Seq::empty()
    } else {
        seq![trim(first)]
    };
    if parts.len() == 0 {
        assert(all =~= seq![first]);
        assert(all.drop_last() =~= Seq::empty());
        assert(destination_list(Seq::empty()) =~= Seq::empty());
        law_blank(first);
        assert(destination_list(all) =~= start + destination_list(parts));
    } else {
        assert(all.drop_last() =~= seq![first] + parts.drop_last());
        assert(all.last() == parts.last());
        lemma_destination_first(first, parts.drop_last());
        assert(destination_list(all) =~= start + destination_list(parts));
    }
}

/// A route to be edited is an alias and a domain with an `@` between them: it is looked for in the
/// first domain of that name, in any letter case. Without an `@` it is no route, and a domain that
/// the configuration does not have cannot be edited.
pub proof fn law_edit_place(ds: Seq<DomainText>, alias: Seq<char>, domain: Seq<char>, i: int)
    requires
        !alias.contains('@'),
    ensures
        edit_place(ds, alias) == Err::<(Seq<char>, int), Seq<char>>("route must be alias@domain"@),
        (forall|k: int| 0 <= k < ds.len() ==> !same_ignoring_case((#[trigger] ds[k]).domain, domain))
            ==> edit_place(ds, alias + "@"@ + domain) == Err::<(Seq<char>, int), Seq<char>>(
            "domain "@ + domain + " not in config"@,
        ),
        0 <= i < ds.len() && same_ignoring_case(ds[i].domain, domain) && (forall|k: int|
            0 <= k < i ==> !same_ignoring_case((#[trigger] ds[k]).domain, domain)) ==> edit_place(
            ds,
            alias + "@"@ + domain,
        ) == Ok::<(Seq<char>, int), Seq<char>>((alias, i)),
{
    reveal_strlit("@");
    assert("@"@ =~= seq!['@']);
    law_split_once(alias, domain, '@');
    if forall|k: int| 0 <= k < ds.len() ==> !same_ignoring_case((#[trigger] ds[k]).domain, domain) {
        lemma_place(ds, domain, ds.len() as int);
    }
    if 0 <= i < ds.len() && same_ignoring_case(ds[i].domain, domain) && (forall|k: int|
        0 <= k < i ==> !same_ignoring_case((#[trigger] ds[k]).domain, domain)) {
        lemma_place(ds, domain, i);
    }
}

proof fn lemma_place(ds: Seq<DomainText>, domain: Seq<char>, i: int)
    requires
        0 <= i <= ds.len(),
        i < ds.len() ==> same_ignoring_case(ds[i].domain, domain),
        forall|k: int| 0 <= k < i ==> !same_ignoring_case((#[trigger] ds[k]).domain, domain),
    ensures
        domain_place(ds, domain) == i,
    decreases i,
{
    if i > 0 {
        assert(!same_ignoring_case(ds[0].domain, domain));
        let rest = ds.skip(1);
        assert forall|k: int| 0 <= k < i - 1 implies !same_ignoring_case(
            (#[trigger] rest[k]).domain,
            domain,
        ) by {
            assert(rest[k] == ds[k + 1]);
        }
        lemma_place(rest, domain, i - 1);
    }
}

/// Setting and removing an alias leave a domain's name, its catch-all and who serves its records
/// alone. An alias without capitals that was set is found under its own name, and every other is
/// found as before.
pub proof fn law_alias_set(d: DomainText, alias: Seq<char>, dests: Seq<Seq<char>>, other: Seq<char>)
    requires
        is_ascii_chars(alias),
        forall|i: int| 0 <= i < alias.len() ==> !('A' <= #[trigger] alias[i] <= 'Z'),
        other != alias,
    ensures
        with_alias(d, alias, dests).domain == d.domain,
        with_alias(d, alias, dests).catch_all == d.catch_all,
        with_alias(d, alias, dests).dns_provider == d.dns_provider,
        without_alias(d, alias).domain == d.domain,
        without_alias(d, alias).catch_all == d.catch_all,
        without_alias(d, alias).dns_provider == d.dns_provider,
        exact(with_alias(d, alias, dests).routes, alias) == Some(dests),
        exact(with_alias(d, alias, dests).routes, other) == exact(d.routes, other),
{
    law_lowercase(alias);
    law_set_then_routed(d.routes, alias, dests);
    law_set_keeps_others(d.routes, alias, dests, other);
}

// ---------------------------------------------------------------------------------------------
// Resolving
// ---------------------------------------------------------------------------------------------

/// The mail for an alias goes where the first domain of the name says: by the route that has the
/// alias, or else by the first that has it in another letter case, or else to the catch-all. For a
/// domain that is not in the configuration it goes nowhere.
pub proof fn law_resolve(
    ds: Seq<DomainText>,
    alias: Seq<char>,
    domain: Seq<char>,
    i: int,
    j: int,
)
    requires
        0 <= i <= ds.len(),
        forall|k: int| 0 <= k < i ==> !same_ignoring_case((#[trigger] ds[k]).domain, domain),
        i < ds.len() ==> same_ignoring_case(ds[i].domain, domain),
    ensures
        i == ds.len() ==> resolved(ds, alias, domain) == Seq::<Seq<char>>::empty(),
        i < ds.len() ==> {
            let t = ds[i].routes;
            &&& 0 <= j < t.len() && t[j].0 == alias && (forall|k: int|
                0 <= k < j ==> (#[trigger] t[k]).0 != alias) ==> resolved(ds, alias, domain)
                == t[j].1
            &&& 0 <= j < t.len() && same_ignoring_case(t[j].0, alias) && (forall|k: int|
                0 <= k < j ==> !same_ignoring_case((#[trigger] t[k]).0, alias)) && (forall|k: int|
                0 <= k < t.len() ==> (#[trigger] t[k]).0 != alias) ==> resolved(ds, alias, domain)
                == t[j].1
            &&& (forall|k: int|
                0 <= k < t.len() ==> !same_ignoring_case((#[trigger] t[k]).0, alias)) ==> resolved(
                ds,
                alias,
                domain,
            ) == (match ds[i].catch_all {
                Some(c) => seq![c],
                None => Seq::empty(),
            })
        },
{
    if i == ds.len() {
        lemma_not_resolved(ds, alias, domain);
    } else {
        let t = ds[i].routes;
        lemma_resolved_at(ds, alias, domain, i);
        assert(seq![ds[i]][0] == ds[i]);
        assert(resolved(ds, alias, domain) == resolved_in(ds[i], alias));
        if 0 <= j < t.len() && t[j].0 == alias && (forall|k: int|
            0 <= k < j ==> (#[trigger] t[k]).0 != alias) {
            lemma_exact(t, alias, j);
        }
        if 0 <= j < t.len() && same_ignoring_case(t[j].0, alias) && (forall|k: int|
            0 <= k < j ==> !same_ignoring_case((#[trigger] t[k]).0, alias)) && (forall|k: int|
            0 <= k < t.len() ==> (#[trigger] t[k]).0 != alias) {
            lemma_exact_none(t, alias);
            lemma_loose(t, alias, j);
        }
        if forall|k: int| 0 <= k < t.len() ==> !same_ignoring_case((#[trigger] t[k]).0, alias) {
            assert forall|k: int| 0 <= k < t.len() implies (#[trigger] t[k]).0 != alias by {
                assert(!same_ignoring_case(t[k].0, alias));
            }
            lemma_exact_none(t, alias);
            lemma_loose_none(t, alias);
        }
    }
}

proof fn lemma_not_resolved(ds: Seq<DomainText>, alias: Seq<char>, domain: Seq<char>)
    requires
        forall|k: int| 0 <= k < ds.len() ==> !same_ignoring_case((#[trigger] ds[k]).domain, domain),
    ensures
        resolved(ds, alias, domain) == Seq::<Seq<char>>::empty(),
    decreases ds.len(),
{
    if ds.len() > 0 {
        assert(!same_ignoring_case(ds[0].domain, domain));
        let rest = ds.skip(1);
        assert forall|k: int| 0 <= k < rest.len() implies !same_ignoring_case(
            (#[trigger] rest[k]).domain,
            domain,
        ) by {
            assert(rest[k] == ds[k + 1]);
        }
        lemma_not_resolved(rest, alias, domain);
    }
}

// ---------------------------------------------------------------------------------------------
// The sender's form
// ---------------------------------------------------------------------------------------------

/// Whether there is no opening brace in `s`.
pub open spec fn is_braceless(s: Seq<char>) -> bool {
    forall|i: int| 0 <= i < s.len() ==> #[trigger] s[i] != '{'
}

proof fn lemma_place_replaced(a: Seq<char>, pat: Seq<char>, b: Seq<char>, to: Seq<char>)
    requires
        is_braceless(a),
        is_braceless(b),
        pat.len() > 0,
        pat[0] == '{',
    ensures
        replace(a + pat + b, pat, to) == a + to + b,
        replace(a + b, pat, to) == a + b,
{
    lemma_replace_after(a, pat + b, pat, to);
    assert(a + pat + b =~= a + (pat + b));
    assert(pat.is_prefix_of(pat + b)) by {
        assert((pat + b).subrange(0, pat.len() as int) =~= pat);
    }
    assert((pat + b).skip(pat.len() as int) =~= b);
    lemma_replace_whole(b, pat, to);
    assert(a + (to + b) =~= a + to + b);
    lemma_replace_after(a, b, pat, to);
}

/// Replacing does not touch another place, whose second letter is another.
proof fn lemma_other_place(
    a: Seq<char>,
    place: Seq<char>,
    b: Seq<char>,
    pat: Seq<char>,
    to: Seq<char>,
)
    requires
        is_braceless(a),
        is_braceless(b),
        pat.len() > 1,
        pat[0] == '{',
        place.len() > 1,
        place[0] == '{',
        is_braceless(place.skip(1)),
        pat[1] != place[1],
    ensures
        replace(a + place + b, pat, to) == a + place + b,
{
    let tail = place + b;
    lemma_replace_after(a, tail, pat, to);
    assert(a + place + b =~= a + tail);
    assert(!pat.is_prefix_of(tail)) by {
        if pat.is_prefix_of(tail) {
            assert(tail.subrange(0, pat.len() as int)[1] == tail[1]);
        }
    }
    let rest = tail.skip(1);
    assert forall|i: int| 0 <= i < rest.len() implies rest[i] != pat[0] by {
        if i < place.len() - 1 {
            assert(rest[i] == place.skip(1)[i]);
        } else {
            assert(rest[i] == b[i - (place.len() - 1)]);
        }
    }
    lemma_replace_whole(rest, pat, to);
    assert(seq![tail[0]] + rest =~= tail);
}

/// In the sender's form the place for the name takes the sender's name, or the alias where the
/// sender has none, the place for the alias takes the alias, and the place for the domain the
/// domain; what stands around them is kept.
pub proof fn law_rendered(
    a: Seq<char>,
    b: Seq<char>,
    name: Seq<char>,
    alias: Seq<char>,
    domain: Seq<char>,
)
    requires
        is_braceless(a),
        is_braceless(b),
        is_braceless(name),
        is_braceless(alias),
    ensures
        rendered(a + b, name, alias, domain) == a + b,
        !is_blank(name) ==> rendered(a + "{name}"@ + b, name, alias, domain) == a + name + b,
        is_blank(name) ==> rendered(a + "{name}"@ + b, name, alias, domain) == a + alias + b,
        rendered(a + "{alias}"@ + b, name, alias, domain) == a + alias + b,
        rendered(a + "{domain}"@ + b, name, alias, domain) == a + domain + b,
{
    reveal_strlit("{name}");
    reveal_strlit("{alias}");
    reveal_strlit("{domain}");
    let shown = if is_blank(name) {
        alias
    } else {
        name
    };
    lemma_place_replaced(a, "{name}"@, b, shown);
    lemma_place_replaced(a, "{alias}"@, b, alias);
    lemma_place_replaced(a, "{domain}"@, b, domain);
    lemma_braceless(a, shown, b);
    lemma_braceless(a, alias, b);
    lemma_replace_whole(a + shown + b, "{alias}"@, alias);
    lemma_replace_whole(a + shown + b, "{domain}"@, domain);
    lemma_replace_whole(a + alias + b, "{domain}"@, domain);
    lemma_other_place(a, "{alias}"@, b, "{name}"@, shown);
    lemma_other_place(a, "{domain}"@, b, "{name}"@, shown);
    lemma_other_place(a, "{domain}"@, b, "{alias}"@, alias);
}

proof fn lemma_braceless(a: Seq<char>, m: Seq<char>, b: Seq<char>)
    requires
        is_braceless(a),
        is_braceless(m),
        is_braceless(b),
    ensures
        is_braceless(a + m + b),
{
    let s = a + m + b;
    assert forall|i: int| 0 <= i < s.len() implies #[trigger] s[i] != '{' by {
        if i < a.len() {
            assert(s[i] == a[i]);
        } else if i < a.len() + m.len() {
            assert(s[i] == m[i - a.len()]);
        } else {
            assert(s[i] == b[i - a.len() - m.len()]);
        }
    }
}

// ---------------------------------------------------------------------------------------------
// Validity
// ---------------------------------------------------------------------------------------------

/// A configuration without a project, or without a domain, is told so before all else.
pub proof fn law_project_first(project: Seq<char>, ds: Seq<DomainText>)
    ensures
        is_blank(project) ==> config_problem(project, ds) == Some("project must not be empty"@),
        !is_blank(project) && ds.len() == 0 ==> config_problem(project, ds) == Some(
            "at least one domain is required"@,
        ),
{
}

/// What is wrong with a configuration is what is wrong with its first domain that is not valid:
/// that its name has no dot, what is wrong with its first route that is not valid, or that its
/// catch-all is no address.
pub proof fn law_first_problem(
    project: Seq<char>,
    ds: Seq<DomainText>,
    i: int,
    j: int,
    k: int,
)
    requires
        !is_blank(project),
        0 <= i < ds.len(),
        forall|n: int| 0 <= n < i ==> is_valid_domain(#[trigger] ds[n]),
    ensures
        !ds[i].domain.contains('.') ==> config_problem(project, ds) == Some(
            "invalid domain: "@ + ds[i].domain,
        ),
        ds[i].domain.contains('.') && 0 <= j < ds[i].routes.len() && (forall|n: int|
            0 <= n < j ==> is_valid_route(#[trigger] ds[i].routes[n])) ==> {
            let r = ds[i].routes[j];
            &&& is_blank(r.0) ==> config_problem(project, ds) == Some("alias must not be empty"@)
            &&& !is_blank(r.0) && r.1.len() == 0 ==> config_problem(project, ds) == Some(
                "alias '"@ + r.0 + "' must have at least one destination"@,
            )
            &&& !is_blank(r.0) && 0 <= k < r.1.len() && !r.1[k].contains('@') && (forall|n: int|
                0 <= n < k ==> (#[trigger] r.1[n]).contains('@')) ==> config_problem(project, ds)
                == Some("invalid destination email: "@ + r.1[k])
        },
        ds[i].domain.contains('.') && (forall|n: int|
            0 <= n < ds[i].routes.len() ==> is_valid_route(#[trigger] ds[i].routes[n])) ==> {
            ds[i].catch_all matches Some(c) ==> !c.contains('@') ==> config_problem(project, ds)
                == Some("invalid catch_all email: "@ + c)
        },
{
    let d = ds[i];
    lemma_domains_before(ds, i);
    if d.domain.contains('.') {
        if 0 <= j < d.routes.len() && (forall|n: int|
            0 <= n < j ==> is_valid_route(#[trigger] d.routes[n])) {
            lemma_routes_before(d.routes, j);
            let r = d.routes[j];
            if 0 <= k < r.1.len() && !r.1[k].contains('@') && (forall|n: int|
                0 <= n < k ==> (#[trigger] r.1[n]).contains('@')) {
                lemma_destinations_before(r.1, k);
            }
        }
        if forall|n: int| 0 <= n < d.routes.len() ==> is_valid_route(#[trigger] d.routes[n]) {
            lemma_routes_all(d.routes);
        }
    }
}

proof fn lemma_destinations_before(dests: Seq<Seq<char>>, k: int)
    requires
        0 <= k < dests.len(),
        !dests[k].contains('@'),
        forall|n: int| 0 <= n < k ==> (#[trigger] dests[n]).contains('@'),
    ensures
        destination_problem(dests) == Some("invalid destination email: "@ + dests[k]),
    decreases k,
{
    if k > 0 {
        assert(dests[0].contains('@'));
        let rest = dests.skip(1);
        assert forall|n: int| 0 <= n < k - 1 implies (#[trigger] rest[n]).contains('@') by {
            assert(rest[n] == dests[n + 1]);
        }
        lemma_destinations_before(rest, k - 1);
    }
}

proof fn lemma_destinations_all(dests: Seq<Seq<char>>)
    requires
        forall|n: int| 0 <= n < dests.len() ==> (#[trigger] dests[n]).contains('@'),
    ensures
        destination_problem(dests) is None,
    decreases dests.len(),
{
    if dests.len() > 0 {
        assert(dests[0].contains('@'));
        let rest = dests.skip(1);
        assert forall|n: int| 0 <= n < rest.len() implies (#[trigger] rest[n]).contains('@') by {
            assert(rest[n] == dests[n + 1]);
        }
        lemma_destinations_all(rest);
    }
}

proof fn lemma_routes_before(t: Seq<(Seq<char>, Seq<Seq<char>>)>, j: int)
    requires
        0 <= j < t.len(),
        forall|n: int| 0 <= n < j ==> is_valid_route(#[trigger] t[n]),
    ensures
        route_problem(t[j].0, t[j].1) is Some ==> routes_problem(t) == route_problem(
            t[j].0,
            t[j].1,
        ),
    decreases j,
{
    if j > 0 {
        assert(is_valid_route(t[0]));
        lemma_destinations_all(t[0].1);
        let rest = t.skip(1);
        assert forall|n: int| 0 <= n < j - 1 implies is_valid_route(#[trigger] rest[n]) by {
            assert(rest[n] == t[n + 1]);
        }
        lemma_routes_before(rest, j - 1);
    }
}

proof fn lemma_routes_all(t: Seq<(Seq<char>, Seq<Seq<char>>)>)
    requires
        forall|n: int| 0 <= n < t.len() ==> is_valid_route(#[trigger] t[n]),
    ensures
        routes_problem(t) is None,
    decreases t.len(),
{
    if t.len() > 0 {
        assert(is_valid_route(t[0]));
        lemma_destinations_all(t[0].1);
        let rest = t.skip(1);
        assert forall|n: int| 0 <= n < rest.len() implies is_valid_route(#[trigger] rest[n]) by {
            assert(rest[n] == t[n + 1]);
        }
        lemma_routes_all(rest);
    }
}

proof fn lemma_domains_before(ds: Seq<DomainText>, i: int)
    requires
        0 <= i < ds.len(),
        forall|n: int| 0 <= n < i ==> is_valid_domain(#[trigger] ds[n]),
    ensures
        domain_problem(ds[i]) is Some ==> domains_problem(ds) == domain_problem(ds[i]),
    decreases i,
{
    if i > 0 {
        assert(is_valid_domain(ds[0]));
        lemma_routes_all(ds[0].routes);
        let rest = ds.skip(1);
        assert forall|n: int| 0 <= n < i - 1 implies is_valid_domain(#[trigger] rest[n]) by {
            assert(rest[n] == ds[n + 1]);
        }
        lemma_domains_before(rest, i - 1);
    }
}

// ---------------------------------------------------------------------------------------------
// Setting up
// ---------------------------------------------------------------------------------------------

/// The first configuration has what was answered: the region, the stack, whether there is a sending
/// interface, and one domain with who serves its records. It has the catch-all unless that was left
/// blank, and the alias with its destination unless that was left blank and there is a catch-all.
pub proof fn law_first_configuration(c: FourwardConfig, a: Answers)
    requires
        is_initial(c, a),
    ensures
        c.aws.region@ == a.region@,
        c.aws.stack_name@ == a.stack@,
        c.api.enabled == a.api,
        c.domains@.len() == 1,
        c.domains@[0].domain@ == a.domain@,
        c.domains@[0].dns_provider == DnsProvider::Route53 <==> a.dns_provider@ == "route53"@,
        c.domains@[0].catch_all is Some <==> !is_blank(a.catch_all@),
        c.domains@[0].catch_all matches Some(to) ==> to@ == a.catch_all@,
        !is_blank(a.alias@) || is_blank(a.catch_all@) ==> {
            &&& c.domains@[0].routes@.len() == 1
            &&& c.domains@[0].routes@[0].0@ == a.alias@
            &&& c.domains@[0].routes@[0].1@.len() == 1
            &&& c.domains@[0].routes@[0].1@[0]@ == a.dest@
        },
        is_blank(a.alias@) && !is_blank(a.catch_all@) ==> c.domains@[0].routes@.len() == 0,
        c.version@ == "1"@,
        c.project@ == "4ward"@,
        c.aws.profile@ == "default"@,
        c.api.cors@.len() == 1,
        c.api.cors@[0]@ == "*"@,
        c.settings.sender_format@ == "{name} (via {alias}) <relay@{domain}>"@,
        c.settings.banner_enabled,
        c.settings.retention_days == 1,
        c.api.rate_limit.requests_per_second == 100,
        c.api.rate_limit.burst == 200,
{
    let ds = domains_of(c.domains@);
    assert(texts(c.api.cors@).len() == c.api.cors@.len());
    assert(texts(c.api.cors@)[0] == c.api.cors@[0]@);
    assert(ds.len() == c.domains@.len());
    assert(ds[0] == c.domains@[0]@);
    let t = table(c.domains@[0].routes@);
    assert(ds[0].routes == t);
    assert(t.len() == c.domains@[0].routes@.len());
    if t.len() > 0 {
        let r = c.domains@[0].routes@[0];
        assert(t[0] == (r.0@, texts(r.1@)));
        assert(texts(r.1@) == seq![a.dest@]);
        assert(texts(r.1@).len() == r.1@.len());
        assert(texts(r.1@)[0] == r.1@[0]@);
    }
}

/// In the name that is proposed for a stack a hyphen stands for each dot of the domain, and every
/// other character for itself.
pub proof fn law_stack_name(domain: Seq<char>)
    ensures
        replace(domain, "."@, "-"@).len() == domain.len(),
        forall|i: int|
            0 <= i < domain.len() ==> #[trigger] replace(domain, "."@, "-"@)[i] == (if domain[i]
                == '.' {
                '-'
            } else {
                domain[i]
            }),
    decreases domain.len(),
{
    reveal_strlit(".");
    reveal_strlit("-");
    if domain.len() > 0 {
        let rest = domain.skip(1);
        law_stack_name(rest);
        let r = replace(domain, "."@, "-"@);
        assert("."@.is_prefix_of(domain) <==> domain[0] == '.') by {
            if domain[0] == '.' {
                assert(domain.subrange(0, 1) =~= "."@);
            }
            if "."@.is_prefix_of(domain) {
                assert(domain.subrange(0, 1)[0] == domain[0]);
            }
        }
        assert(r =~= seq![
            if domain[0] == '.' {
                '-'
            } else {
                domain[0]
            },
        ] + replace(rest, "."@, "-"@));
        assert forall|i: int| 0 <= i < domain.len() implies #[trigger] r[i] == (if domain[i] == '.' {
            '-'
        } else {
            domain[i]
        }) by {
            if i > 0 {
                assert(r[i] == replace(rest, "."@, "-"@)[i - 1]);
                assert(rest[i - 1] == domain[i]);
            }
        }
    }
}

// ---------------------------------------------------------------------------------------------
// Deployment and tokens
// ---------------------------------------------------------------------------------------------

proof fn lemma_has(a: Seq<char>, m: Seq<char>, b: Seq<char>)
    ensures
        has_text(a + m + b, m),
{
    assert((a + m + b).subrange(a.len() as int, (a.len() + m.len()) as int) =~= m);
    assert(stands_at(a + m + b, m, a.len() as int));
}

/// A stack has failed where its status says so, or that all was rolled back. Otherwise it is still
/// being worked on while the status speaks of progress, it has settled where the status says that
/// all is complete, and it is still being worked on where the status says neither.
pub proof fn law_stack_states(a: Seq<char>, b: Seq<char>)
    ensures
        stack_state_of(a + "FAILED"@ + b) == StackState::Failed,
        stack_state_of(a + "ROLLBACK_COMPLETE"@ + b) == StackState::Failed,
        ({
            let s = a + "PROGRESS"@ + b;
            !has_text(s, "FAILED"@) && !has_text(s, "ROLLBACK_COMPLETE"@) ==> stack_state_of(s)
                == StackState::Pending
        }),
        ({
            let s = a + "COMPLETE"@ + b;
            !has_text(s, "FAILED"@) && !has_text(s, "ROLLBACK_COMPLETE"@) && !has_text(
                s,
                "PROGRESS"@,
            ) ==> stack_state_of(s) == StackState::Settled
        }),
        !has_text(a, "FAILED"@) && !has_text(a, "COMPLETE"@) && !has_text(a, "ROLLBACK_COMPLETE"@)
            ==> stack_state_of(a) == StackState::Pending,
{
    lemma_has(a, "FAILED"@, b);
    lemma_has(a, "ROLLBACK_COMPLETE"@, b);
    lemma_has(a, "PROGRESS"@, b);
    lemma_has(a, "COMPLETE"@, b);
}

/// A stack that has settled is waited for no longer, one that has failed is reported with its
/// status, and any other is looked at again as long as looks are left, of which there are sixty.
pub proof fn law_watch(status: Seq<char>, left: nat)
    ensures
        LOOKS == 60,
        stack_state_of(status) == StackState::Settled ==> after_look(Some(status), left)
            == WatchText::Finish,
        stack_state_of(status) == StackState::Failed ==> after_look(Some(status), left)
            == WatchText::Fail("stack failed: "@ + status),
        stack_state_of(status) == StackState::Pending && left > 0 ==> after_look(
            Some(status),
            left,
        ) == WatchText::LookAgain,
        left > 0 ==> after_look(None, left) == WatchText::LookAgain,
        stack_state_of(status) == StackState::Pending ==> after_look(Some(status), 0)
            == WatchText::Finish,
        after_look(None, 0) == WatchText::Finish,
{
}

/// A token that was found is known, under the name that it was found under, for sixty seconds and
/// no longer; what is known of other tokens does not change.
pub proof fn law_known_for_sixty_seconds(
    cache: Map<Seq<char>, (Seq<char>, u64)>,
    token: Seq<char>,
    other: Seq<char>,
    name: Seq<char>,
    found: u64,
    now: u64,
)
    requires
        other != token,
    ensures
        is_known(cache.insert(token, (name, found)), token, now) <==> now - found < 60
            * 1_000_000_000,
        cache.insert(token, (name, found))[token].0 == name,
        is_known(cache.insert(token, (name, found)), other, now) == is_known(cache, other, now),
{
}

} // verus!
