//! Routing tables: lists of addresses, or local parts of addresses, with their destinations.
//!
//! A table is a vector of pairs. An entry is looked up by its exact key first and regardless of
//! letter case second; of several entries that fit, the first counts.
use std::collections::BTreeMap;
use vstd::prelude::*;

use crate::text::{copy_all, copy_of, eq_ignore_case_text, same_ignoring_case, same_text, texts};

verus! {

broadcast use vstd::seq_lib::group_seq_properties;

/// What a routing table holds: its keys and their destinations, in order.
pub open spec fn table(v: Seq<(String, Vec<String>)>) -> Seq<(Seq<char>, Seq<Seq<char>>)> {
    v.map_values(|e: (String, Vec<String>)| (e.0@, texts(e.1@)))
}

/// The destinations of the first entry whose key is `key`.
pub open spec fn exact(t: Seq<(Seq<char>, Seq<Seq<char>>)>, key: Seq<char>) -> Option<
    Seq<Seq<char>>,
>
    decreases t.len(),
{
    if t.len() == 0 {
        None
    } else if t[0].0 == key {
        Some(t[0].1)
    } else {
        exact(t.skip(1), key)
    }
}

/// The destinations of the first entry whose key is `key` but for the case of ASCII letters.
pub open spec fn loose(t: Seq<(Seq<char>, Seq<Seq<char>>)>, key: Seq<char>) -> Option<
    Seq<Seq<char>>,
>
    decreases t.len(),
{
    if t.len() == 0 {
        None
    } else if same_ignoring_case(t[0].0, key) {
        Some(t[0].1)
    } else {
        loose(t.skip(1), key)
    }
}

/// The destinations for `key`: by exact key, or else regardless of letter case.
pub open spec fn routed(t: Seq<(Seq<char>, Seq<Seq<char>>)>, key: Seq<char>) -> Option<
    Seq<Seq<char>>,
> {
    match exact(t, key) {
        Some(d) => Some(d),
        None => loose(t, key),
    }
}

/// Whether no key occurs twice.
pub open spec fn distinct(t: Seq<(Seq<char>, Seq<Seq<char>>)>) -> bool {
    forall|i: int, j: int| 0 <= i < j < t.len() ==> (#[trigger] t[i]).0 != (#[trigger] t[j]).0
}

/// The table as a map from keys to destinations.
pub open spec fn as_map(t: Seq<(Seq<char>, Seq<Seq<char>>)>) -> Map<Seq<char>, Seq<Seq<char>>> {
    Map::new(|k: Seq<char>| exact(t, k) is Some, |k: Seq<char>| exact(t, k)->0)
}

/// What [`exact`] finds: the first entry with the key.
pub proof fn lemma_exact(t: Seq<(Seq<char>, Seq<Seq<char>>)>, key: Seq<char>, i: int)
    requires
        0 <= i < t.len(),
        t[i].0 == key,
        forall|j: int| 0 <= j < i ==> (#[trigger] t[j]).0 != key,
    ensures
        exact(t, key) == Some(t[i].1),
    decreases i,
{
    if i > 0 {
        assert(t[0].0 != key);
        assert forall|j: int| 0 <= j < i - 1 implies (#[trigger] t.skip(1)[j]).0 != key by {
            assert(t[j + 1].0 != key);
        }
        lemma_exact(t.skip(1), key, i - 1);
    }
}

/// Where no entry has the key, [`exact`] finds none.
pub proof fn lemma_exact_none(t: Seq<(Seq<char>, Seq<Seq<char>>)>, key: Seq<char>)
    requires
        forall|j: int| 0 <= j < t.len() ==> (#[trigger] t[j]).0 != key,
    ensures
        exact(t, key) is None,
    decreases t.len(),
{
    if t.len() > 0 {
        assert(t[0].0 != key);
        assert forall|j: int| 0 <= j < t.skip(1).len() implies (#[trigger] t.skip(1)[j]).0
            != key by {
            assert(t[j + 1].0 != key);
        }
        lemma_exact_none(t.skip(1), key);
    }
}

/// What [`loose`] finds: the first entry with the key, regardless of letter case.
pub proof fn lemma_loose(t: Seq<(Seq<char>, Seq<Seq<char>>)>, key: Seq<char>, i: int)
    requires
        0 <= i < t.len(),
        same_ignoring_case(t[i].0, key),
        forall|j: int| 0 <= j < i ==> !same_ignoring_case((#[trigger] t[j]).0, key),
    ensures
        loose(t, key) == Some(t[i].1),
    decreases i,
{
    if i > 0 {
        assert(!same_ignoring_case(t[0].0, key));
        assert forall|j: int| 0 <= j < i - 1 implies !same_ignoring_case(
            (#[trigger] t.skip(1)[j]).0,
            key,
        ) by {
            assert(!same_ignoring_case(t[j + 1].0, key));
        }
        lemma_loose(t.skip(1), key, i - 1);
    }
}

/// Where no entry has the key regardless of letter case, [`loose`] finds none.
pub proof fn lemma_loose_none(t: Seq<(Seq<char>, Seq<Seq<char>>)>, key: Seq<char>)
    requires
        forall|j: int| 0 <= j < t.len() ==> !same_ignoring_case((#[trigger] t[j]).0, key),
    ensures
        loose(t, key) is None,
    decreases t.len(),
{
    if t.len() > 0 {
        assert(!same_ignoring_case(t[0].0, key));
        assert forall|j: int| 0 <= j < t.skip(1).len() implies !same_ignoring_case(
            (#[trigger] t.skip(1)[j]).0,
            key,
        ) by {
            assert(!same_ignoring_case(t[j + 1].0, key));
        }
        lemma_loose_none(t.skip(1), key);
    }
}

/// The case of letters does not matter: a key finds the entry that has it regardless of letter
/// case, where only one does.
pub proof fn law_case_does_not_matter(
    t: Seq<(Seq<char>, Seq<Seq<char>>)>,
    key: Seq<char>,
    i: int,
)
    requires
        0 <= i < t.len(),
        same_ignoring_case(t[i].0, key),
        forall|j: int|
            0 <= j < t.len() && j != i ==> !same_ignoring_case((#[trigger] t[j]).0, key),
    ensures
        routed(t, key) == Some(t[i].1),
{
    lemma_loose(t, key, i);
    if t[i].0 == key {
        assert forall|j: int| 0 <= j < i implies (#[trigger] t[j]).0 != key by {
            assert(!same_ignoring_case(t[j].0, key));
        }
        lemma_exact(t, key, i);
    } else {
        assert forall|j: int| 0 <= j < t.len() implies (#[trigger] t[j]).0 != key by {
            if j != i {
                assert(!same_ignoring_case(t[j].0, key));
            }
        }
        lemma_exact_none(t, key);
    }
}

/// The destinations for a key: by exact key, or else regardless of letter case.
pub(crate) fn route(routes: &Vec<(String, Vec<String>)>, key: &str) -> (r: Option<Vec<String>>)
    ensures
        match r {
            Some(d) => routed(table(routes@), key@) == Some(texts(d@)),
            None => routed(table(routes@), key@) is None,
        },
{
    let ghost t = table(routes@);
    for i in 0..routes.len()
        invariant
            t == table(routes@),
            forall|j: int| 0 <= j < i ==> (#[trigger] t[j]).0 != key@,
    {
        assert(t[i as int] == (routes@[i as int].0@, texts(routes@[i as int].1@)));
        if same_text(routes[i].0.as_str(), key) {
            proof {
                lemma_exact(t, key@, i as int);
            }
            return Some(copy_all(&routes[i].1));
        }
    }
    proof {
        lemma_exact_none(t, key@);
    }
    for i in 0..routes.len()
        invariant
            t == table(routes@),
            exact(t, key@) is None,
            forall|j: int| 0 <= j < i ==> !same_ignoring_case((#[trigger] t[j]).0, key@),
    {
        assert(t[i as int] == (routes@[i as int].0@, texts(routes@[i as int].1@)));
        if eq_ignore_case_text(routes[i].0.as_str(), key) {
            proof {
                lemma_loose(t, key@, i as int);
            }
            return Some(copy_all(&routes[i].1));
        }
    }
    proof {
        lemma_loose_none(t, key@);
    }
    None
}

// ---------------------------------------------------------------------------------------------
// Changing a table
// ---------------------------------------------------------------------------------------------

/// `t` with `dests` as the destinations of `key`: in the entry that has the key, or in a new one
/// at the end.
pub open spec fn with_route(
    t: Seq<(Seq<char>, Seq<Seq<char>>)>,
    key: Seq<char>,
    dests: Seq<Seq<char>>,
) -> Seq<(Seq<char>, Seq<Seq<char>>)>
    decreases t.len(),
{
    if t.len() == 0 {
        seq![(key, dests)]
    } else if t[0].0 == key {
        seq![(key, dests)] + t.skip(1)
    } else {
        seq![t[0]] + with_route(t.skip(1), key, dests)
    }
}

/// Tells the entries that have another key than `key`.
pub open spec fn other_than(key: Seq<char>) -> spec_fn((Seq<char>, Seq<Seq<char>>)) -> bool {
    |e: (Seq<char>, Seq<Seq<char>>)| e.0 != key
}

/// `t` without the entries that have the key.
pub open spec fn without_route(t: Seq<(Seq<char>, Seq<Seq<char>>)>, key: Seq<char>) -> Seq<
    (Seq<char>, Seq<Seq<char>>),
> {
    t.filter(other_than(key))
}

/// [`with_route`] in a table whose first entry with the key is the `i`th.
proof fn lemma_with_route_at(
    t: Seq<(Seq<char>, Seq<Seq<char>>)>,
    key: Seq<char>,
    dests: Seq<Seq<char>>,
    i: int,
)
    requires
        0 <= i <= t.len(),
        i < t.len() ==> t[i].0 == key,
        forall|j: int| 0 <= j < i ==> (#[trigger] t[j]).0 != key,
    ensures
        i < t.len() ==> with_route(t, key, dests) == t.update(i, (key, dests)),
        i == t.len() ==> with_route(t, key, dests) == t.push((key, dests)),
    decreases i,
{
    if i > 0 {
        let s = t.skip(1);
        assert(t[0].0 != key);
        assert forall|j: int| 0 <= j < i - 1 implies (#[trigger] s[j]).0 != key by {
            assert(t[j + 1].0 != key);
        }
        lemma_with_route_at(s, key, dests, i - 1);
        if i < t.len() {
            assert(seq![t[0]] + s.update(i - 1, (key, dests)) =~= t.update(i, (key, dests)));
        } else {
            assert(seq![t[0]] + s.push((key, dests)) =~= t.push((key, dests)));
        }
    } else if i < t.len() {
        assert(seq![(key, dests)] + t.skip(1) =~= t.update(0, (key, dests)));
    } else {
        assert(t.push((key, dests)) =~= seq![(key, dests)]);
    }
}

/// Sets the destinations of a key.
pub(crate) fn set_route(routes: &mut Vec<(String, Vec<String>)>, key: String, dests: Vec<String>)
    ensures
        table(final(routes)@) == with_route(table(old(routes)@), key@, texts(dests@)),
{
    let ghost t = table(routes@);
    let ghost given = texts(dests@);
    let n: usize = routes.len();
    for i in 0..n
        invariant
            n == routes.len(),
            t == table(routes@),
            t == table(old(routes)@),
            given == texts(dests@),
            forall|j: int| 0 <= j < i ==> (#[trigger] t[j]).0 != key@,
    {
        assert(t[i as int].0 == routes@[i as int].0@);
        if same_text(routes[i].0.as_str(), key.as_str()) {
            proof {
                lemma_with_route_at(t, key@, given, i as int);
            }
            routes.set(i, (key, dests));
            assert(table(routes@) =~= t.update(i as int, (key@, given)));
            return;
        }
    }
    proof {
        lemma_with_route_at(t, key@, given, t.len() as int);
    }
    routes.push((key, dests));
    assert(table(routes@) =~= t.push((key@, given)));
}

/// Removes a key.
pub(crate) fn remove_route(routes: &mut Vec<(String, Vec<String>)>, key: &str)
    ensures
        table(final(routes)@) == without_route(table(old(routes)@), key@),
{
    let ghost t = table(routes@);
    let ghost keep = other_than(key@);
    let mut out: Vec<(String, Vec<String>)> = Vec::new();
    for i in 0..routes.len()
        invariant
            t == table(routes@),
            keep == other_than(key@),
            table(out@) == t.take(i as int).filter(keep),
    {
        let ghost before = out@;
        assert(t.take(i + 1).drop_last() == t.take(i as int));
        assert(t.take(i + 1).last() == t[i as int]);
        assert(t[i as int] == (routes@[i as int].0@, texts(routes@[i as int].1@)));
        assert(keep(t[i as int]) == (t[i as int].0 != key@));
        reveal_with_fuel(Seq::<_>::filter, 1);
        if !same_text(routes[i].0.as_str(), key) {
            out.push((copy_of(routes[i].0.as_str()), copy_all(&routes[i].1)));
            assert(table(out@) =~= table(before).push(t[i as int]));
        }
    }
    assert(t.take(t.len() as int) == t);
    *routes = out;
}

/// Setting a route and looking it up gives what was set.
pub proof fn law_set_then_routed(
    t: Seq<(Seq<char>, Seq<Seq<char>>)>,
    key: Seq<char>,
    dests: Seq<Seq<char>>,
)
    ensures
        exact(with_route(t, key, dests), key) == Some(dests),
        routed(with_route(t, key, dests), key) == Some(dests),
    decreases t.len(),
{
    let u = with_route(t, key, dests);
    assert(u.len() > 0);
    if t.len() == 0 || t[0].0 == key {
        assert(u[0] == (key, dests));
    } else {
        assert(u[0] == t[0]);
        assert(u.skip(1) == with_route(t.skip(1), key, dests));
        law_set_then_routed(t.skip(1), key, dests);
    }
}

/// Setting a route changes the exact lookup of no other key.
pub proof fn law_set_keeps_others(
    t: Seq<(Seq<char>, Seq<Seq<char>>)>,
    key: Seq<char>,
    dests: Seq<Seq<char>>,
    other: Seq<char>,
)
    requires
        other != key,
    ensures
        exact(with_route(t, key, dests), other) == exact(t, other),
    decreases t.len(),
{
    let u = with_route(t, key, dests);
    if t.len() == 0 {
        assert(u.skip(1) =~= t);
    } else if t[0].0 == key {
        assert(u.skip(1) =~= t.skip(1));
    } else {
        assert(u.skip(1) =~= with_route(t.skip(1), key, dests));
        law_set_keeps_others(t.skip(1), key, dests, other);
    }
}

/// Setting a route leaves a table without double keys without double keys.
pub proof fn law_set_keeps_distinct(
    t: Seq<(Seq<char>, Seq<Seq<char>>)>,
    key: Seq<char>,
    dests: Seq<Seq<char>>,
)
    requires
        distinct(t),
    ensures
        distinct(with_route(t, key, dests)),
{
    if exists|i: int| 0 <= i < t.len() && (#[trigger] t[i]).0 == key {
        let i = choose|i: int| 0 <= i < t.len() && (#[trigger] t[i]).0 == key;
        lemma_with_route_at(t, key, dests, i);
    } else {
        lemma_with_route_at(t, key, dests, t.len() as int);
    }
}

/// After a key was removed, no entry has it, and every other entry is still there.
pub proof fn law_removed_is_gone(t: Seq<(Seq<char>, Seq<Seq<char>>)>, key: Seq<char>)
    ensures
        exact(without_route(t, key), key) is None,
        forall|e: (Seq<char>, Seq<Seq<char>>)|
            #[trigger] without_route(t, key).contains(e) <==> t.contains(e) && e.0 != key,
{
    let u = without_route(t, key);
    assert forall|j: int| 0 <= j < u.len() implies (#[trigger] u[j]).0 != key by {
        t.lemma_filter_pred(other_than(key), j);
    }
    lemma_exact_none(u, key);
    lemma_remaining(t, key);
}

/// Which entries remain when a key is removed.
proof fn lemma_remaining(t: Seq<(Seq<char>, Seq<Seq<char>>)>, key: Seq<char>)
    ensures
        forall|e: (Seq<char>, Seq<Seq<char>>)|
            #[trigger] without_route(t, key).contains(e) <==> t.contains(e) && e.0 != key,
    decreases t.len(),
{
    reveal(Seq::filter);
    if t.len() > 0 {
        let rest = t.drop_last();
        lemma_remaining(rest, key);
        assert(t =~= rest.push(t.last()));
        assert forall|e: (Seq<char>, Seq<Seq<char>>)|
            #[trigger] without_route(t, key).contains(e) <==> t.contains(e) && e.0 != key by {
            assert(without_route(rest, key).contains(e) <==> rest.contains(e) && e.0 != key);
        }
    }
}

/// Removing a route leaves a table without double keys without double keys.
pub proof fn law_remove_keeps_distinct(t: Seq<(Seq<char>, Seq<Seq<char>>)>, key: Seq<char>)
    requires
        distinct(t),
    ensures
        distinct(without_route(t, key)),
    decreases t.len(),
{
    reveal(Seq::filter);
    if t.len() > 0 {
        let rest = t.drop_last();
        let kept = without_route(rest, key);
        let u = without_route(t, key);
        law_remove_keeps_distinct(rest, key);
        assert forall|i: int, j: int| 0 <= i < j < u.len() implies (#[trigger] u[i]).0 != (
        #[trigger] u[j]).0 by {
            if j == kept.len() {
                lemma_remaining(rest, key);
                assert(kept.contains(kept[i]));
                let k = choose|k: int| 0 <= k < rest.len() && rest[k] == kept[i];
                assert(t[k].0 != t[t.len() - 1].0);
            }
        }
    }
}

// ---------------------------------------------------------------------------------------------
// Tables as JSON
// ---------------------------------------------------------------------------------------------

/// The map of texts to lists of texts that a JSON text stands for; none where it stands for none.
pub uninterp spec fn map_of_json(json: Seq<char>) -> Option<Map<Seq<char>, Seq<Seq<char>>>>;

/// `serde_json::from_str` reads a map of strings to lists of strings, or fails, by the text
/// alone. The entries of the map have distinct keys; their order is left open.
#[verifier::external_body]
pub(crate) fn table_from_json(json: &str) -> (r: Option<Vec<(String, Vec<String>)>>)
    ensures
        match r {
            Some(v) => distinct(table(v@)) && map_of_json(json@) == Some(as_map(table(v@))),
            None => map_of_json(json@) is None,
        },
{
    let map: Option<BTreeMap<String, Vec<String>>> = serde_json::from_str(json).ok();
    map.map(|m| m.into_iter().collect())
}

/// `serde_json::to_string` writes a map of strings to lists of strings as a JSON text that
/// `serde_json::from_str` reads back as the same map. The text itself is left open.
#[verifier::external_body]
pub(crate) fn table_to_json(routes: &Vec<(String, Vec<String>)>) -> (r: Option<String>)
    requires
        distinct(table(routes@)),
    ensures
        r is Some,
        r matches Some(s) ==> map_of_json(s@) == Some(as_map(table(routes@))),
{
    let map: BTreeMap<&String, &Vec<String>> = routes.iter().map(|e| (&e.0, &e.1)).collect();
    serde_json::to_string(&map).ok()
}

/// A route is set in its place: in that of the first entry with the key, and at the end where there
/// is none. All other entries stay where they are.
pub proof fn law_set_in_place(
    t: Seq<(Seq<char>, Seq<Seq<char>>)>,
    key: Seq<char>,
    dests: Seq<Seq<char>>,
    i: int,
)
    requires
        0 <= i <= t.len(),
        i < t.len() ==> t[i].0 == key,
        forall|j: int| 0 <= j < i ==> (#[trigger] t[j]).0 != key,
    ensures
        i < t.len() ==> with_route(t, key, dests) == t.update(i, (key, dests)),
        i == t.len() ==> with_route(t, key, dests) == t.push((key, dests)),
{
    lemma_with_route_at(t, key, dests, i);
}

/// Removing a key leaves the other entries in their order, each as often as it was there.
pub proof fn law_removed_in_order(
    a: Seq<(Seq<char>, Seq<Seq<char>>)>,
    e: (Seq<char>, Seq<Seq<char>>),
    key: Seq<char>,
)
    ensures
        without_route(Seq::empty(), key) == Seq::<(Seq<char>, Seq<Seq<char>>)>::empty(),
        e.0 == key ==> without_route(a.push(e), key) == without_route(a, key),
        e.0 != key ==> without_route(a.push(e), key) == without_route(a, key).push(e),
{
    reveal(Seq::filter);
    assert(a.push(e).drop_last() =~= a);
}

} // verus!
