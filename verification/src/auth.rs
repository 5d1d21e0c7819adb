//! Who may send: the tokens that are known, and the search for those that are not.
//!
//! A token is known by the name of the parameter that holds it. What was found is kept for a
//! minute. Otherwise the stored parameters are listed page by page and read one after the other
//! until one holds the token; listing and reading are done outside, and the search says what
//! comes next.
use vstd::prelude::*;

use crate::text::{copy_of, maybe_text, same_text, texts};

verus! {

broadcast use vstd::seq_lib::group_seq_properties;

// ---------------------------------------------------------------------------------------------
// The cache
// ---------------------------------------------------------------------------------------------

/// For how many nanoseconds a token that was found is known.
pub const KNOWN_NANOS: u64 = 60_000_000_000;

/// A token that was found.
#[derive(Debug, Clone)]
pub struct KnownToken {
    /// The token.
    pub token: String,
    /// The name of the parameter that holds it.
    pub name: String,
    /// When it was found, in nanoseconds of some clock.
    pub at: u64,
}

/// The tokens that were found, each at most once.
#[derive(Debug)]
pub struct TokenCache {
    entries: Vec<KnownToken>,
}

/// The name and the time of the first entry for a token.
pub open spec fn known(entries: Seq<KnownToken>, token: Seq<char>) -> Option<(Seq<char>, u64)>
    decreases entries.len(),
{
    if entries.len() == 0 {
        None
    } else if entries[0].token@ == token {
        Some((entries[0].name@, entries[0].at))
    } else {
        known(entries.skip(1), token)
    }
}

impl View for TokenCache {
    type V = Map<Seq<char>, (Seq<char>, u64)>;

    closed spec fn view(&self) -> Map<Seq<char>, (Seq<char>, u64)> {
        Map::new(
            |t: Seq<char>| known(self.entries@, t) is Some,
            |t: Seq<char>| known(self.entries@, t)->0,
        )
    }
}

proof fn lemma_known_at(entries: Seq<KnownToken>, token: Seq<char>, i: int)
    requires
        0 <= i < entries.len(),
        entries[i].token@ == token,
        forall|j: int| 0 <= j < i ==> (#[trigger] entries[j]).token@ != token,
    ensures
        known(entries, token) == Some((entries[i].name@, entries[i].at)),
    decreases i,
{
    if i > 0 {
        assert(entries[0].token@ != token);
        let rest = entries.skip(1);
        assert forall|j: int| 0 <= j < i - 1 implies (#[trigger] rest[j]).token@ != token by {
            assert(rest[j] == entries[j + 1]);
        }
        lemma_known_at(rest, token, i - 1);
    }
}

proof fn lemma_unknown(entries: Seq<KnownToken>, token: Seq<char>)
    requires
        forall|j: int| 0 <= j < entries.len() ==> (#[trigger] entries[j]).token@ != token,
    ensures
        known(entries, token) is None,
    decreases entries.len(),
{
    if entries.len() > 0 {
        assert(entries[0].token@ != token);
        let rest = entries.skip(1);
        assert forall|j: int| 0 <= j < rest.len() implies (#[trigger] rest[j]).token@ != token by {
            assert(rest[j] == entries[j + 1]);
        }
        lemma_unknown(rest, token);
    }
}

/// The entries with `e` as the `i`th, or at the end where there is no `i`th.
spec fn with_entry(entries: Seq<KnownToken>, e: KnownToken, i: int) -> Seq<KnownToken> {
    if i < entries.len() {
        entries.update(i, e)
    } else {
        entries.push(e)
    }
}

/// Setting an entry for a token, in place of its first one or at the end, changes what is known
/// of that token only.
proof fn lemma_known_set(entries: Seq<KnownToken>, e: KnownToken, i: int)
    requires
        0 <= i <= entries.len(),
        i < entries.len() ==> entries[i].token@ == e.token@,
        forall|j: int| 0 <= j < i ==> (#[trigger] entries[j]).token@ != e.token@,
    ensures
        known(with_entry(entries, e, i), e.token@) == Some((e.name@, e.at)),
        forall|t: Seq<char>|
            t != e.token@ ==> #[trigger] known(with_entry(entries, e, i), t) == known(entries, t),
    decreases i,
{
    let after = with_entry(entries, e, i);
    if i > 0 {
        let rest = entries.skip(1);
        assert(entries[0].token@ != e.token@);
        assert forall|j: int| 0 <= j < i - 1 implies (#[trigger] rest[j]).token@ != e.token@ by {
            assert(rest[j] == entries[j + 1]);
        }
        lemma_known_set(rest, e, i - 1);
        assert(after.skip(1) =~= with_entry(rest, e, i - 1));
        assert(after[0] == entries[0]);
    } else {
        assert(after[0] == e);
        if entries.len() > 0 {
            assert(after.skip(1) =~= entries.skip(1));
        } else {
            assert(after.skip(1) =~= entries);
        }
    }
    assert forall|t: Seq<char>| t != e.token@ implies #[trigger] known(after, t) == known(
        entries,
        t,
    ) by {
        if i > 0 {
            assert(known(with_entry(entries.skip(1), e, i - 1), t) == known(entries.skip(1), t));
        }
    }
}

impl TokenCache {
    /// A cache that knows no token.
    pub fn new() -> (r: TokenCache)
        ensures
            r@ == Map::<Seq<char>, (Seq<char>, u64)>::empty(),
    {
        let r = TokenCache { entries: Vec::new() };
        assert(r@ =~= Map::<Seq<char>, (Seq<char>, u64)>::empty());
        r
    }

    /// The name under which a token was found, if that was less than a minute before `now`.
    pub fn lookup(&self, token: &str, now: u64) -> (r: Option<String>)
        ensures
            maybe_text(r) == (if is_known(self@, token@, now) {
                Some(self@[token@].0)
            } else {
                None
            }),
    {
        for i in 0..self.entries.len()
            invariant
                forall|j: int| 0 <= j < i ==> (#[trigger] self.entries@[j]).token@ != token@,
        {
            let e = &self.entries[i];
            if same_text(e.token.as_str(), token) {
                proof {
                    lemma_known_at(self.entries@, token@, i as int);
                }
                if now < e.at || now - e.at < KNOWN_NANOS {
                    return Some(copy_of(e.name.as_str()));
                }
                return None;
            }
        }
        proof {
            lemma_unknown(self.entries@, token@);
        }
        None
    }

    /// Keeps what was found: `token` is held by the parameter `name`.
    pub fn insert(&mut self, token: &str, name: &str, now: u64)
        ensures
            final(self)@ == old(self)@.insert(token@, (name@, now)),
    {
        let ghost before = self.entries@;
        let n: usize = self.entries.len();
        let e = KnownToken { token: copy_of(token), name: copy_of(name), at: now };
        for i in 0..n
            invariant
                n == self.entries.len(),
                before == self.entries@,
                before == old(self).entries@,
                e.token@ == token@,
                e.name@ == name@,
                e.at == now,
                forall|j: int| 0 <= j < i ==> (#[trigger] self.entries@[j]).token@ != token@,
        {
            if same_text(self.entries[i].token.as_str(), token) {
                proof {
                    lemma_known_set(before, e, i as int);
                }
                self.entries.set(i, e);
                assert(self.entries@ == with_entry(before, e, i as int));
                assert(self@ =~= old(self)@.insert(token@, (name@, now)));
                return;
            }
        }
        proof {
            lemma_known_set(before, e, n as int);
        }
        self.entries.push(e);
        assert(self.entries@ == with_entry(before, e, n as int));
        assert(self@ =~= old(self)@.insert(token@, (name@, now)));
    }
}

/// What was found is known for a minute and no longer.
pub proof fn law_known_for_a_minute(
    cache: Map<Seq<char>, (Seq<char>, u64)>,
    token: Seq<char>,
    name: Seq<char>,
    found: u64,
    now: u64,
)
    requires
        found <= now,
    ensures
        is_known(cache.insert(token, (name, found)), token, now) <==> now - found < KNOWN_NANOS,
{
}

/// Whether a token is known at a time.
pub open spec fn is_known(cache: Map<Seq<char>, (Seq<char>, u64)>, token: Seq<char>, now: u64) -> bool {
    cache.dom().contains(token) && now - cache[token].1 < KNOWN_NANOS
}

// ---------------------------------------------------------------------------------------------
// The stored parameters
// ---------------------------------------------------------------------------------------------

/// The prefix of the names of the parameters that hold tokens, where nothing else is set.
pub fn key_prefix(setting: Option<&str>) -> (r: String)
    ensures
        r@ == (match setting {
            Some(p) => p@,
            None => "/4ward/api-keys/"@,
        }),
{
    match setting {
        Some(p) => copy_of(p),
        None => copy_of("/4ward/api-keys/"),
    }
}

// ---------------------------------------------------------------------------------------------
// The search
// ---------------------------------------------------------------------------------------------

/// What the search for a token asks for next, or how it ended.
#[derive(Debug)]
pub enum SearchStep {
    /// List a page of parameter names: the first, or the one that a page before named.
    List(Option<String>),
    /// Read the value of a parameter.
    Read(String),
    /// The token is held by this parameter.
    Found(String),
    /// No parameter holds the token.
    Absent,
}

/// What a [`SearchStep`] holds.
pub enum StepText {
    List(Option<Seq<char>>),
    Read(Seq<char>),
    Found(Seq<char>),
    Absent,
}

impl View for SearchStep {
    type V = StepText;

    open spec fn view(&self) -> StepText {
        match *self {
            SearchStep::List(page) => StepText::List(maybe_text(page)),
            SearchStep::Read(name) => StepText::Read(name@),
            SearchStep::Found(name) => StepText::Found(name@),
            SearchStep::Absent => StepText::Absent,
        }
    }
}

/// The search for the parameter that holds a token.
#[derive(Debug)]
pub struct KeySearch {
    token: String,
    names: Vec<String>,
    next_page: Option<String>,
}

/// Where a search stands: the token, the names on the current page that are still to be read, and
/// the page after it.
pub struct SearchText {
    pub token: Seq<char>,
    pub names: Seq<Seq<char>>,
    pub next_page: Option<Seq<char>>,
}

impl View for KeySearch {
    type V = SearchText;

    closed spec fn view(&self) -> SearchText {
        SearchText {
            token: self.token@,
            names: texts(self.names@).reverse(),
            next_page: maybe_text(self.next_page),
        }
    }
}

/// What a search asks for next: the first name still to be read, or else the next page; it has
/// failed where there is neither.
pub open spec fn next_step(s: SearchText) -> StepText {
    if s.names.len() > 0 {
        StepText::Read(s.names[0])
    } else {
        match s.next_page {
            Some(page) => StepText::List(Some(page)),
            None => StepText::Absent,
        }
    }
}

/// Where a search stands once the value of the first name is known, and what it asks for then.
/// A value that could not be read is none.
pub open spec fn after_value(s: SearchText, value: Option<Seq<char>>) -> (SearchText, StepText) {
    let rest = SearchText { names: s.names.skip(1), ..s };
    if s.names.len() == 0 {
        (s, next_step(s))
    } else if value == Some(s.token) {
        (rest, StepText::Found(s.names[0]))
    } else {
        (rest, next_step(rest))
    }
}

impl KeySearch {
    /// Begins the search for a token: the first page of names is to be listed.
    pub fn new(token: &str) -> (r: (KeySearch, SearchStep))
        ensures
            r.0@ == (SearchText { token: token@, names: seq![], next_page: None }),
            r.1@ == StepText::List(None),
    {
        let s = KeySearch { token: copy_of(token), names: Vec::new(), next_page: None };
        assert(s@.names =~= seq![]);
        (s, SearchStep::List(None))
    }

    fn step(&self) -> (r: SearchStep)
        ensures
            r@ == next_step(self@),
    {
        let n: usize = self.names.len();
        if n > 0 {
            assert(self@.names[0] == self.names@[n - 1]@);
            return SearchStep::Read(copy_of(self.names[n - 1].as_str()));
        }
        match &self.next_page {
            Some(p) => SearchStep::List(Some(copy_of(p.as_str()))),
            None => SearchStep::Absent,
        }
    }

    /// Takes a page of names and the page after it.
    pub fn on_page(&mut self, names: Vec<String>, next_page: Option<String>) -> (r: SearchStep)
        ensures
            final(self)@ == (SearchText {
                token: old(self)@.token,
                names: texts(names@),
                next_page: maybe_text(next_page),
            }),
            r@ == next_step(final(self)@),
    {
        let mut stack: Vec<String> = Vec::new();
        let ghost given = texts(names@);
        let mut left: usize = names.len();
        assert(given.skip(left as int) =~= seq![]);
        assert(texts(stack@).reverse() =~= seq![]);
        while left > 0
            invariant
                left <= names@.len(),
                given == texts(names@),
                texts(stack@) == given.skip(left as int).reverse(),
            decreases left,
        {
            let ghost before = stack@;
            left -= 1;
            stack.push(copy_of(names[left].as_str()));
            assert(texts(stack@) =~= texts(before).push(names@[left as int]@));
            assert(given.skip(left as int) =~= seq![names@[left as int]@] + given.skip(left + 1));
            assert(texts(stack@) =~= given.skip(left as int).reverse());
        }
        assert(given.skip(0) =~= given);
        assert(texts(stack@).reverse() =~= given);
        self.names = stack;
        self.next_page = next_page;
        self.step()
    }

    /// Takes the value of the first name still to be read; none where it could not be read.
    pub fn on_value(&mut self, value: Option<&str>) -> (r: SearchStep)
        ensures
            (final(self)@, r@) == after_value(
                old(self)@,
                match value {
                    Some(v) => Some(v@),
                    None => None,
                },
            ),
    {
        let ghost was = texts(self.names@);
        match self.names.pop() {
            Some(name) => {
                assert(texts(self.names@) =~= was.drop_last());
                assert(was.last() == name@);
                assert(was.reverse().skip(1) =~= was.drop_last().reverse());
                assert(was.reverse()[0] == name@);
                let held = match value {
                    Some(v) => same_text(v, self.token.as_str()),
                    None => false,
                };
                if held {
                    SearchStep::Found(name)
                } else {
                    self.step()
                }
            },
            None => self.step(),
        }
    }
}

/// Where a search stands, and what it asks for, after a run of values.
pub open spec fn after_values(s: SearchText, values: Seq<Option<Seq<char>>>) -> (
    SearchText,
    StepText,
)
    decreases values.len(),
{
    if values.len() == 0 {
        (s, next_step(s))
    } else {
        after_value(after_values(s, values.drop_last()).0, values.last())
    }
}

/// A page is searched in order: while the values differ from the token the names are read one
/// after the other, the first that holds the token is found, and where none does the next page
/// is listed, or the search ends without success.
pub proof fn law_search_in_order(s: SearchText, values: Seq<Option<Seq<char>>>, k: int)
    requires
        values.len() == s.names.len(),
        0 <= k <= values.len(),
        forall|i: int| 0 <= i < k ==> #[trigger] values[i] != Some(s.token),
    ensures
        after_values(s, values.take(k)).0 == (SearchText { names: s.names.skip(k), ..s }),
        k < s.names.len() ==> after_values(s, values.take(k)).1 == StepText::Read(s.names[k]),
        k < s.names.len() && values[k] == Some(s.token) ==> after_values(s, values.take(k + 1)).1
            == StepText::Found(s.names[k]),
        k == s.names.len() ==> after_values(s, values).1 == (match s.next_page {
            Some(page) => StepText::List(Some(page)),
            None => StepText::Absent,
        }),
    decreases k,
{
    let now = SearchText { names: s.names.skip(k), ..s };
    if k == 0 {
        assert(values.take(0) =~= seq![]);
        assert(s.names.skip(0) =~= s.names);
    } else {
        law_search_in_order(s, values, k - 1);
        assert(values.take(k).drop_last() =~= values.take(k - 1));
        assert(values.take(k).last() == values[k - 1]);
        assert(s.names.skip(k - 1).skip(1) =~= s.names.skip(k));
        assert(s.names.skip(k - 1)[0] == s.names[k - 1]);
    }
    assert(after_values(s, values.take(k)).0 == now);
    if k < s.names.len() {
        assert(now.names[0] == s.names[k]);
        assert(values.take(k + 1).drop_last() =~= values.take(k));
        assert(values.take(k + 1).last() == values[k]);
    } else {
        assert(values.take(k) =~= values);
    }
}

} // verus!
