//! The table of scopes, each a source and the key/URL table read from it,
//! and the replacement of one scope's entry by freshly fetched text.

use vstd::prelude::*;

use crate::config::{init_map, parse_config, value_for, ScopeMap};

verus! {

/// A scope's entry as a value: its source and its entries.
pub type EntryModel = (Seq<char>, Seq<(Seq<char>, Seq<char>)>);

/// One scope: where its table comes from, and the table.
#[derive(Clone, Debug, PartialEq, Eq)]
pub struct ScopeEntry {
    pub source: String,
    pub map: ScopeMap,
}

impl View for ScopeEntry {
    type V = EntryModel;

    open spec fn view(&self) -> EntryModel {
        (self.source@, self.map@)
    }
}

impl ScopeEntry {
    /// A copy of this entry.
    pub fn snapshot(&self) -> (r: ScopeEntry)
        ensures
            r@ == self@,
    {
        ScopeEntry { source: self.source.clone(), map: self.map.snapshot() }
    }
}

/// The entry of the scope named `s`, by the first scope with that name.
pub open spec fn scope_for(t: Seq<(Seq<char>, EntryModel)>, s: Seq<char>) -> Option<EntryModel>
    decreases t.len(),
{
    if t.len() == 0 {
        None
    } else if t[0].0 == s {
        Some(t[0].1)
    } else {
        scope_for(t.drop_first(), s)
    }
}

/// The table with the entry of the scope named `s` replaced by `e`.
pub open spec fn set_scope(t: Seq<(Seq<char>, EntryModel)>, s: Seq<char>, e: EntryModel) -> Seq<
    (Seq<char>, EntryModel),
>
    decreases t.len(),
{
    if t.len() == 0 {
        t
    } else if t[0].0 == s {
        t.update(0, (s, e))
    } else {
        seq![t[0]] + set_scope(t.drop_first(), s, e)
    }
}

/// The value found for `key` in the scope named `scope`.
pub open spec fn resolve(t: Seq<(Seq<char>, EntryModel)>, scope: Seq<char>, key: Seq<char>) -> Option<
    Seq<char>,
> {
    match scope_for(t, scope) {
        Some(e) => value_for(e.1, key),
        None => None,
    }
}

/// The outcome of replacing one scope's entry.
#[derive(Clone, Debug, PartialEq, Eq)]
pub enum UpdateResult {
    Succeed { new: ScopeEntry, old: ScopeEntry },
    ScopeNotFound,
    FetchError(String),
    ParseError,
}

/// `UpdateResult` as a value.
pub enum UpdateModel {
    Succeed { new: EntryModel, old: EntryModel },
    ScopeNotFound,
    FetchError(Seq<char>),
    ParseError,
}

impl View for UpdateResult {
    type V = UpdateModel;

    open spec fn view(&self) -> UpdateModel {
        match self {
            UpdateResult::Succeed { new, old } => UpdateModel::Succeed { new: new@, old: old@ },
            UpdateResult::ScopeNotFound => UpdateModel::ScopeNotFound,
            UpdateResult::FetchError(reason) => UpdateModel::FetchError(reason@),
            UpdateResult::ParseError => UpdateModel::ParseError,
        }
    }
}

/// What replacing the entry of `scope` gives, where `fetched` is the text
/// fetched from the scope's source or the reason the fetch failed.
pub open spec fn update_outcome(
    t: Seq<(Seq<char>, EntryModel)>,
    scope: Seq<char>,
    fetched: Result<Seq<char>, Seq<char>>,
    no_fill_https: bool,
) -> UpdateModel {
    match scope_for(t, scope) {
        None => UpdateModel::ScopeNotFound,
        Some(e) => match fetched {
            Err(reason) => UpdateModel::FetchError(reason),
            Ok(text) => match parse_config(text, no_fill_https) {
                None => UpdateModel::ParseError,
                Some(es) => UpdateModel::Succeed { new: (e.0, es), old: e },
            },
        },
    }
}

/// The table after an update with that outcome: changed only on success.
pub open spec fn table_after(t: Seq<(Seq<char>, EntryModel)>, scope: Seq<char>, u: UpdateModel) -> Seq<
    (Seq<char>, EntryModel),
> {
    match u {
        UpdateModel::Succeed { new, old } => set_scope(t, scope, new),
        _ => t,
    }
}

pub open spec fn fetched_view(f: Result<String, String>) -> Result<Seq<char>, Seq<char>> {
    match f {
        Ok(text) => Ok(text@),
        Err(reason) => Err(reason@),
    }
}

proof fn lemma_set_scope_absent(t: Seq<(Seq<char>, EntryModel)>, s: Seq<char>, e: EntryModel)
    requires
        scope_for(t, s) is None,
    ensures
        set_scope(t, s, e) == t,
    decreases t.len(),
{
    if t.len() > 0 {
        lemma_set_scope_absent(t.drop_first(), s, e);
        assert(seq![t[0]] + t.drop_first() =~= t);
    }
}

proof fn lemma_set_scope_at(t: Seq<(Seq<char>, EntryModel)>, s: Seq<char>, e: EntryModel, i: int)
    requires
        0 <= i < t.len(),
        t[i].0 == s,
        forall|j: int| 0 <= j < i ==> t[j].0 != s,
    ensures
        set_scope(t, s, e) == t.update(i, (s, e)),
    decreases t.len(),
{
    if i > 0 {
        assert forall|j: int| 0 <= j < i - 1 implies t.drop_first()[j].0 != s by {
            assert(t.drop_first()[j] == t[j + 1]);
        }
        lemma_set_scope_at(t.drop_first(), s, e, i - 1);
        assert(seq![t[0]] + t.drop_first().update(i - 1, (s, e)) =~= t.update(i, (s, e)));
    }
}

/// Scopes by name, each with its entry. Names are never added or removed
/// once the table is built; only an entry is replaced, as a whole.
#[derive(Debug)]
pub struct ScopeTable {
    scopes: Vec<(String, ScopeEntry)>,
}

impl View for ScopeTable {
    type V = Seq<(Seq<char>, EntryModel)>;

    closed spec fn view(&self) -> Seq<(Seq<char>, EntryModel)> {
        self.scopes@.map_values(|p: (String, ScopeEntry)| (p.0@, p.1@))
    }
}

impl ScopeTable {
    pub fn new() -> (r: ScopeTable)
        ensures
            r@ == Seq::<(Seq<char>, EntryModel)>::empty(),
    {
        let r = ScopeTable { scopes: Vec::new() };
        assert(r@ =~= Seq::<(Seq<char>, EntryModel)>::empty());
        r
    }

    pub fn len(&self) -> (n: usize)
        ensures
            n == self@.len(),
    {
        self.scopes.len()
    }

    pub fn name_at(&self, i: usize) -> (r: &String)
        requires
            i < self@.len(),
        ensures
            r@ == self@[i as int].0,
    {
        &self.scopes[i].0
    }

    pub fn entry_at(&self, i: usize) -> (r: &ScopeEntry)
        requires
            i < self@.len(),
        ensures
            r@ == self@[i as int].1,
    {
        &self.scopes[i].1
    }

    pub(crate) fn push_scope(&mut self, name: String, entry: ScopeEntry)
        ensures
            final(self)@ == old(self)@.push((name@, entry@)),
    {
        self.scopes.push((name, entry));
        assert(final(self)@ =~= old(self)@.push((name@, entry@)));
    }

    fn index_of(&self, scope: &str) -> (r: Option<usize>)
        ensures
            match r {
                Some(i) => i < self@.len() && self@[i as int].0 == scope@ && scope_for(self@, scope@)
                    == Some(self@[i as int].1) && (forall|j: int|
                    0 <= j < i ==> self@[j].0 != scope@),
                None => scope_for(self@, scope@) is None,
            },
    {
        let s = scope.to_owned();
        let n = self.scopes.len();
        let mut i: usize = 0;
        assert(self@.skip(0) =~= self@);
        while i < n
            invariant
                n == self@.len(),
                i <= n,
                s@ == scope@,
                scope_for(self@, scope@) == scope_for(self@.skip(i as int), scope@),
                forall|j: int| 0 <= j < i ==> self@[j].0 != scope@,
            decreases n - i,
        {
            assert(self@.skip(i as int)[0] == self@[i as int]);
            if self.scopes[i].0 == s {
                return Some(i);
            }
            assert(self@.skip(i as int).drop_first() =~= self@.skip(i + 1));
            i = i + 1;
        }
        None
    }

    /// The current entry of `scope`.
    pub fn read(&self, scope: &str) -> (r: Option<&ScopeEntry>)
        ensures
            match r {
                Some(e) => scope_for(self@, scope@) == Some(e@),
                None => scope_for(self@, scope@) is None,
            },
    {
        match self.index_of(scope) {
            Some(i) => Some(&self.scopes[i].1),
            None => None,
        }
    }

    /// The value stored under `key` in `scope`.
    pub fn get(&self, scope: &str, key: &str) -> (r: Option<String>)
        ensures
            match r {
                Some(v) => resolve(self@, scope@, key@) == Some(v@),
                None => resolve(self@, scope@, key@) is None,
            },
    {
        match self.read(scope) {
            Some(e) => match e.map.get(key) {
                Some(v) => Some(v.clone()),
                None => None,
            },
            None => None,
        }
    }

    /// The source to fetch from before replacing the entry of `scope`.
    pub fn source_of(&self, scope: &str) -> (r: Option<String>)
        ensures
            match r {
                Some(src) => scope_for(self@, scope@) is Some && scope_for(self@, scope@).unwrap().0
                    == src@,
                None => scope_for(self@, scope@) is None,
            },
    {
        match self.read(scope) {
            Some(e) => Some(e.source.clone()),
            None => None,
        }
    }
}

impl ScopeTable {
    /// Puts `entry` in place of the entry of `scope`, as one step, and gives
    /// back the entry it replaced; a scope that is not in the table is left
    /// out and nothing changes.
    pub fn commit(&mut self, scope: &str, entry: ScopeEntry) -> (r: Option<ScopeEntry>)
        ensures
            match r {
                Some(prev) => scope_for(old(self)@, scope@) == Some(prev@),
                None => scope_for(old(self)@, scope@) is None,
            },
            final(self)@ == set_scope(old(self)@, scope@, entry@),
    {
        match self.index_of(scope) {
            None => {
                proof {
                    lemma_set_scope_absent(self@, scope@, entry@);
                }
                None
            },
            Some(i) => {
                proof {
                    lemma_set_scope_at(self@, scope@, entry@, i as int);
                }
                let ghost before = self@;
                let (name, prev) = self.scopes.remove(i);
                self.scopes.insert(i, (name, entry));
                assert(self@ =~= before.update(i as int, (scope@, entry@)));
                Some(prev)
            },
        }
    }

    /// Installs `new` as the entry of `scope` (see `commit`) and reports the
    /// swap, or that the scope is not in the table.
    pub fn install(&mut self, scope: &str, new: ScopeEntry) -> (r: UpdateResult)
        ensures
            match scope_for(old(self)@, scope@) {
                None => r@ == UpdateModel::ScopeNotFound && final(self)@ == old(self)@,
                Some(e) => r@ == (UpdateModel::Succeed { new: new@, old: e }) && final(self)@
                    == set_scope(old(self)@, scope@, new@),
            },
    {
        let installed = new.snapshot();
        match self.commit(scope, installed) {
            Some(prev) => UpdateResult::Succeed { new, old: prev },
            None => {
                proof {
                    lemma_set_scope_absent(old(self)@, scope@, new@);
                }
                UpdateResult::ScopeNotFound
            },
        }
    }

    /// Replaces the entry of `scope` by the table read from `fetched`, the
    /// text fetched from the scope's source or the reason that fetch failed.
    /// On any failure the table is left exactly as it was.
    pub fn apply_update(&mut self, scope: &str, fetched: Result<String, String>, no_fill_https: bool) -> (r: UpdateResult)
        ensures
            r@ == update_outcome(old(self)@, scope@, fetched_view(fetched), no_fill_https),
            final(self)@ == table_after(old(self)@, scope@, r@),
            !(r is Succeed) ==> final(self)@ == old(self)@,
    {
        let source = match self.source_of(scope) {
            None => return UpdateResult::ScopeNotFound,
            Some(src) => src,
        };
        match prepare_update(source, fetched, no_fill_https) {
            Err(failure) => failure,
            Ok(new) => self.install(scope, new),
        }
    }
}

/// The entry read from what was fetched for a scope whose source is
/// `source`, or the failure that ends the update: the fetch's, or a text
/// that is not a valid configuration.
pub open spec fn prepare_model(
    source: Seq<char>,
    fetched: Result<Seq<char>, Seq<char>>,
    no_fill_https: bool,
) -> Result<EntryModel, UpdateModel> {
    match fetched {
        Err(reason) => Err(UpdateModel::FetchError(reason)),
        Ok(text) => match parse_config(text, no_fill_https) {
            None => Err(UpdateModel::ParseError),
            Some(es) => Ok((source, es)),
        },
    }
}

/// Reads the new entry of a scope from what was fetched from `source` (see
/// `prepare_model`); it touches no table, so it can run before the swap.
pub fn prepare_update(source: String, fetched: Result<String, String>, no_fill_https: bool) -> (r: Result<ScopeEntry, UpdateResult>)
    ensures
        match r {
            Ok(e) => prepare_model(source@, fetched_view(fetched), no_fill_https) == Ok::<
                EntryModel,
                UpdateModel,
            >(e@),
            Err(u) => prepare_model(source@, fetched_view(fetched), no_fill_https) == Err::<
                EntryModel,
                UpdateModel,
            >(u@),
        },
{
    let text = match fetched {
        Err(reason) => return Err(UpdateResult::FetchError(reason)),
        Ok(text) => text,
    };
    match init_map(text.as_str(), no_fill_https) {
        None => Err(UpdateResult::ParseError),
        Some(map) => Ok(ScopeEntry { source, map }),
    }
}

proof fn lemma_set_scope_effect(t: Seq<(Seq<char>, EntryModel)>, s: Seq<char>, e: EntryModel, other: Seq<char>)
    ensures
        scope_for(set_scope(t, s, e), s) == if scope_for(t, s) is Some {
            Some(e)
        } else {
            None::<EntryModel>
        },
        other != s ==> scope_for(set_scope(t, s, e), other) == scope_for(t, other),
    decreases t.len(),
{
    if t.len() > 0 {
        lemma_set_scope_effect(t.drop_first(), s, e, other);
        let r = set_scope(t, s, e);
        if t[0].0 == s {
            assert(r.drop_first() =~= t.drop_first());
        } else {
            assert(r[0] == t[0]);
            assert(r.drop_first() =~= set_scope(t.drop_first(), s, e));
        }
    }
}

/// An update replaces the entry of its scope as a whole or not at all: after
/// it the scope's entry is either the one it had before or exactly the new
/// entry of a successful outcome, never a mix of the two, and every other
/// scope keeps its entry.
pub proof fn law_update_swaps_whole_entry(
    t: Seq<(Seq<char>, EntryModel)>,
    scope: Seq<char>,
    fetched: Result<Seq<char>, Seq<char>>,
    no_fill_https: bool,
    other: Seq<char>,
)
    ensures
        ({
            let u = update_outcome(t, scope, fetched, no_fill_https);
            let after = table_after(t, scope, u);
            &&& match u {
                UpdateModel::Succeed { new, old } => scope_for(t, scope) == Some(old) && scope_for(
                    after,
                    scope,
                ) == Some(new) && new.0 == old.0,
                _ => after == t,
            }
            &&& other != scope ==> scope_for(after, other) == scope_for(t, other)
        }),
{
    let u = update_outcome(t, scope, fetched, no_fill_https);
    if let UpdateModel::Succeed { new, old } = u {
        lemma_set_scope_effect(t, scope, new, other);
    }
}

} // verus!
