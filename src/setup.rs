//! Building the scope table at startup from the list of scopes and the text
//! fetched from each scope's source.

use vstd::prelude::*;

use crate::config::{init_map, parse_config};
use crate::table::{scope_for, EntryModel, ScopeEntry, ScopeTable};
use crate::text::{chars_of, pieces, split_kv, split_pieces, strings_of, Sep};

verus! {

/// Why the table could not be built; any of these stops startup.
#[derive(Clone, Copy, Debug, PartialEq, Eq, Structural)]
pub enum InitError {
    /// A member of the scope list is not `scope,source`.
    BadScopeList,
    /// A scope is named like the update route.
    ScopeNameConflict,
    /// Two scopes have the same name.
    DuplicateScope,
    /// The text fetched for the scope at this position is not valid.
    ConfigParseError(usize),
}

/// The members of a scope list `a,src;b,src`, each split at commas.
pub open spec fn scope_pairs(input: Seq<char>) -> Seq<Seq<Seq<char>>> {
    pieces(input, Sep::Semicolon).map_values(|p: Seq<char>| pieces(p, Sep::Comma))
}

/// The scopes that a list names, each with its source: every member must be
/// exactly a name and a source, and no name may be the update route's.
pub open spec fn scope_list(ps: Seq<Seq<Seq<char>>>, route: Seq<char>) -> Result<
    Seq<(Seq<char>, Seq<char>)>,
    InitError,
>
    decreases ps.len(),
{
    if ps.len() == 0 {
        Ok(Seq::empty())
    } else {
        match scope_list(ps.drop_last(), route) {
            Err(e) => Err(e),
            Ok(ss) => {
                let t = ps.last();
                if t.len() != 2 {
                    Err(InitError::BadScopeList)
                } else if t[0] == route {
                    Err(InitError::ScopeNameConflict)
                } else {
                    Ok(ss.push((t[0], t[1])))
                }
            },
        }
    }
}

proof fn lemma_scope_list_err_extends(ps: Seq<Seq<Seq<char>>>, route: Seq<char>, i: int)
    requires
        0 <= i <= ps.len(),
        scope_list(ps.take(i), route) is Err,
    ensures
        scope_list(ps, route) == scope_list(ps.take(i), route),
    decreases ps.len(),
{
    if i == ps.len() {
        assert(ps.take(i) =~= ps);
    } else {
        assert(ps.drop_last().take(i) =~= ps.take(i));
        lemma_scope_list_err_extends(ps.drop_last(), route, i);
    }
}

/// Reads the scope list (see `scope_list`); `route` is the update route's name.
pub fn parse_scope_list(input: &str, route: &str) -> (r: Result<Vec<(String, String)>, InitError>)
    ensures
        match r {
            Ok(v) => scope_list(scope_pairs(input@), route@) == Ok::<_, InitError>(v.deep_view()),
            Err(e) => scope_list(scope_pairs(input@), route@) == Err::<Seq<(Seq<char>, Seq<char>)>, _>(e),
        },
{
    let cs = chars_of(input);
    let members = split_pieces(&cs, Sep::Semicolon);
    let ghost ps = scope_pairs(input@);
    let rt = route.to_owned();
    let mut out: Vec<(String, String)> = Vec::new();
    let n = members.len();
    let mut i: usize = 0;
    assert(ps.take(0) =~= Seq::<Seq<Seq<char>>>::empty());
    assert(out.deep_view() =~= Seq::<(Seq<char>, Seq<char>)>::empty());
    while i < n
        invariant
            n == members@.len(),
            members.deep_view() == pieces(input@, Sep::Semicolon),
            ps == scope_pairs(input@),
            rt@ == route@,
            i <= n,
            scope_list(ps.take(i as int), route@) == Ok::<_, InitError>(out.deep_view()),
        decreases n - i,
    {
        assert(ps.take(i + 1).drop_last() =~= ps.take(i as int));
        assert(members@[i as int]@ =~= members.deep_view()[i as int]);
        let parts = strings_of(&split_pieces(&members[i], Sep::Comma));
        assert(parts.deep_view() == ps[i as int]);
        match split_kv(&parts) {
            None => {
                proof {
                    lemma_scope_list_err_extends(ps, route@, i + 1);
                }
                return Err(InitError::BadScopeList);
            },
            Some((name, source)) => {
                if name == rt {
                    proof {
                        lemma_scope_list_err_extends(ps, route@, i + 1);
                    }
                    return Err(InitError::ScopeNameConflict);
                }
                let ghost before = out.deep_view();
                let ghost pair = (name@, source@);
                out.push((name, source));
                assert(out.deep_view() =~= before.push(pair));
            },
        }
        i = i + 1;
    }
    assert(ps.take(n as int) =~= ps);
    Ok(out)
}

/// The table built from the scopes and the texts fetched for them, in order:
/// no scope may come twice and every text must be a valid configuration.
pub open spec fn build_model(
    list: Seq<(Seq<char>, Seq<char>)>,
    texts: Seq<Seq<char>>,
    no_fill_https: bool,
) -> Result<Seq<(Seq<char>, EntryModel)>, InitError>
    decreases list.len(),
{
    if list.len() == 0 {
        Ok(Seq::empty())
    } else {
        match build_model(list.drop_last(), texts.drop_last(), no_fill_https) {
            Err(e) => Err(e),
            Ok(t) => {
                let (name, source) = list.last();
                if scope_for(t, name) is Some {
                    Err(InitError::DuplicateScope)
                } else {
                    match parse_config(texts[list.len() - 1], no_fill_https) {
                        None => Err(InitError::ConfigParseError((list.len() - 1) as usize)),
                        Some(es) => Ok(t.push((name, (source, es)))),
                    }
                }
            },
        }
    }
}

proof fn lemma_build_err_extends(
    list: Seq<(Seq<char>, Seq<char>)>,
    texts: Seq<Seq<char>>,
    no_fill_https: bool,
    i: int,
)
    requires
        0 <= i <= list.len(),
        list.len() == texts.len(),
        build_model(list.take(i), texts.take(i), no_fill_https) is Err,
    ensures
        build_model(list, texts, no_fill_https) == build_model(list.take(i), texts.take(i), no_fill_https),
    decreases list.len(),
{
    if i == list.len() {
        assert(list.take(i) =~= list);
        assert(texts.take(i) =~= texts);
    } else {
        assert(list.drop_last().take(i) =~= list.take(i));
        assert(texts.drop_last().take(i) =~= texts.take(i));
        lemma_build_err_extends(list.drop_last(), texts.drop_last(), no_fill_https, i);
    }
}

/// Builds the table (see `build_model`); `texts[i]` is the text fetched from
/// the source of `list[i]`.
pub fn build_table(list: &Vec<(String, String)>, texts: &Vec<String>, no_fill_https: bool) -> (r: Result<ScopeTable, InitError>)
    requires
        list@.len() == texts@.len(),
    ensures
        match r {
            Ok(t) => build_model(list.deep_view(), texts.deep_view(), no_fill_https) == Ok::<_, InitError>(t@),
            Err(e) => build_model(list.deep_view(), texts.deep_view(), no_fill_https) == Err::<Seq<(Seq<char>, EntryModel)>, _>(e),
        },
{
    let ghost l = list.deep_view();
    let ghost tx = texts.deep_view();
    let mut table = ScopeTable::new();
    let n = list.len();
    let mut i: usize = 0;
    assert(l.take(0) =~= Seq::<(Seq<char>, Seq<char>)>::empty());
    while i < n
        invariant
            n == l.len(),
            n == tx.len(),
            l == list.deep_view(),
            tx == texts.deep_view(),
            i <= n,
            build_model(l.take(i as int), tx.take(i as int), no_fill_https) == Ok::<_, InitError>(table@),
        decreases n - i,
    {
        assert(l.take(i + 1).drop_last() =~= l.take(i as int));
        assert(tx.take(i + 1).drop_last() =~= tx.take(i as int));
        assert(l.take(i + 1).last() == l[i as int]);
        assert(tx.take(i + 1)[i as int] == tx[i as int]);
        let name = &list[i].0;
        let source = &list[i].1;
        if table.read(name.as_str()).is_some() {
            proof {
                lemma_build_err_extends(l, tx, no_fill_https, i + 1);
            }
            return Err(InitError::DuplicateScope);
        }
        match init_map(texts[i].as_str(), no_fill_https) {
            None => {
                proof {
                    lemma_build_err_extends(l, tx, no_fill_https, i + 1);
                }
                return Err(InitError::ConfigParseError(i));
            },
            Some(map) => {
                let entry = ScopeEntry { source: source.clone(), map };
                table.push_scope(name.clone(), entry);
            },
        }
        i = i + 1;
    }
    assert(l.take(n as int) =~= l);
    assert(tx.take(n as int) =~= tx);
    Ok(table)
}

} // verus!
