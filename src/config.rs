//! Key/URL tables and the line-oriented text they are read from.

use vstd::prelude::*;

use crate::text::{
    chars_of, drop_empty, drop_empty_strings, fields, lemma_nonempty_concat, lemma_nonempty_idem,
    nonempty, pieces, split_fields, split_kv, split_pieces, string_of, strings_of, Sep,
};

verus! {

pub open spec fn http_scheme() -> Seq<char> {
    seq!['h', 't', 't', 'p', ':', '/', '/']
}

pub open spec fn https_scheme() -> Seq<char> {
    seq!['h', 't', 't', 'p', 's', ':', '/', '/']
}

pub open spec fn starts_with(s: Seq<char>, p: Seq<char>) -> bool {
    p.len() <= s.len() && s.take(p.len() as int) == p
}

/// Whether `v` already names the `http` or `https` scheme.
pub open spec fn has_scheme(v: Seq<char>) -> bool {
    starts_with(v, http_scheme()) || starts_with(v, https_scheme())
}

/// The URL stored for the value `v`: `https://` is put in front of a value
/// without a scheme, unless filling is switched off.
pub open spec fn normalize(v: Seq<char>, no_fill_https: bool) -> Seq<char> {
    if no_fill_https || has_scheme(v) {
        v
    } else {
        https_scheme() + v
    }
}

/// The value stored under `k` in `es`, by the first entry with that key.
pub open spec fn value_for(es: Seq<(Seq<char>, Seq<char>)>, k: Seq<char>) -> Option<Seq<char>>
    decreases es.len(),
{
    if es.len() == 0 {
        None
    } else if es[0].0 == k {
        Some(es[0].1)
    } else {
        value_for(es.drop_first(), k)
    }
}

/// The entries read from lines already split into tokens: every line must
/// hold exactly a key and a value, and no key may come twice.
pub open spec fn parse_tokens(ls: Seq<Seq<Seq<char>>>, no_fill_https: bool) -> Option<
    Seq<(Seq<char>, Seq<char>)>,
>
    decreases ls.len(),
{
    if ls.len() == 0 {
        Some(Seq::empty())
    } else {
        match parse_tokens(ls.drop_last(), no_fill_https) {
            None => None,
            Some(es) => {
                let t = ls.last();
                if t.len() == 2 && value_for(es, t[0]) is None {
                    Some(es.push((t[0], normalize(t[1], no_fill_https))))
                } else {
                    None
                }
            },
        }
    }
}

/// A line without the carriage return that may end it.
pub open spec fn strip_cr(l: Seq<char>) -> Seq<char> {
    if l.len() > 0 && l.last() == '\r' {
        l.drop_last()
    } else {
        l
    }
}

/// The non-empty lines of a configuration text.
pub open spec fn config_lines(text: Seq<char>) -> Seq<Seq<char>> {
    nonempty(pieces(text, Sep::Newline).map_values(|l: Seq<char>| strip_cr(l)))
}

/// The whitespace-separated tokens of each non-empty line.
pub open spec fn line_tokens(text: Seq<char>) -> Seq<Seq<Seq<char>>> {
    config_lines(text).map_values(|l: Seq<char>| fields(l, Sep::Whitespace))
}

/// The table that a configuration text describes, if it is well formed.
pub open spec fn parse_config(text: Seq<char>, no_fill_https: bool) -> Option<
    Seq<(Seq<char>, Seq<char>)>,
> {
    parse_tokens(line_tokens(text), no_fill_https)
}

/// What splitting `s` at each maximal run of whitespace gives: the pieces
/// between the runs, with an empty first or last piece where `s` begins or
/// ends with whitespace.
pub open spec fn ws_run_split(s: Seq<char>) -> Seq<Seq<char>> {
    let p = pieces(s, Sep::Whitespace);
    if p.len() <= 1 {
        p
    } else {
        seq![p[0]] + nonempty(p.subrange(1, p.len() - 1)) + seq![p.last()]
    }
}

/// Lines split at `\n` only, with empty ones left out.
pub open spec fn raw_lines(text: Seq<char>) -> Seq<Seq<char>> {
    nonempty(pieces(text, Sep::Newline))
}

/// The whitespace-separated tokens of each line split at `\n` only.
pub open spec fn raw_line_tokens(text: Seq<char>) -> Seq<Seq<Seq<char>>> {
    raw_lines(text).map_values(|l: Seq<char>| fields(l, Sep::Whitespace))
}

/// The table that `init` reads from a text: lines split at `\n` only,
/// tokens separated by whitespace, values normalized.
pub open spec fn parse_config_runs(text: Seq<char>) -> Option<Seq<(Seq<char>, Seq<char>)>> {
    parse_tokens(raw_line_tokens(text), false)
}

/// Leaving out the empty pieces of a split at whitespace runs gives the
/// whitespace-separated tokens.
pub proof fn lemma_ws_runs_fields(s: Seq<char>)
    ensures
        nonempty(ws_run_split(s)) == fields(s, Sep::Whitespace),
{
    let p = pieces(s, Sep::Whitespace);
    if p.len() > 1 {
        let mid = p.subrange(1, p.len() - 1);
        assert(p =~= seq![p[0]] + mid + seq![p.last()]);
        lemma_nonempty_concat(seq![p[0]] + nonempty(mid), seq![p.last()]);
        lemma_nonempty_concat(seq![p[0]], nonempty(mid));
        lemma_nonempty_idem(mid);
        lemma_nonempty_concat(seq![p[0]] + mid, seq![p.last()]);
        lemma_nonempty_concat(seq![p[0]], mid);
    }
}

/// A table from keys to URLs, in the order in which they were read.
#[derive(Clone, Debug, PartialEq, Eq)]
pub struct ScopeMap {
    entries: Vec<(String, String)>,
}

impl View for ScopeMap {
    type V = Seq<(Seq<char>, Seq<char>)>;

    closed spec fn view(&self) -> Seq<(Seq<char>, Seq<char>)> {
        self.entries.deep_view()
    }
}

pub open spec fn table_view(r: Option<ScopeMap>) -> Option<Seq<(Seq<char>, Seq<char>)>> {
    match r {
        Some(m) => Some(m@),
        None => None,
    }
}

impl ScopeMap {
    pub fn new() -> (r: ScopeMap)
        ensures
            r@ == Seq::<(Seq<char>, Seq<char>)>::empty(),
    {
        let r = ScopeMap { entries: Vec::new() };
        assert(r@ =~= Seq::<(Seq<char>, Seq<char>)>::empty());
        r
    }

    pub fn len(&self) -> (n: usize)
        ensures
            n == self@.len(),
    {
        self.entries.len()
    }

    pub fn key_at(&self, i: usize) -> (r: &String)
        requires
            i < self@.len(),
        ensures
            r@ == self@[i as int].0,
    {
        &self.entries[i].0
    }

    pub fn value_at(&self, i: usize) -> (r: &String)
        requires
            i < self@.len(),
        ensures
            r@ == self@[i as int].1,
    {
        &self.entries[i].1
    }

    /// The value stored under `key`.
    pub fn get(&self, key: &str) -> (r: Option<&String>)
        ensures
            match r {
                Some(v) => value_for(self@, key@) == Some(v@),
                None => value_for(self@, key@) is None,
            },
    {
        let k = key.to_owned();
        let n = self.entries.len();
        let mut i: usize = 0;
        assert(self@.skip(0) =~= self@);
        while i < n
            invariant
                n == self@.len(),
                i <= n,
                k@ == key@,
                value_for(self@, key@) == value_for(self@.skip(i as int), key@),
            decreases n - i,
        {
            assert(self@.skip(i as int)[0] == self@[i as int]);
            if self.entries[i].0 == k {
                return Some(&self.entries[i].1);
            }
            assert(self@.skip(i as int).drop_first() =~= self@.skip(i + 1));
            i = i + 1;
        }
        None
    }

    /// A copy of this table, entry for entry.
    pub fn snapshot(&self) -> (r: ScopeMap)
        ensures
            r@ == self@,
    {
        let mut out: Vec<(String, String)> = Vec::new();
        let n = self.entries.len();
        let mut i: usize = 0;
        while i < n
            invariant
                n == self@.len(),
                i <= n,
                out.deep_view() =~= self@.take(i as int),
            decreases n - i,
        {
            let k = self.entries[i].0.clone();
            let v = self.entries[i].1.clone();
            let ghost before = out.deep_view();
            out.push((k, v));
            assert(out.deep_view() =~= before.push(self@[i as int]));
            assert(self@.take(i + 1) =~= self@.take(i as int).push(self@[i as int]));
            i = i + 1;
        }
        ScopeMap { entries: out }
    }

    fn push_entry(&mut self, k: String, v: String)
        ensures
            final(self)@ == old(self)@.push((k@, v@)),
    {
        self.entries.push((k, v));
        assert(final(self)@ =~= old(self)@.push((k@, v@)));
    }
}

/// The URL stored for the value `v` (see `normalize`).
pub fn normalize_url(v: &String, no_fill_https: bool) -> (r: String)
    ensures
        r@ == normalize(v@, no_fill_https),
{
    if no_fill_https {
        return v.clone();
    }
    let mut cs = chars_of(v.as_str());
    let plain = cs.len() >= 7 && cs[0] == 'h' && cs[1] == 't' && cs[2] == 't' && cs[3] == 'p'
        && cs[4] == ':' && cs[5] == '/' && cs[6] == '/';
    let secure = cs.len() >= 8 && cs[0] == 'h' && cs[1] == 't' && cs[2] == 't' && cs[3] == 'p'
        && cs[4] == 's' && cs[5] == ':' && cs[6] == '/' && cs[7] == '/';
    proof {
        if plain {
            assert(cs@.take(7) =~= http_scheme());
        }
        if starts_with(v@, http_scheme()) {
            assert(cs@.take(7)[6] == '/');
            assert(cs@.take(7)[5] == '/');
            assert(cs@.take(7)[4] == ':');
            assert(cs@.take(7)[3] == 'p');
            assert(cs@.take(7)[2] == 't');
            assert(cs@.take(7)[1] == 't');
            assert(cs@.take(7)[0] == 'h');
        }
        if secure {
            assert(cs@.take(8) =~= https_scheme());
        }
        if starts_with(v@, https_scheme()) {
            assert(cs@.take(8)[7] == '/');
            assert(cs@.take(8)[6] == '/');
            assert(cs@.take(8)[5] == ':');
            assert(cs@.take(8)[4] == 's');
            assert(cs@.take(8)[3] == 'p');
            assert(cs@.take(8)[2] == 't');
            assert(cs@.take(8)[1] == 't');
            assert(cs@.take(8)[0] == 'h');
        }
    }
    if plain || secure {
        return v.clone();
    }
    let mut out: Vec<char> = Vec::new();
    out.push('h');
    out.push('t');
    out.push('t');
    out.push('p');
    out.push('s');
    out.push(':');
    out.push('/');
    out.push('/');
    assert(out@ =~= https_scheme());
    out.append(&mut cs);
    string_of(&out)
}

proof fn lemma_parse_none_extends(ls: Seq<Seq<Seq<char>>>, i: int, no_fill_https: bool)
    requires
        0 <= i <= ls.len(),
        parse_tokens(ls.take(i), no_fill_https) is None,
    ensures
        parse_tokens(ls, no_fill_https) is None,
    decreases ls.len(),
{
    if i == ls.len() {
        assert(ls.take(i) =~= ls);
    } else {
        assert(ls.drop_last().take(i) =~= ls.take(i));
        lemma_parse_none_extends(ls.drop_last(), i, no_fill_https);
    }
}

/// Builds a table from lines already split into tokens (see `parse_tokens`).
pub fn parse_token_lines(lines: &Vec<Vec<String>>, no_fill_https: bool) -> (r: Option<ScopeMap>)
    ensures
        table_view(r) == parse_tokens(lines.deep_view(), no_fill_https),
        r is Some ==> keys_distinct(r.unwrap()@),
{
    let ghost ls = lines.deep_view();
    let mut m = ScopeMap::new();
    let n = lines.len();
    let mut i: usize = 0;
    assert(ls.take(0) =~= Seq::<Seq<Seq<char>>>::empty());
    while i < n
        invariant
            n == ls.len(),
            i <= n,
            ls == lines.deep_view(),
            parse_tokens(ls.take(i as int), no_fill_https) == Some(m@),
        decreases n - i,
    {
        assert(ls.take(i + 1).drop_last() =~= ls.take(i as int));
        assert(ls.take(i + 1).last() == ls[i as int]);
        assert(ls[i as int] =~= lines@[i as int].deep_view());
        match split_kv(&lines[i]) {
            None => {
                proof {
                    lemma_parse_none_extends(ls, i + 1, no_fill_https);
                }
                return None;
            },
            Some((k, v)) => {
                if m.get(k.as_str()).is_some() {
                    proof {
                        lemma_parse_none_extends(ls, i + 1, no_fill_https);
                    }
                    return None;
                }
                let url = normalize_url(&v, no_fill_https);
                m.push_entry(k, url);
            },
        }
        i = i + 1;
    }
    assert(ls.take(n as int) =~= ls);
    proof {
        lemma_parse_shape(ls, no_fill_https);
    }
    Some(m)
}

fn strip_crs(ls: &Vec<Vec<char>>) -> (r: Vec<Vec<char>>)
    ensures
        r.deep_view() == ls.deep_view().map_values(|l: Seq<char>| strip_cr(l)),
{
    let mut out: Vec<Vec<char>> = Vec::new();
    let n = ls.len();
    let mut i: usize = 0;
    while i < n
        invariant
            n == ls@.len(),
            i <= n,
            out.deep_view() =~= ls.deep_view().take(i as int).map_values(
                |l: Seq<char>| strip_cr(l),
            ),
        decreases n - i,
    {
        let mut l = ls[i].clone();
        assert(l@ =~= ls.deep_view()[i as int]);
        let len = l.len();
        if len > 0 && l[len - 1] == '\r' {
            l.pop();
        }
        assert(l@ =~= strip_cr(ls.deep_view()[i as int]));
        let ghost before = out.deep_view();
        let ghost lv = l@;
        assert(l.deep_view() =~= lv);
        out.push(l);
        assert(out.deep_view() =~= before.push(lv));
        assert(ls.deep_view().take(i + 1).map_values(|l: Seq<char>| strip_cr(l)) =~= ls.deep_view().take(
            i as int,
        ).map_values(|l: Seq<char>| strip_cr(l)).push(lv));
        i = i + 1;
    }
    assert(ls.deep_view().take(n as int) =~= ls.deep_view());
    out
}

/// Reads a table from configuration text: one `key value` pair per
/// non-empty line, tokens separated by whitespace, each value stored as
/// `normalize` gives it. A line without exactly two tokens, or a key that
/// comes twice, makes the whole text invalid.
pub fn init_map(config: &str, no_fill_https: bool) -> (r: Option<ScopeMap>)
    ensures
        table_view(r) == parse_config(config@, no_fill_https),
        r is Some ==> keys_distinct(r.unwrap()@),
{
    let cs = chars_of(config);
    let split = split_pieces(&cs, Sep::Newline);
    let stripped = strip_crs(&split);
    let lines = drop_empty(stripped);
    assert(lines.deep_view() == config_lines(config@));
    let mut toks: Vec<Vec<String>> = Vec::new();
    let n = lines.len();
    let mut i: usize = 0;
    while i < n
        invariant
            n == lines@.len(),
            i <= n,
            lines.deep_view() == config_lines(config@),
            toks.deep_view() =~= line_tokens(config@).take(i as int),
        decreases n - i,
    {
        let f = split_fields(&lines[i], Sep::Whitespace);
        let t = strings_of(&f);
        assert(lines@[i as int]@ =~= lines.deep_view()[i as int]);
        let ghost before = toks.deep_view();
        let ghost tv = t.deep_view();
        toks.push(t);
        assert(toks.deep_view() =~= before.push(tv));
        assert(line_tokens(config@).take(i + 1) =~= line_tokens(config@).take(i as int).push(tv));
        i = i + 1;
    }
    assert(line_tokens(config@).take(n as int) =~= line_tokens(config@));
    parse_token_lines(&toks, no_fill_https)
}

/// Relies on `regex::Regex::split` with the pattern `\s+`: the pieces of
/// `line` between the leftmost-first, greedy matches of runs of Unicode
/// `White_Space` characters, an empty piece before a leading run and after a
/// trailing one. The pattern is valid, so `Regex::new` does not fail.
#[verifier::external_body]
fn split_ws_runs(line: &str) -> (r: Vec<String>)
    ensures
        r.deep_view() == ws_run_split(line@),
{
    regex::Regex::new(r"\s+").unwrap().split(line).map(|p| p.to_string()).collect()
}

/// Reads a table from configuration text whose lines are split at `\n`
/// only (see `parse_config_runs`): one `key value` pair per non-empty line,
/// tokens separated by whitespace, each value stored as `normalize` gives it.
pub fn init(config: String) -> (r: Option<ScopeMap>)
    ensures
        table_view(r) == parse_config_runs(config@),
        r is Some ==> keys_distinct(r.unwrap()@),
{
    let cs = chars_of(config.as_str());
    let lines = drop_empty(split_pieces(&cs, Sep::Newline));
    let ghost lt = raw_line_tokens(config@);
    let mut toks: Vec<Vec<String>> = Vec::new();
    let n = lines.len();
    let mut i: usize = 0;
    while i < n
        invariant
            n == lines@.len(),
            i <= n,
            lines.deep_view() == raw_lines(config@),
            lt == raw_line_tokens(config@),
            toks.deep_view() =~= lt.take(i as int),
        decreases n - i,
    {
        let line = string_of(&lines[i]);
        let t = drop_empty_strings(split_ws_runs(line.as_str()));
        assert(lines@[i as int]@ =~= lines.deep_view()[i as int]);
        proof {
            lemma_ws_runs_fields(line@);
        }
        let ghost before = toks.deep_view();
        let ghost tv = t.deep_view();
        toks.push(t);
        assert(toks.deep_view() =~= before.push(tv));
        assert(lt.take(i + 1) =~= lt.take(i as int).push(tv));
        i = i + 1;
    }
    assert(lt.take(n as int) =~= lt);
    parse_token_lines(&toks, false)
}

/// What a request path names in a table: a path of `/` and a key gives
/// the value stored under that key.
pub open spec fn lookup_path(path: Seq<char>, es: Seq<(Seq<char>, Seq<char>)>) -> Option<Seq<char>> {
    if path.len() > 0 && path[0] == '/' {
        value_for(es, path.drop_first())
    } else {
        None
    }
}

/// Looks up a path of the form `/key`, giving back the stored URL unchanged.
pub fn lookup(key: &str, map: &ScopeMap) -> (r: Option<String>)
    ensures
        match r {
            Some(v) => lookup_path(key@, map@) == Some(v@),
            None => lookup_path(key@, map@) is None,
        },
{
    let mut cs = chars_of(key);
    if cs.len() == 0 || cs[0] != '/' {
        return None;
    }
    let rest = cs.split_off(1);
    let k = string_of(&rest);
    assert(rest@ =~= key@.drop_first());
    match map.get(k.as_str()) {
        Some(v) => Some(v.clone()),
        None => None,
    }
}

/// Whether no key comes twice in `es`.
pub open spec fn keys_distinct(es: Seq<(Seq<char>, Seq<char>)>) -> bool {
    forall|i: int, j: int| 0 <= i < j < es.len() ==> es[i].0 != es[j].0
}

proof fn lemma_value_for_absent(es: Seq<(Seq<char>, Seq<char>)>, k: Seq<char>)
    requires
        forall|i: int| 0 <= i < es.len() ==> es[i].0 != k,
    ensures
        value_for(es, k) is None,
    decreases es.len(),
{
    if es.len() > 0 {
        assert forall|i: int| 0 <= i < es.drop_first().len() implies es.drop_first()[i].0 != k by {
            assert(es.drop_first()[i] == es[i + 1]);
        }
        lemma_value_for_absent(es.drop_first(), k);
    }
}

proof fn lemma_value_for_present(es: Seq<(Seq<char>, Seq<char>)>, i: int)
    requires
        0 <= i < es.len(),
        keys_distinct(es),
    ensures
        value_for(es, es[i].0) == Some(es[i].1),
    decreases es.len(),
{
    if i > 0 {
        assert(es.drop_first()[i - 1] == es[i]);
        assert(keys_distinct(es.drop_first())) by {
            assert forall|a: int, b: int| 0 <= a < b < es.drop_first().len() implies es.drop_first()[a].0
                != es.drop_first()[b].0 by {
                assert(es.drop_first()[a] == es[a + 1]);
                assert(es.drop_first()[b] == es[b + 1]);
            }
        }
        lemma_value_for_present(es.drop_first(), i - 1);
    }
}

proof fn lemma_value_for_some(es: Seq<(Seq<char>, Seq<char>)>, k: Seq<char>)
    requires
        value_for(es, k) is Some,
    ensures
        exists|i: int| 0 <= i < es.len() && es[i].0 == k,
    decreases es.len(),
{
    if es[0].0 != k {
        lemma_value_for_some(es.drop_first(), k);
        let i = choose|i: int| 0 <= i < es.drop_first().len() && es.drop_first()[i].0 == k;
        assert(es[i + 1] == es.drop_first()[i]);
    }
}

proof fn lemma_parse_shape(ls: Seq<Seq<Seq<char>>>, no_fill_https: bool)
    requires
        parse_tokens(ls, no_fill_https) is Some,
    ensures
        ({
            let es = parse_tokens(ls, no_fill_https).unwrap();
            &&& es.len() == ls.len()
            &&& keys_distinct(es)
            &&& forall|i: int| 0 <= i < ls.len() ==> #[trigger] ls[i].len() == 2
            &&& forall|i: int|
                0 <= i < ls.len() ==> #[trigger] es[i] == (
                    ls[i][0],
                    normalize(ls[i][1], no_fill_https),
                )
        }),
    decreases ls.len(),
{
    if ls.len() > 0 {
        let prev = ls.drop_last();
        lemma_parse_shape(prev, no_fill_https);
        let es = parse_tokens(prev, no_fill_https).unwrap();
        let t = ls.last();
        if exists|i: int| 0 <= i < es.len() && es[i].0 == t[0] {
            let i = choose|i: int| 0 <= i < es.len() && es[i].0 == t[0];
            lemma_value_for_present(es, i);
        }
        let all = parse_tokens(ls, no_fill_https).unwrap();
        assert forall|i: int| 0 <= i < ls.len() implies #[trigger] ls[i].len() == 2 by {
            if i < ls.len() - 1 {
                assert(prev[i] == ls[i]);
            }
        }
        assert forall|i: int| 0 <= i < ls.len() implies #[trigger] all[i] == (
            ls[i][0],
            normalize(ls[i][1], no_fill_https),
        ) by {
            if i < ls.len() - 1 {
                assert(prev[i] == ls[i]);
                assert(all[i] == es[i]);
            }
        }
        assert forall|a: int, b: int| 0 <= a < b < all.len() implies all[a].0 != all[b].0 by {
            assert(all[a] == es[a]);
            if b < ls.len() - 1 {
                assert(all[b] == es[b]);
            }
        }
    }
}

proof fn lemma_parse_total(ls: Seq<Seq<Seq<char>>>, no_fill_https: bool)
    requires
        forall|i: int| 0 <= i < ls.len() ==> #[trigger] ls[i].len() == 2,
        forall|i: int, j: int| 0 <= i < j < ls.len() ==> ls[i][0] != ls[j][0],
    ensures
        parse_tokens(ls, no_fill_https) is Some,
    decreases ls.len(),
{
    if ls.len() > 0 {
        let prev = ls.drop_last();
        assert forall|i: int| 0 <= i < prev.len() implies #[trigger] prev[i].len() == 2 by {
            assert(prev[i] == ls[i]);
        }
        lemma_parse_total(prev, no_fill_https);
        lemma_parse_shape(prev, no_fill_https);
        let es = parse_tokens(prev, no_fill_https).unwrap();
        assert forall|i: int| 0 <= i < es.len() implies es[i].0 != ls.last()[0] by {
            assert(prev[i] == ls[i]);
            assert(es[i] == (prev[i][0], normalize(prev[i][1], no_fill_https)));
        }
        lemma_value_for_absent(es, ls.last()[0]);
    }
}

proof fn lemma_parse_rejects(ls: Seq<Seq<Seq<char>>>, no_fill_https: bool)
    requires
        (exists|i: int| 0 <= i < ls.len() && #[trigger] ls[i].len() != 2) || (exists|i: int, j: int|
            0 <= i < j < ls.len() && ls[i][0] == ls[j][0]),
    ensures
        parse_tokens(ls, no_fill_https) is None,
    decreases ls.len(),
{
    let prev = ls.drop_last();
    let last = ls.len() - 1;
    if parse_tokens(prev, no_fill_https) is Some {
        lemma_parse_shape(prev, no_fill_https);
        let es = parse_tokens(prev, no_fill_https).unwrap();
        if exists|i: int| 0 <= i < ls.len() && #[trigger] ls[i].len() != 2 {
            let i = choose|i: int| 0 <= i < ls.len() && #[trigger] ls[i].len() != 2;
            if i < last {
                assert(prev[i] == ls[i]);
                assert(prev[i].len() == 2);
            }
        } else {
            let (i, j) = choose|i: int, j: int| 0 <= i < j < ls.len() && ls[i][0] == ls[j][0];
            assert(prev[i] == ls[i]);
            if j < last {
                assert(prev[j] == ls[j]);
                assert(es[i].0 == es[j].0);
            } else {
                assert(ls[j] == ls.last());
                assert(es[i] == (prev[i][0], normalize(prev[i][1], no_fill_https)));
                assert(es[i].0 == ls.last()[0]);
                lemma_value_for_present(es, i);
            }
        }
    }
}

/// A text whose every non-empty line holds exactly two tokens, with no key
/// twice, is read in full: one entry per line, its key the line's first
/// token and its URL the normalized second token.
pub proof fn law_parse_total(text: Seq<char>, no_fill_https: bool)
    requires
        forall|i: int| 0 <= i < line_tokens(text).len() ==> #[trigger] line_tokens(text)[i].len() == 2,
        forall|i: int, j: int|
            0 <= i < j < line_tokens(text).len() ==> line_tokens(text)[i][0] != line_tokens(text)[j][0],
    ensures
        parse_config(text, no_fill_https) is Some,
        parse_config(text, no_fill_https).unwrap().len() == config_lines(text).len(),
        keys_distinct(parse_config(text, no_fill_https).unwrap()),
        forall|i: int|
            0 <= i < config_lines(text).len() ==> #[trigger] parse_config(text, no_fill_https).unwrap()[i]
                == (line_tokens(text)[i][0], normalize(line_tokens(text)[i][1], no_fill_https)),
{
    lemma_parse_total(line_tokens(text), no_fill_https);
    lemma_parse_shape(line_tokens(text), no_fill_https);
}

/// A text with a non-empty line of zero, one, or three or more tokens, or
/// with a key on two lines, is rejected as a whole.
pub proof fn law_parse_rejects(text: Seq<char>, no_fill_https: bool)
    requires
        (exists|i: int| 0 <= i < line_tokens(text).len() && #[trigger] line_tokens(text)[i].len() != 2)
            || (exists|i: int, j: int|
            0 <= i < j < line_tokens(text).len() && line_tokens(text)[i][0] == line_tokens(text)[j][0]),
    ensures
        parse_config(text, no_fill_https) is None,
{
    lemma_parse_rejects(line_tokens(text), no_fill_https);
}

/// A value without a scheme is stored with `https://` put in front of it; a
/// value that starts with `http://` or `https://` is stored unchanged.
pub proof fn law_stored_url(text: Seq<char>)
    requires
        parse_config(text, false) is Some,
    ensures
        forall|i: int|
            0 <= i < config_lines(text).len() ==> {
                let v = #[trigger] line_tokens(text)[i][1];
                let stored = parse_config(text, false).unwrap()[i].1;
                &&& !has_scheme(v) ==> stored == https_scheme() + v
                &&& has_scheme(v) ==> stored == v
            },
{
    lemma_parse_shape(line_tokens(text), false);
}

/// In a table read from text, the path `/` followed by a line's key finds
/// that line's stored URL, and a path whose key is on no line finds nothing.
pub proof fn law_lookup_parsed(text: Seq<char>, no_fill_https: bool, path: Seq<char>)
    requires
        parse_config(text, no_fill_https) is Some,
        path.len() > 0,
        path[0] == '/',
    ensures
        ({
            let es = parse_config(text, no_fill_https).unwrap();
            let k = path.drop_first();
            &&& forall|i: int| 0 <= i < es.len() && #[trigger] es[i].0 == k ==> lookup_path(path, es) == Some(es[i].1)
            &&& (forall|i: int| 0 <= i < es.len() ==> #[trigger] es[i].0 != k) ==> lookup_path(path, es) is None
        }),
{
    let es = parse_config(text, no_fill_https).unwrap();
    lemma_parse_shape(line_tokens(text), no_fill_https);
    let k = path.drop_first();
    assert forall|i: int| 0 <= i < es.len() && #[trigger] es[i].0 == k implies lookup_path(path, es) == Some(es[i].1) by {
        lemma_value_for_present(es, i);
    }
    if forall|i: int| 0 <= i < es.len() ==> #[trigger] es[i].0 != k {
        lemma_value_for_absent(es, k);
    }
}

/// For texts read line by line at `\n` only (as `init` reads them): a text
/// whose every non-empty line holds exactly two whitespace-separated tokens,
/// with no key twice, is read in full, one entry per line.
pub proof fn law_runs_parse_total(text: Seq<char>)
    requires
        forall|i: int|
            0 <= i < raw_line_tokens(text).len() ==> #[trigger] raw_line_tokens(text)[i].len() == 2,
        forall|i: int, j: int|
            0 <= i < j < raw_line_tokens(text).len() ==> raw_line_tokens(text)[i][0]
                != raw_line_tokens(text)[j][0],
    ensures
        parse_config_runs(text) is Some,
        parse_config_runs(text).unwrap().len() == raw_lines(text).len(),
        keys_distinct(parse_config_runs(text).unwrap()),
        forall|i: int|
            0 <= i < raw_lines(text).len() ==> #[trigger] parse_config_runs(text).unwrap()[i] == (
                raw_line_tokens(text)[i][0],
                normalize(raw_line_tokens(text)[i][1], false),
            ),
{
    lemma_parse_total(raw_line_tokens(text), false);
    lemma_parse_shape(raw_line_tokens(text), false);
}

/// For texts read as `init` reads them: a non-empty line with zero, one, or
/// three or more tokens, or a key on two lines, rejects the whole text.
pub proof fn law_runs_parse_rejects(text: Seq<char>)
    requires
        (exists|i: int| 0 <= i < raw_line_tokens(text).len() && #[trigger] raw_line_tokens(text)[i].len() != 2)
            || (exists|i: int, j: int|
            0 <= i < j < raw_line_tokens(text).len() && raw_line_tokens(text)[i][0] == raw_line_tokens(
                text,
            )[j][0]),
    ensures
        parse_config_runs(text) is None,
{
    lemma_parse_rejects(raw_line_tokens(text), false);
}

} // verus!
