//! Character-level splitting of text into pieces and fields.

use vstd::prelude::*;

verus! {

/// Whether `c` has the Unicode `White_Space` property.
pub open spec fn is_ws(c: char) -> bool {
    ('\t' <= c && c <= '\r') || c == ' ' || c == '\u{85}' || c == '\u{a0}' || c == '\u{1680}'
        || ('\u{2000}' <= c && c <= '\u{200a}') || c == '\u{2028}' || c == '\u{2029}'
        || c == '\u{202f}' || c == '\u{205f}' || c == '\u{3000}'
}

/// The characters that separate pieces of text.
#[derive(Clone, Copy, Debug, PartialEq, Eq)]
pub enum Sep {
    Newline,
    Whitespace,
    Comma,
    Semicolon,
    Slash,
}

impl Sep {
    pub open spec fn spec_matches(self, c: char) -> bool {
        match self {
            Sep::Newline => c == '\n',
            Sep::Whitespace => is_ws(c),
            Sep::Comma => c == ',',
            Sep::Semicolon => c == ';',
            Sep::Slash => c == '/',
        }
    }

    pub fn matches(&self, c: char) -> (r: bool)
        ensures
            r == self.spec_matches(c),
    {
        match self {
            Sep::Newline => c == '\n',
            Sep::Whitespace => {
                ('\t' <= c && c <= '\r') || c == ' ' || c == '\u{85}' || c == '\u{a0}'
                    || c == '\u{1680}' || ('\u{2000}' <= c && c <= '\u{200a}') || c == '\u{2028}'
                    || c == '\u{2029}' || c == '\u{202f}' || c == '\u{205f}' || c == '\u{3000}'
            },
            Sep::Comma => c == ',',
            Sep::Semicolon => c == ';',
            Sep::Slash => c == '/',
        }
    }
}

/// The pieces of `s` between separator characters, empty ones included: a
/// text with `n` separators has `n + 1` pieces.
pub open spec fn pieces(s: Seq<char>, sep: Sep) -> Seq<Seq<char>>
    decreases s.len(),
{
    if s.len() == 0 {
        seq![Seq::<char>::empty()]
    } else {
        let p = pieces(s.drop_last(), sep);
        if sep.spec_matches(s.last()) {
            p.push(Seq::<char>::empty())
        } else {
            p.update(p.len() - 1, p.last().push(s.last()))
        }
    }
}

/// The non-empty members of `ps`, in order.
pub open spec fn nonempty(ps: Seq<Seq<char>>) -> Seq<Seq<char>>
    decreases ps.len(),
{
    if ps.len() == 0 {
        ps
    } else if ps.last().len() > 0 {
        nonempty(ps.drop_last()).push(ps.last())
    } else {
        nonempty(ps.drop_last())
    }
}

pub proof fn lemma_nonempty_concat(a: Seq<Seq<char>>, b: Seq<Seq<char>>)
    ensures
        nonempty(a + b) == nonempty(a) + nonempty(b),
    decreases b.len(),
{
    if b.len() == 0 {
        assert(a + b =~= a);
        assert(nonempty(a) + nonempty(b) =~= nonempty(a));
    } else {
        assert((a + b).drop_last() =~= a + b.drop_last());
        assert((a + b).last() == b.last());
        lemma_nonempty_concat(a, b.drop_last());
        if b.last().len() > 0 {
            assert(nonempty(a) + nonempty(b.drop_last()).push(b.last()) =~= (nonempty(a) + nonempty(
                b.drop_last(),
            )).push(b.last()));
        }
    }
}

pub proof fn lemma_nonempty_idem(a: Seq<Seq<char>>)
    ensures
        nonempty(nonempty(a)) == nonempty(a),
    decreases a.len(),
{
    if a.len() > 0 {
        lemma_nonempty_idem(a.drop_last());
        if a.last().len() > 0 {
            let n = nonempty(a.drop_last()).push(a.last());
            assert(n.drop_last() =~= nonempty(a.drop_last()));
        }
    }
}

/// The maximal runs of non-separator characters of `s`.
pub open spec fn fields(s: Seq<char>, sep: Sep) -> Seq<Seq<char>> {
    nonempty(pieces(s, sep))
}

pub proof fn lemma_pieces_nonempty(s: Seq<char>, sep: Sep)
    ensures
        pieces(s, sep).len() >= 1,
    decreases s.len(),
{
    if s.len() > 0 {
        lemma_pieces_nonempty(s.drop_last(), sep);
    }
}

/// The characters of `s`, in order.
pub fn chars_of(s: &str) -> (r: Vec<char>)
    ensures
        r@ == s@,
{
    broadcast use vstd::string::group_string_axioms;
    let mut r: Vec<char> = Vec::new();
    for c in it: s.chars()
        invariant
            it.seq() == s@,
            r@ == it.seq().take(it.index() as int),
    {
        r.push(c);
        assert(r@ =~= it.seq().take(it.index() + 1));
    }
    assert(r@ =~= s@);
    r
}

/// Relies on `String`'s `FromIterator<&char>`: the string of the given characters.
#[verifier::external_body]
pub(crate) fn string_of(cs: &Vec<char>) -> (r: String)
    ensures
        r@ == cs@,
{
    cs.iter().collect()
}

/// Splits `s` at every separator character.
pub fn split_pieces(s: &Vec<char>, sep: Sep) -> (r: Vec<Vec<char>>)
    ensures
        r.deep_view() == pieces(s@, sep),
{
    let mut out: Vec<Vec<char>> = Vec::new();
    let mut cur: Vec<char> = Vec::new();
    let n = s.len();
    let mut i: usize = 0;
    while i < n
        invariant
            n == s@.len(),
            i <= n,
            out.deep_view().push(cur@) == pieces(s@.take(i as int), sep),
        decreases n - i,
    {
        let c = s[i];
        assert(s@.take(i + 1).drop_last() =~= s@.take(i as int));
        if sep.matches(c) {
            let ghost before = out.deep_view();
            let ghost cv = cur@;
            assert(cur.deep_view() =~= cv);
            out.push(cur);
            cur = Vec::new();
            assert(out.deep_view() =~= before.push(cv));
        } else {
            cur.push(c);
        }
        i = i + 1;
        assert(out.deep_view().push(cur@) =~= pieces(s@.take(i as int), sep));
    }
    assert(s@.take(n as int) =~= s@);
    let ghost before = out.deep_view();
    let ghost cv = cur@;
    assert(cur.deep_view() =~= cv);
    out.push(cur);
    assert(out.deep_view() =~= before.push(cv));
    out
}

/// Keeps the non-empty members of `ps`.
pub fn drop_empty(ps: Vec<Vec<char>>) -> (r: Vec<Vec<char>>)
    ensures
        r.deep_view() == nonempty(ps.deep_view()),
{
    let mut out: Vec<Vec<char>> = Vec::new();
    let n = ps.len();
    let mut i: usize = 0;
    while i < n
        invariant
            n == ps.deep_view().len(),
            i <= n,
            out.deep_view() == nonempty(ps.deep_view().take(i as int)),
        decreases n - i,
    {
        let p = ps[i].clone();
        assert(ps.deep_view().take(i + 1).drop_last() =~= ps.deep_view().take(i as int));
        if p.len() > 0 {
            let ghost before = out.deep_view();
            out.push(p);
            assert(out.deep_view() =~= before.push(ps.deep_view()[i as int]));
        }
        i = i + 1;
    }
    assert(ps.deep_view().take(n as int) =~= ps.deep_view());
    out
}

/// The fields of `s`: its maximal runs of non-separator characters.
pub fn split_fields(s: &Vec<char>, sep: Sep) -> (r: Vec<Vec<char>>)
    ensures
        r.deep_view() == fields(s@, sep),
{
    drop_empty(split_pieces(s, sep))
}

/// The two items of `items`, when it holds exactly two.
pub fn split_kv(items: &Vec<String>) -> (r: Option<(String, String)>)
    ensures
        match r {
            Some((k, v)) => items@.len() == 2 && k@ == items@[0]@ && v@ == items@[1]@,
            None => items@.len() != 2,
        },
{
    if items.len() == 2 {
        Some((items[0].clone(), items[1].clone()))
    } else {
        None
    }
}

/// The strings of `parts`, in order.
pub fn strings_of(parts: &Vec<Vec<char>>) -> (r: Vec<String>)
    ensures
        r.deep_view() == parts.deep_view(),
{
    let mut out: Vec<String> = Vec::new();
    let n = parts.len();
    let mut i: usize = 0;
    while i < n
        invariant
            n == parts@.len(),
            i <= n,
            out.deep_view() =~= parts.deep_view().take(i as int),
        decreases n - i,
    {
        let s = string_of(&parts[i]);
        let ghost before = out.deep_view();
        out.push(s);
        assert(out.deep_view() =~= before.push(parts@[i as int]@));
        assert(parts@[i as int].deep_view() =~= parts@[i as int]@);
        assert(parts.deep_view().take(i + 1) =~= parts.deep_view().take(i as int).push(parts@[i as int]@));
        i = i + 1;
    }
    out
}

/// Keeps the non-empty members of `ps`.
pub fn drop_empty_strings(ps: Vec<String>) -> (r: Vec<String>)
    ensures
        r.deep_view() == nonempty(ps.deep_view()),
{
    let mut out: Vec<String> = Vec::new();
    let n = ps.len();
    let mut i: usize = 0;
    while i < n
        invariant
            n == ps.deep_view().len(),
            i <= n,
            out.deep_view() == nonempty(ps.deep_view().take(i as int)),
        decreases n - i,
    {
        let p = ps[i].clone();
        assert(ps.deep_view().take(i + 1).drop_last() =~= ps.deep_view().take(i as int));
        assert(ps.deep_view().take(i + 1).last() == p@);
        if !p.as_str().is_empty() {
            let ghost before = out.deep_view();
            out.push(p);
            assert(out.deep_view() =~= before.push(ps.deep_view()[i as int]));
        }
        i = i + 1;
    }
    assert(ps.deep_view().take(n as int) =~= ps.deep_view());
    out
}

} // verus!
