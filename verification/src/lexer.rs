//! The token grammar of the textual assembly syntax.
//!
//! Whitespace separates tokens and is skipped. The tokens are `,`, the
//! directives `.section`, `.text`, `.data` and `.global`, labels (a name
//! followed by `:`) and identifiers. A name starts with an ASCII letter or
//! `_`, continues with ASCII letters, digits, `_` and `.`, and is at least
//! two characters long. At each position the longest token wins. Input that
//! is not a sequence of tokens is rejected as a whole.
use vstd::prelude::*;

use crate::text::{chars_of, is_space, is_space_char};

verus! {

#[derive(Debug, PartialEq, Eq)]
pub enum Token<'src> {
    Comma,
    Section,
    Text,
    Data,
    Global,
    /// A label, without its `:`.
    Label(&'src str),
    Ident(&'src str),
}

/// A token as a mathematical value.
pub enum TokenView {
    Comma,
    Section,
    Text,
    Data,
    Global,
    Label(Seq<char>),
    Ident(Seq<char>),
}

pub open spec fn token_view(t: Token) -> TokenView {
    match t {
        Token::Comma => TokenView::Comma,
        Token::Section => TokenView::Section,
        Token::Text => TokenView::Text,
        Token::Data => TokenView::Data,
        Token::Global => TokenView::Global,
        Token::Label(s) => TokenView::Label(s@),
        Token::Ident(s) => TokenView::Ident(s@),
    }
}

pub open spec fn is_name_start(c: char) -> bool {
    ('a' <= c && c <= 'z') || ('A' <= c && c <= 'Z') || c == '_'
}

pub open spec fn is_name_char(c: char) -> bool {
    is_name_start(c) || ('0' <= c && c <= '9') || c == '.'
}

/// The end of the run of name characters starting at `i`.
pub open spec fn name_end(s: Seq<char>, i: int) -> int
    decreases s.len() - i,
{
    if i < 0 || i >= s.len() || !is_name_char(s[i]) {
        i
    } else {
        name_end(s, i + 1)
    }
}

pub open spec fn kw_section() -> Seq<char> {
    seq!['.', 's', 'e', 'c', 't', 'i', 'o', 'n']
}

pub open spec fn kw_text() -> Seq<char> {
    seq!['.', 't', 'e', 'x', 't']
}

pub open spec fn kw_data() -> Seq<char> {
    seq!['.', 'd', 'a', 't', 'a']
}

pub open spec fn kw_global() -> Seq<char> {
    seq!['.', 'g', 'l', 'o', 'b', 'a', 'l']
}

/// Whether `word` occurs in `s` at `i`.
pub open spec fn at(s: Seq<char>, i: int, word: Seq<char>) -> bool {
    i + word.len() <= s.len() && s.subrange(i, i + word.len()) == word
}

/// The tokens of `s` from position `i` on, or `None` where it does not
/// tokenize.
pub open spec fn lex_from(s: Seq<char>, i: int) -> Option<Seq<TokenView>>
    decreases s.len() - i,
{
    if i < 0 || i >= s.len() {
        Some(Seq::empty())
    } else if is_space(s[i]) {
        lex_from(s, i + 1)
    } else if s[i] == ',' {
        prepend(TokenView::Comma, lex_from(s, i + 1))
    } else if at(s, i, kw_section()) {
        prepend(TokenView::Section, lex_from(s, i + 8))
    } else if at(s, i, kw_text()) {
        prepend(TokenView::Text, lex_from(s, i + 5))
    } else if at(s, i, kw_data()) {
        prepend(TokenView::Data, lex_from(s, i + 5))
    } else if at(s, i, kw_global()) {
        prepend(TokenView::Global, lex_from(s, i + 7))
    } else if is_name_start(s[i]) {
        let j = name_end(s, i + 1);
        if j - i < 2 || j > s.len() {
            None
        } else if j < s.len() && s[j] == ':' {
            prepend(TokenView::Label(s.subrange(i, j)), lex_from(s, j + 1))
        } else {
            prepend(TokenView::Ident(s.subrange(i, j)), lex_from(s, j))
        }
    } else {
        None
    }
}

pub open spec fn prepend(t: TokenView, rest: Option<Seq<TokenView>>) -> Option<Seq<TokenView>> {
    match rest {
        Some(r) => Some(seq![t] + r),
        None => None,
    }
}

/// `done` followed by what `rest` gives.
pub open spec fn follow(done: Seq<TokenView>, rest: Option<Seq<TokenView>>) -> Option<Seq<TokenView>> {
    match rest {
        Some(r) => Some(done + r),
        None => None,
    }
}

pub open spec fn spec_lex(s: Seq<char>) -> Option<Seq<TokenView>> {
    lex_from(s, 0)
}

proof fn lemma_name_end(s: Seq<char>, i: int)
    requires
        0 <= i <= s.len(),
    ensures
        i <= name_end(s, i) <= s.len(),
        forall|k: int| i <= k < name_end(s, i) ==> is_name_char(#[trigger] s[k]),
        name_end(s, i) < s.len() ==> !is_name_char(s[name_end(s, i)]),
    decreases s.len() - i,
{
    if i < s.len() && is_name_char(s[i]) {
        lemma_name_end(s, i + 1);
    }
}

/// Whether `c` is an ASCII letter, either case.
pub open spec fn ascii_letter(c: char) -> bool {
    ('a' <= c && c <= 'z') || ('A' <= c && c <= 'Z')
}

/// Whether `s` is a name: an ASCII letter (either case) or `_`, then ASCII
/// letters, digits, `_` and `.`, two characters at least.
pub open spec fn is_name(s: Seq<char>) -> bool {
    &&& s.len() >= 2
    &&& (ascii_letter(s[0]) || s[0] == '_')
    &&& forall|k: int| 0 <= k < s.len() ==> {
        let c = #[trigger] s[k];
        ascii_letter(c) || ('0' <= c && c <= '9') || c == '_' || c == '.'
    }
}

proof fn lemma_name_run(s: Seq<char>)
    requires
        is_name(s),
    ensures
        !is_space(s[0]),
        s[0] != ',',
        is_name_start(s[0]),
        !at(s, 0, kw_section()) && !at(s, 0, kw_text()) && !at(s, 0, kw_data()) && !at(s, 0, kw_global()),
        name_end(s, 1) == s.len(),
{
    lemma_name_end(s, 1);
    if name_end(s, 1) < s.len() {
        assert(is_name_char(s[name_end(s, 1)]));
    }
    if at(s, 0, kw_section()) {
        assert(s.subrange(0, 8)[0] == s[0]);
    }
    if at(s, 0, kw_text()) {
        assert(s.subrange(0, 5)[0] == s[0]);
    }
    if at(s, 0, kw_data()) {
        assert(s.subrange(0, 5)[0] == s[0]);
    }
    if at(s, 0, kw_global()) {
        assert(s.subrange(0, 7)[0] == s[0]);
    }
}

/// A name on its own is one identifier, whatever the case of its letters.
pub proof fn law_name_lexes_to_one_ident(s: Seq<char>)
    requires
        is_name(s),
    ensures
        spec_lex(s) == Some(seq![TokenView::Ident(s)]),
{
    lemma_name_run(s);
    assert(s.subrange(0, s.len() as int) =~= s);
    assert(lex_from(s, s.len() as int) == Some(Seq::<TokenView>::empty()));
    assert(lex_from(s, 0) == prepend(TokenView::Ident(s.subrange(0, s.len() as int)), lex_from(s, s.len() as int)));
    assert(seq![TokenView::Ident(s)] + Seq::<TokenView>::empty() =~= seq![TokenView::Ident(s)]);
}

/// A name followed by `:` is one label, whatever the case of its letters.
pub proof fn law_name_then_colon_lexes_to_one_label(s: Seq<char>)
    requires
        is_name(s),
    ensures
        spec_lex(s.push(':')) == Some(seq![TokenView::Label(s)]),
{
    let t = s.push(':');
    lemma_name_end(t, 1);
    assert forall|k: int| 1 <= k < s.len() implies is_name_char(#[trigger] t[k]) by {
        assert(t[k] == s[k]);
    }
    lemma_name_end_run(t, 1, s.len() as int);
    assert(t[0] == s[0]);
    if at(t, 0, kw_section()) {
        assert(t.subrange(0, 8)[0] == t[0]);
    }
    if at(t, 0, kw_text()) {
        assert(t.subrange(0, 5)[0] == t[0]);
    }
    if at(t, 0, kw_data()) {
        assert(t.subrange(0, 5)[0] == t[0]);
    }
    if at(t, 0, kw_global()) {
        assert(t.subrange(0, 7)[0] == t[0]);
    }
    assert(t.subrange(0, s.len() as int) =~= s);
    assert(!is_space(t[0]) && t[0] != ',' && is_name_start(t[0]));
    assert(t[s.len() as int] == ':');
    assert(lex_from(t, t.len() as int) == Some(Seq::<TokenView>::empty()));
    assert(lex_from(t, 0) == prepend(TokenView::Label(t.subrange(0, s.len() as int)), lex_from(t, s.len() as int + 1)));
    assert(seq![TokenView::Label(s)] + Seq::<TokenView>::empty() =~= seq![TokenView::Label(s)]);
}

proof fn lemma_name_end_run(s: Seq<char>, i: int, j: int)
    requires
        0 <= i <= j < s.len(),
        forall|k: int| i <= k < j ==> is_name_char(#[trigger] s[k]),
        !is_name_char(s[j]),
    ensures
        name_end(s, i) == j,
    decreases j - i,
{
    if i < j {
        lemma_name_end_run(s, i + 1, j);
    }
}

proof fn lemma_at_shift(p: Seq<char>, s: Seq<char>, i: int, w: Seq<char>)
    requires
        0 <= i,
    ensures
        at(p + s, p.len() + i, w) == at(s, i, w),
{
    if i + w.len() <= s.len() {
        assert((p + s).subrange(p.len() + i, p.len() + i + w.len()) =~= s.subrange(i, i + w.len()));
    }
}

proof fn lemma_name_end_shift(p: Seq<char>, s: Seq<char>, i: int)
    requires
        0 <= i <= s.len(),
    ensures
        name_end(p + s, p.len() + i) == p.len() + name_end(s, i),
    decreases s.len() - i,
{
    if i < s.len() {
        assert((p + s)[p.len() + i] == s[i]);
        if is_name_char(s[i]) {
            lemma_name_end_shift(p, s, i + 1);
        }
    }
}

/// What follows a prefix lexes as it does on its own: tokens never look
/// back.
proof fn lemma_lex_shift(p: Seq<char>, s: Seq<char>, i: int)
    requires
        0 <= i,
    ensures
        lex_from(p + s, p.len() + i) == lex_from(s, i),
    decreases s.len() - i,
{
    let t = p + s;
    let k = p.len() + i;
    if i < s.len() {
        assert(t[k] == s[i]);
        lemma_at_shift(p, s, i, kw_section());
        lemma_at_shift(p, s, i, kw_text());
        lemma_at_shift(p, s, i, kw_data());
        lemma_at_shift(p, s, i, kw_global());
        lemma_lex_shift(p, s, i + 1);
        if i + 8 <= s.len() {
            lemma_lex_shift(p, s, i + 8);
        }
        if i + 5 <= s.len() {
            lemma_lex_shift(p, s, i + 5);
        }
        if i + 7 <= s.len() {
            lemma_lex_shift(p, s, i + 7);
        }
        if !is_space(s[i]) && s[i] != ',' && !at(s, i, kw_section()) && !at(s, i, kw_text()) && !at(s, i, kw_data())
            && !at(s, i, kw_global()) && is_name_start(s[i]) {
            lemma_name_end(s, i + 1);
            lemma_name_end_shift(p, s, i + 1);
            let j = name_end(s, i + 1);
            assert(t.subrange(k, p.len() + j) =~= s.subrange(i, j));
            if j < s.len() {
                assert(t[p.len() + j] == s[j]);
            }
            if j < s.len() {
                lemma_lex_shift(p, s, j + 1);
            }
            if j > i {
                lemma_lex_shift(p, s, j);
            }
        }
    }
}

/// Whitespace before the text is skipped.
pub proof fn law_leading_space_is_skipped(ws: Seq<char>, s: Seq<char>)
    requires
        forall|k: int| 0 <= k < ws.len() ==> is_space(#[trigger] ws[k]),
    ensures
        spec_lex(ws + s) == spec_lex(s),
    decreases ws.len(),
{
    if ws.len() > 0 {
        let rest = ws.drop_first();
        assert forall|k: int| 0 <= k < rest.len() implies is_space(#[trigger] rest[k]) by {
            assert(rest[k] == ws[k + 1]);
        }
        law_leading_space_is_skipped(rest, s);
        assert((ws + s)[0] == ws[0]);
        lemma_lex_shift(seq![ws[0]], rest + s, 0);
        assert(seq![ws[0]] + (rest + s) =~= ws + s);
    }
}

/// A comma is one token, and the rest lexes on its own.
pub proof fn law_comma_lexes_alone(s: Seq<char>)
    ensures
        spec_lex(seq![','] + s) == prepend(TokenView::Comma, spec_lex(s)),
{
    let t = seq![','] + s;
    assert(t[0] == ',');
    assert(!is_space(','));
    lemma_lex_shift(seq![','], s, 0);
}

/// A name followed by whitespace or a comma is one identifier, whatever the
/// case of its letters; the rest lexes on its own.
pub proof fn law_name_then_separator(n: Seq<char>, sep: char, s: Seq<char>)
    requires
        is_name(n),
        is_space(sep) || sep == ',',
    ensures
        spec_lex(n + (seq![sep] + s)) == prepend(TokenView::Ident(n), spec_lex(seq![sep] + s)),
{
    let rest = seq![sep] + s;
    let t = n + rest;
    lemma_name_run(n);
    assert(t[0] == n[0]);
    if at(t, 0, kw_section()) {
        assert(t.subrange(0, 8)[0] == t[0]);
    }
    if at(t, 0, kw_text()) {
        assert(t.subrange(0, 5)[0] == t[0]);
    }
    if at(t, 0, kw_data()) {
        assert(t.subrange(0, 5)[0] == t[0]);
    }
    if at(t, 0, kw_global()) {
        assert(t.subrange(0, 7)[0] == t[0]);
    }
    lemma_name_end(t, 1);
    assert forall|k: int| 1 <= k < n.len() implies is_name_char(#[trigger] t[k]) by {
        assert(t[k] == n[k]);
    }
    assert(t[n.len() as int] == sep);
    assert(!is_name_char(sep));
    lemma_name_end_run(t, 1, n.len() as int);
    assert(t.subrange(0, n.len() as int) =~= n);
    lemma_lex_shift(n, rest, 0);
}

fn is_name_start_char(c: char) -> (r: bool)
    ensures
        r == is_name_start(c),
{
    ('a' <= c && c <= 'z') || ('A' <= c && c <= 'Z') || c == '_'
}

fn is_name_char_exec(c: char) -> (r: bool)
    ensures
        r == is_name_char(c),
{
    is_name_start_char(c) || ('0' <= c && c <= '9') || c == '.'
}

/// Whether `word` occurs in `chars` at `i`.
fn at_exec(chars: &Vec<char>, i: usize, word: &str) -> (r: bool)
    requires
        i <= chars@.len(),
    ensures
        r == at(chars@, i as int, word@),
{
    let n = word.unicode_len();
    if n > chars.len() - i {
        return false;
    }
    let mut k: usize = 0;
    while k < n
        invariant
            k <= n,
            n == word@.len(),
            i <= chars@.len(),
            i + n <= chars.len(),
            forall|j: int| 0 <= j < k ==> chars@[i + j] == word@[j],
        decreases n - k,
    {
        if chars[i + k] != word.get_char(k) {
            assert(chars@.subrange(i as int, i + n)[k as int] != word@[k as int]);
            return false;
        }
        k = k + 1;
    }
    assert(chars@.subrange(i as int, i + n) =~= word@);
    true
}

/// Split `source` into tokens, or `Err(())` where some part of it is not a
/// token.
pub fn lex<'src>(source: &'src str) -> (r: Result<Vec<Token<'src>>, ()>)
    ensures
        match spec_lex(source@) {
            Some(toks) => r matches Ok(v) && v@.map_values(|t: Token<'src>| token_view(t)) == toks,
            None => r is Err,
        },
{
    let chars = chars_of(source);
    let n = chars.len();
    let mut tokens: Vec<Token<'src>> = Vec::new();
    let mut i: usize = 0;
    proof {
        assert(tokens@.map_values(|t: Token<'src>| token_view(t)) =~= Seq::<TokenView>::empty());
        assert(follow(Seq::<TokenView>::empty(), lex_from(source@, 0)) =~~= lex_from(source@, 0));
    }
    while i < n
        invariant
            i <= n,
            n == chars@.len(),
            chars@ == source@,
            follow(tokens@.map_values(|t: Token<'src>| token_view(t)), lex_from(source@, i as int)) == spec_lex(source@),
        decreases n - i,
    {
        let ghost s = source@;
        let ghost done = tokens@.map_values(|t: Token<'src>| token_view(t));
        proof {
            reveal_strlit(".section");
            reveal_strlit(".text");
            reveal_strlit(".data");
            reveal_strlit(".global");
            assert(".section"@ =~= kw_section());
            assert(".text"@ =~= kw_text());
            assert(".data"@ =~= kw_data());
            assert(".global"@ =~= kw_global());
        }
        let c = chars[i];
        if is_space_char(c) {
            assert(lex_from(s, i as int) == lex_from(s, i + 1));
            i = i + 1;
            continue;
        }
        let tok: Token<'src>;
        let next: usize;
        if c == ',' {
            tok = Token::Comma;
            next = i + 1;
        } else if at_exec(&chars, i, ".section") {
            tok = Token::Section;
            next = i + 8;
        } else if at_exec(&chars, i, ".text") {
            tok = Token::Text;
            next = i + 5;
        } else if at_exec(&chars, i, ".data") {
            tok = Token::Data;
            next = i + 5;
        } else if at_exec(&chars, i, ".global") {
            tok = Token::Global;
            next = i + 7;
        } else if is_name_start_char(c) {
            let mut j: usize = i + 1;
            proof {
                lemma_name_end(s, i + 1);
            }
            while j < n && is_name_char_exec(chars[j])
                invariant
                    i < j <= n,
                    n == chars@.len(),
                    chars@ == source@,
                    name_end(source@, j as int) == name_end(source@, i + 1),
                decreases n - j,
            {
                j = j + 1;
            }
            assert(name_end(s, j as int) == j);
            if j - i < 2 {
                assert(lex_from(s, i as int) is None);
                return Err(());
            }
            if j < n && chars[j] == ':' {
                tok = Token::Label(source.substring_char(i, j));
                next = j + 1;
            } else {
                tok = Token::Ident(source.substring_char(i, j));
                next = j;
            }
        } else {
            assert(lex_from(s, i as int) is None);
            return Err(());
        }
        assert(lex_from(s, i as int) == prepend(token_view(tok), lex_from(s, next as int)));
        let ghost tv = token_view(tok);
        tokens.push(tok);
        proof {
            assert(tokens@.map_values(|t: Token<'src>| token_view(t)) =~= done.push(tv));
            match lex_from(s, next as int) {
                Some(rest) => {
                    assert(done.push(tv) + rest =~= done + (seq![tv] + rest));
                },
                None => {},
            }
        }
        i = next;
    }
    proof {
        assert(tokens@.map_values(|t: Token<'src>| token_view(t)) + Seq::<TokenView>::empty() =~= tokens@.map_values(|t: Token<'src>| token_view(t)));
    }
    Ok(tokens)
}

} // verus!
