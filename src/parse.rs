//! Readers for the input formats: arity lists, equation systems, moves,
//! μ-calculus formulas, Aldebaran transition systems and PGSolver games.
use vstd::prelude::*;
use crate::basis::{is_ws, string_of, whitespace};
use crate::fixpoint::{EqV, Exp, ExpFixEq, FixEq, FixType, exps_view, lemma_args_view, system_view};
use crate::formula::{Formula, LogicFormula, lemma_views_conj, views};
use crate::game::Player;
use crate::moves::{index_of, lemma_index_of, lemma_index_of_first, lemma_index_of_none, MoveV, SymbolicExistsMove, SymbolicExistsMoves, built_from, moves_view, strs_view};
use crate::mucalc::{Act, Lts, MuCalc};
use crate::pg::{Node, PG};

verus! {

broadcast use vstd::string::axiom_spec_iter, vstd::string::next_postcondition;

/// Why a text could not be read.
#[derive(Debug, PartialEq, Eq)]
pub struct ParserError {
    pub details: String,
}

impl ParserError {
    pub fn new(details: String) -> (r: ParserError)
        ensures
            r.details@ == details@,
    {
        ParserError { details }
    }
}

/// A token: a punctuation character, a word (a maximal run of other
/// characters that are not white space), or a quoted string.
#[derive(Debug, PartialEq, Eq)]
pub enum Tok {
    Punct(char),
    Word(String),
    Quoted(String),
}

/// The punctuation characters.
pub open spec fn is_punct(c: char) -> bool {
    c == '(' || c == ')' || c == '[' || c == ']' || c == ',' || c == ';' || c == '.' || c == '='
        || c == '<' || c == '>' || c == '!' || c == '&' || c == '|'
}

fn punct(c: char) -> (r: bool)
    ensures
        r == is_punct(c),
{
    c == '(' || c == ')' || c == '[' || c == ']' || c == ',' || c == ';' || c == '.' || c == '='
        || c == '<' || c == '>' || c == '!' || c == '&' || c == '|'
}

fn err(msg: &str) -> (r: ParserError) {
    ParserError { details: msg.to_owned() }
}

/// The characters of `s`, in order.
pub fn chars_of(s: &str) -> (r: Vec<char>)
    ensures
        r@ == s@,
{
    let ghost all = s@;
    let mut it = s.chars();
    let mut out: Vec<char> = Vec::new();
    loop
        invariant
            out@.len() <= all.len(),
            vstd::std_specs::iter::IteratorSpec::remaining(&it) == all.subrange(out@.len() as int, all.len() as int),
            out@ == all.take(out@.len() as int),
        ensures
            out@ == all,
        decreases all.len() - out@.len(),
    {
        match it.next() {
            Some(c) => {
                proof { assert(c == all[out@.len() as int]); }
                out.push(c);
                proof { assert(out@ =~= all.take(out@.len() as int)); }
            },
            None => {
                proof { assert(out@ =~= all); }
                break;
            },
        }
    }
    out
}

/// Model of a token.
pub enum TokV {
    Punct(char),
    Word(Seq<char>),
    Quoted(Seq<char>),
}

pub open spec fn tok_view(t: Tok) -> TokV {
    match t {
        Tok::Punct(c) => TokV::Punct(c),
        Tok::Word(w) => TokV::Word(w@),
        Tok::Quoted(q) => TokV::Quoted(q@),
    }
}

pub open spec fn toks_view(s: Seq<Tok>) -> Seq<TokV> {
    s.map_values(|t: Tok| tok_view(t))
}

/// The end of the word starting at `j`: the first index from `j` holding
/// white space, punctuation or a quote, or the length.
pub open spec fn scan_word(s: Seq<char>, j: int) -> int
    decreases s.len() - j,
{
    if 0 <= j < s.len() && !is_ws(s[j]) && !is_punct(s[j]) && s[j] != '"' {
        scan_word(s, j + 1)
    } else {
        j
    }
}

/// The first index from `j` holding a quote, or the length.
pub open spec fn scan_quote(s: Seq<char>, j: int) -> int
    decreases s.len() - j,
{
    if 0 <= j < s.len() && s[j] != '"' {
        scan_quote(s, j + 1)
    } else {
        j
    }
}

pub open spec fn prepend(t: TokV, o: Option<Seq<TokV>>) -> Option<Seq<TokV>> {
    match o {
        Some(ts) => Some(seq![t] + ts),
        None => None,
    }
}

/// The tokens of `s` from index `i`: white space separates; each
/// punctuation character is a token; a quoted string (without its quotes)
/// is a token; a maximal run of other characters is a word. `None` for an
/// unterminated quote.
pub open spec fn lex(s: Seq<char>, i: int) -> Option<Seq<TokV>>
    decreases s.len() - i,
{
    if i < 0 || i >= s.len() {
        Some(Seq::empty())
    } else if is_ws(s[i]) {
        lex(s, i + 1)
    } else if is_punct(s[i]) {
        prepend(TokV::Punct(s[i]), lex(s, i + 1))
    } else if s[i] == '"' {
        let j = scan_quote(s, i + 1);
        if j >= s.len() || j <= i {
            None
        } else {
            prepend(TokV::Quoted(s.subrange(i + 1, j)), lex(s, j + 1))
        }
    } else {
        let j = scan_word(s, i);
        if j <= i || j > s.len() {
            None
        } else {
            prepend(TokV::Word(s.subrange(i, j)), lex(s, j))
        }
    }
}

pub open spec fn glue(p: Seq<TokV>, o: Option<Seq<TokV>>) -> Option<Seq<TokV>> {
    match o {
        Some(ts) => Some(p + ts),
        None => None,
    }
}

proof fn lemma_scan_word(s: Seq<char>, i: int, j: int)
    requires
        0 <= i <= j <= s.len(),
        forall|t: int| i <= t < j ==> !is_ws(#[trigger] s[t]) && !is_punct(s[t]) && s[t] != '"',
    ensures
        scan_word(s, i) == scan_word(s, j),
    decreases j - i,
{
    if i < j {
        lemma_scan_word(s, i + 1, j);
    }
}

proof fn lemma_scan_word_bound(s: Seq<char>, j: int)
    requires
        0 <= j <= s.len(),
    ensures
        j <= scan_word(s, j) <= s.len(),
    decreases s.len() - j,
{
    if j < s.len() {
        lemma_scan_word_bound(s, j + 1);
    }
}

proof fn lemma_scan_quote(s: Seq<char>, i: int, j: int)
    requires
        0 <= i <= j <= s.len(),
        forall|t: int| i <= t < j ==> #[trigger] s[t] != '"',
    ensures
        scan_quote(s, i) == scan_quote(s, j),
    decreases j - i,
{
    if i < j {
        lemma_scan_quote(s, i + 1, j);
    }
}

/// Splits `s` into tokens (see [`lex`]).
pub fn tokenize(s: &str) -> (r: Result<Vec<Tok>, ParserError>)
    ensures
        r is Ok <==> lex(s@, 0) is Some,
        r is Ok ==> toks_view(r->Ok_0@) == lex(s@, 0)->0,
{
    let cs = chars_of(s);
    let ghost sv = cs@;
    let n = cs.len();
    let mut toks: Vec<Tok> = Vec::new();
    let mut i: usize = 0;
    proof { assert(toks_view(toks@) =~= Seq::<TokV>::empty()); assert(glue(Seq::empty(), lex(sv, 0)) =~= lex(sv, 0)) by {
        match lex(sv, 0) { Some(t) => { assert(Seq::<TokV>::empty() + t =~= t); }, None => {} }
    } }
    while i < n
        invariant
            i <= n == cs@.len(),
            sv == cs@,
            sv == s@,
            lex(sv, 0) == glue(toks_view(toks@), lex(sv, i as int)),
        decreases n - i,
    {
        let c = cs[i];
        let ghost tb = toks_view(toks@);
        if whitespace(c) {
            i = i + 1;
        } else if punct(c) {
            toks.push(Tok::Punct(c));
            proof {
                assert(toks_view(toks@) =~= tb.push(TokV::Punct(c)));
                match lex(sv, i + 1) {
                    Some(t) => { assert(tb + (seq![TokV::Punct(c)] + t) =~= tb.push(TokV::Punct(c)) + t); },
                    None => {},
                }
            }
            i = i + 1;
        } else if c == '"' {
            let mut j = i + 1;
            let mut w: Vec<char> = Vec::new();
            while j < n && cs[j] != '"'
                invariant
                    i < j <= n == cs@.len(),
                    sv == cs@,
                    w@ == sv.subrange(i + 1, j as int),
                    forall|t: int| i + 1 <= t < j ==> #[trigger] sv[t] != '"',
                decreases n - j,
            {
                w.push(cs[j]);
                j = j + 1;
                proof { assert(w@ =~= sv.subrange(i + 1, j as int)); }
            }
            proof { lemma_scan_quote(sv, i + 1, j as int); }
            if j >= n {
                return Err(err("unterminated quoted string"));
            }
            let q = string_of(&w);
            let ghost qv = q@;
            toks.push(Tok::Quoted(q));
            proof {
                assert(toks_view(toks@) =~= tb.push(TokV::Quoted(qv)));
                match lex(sv, j + 1) {
                    Some(t) => { assert(tb + (seq![TokV::Quoted(qv)] + t) =~= tb.push(TokV::Quoted(qv)) + t); },
                    None => {},
                }
            }
            i = j + 1;
        } else {
            let mut j = i;
            let mut w: Vec<char> = Vec::new();
            while j < n && !whitespace(cs[j]) && !punct(cs[j]) && cs[j] != '"'
                invariant
                    i <= j <= n == cs@.len(),
                    sv == cs@,
                    w@ == sv.subrange(i as int, j as int),
                    forall|t: int| i <= t < j ==> !is_ws(#[trigger] sv[t]) && !is_punct(sv[t]) && sv[t] != '"',
                decreases n - j,
            {
                w.push(cs[j]);
                j = j + 1;
                proof { assert(w@ =~= sv.subrange(i as int, j as int)); }
            }
            proof { lemma_scan_word(sv, i as int, j as int); lemma_scan_word_bound(sv, j as int); }
            if j == i {
                return Err(err("unexpected character"));
            }
            let q = string_of(&w);
            let ghost qv = q@;
            toks.push(Tok::Word(q));
            proof {
                assert(toks_view(toks@) =~= tb.push(TokV::Word(qv)));
                match lex(sv, j as int) {
                    Some(t) => { assert(tb + (seq![TokV::Word(qv)] + t) =~= tb.push(TokV::Word(qv)) + t); },
                    None => {},
                }
            }
            i = j;
        }
    }
    proof {
        assert(toks_view(toks@) + Seq::<TokV>::empty() =~= toks_view(toks@));
    }
    Ok(toks)
}

/// Whether token `pos` is the punctuation `c`.
pub open spec fn p_at(tv: Seq<TokV>, pos: int, c: char) -> bool {
    0 <= pos < tv.len() && tv[pos] == TokV::Punct(c)
}

/// Whether token `pos` is the word `w`.
pub open spec fn w_at(tv: Seq<TokV>, pos: int, w: Seq<char>) -> bool {
    0 <= pos < tv.len() && tv[pos] == TokV::Word(w)
}

/// The word at token `pos`, if it is one.
pub open spec fn word_at(tv: Seq<TokV>, pos: int) -> Option<Seq<char>> {
    if 0 <= pos < tv.len() && tv[pos] is Word {
        Some(tv[pos]->Word_0)
    } else {
        None
    }
}

/// Whether token `pos` is the punctuation `c`.
fn is_p(toks: &Vec<Tok>, pos: usize, c: char) -> (r: bool)
    requires
        toks@.len() <= usize::MAX - 8,
    ensures
        r ==> pos < toks@.len(),
        r == p_at(toks_view(toks@), pos as int, c),
{
    pos < toks.len() && match &toks[pos] {
        Tok::Punct(d) => *d == c,
        _ => false,
    }
}

/// Whether token `pos` is the word `w`.
fn is_w(toks: &Vec<Tok>, pos: usize, w: &str) -> (r: bool)
    requires
        toks@.len() <= usize::MAX - 8,
    ensures
        r ==> pos < toks@.len(),
        r == w_at(toks_view(toks@), pos as int, w@),
{
    pos < toks.len() && match &toks[pos] {
        Tok::Word(x) => x.as_str().to_owned() == w.to_owned(),
        _ => false,
    }
}

/// Expects punctuation `c` at `pos`.
fn expect(toks: &Vec<Tok>, pos: usize, c: char) -> (r: Result<usize, ParserError>)
    requires
        toks@.len() <= usize::MAX - 8,
    ensures
        r is Ok ==> r->Ok_0 == pos + 1 && pos < toks@.len(),
        r is Ok <==> p_at(toks_view(toks@), pos as int, c),
{
    if is_p(toks, pos, c) {
        Ok(pos + 1)
    } else {
        Err(err("unexpected token"))
    }
}

/// The word at `pos`.
fn word(toks: &Vec<Tok>, pos: usize) -> (r: Result<String, ParserError>)
    requires
        toks@.len() <= usize::MAX - 8,
    ensures
        r is Ok ==> pos < toks@.len() && toks@[pos as int] is Word && r->Ok_0@ == toks@[pos as int]->Word_0@,
        r is Ok <==> word_at(toks_view(toks@), pos as int) is Some,
        r is Ok ==> r->Ok_0@ == word_at(toks_view(toks@), pos as int)->0,
{
    if pos < toks.len() {
        match &toks[pos] {
            Tok::Word(x) => return Ok(x.as_str().to_owned()),
            _ => {},
        }
    }
    Err(err("expected a word"))
}

/// Whether `c` is a decimal digit.
pub open spec fn is_digit(c: char) -> bool {
    '0' <= c <= '9'
}

/// The value of the decimal digits `s`.
pub open spec fn digits_value(s: Seq<char>) -> nat
    decreases s.len(),
{
    if s.len() == 0 {
        0
    } else {
        digits_value(s.drop_last()) * 10 + ((s.last() as u32) - ('0' as u32)) as nat
    }
}

/// The decimal number spelt by `s`: `None` when `s` is empty, holds a
/// character that is not a digit, or spells a value above `u32::MAX`.
pub fn number(s: &String) -> (r: Option<u32>)
    ensures
        r is Some <==> s@.len() > 0 && (forall|j: int| 0 <= j < s@.len() ==> is_digit(#[trigger] s@[j]))
            && digits_value(s@) <= u32::MAX,
        r is Some ==> r->0 == digits_value(s@),
{
    let cs = chars_of(s.as_str());
    if cs.len() == 0 {
        return None;
    }
    let mut v: u32 = 0;
    let mut j: usize = 0;
    while j < cs.len()
        invariant
            j <= cs@.len() == s@.len(),
            cs@ == s@,
            forall|t: int| 0 <= t < j ==> is_digit(#[trigger] cs@[t]),
            v == digits_value(cs@.take(j as int)),
        decreases cs@.len() - j,
    {
        let c = cs[j];
        proof {
            assert(cs@.take(j + 1).drop_last() =~= cs@.take(j as int));
            assert(cs@.take(j + 1).last() == c);
        }
        if c < '0' || c > '9' {
            return None;
        }
        let d = (c as u32) - ('0' as u32);
        v = match v.checked_mul(10) {
            Some(x) => match x.checked_add(d) {
                Some(y) => y,
                None => {
                    proof { lemma_digits_prefix(cs@, j + 1); }
                    return None;
                },
            },
            None => {
                proof { lemma_digits_prefix(cs@, j + 1); }
                return None;
            },
        };
        j = j + 1;
    }
    proof { assert(cs@.take(cs@.len() as int) =~= cs@); }
    Some(v)
}

/// A longer run of digits has a value at least that of its prefix.
proof fn lemma_digits_prefix(s: Seq<char>, j: int)
    requires
        0 <= j <= s.len(),
        forall|t: int| 0 <= t < s.len() ==> is_digit(#[trigger] s[t]) || t >= j,
    ensures
        digits_value(s.take(j)) <= digits_value(s) || exists|t: int| j <= t < s.len() && !is_digit(s[t]),
    decreases s.len() - j,
{
    if j < s.len() {
        if forall|t: int| j <= t < s.len() ==> is_digit(#[trigger] s[t]) {
            lemma_digits_prefix(s, j + 1);
            assert(s.take(j + 1).drop_last() =~= s.take(j));
        }
    } else {
        assert(s.take(j) =~= s);
    }
}

/// The number a word spells, if it is one that fits in a `u32`.
pub open spec fn num_spec(w: Seq<char>) -> Option<u32> {
    if w.len() > 0 && (forall|j: int| 0 <= j < w.len() ==> is_digit(#[trigger] w[j])) && digits_value(w) <= u32::MAX {
        Some(digits_value(w) as u32)
    } else {
        None
    }
}

/// The number at token `pos`.
pub open spec fn num_at(tv: Seq<TokV>, pos: int) -> Option<u32> {
    match word_at(tv, pos) {
        Some(w) => num_spec(w),
        None => None,
    }
}

fn number_at(toks: &Vec<Tok>, pos: usize) -> (r: Result<u32, ParserError>)
    requires
        toks@.len() <= usize::MAX - 8,
    ensures
        r is Ok ==> pos < toks@.len(),
        r is Ok <==> num_at(toks_view(toks@), pos as int) is Some,
        r is Ok ==> r->Ok_0 == num_at(toks_view(toks@), pos as int)->0,
{
    let w = word(toks, pos)?;
    match number(&w) {
        Some(v) => Ok(v),
        None => Err(err("expected a number")),
    }
}

/// The tokens of `src` when there are few enough to read.
pub open spec fn tokens_of(src: Seq<char>) -> Option<Seq<TokV>> {
    match lex(src, 0) {
        Some(tv) => if tv.len() > usize::MAX - 8 { None } else { Some(tv) },
        None => None,
    }
}

/// An arity list from token `pos` on: pairs `name number`, appended to
/// `acc`.
pub open spec fn arity_spec(tv: Seq<TokV>, pos: int, acc: Seq<(Seq<char>, usize)>) -> Option<Seq<(Seq<char>, usize)>>
    decreases tv.len() - pos,
{
    if pos < 0 || pos >= tv.len() {
        Some(acc)
    } else {
        match (word_at(tv, pos), num_at(tv, pos + 1)) {
            (Some(w), Some(v)) => arity_spec(tv, pos + 2, acc.push((w, v as usize))),
            _ => None,
        }
    }
}

/// The arity list a text denotes.
pub open spec fn arity_text(src: Seq<char>) -> Option<Seq<(Seq<char>, usize)>> {
    match tokens_of(src) {
        Some(tv) => arity_spec(tv, 0, Seq::empty()),
        None => None,
    }
}

pub open spec fn arity_view(a: Seq<(String, usize)>) -> Seq<(Seq<char>, usize)> {
    a.map_values(|x: (String, usize)| (x.0@, x.1))
}

/// Reads an arity list: pairs `name arity`.
pub fn parse_fun_arity(src: &str) -> (r: Result<Vec<(String, usize)>, ParserError>)
    ensures
        r is Ok <==> arity_text(src@) is Some,
        r is Ok ==> arity_view(r->Ok_0@) == arity_text(src@)->0,
{
    let toks = tokenize(src)?;
    if toks.len() > usize::MAX - 8 {
        return Err(err("input too long"));
    }
    let ghost tv = toks_view(toks@);
    let mut out: Vec<(String, usize)> = Vec::new();
    let mut pos: usize = 0;
    proof { assert(arity_view(out@) =~= Seq::<(Seq<char>, usize)>::empty()); }
    while pos < toks.len()
        invariant
            toks@.len() <= usize::MAX - 8,
            tv == toks_view(toks@),
            tokens_of(src@) == Some(tv),
            arity_spec(tv, 0, Seq::empty()) == arity_spec(tv, pos as int, arity_view(out@)),
        decreases toks@.len() - pos,
    {
        let name = word(&toks, pos)?;
        let a = number_at(&toks, pos + 1)?;
        let ghost ob = arity_view(out@);
        out.push((name, a as usize));
        proof { assert(arity_view(out@) =~= ob.push((name@, a as usize))); }
        pos = pos + 2;
    }
    Ok(out)
}

/// The arity listed first for `name`.
pub open spec fn arity_lookup(ar: Seq<(Seq<char>, usize)>, name: Seq<char>) -> Option<usize>
    decreases ar.len(),
{
    if ar.len() == 0 {
        None
    } else if ar[0].0 == name {
        Some(ar[0].1)
    } else {
        arity_lookup(ar.drop_first(), name)
    }
}

fn arity_of(arity: &Vec<(String, usize)>, name: &String) -> (r: Option<usize>)
    ensures
        r == arity_lookup(arity_view(arity@), name@),
{
    let ghost av = arity_view(arity@);
    let mut j: usize = 0;
    proof { assert(av.subrange(0, av.len() as int) =~= av); }
    while j < arity.len()
        invariant
            j <= arity@.len() == av.len(),
            av == arity_view(arity@),
            arity_lookup(av, name@) == arity_lookup(av.subrange(j as int, av.len() as int), name@),
        decreases arity@.len() - j,
    {
        proof {
            assert(av.subrange(j as int, av.len() as int)[0] == av[j as int]);
            assert(av.subrange(j as int, av.len() as int).drop_first() =~= av.subrange(j + 1, av.len() as int));
        }
        if arity[j].0 == *name {
            return Some(arity[j].1);
        }
        j = j + 1;
    }
    None
}

/// Expression grammar, by recursive descent from token `pos`: `Or ::= And
/// ('or' And)*` and `And ::= Atom ('and' Atom)*`, both associated to the
/// left; `Atom ::= '(' Or ')' | Op '(' Or (',' Or)* ')' | Id`, where `Op` is
/// a listed operator applied to as many arguments as its arity (`Op '('
/// ')'` for arity `0`). The result is the expression and the position
/// after it.
pub open spec fn e_or(ar: Seq<(Seq<char>, usize)>, tv: Seq<TokV>, pos: int) -> Option<(Exp, int)>
    decreases tv.len() - pos, 3int, 0int,
{
    match e_and(ar, tv, pos) {
        Some((a, p)) => if pos < p <= tv.len() { e_or_more(ar, tv, a, p) } else { None },
        None => None,
    }
}

pub open spec fn e_or_more(ar: Seq<(Seq<char>, usize)>, tv: Seq<TokV>, acc: Exp, p: int) -> Option<(Exp, int)>
    decreases tv.len() - p, 3int, 1int,
{
    if w_at(tv, p, seq!['o', 'r']) {
        match e_and(ar, tv, p + 1) {
            Some((b, q)) => if p < q <= tv.len() { e_or_more(ar, tv, Exp::Or(Box::new(acc), Box::new(b)), q) } else { None },
            None => None,
        }
    } else {
        Some((acc, p))
    }
}

pub open spec fn e_and(ar: Seq<(Seq<char>, usize)>, tv: Seq<TokV>, pos: int) -> Option<(Exp, int)>
    decreases tv.len() - pos, 2int, 0int,
{
    match e_atom(ar, tv, pos) {
        Some((a, p)) => if pos < p <= tv.len() { e_and_more(ar, tv, a, p) } else { None },
        None => None,
    }
}

pub open spec fn e_and_more(ar: Seq<(Seq<char>, usize)>, tv: Seq<TokV>, acc: Exp, p: int) -> Option<(Exp, int)>
    decreases tv.len() - p, 2int, 1int,
{
    if w_at(tv, p, seq!['a', 'n', 'd']) {
        match e_atom(ar, tv, p + 1) {
            Some((b, q)) => if p < q <= tv.len() { e_and_more(ar, tv, Exp::And(Box::new(acc), Box::new(b)), q) } else { None },
            None => None,
        }
    } else {
        Some((acc, p))
    }
}

pub open spec fn e_atom(ar: Seq<(Seq<char>, usize)>, tv: Seq<TokV>, pos: int) -> Option<(Exp, int)>
    decreases tv.len() - pos, 1int, 0int,
{
    if p_at(tv, pos, '(') {
        match e_or(ar, tv, pos + 1) {
            Some((e, p)) => if p_at(tv, p, ')') { Some((e, p + 1)) } else { None },
            None => None,
        }
    } else {
        match word_at(tv, pos) {
            None => None,
            Some(name) => match arity_lookup(ar, name) {
                None => Some((Exp::Id(name), pos + 1)),
                Some(k) => if !p_at(tv, pos + 1, '(') {
                    None
                } else if k == 0 {
                    if p_at(tv, pos + 2, ')') { Some((Exp::Operator(name, Seq::empty()), pos + 3)) } else { None }
                } else {
                    match e_args(ar, tv, k as int, 0, pos + 2, Seq::empty()) {
                        Some((args, p)) => if p_at(tv, p, ')') { Some((Exp::Operator(name, args), p + 1)) } else { None },
                        None => None,
                    }
                },
            },
        }
    }
}

/// Arguments `j` to `k` of an operator from token `p`, separated by commas,
/// appended to `acc`.
pub open spec fn e_args(ar: Seq<(Seq<char>, usize)>, tv: Seq<TokV>, k: int, j: int, p: int, acc: Seq<Exp>) -> Option<(Seq<Exp>, int)>
    decreases tv.len() - p, 4int, k - j,
{
    if j >= k {
        Some((acc, p))
    } else {
        let p1 = if j > 0 { if p_at(tv, p, ',') { p + 1 } else { -1 } } else { p };
        if p1 < p {
            None
        } else {
            match e_or(ar, tv, p1) {
                Some((a, q)) => if p < q <= tv.len() { e_args(ar, tv, k, j + 1, q, acc.push(a)) } else { None },
                None => None,
            }
        }
    }
}

pub open spec fn res_exp(r: Result<(ExpFixEq, usize), ParserError>, o: Option<(Exp, int)>) -> bool {
    match r {
        Ok((e, p)) => o == Some((e@, p as int)),
        Err(_) => o is None,
    }
}

fn exp_or(arity: &Vec<(String, usize)>, toks: &Vec<Tok>, pos: usize) -> (r: Result<(ExpFixEq, usize), ParserError>)
    requires
        toks@.len() <= usize::MAX - 8,
    ensures
        r is Ok ==> pos < r->Ok_0.1 <= toks@.len(),
        res_exp(r, e_or(arity_view(arity@), toks_view(toks@), pos as int)),
    decreases toks@.len() - pos, 3int, 0int,
{
    let (a, p) = exp_and(arity, toks, pos)?;
    exp_or_more(arity, toks, a, p, pos)
}

fn exp_or_more(arity: &Vec<(String, usize)>, toks: &Vec<Tok>, acc: ExpFixEq, p: usize, pos: usize) -> (r: Result<(ExpFixEq, usize), ParserError>)
    requires
        toks@.len() <= usize::MAX - 8,
        pos < p <= toks@.len(),
    ensures
        r is Ok ==> pos < r->Ok_0.1 <= toks@.len(),
        res_exp(r, e_or_more(arity_view(arity@), toks_view(toks@), acc@, p as int)),
    decreases toks@.len() - p, 3int, 1int,
{
    if is_w(toks, p, "or") {
        proof { reveal_strlit("or"); assert("or"@ =~= seq!['o', 'r']); }
        let (b, q) = exp_and(arity, toks, p + 1)?;
        exp_or_more(arity, toks, ExpFixEq::Or(Box::new(acc), Box::new(b)), q, pos)
    } else {
        proof { reveal_strlit("or"); assert("or"@ =~= seq!['o', 'r']); }
        Ok((acc, p))
    }
}

fn exp_and(arity: &Vec<(String, usize)>, toks: &Vec<Tok>, pos: usize) -> (r: Result<(ExpFixEq, usize), ParserError>)
    requires
        toks@.len() <= usize::MAX - 8,
    ensures
        r is Ok ==> pos < r->Ok_0.1 <= toks@.len(),
        res_exp(r, e_and(arity_view(arity@), toks_view(toks@), pos as int)),
    decreases toks@.len() - pos, 2int, 0int,
{
    let (a, p) = exp_atom(arity, toks, pos)?;
    exp_and_more(arity, toks, a, p, pos)
}

fn exp_and_more(arity: &Vec<(String, usize)>, toks: &Vec<Tok>, acc: ExpFixEq, p: usize, pos: usize) -> (r: Result<(ExpFixEq, usize), ParserError>)
    requires
        toks@.len() <= usize::MAX - 8,
        pos < p <= toks@.len(),
    ensures
        r is Ok ==> pos < r->Ok_0.1 <= toks@.len(),
        res_exp(r, e_and_more(arity_view(arity@), toks_view(toks@), acc@, p as int)),
    decreases toks@.len() - p, 2int, 1int,
{
    if is_w(toks, p, "and") {
        proof { reveal_strlit("and"); assert("and"@ =~= seq!['a', 'n', 'd']); }
        let (b, q) = exp_atom(arity, toks, p + 1)?;
        exp_and_more(arity, toks, ExpFixEq::And(Box::new(acc), Box::new(b)), q, pos)
    } else {
        proof { reveal_strlit("and"); assert("and"@ =~= seq!['a', 'n', 'd']); }
        Ok((acc, p))
    }
}

fn exp_args(
    arity: &Vec<(String, usize)>,
    toks: &Vec<Tok>,
    k: usize,
    j: usize,
    p: usize,
    acc: Vec<ExpFixEq>,
) -> (r: Result<(Vec<ExpFixEq>, usize), ParserError>)
    requires
        toks@.len() <= usize::MAX - 8,
        p <= toks@.len(),
        j <= k,
    ensures
        r is Ok ==> p <= r->Ok_0.1 <= toks@.len(),
        match r {
            Ok((v, q)) => e_args(arity_view(arity@), toks_view(toks@), k as int, j as int, p as int, exps_view(acc@))
                == Some((exps_view(v@), q as int)),
            Err(_) => e_args(arity_view(arity@), toks_view(toks@), k as int, j as int, p as int, exps_view(acc@)) is None,
        },
    decreases toks@.len() - p, 4int, k - j,
{
    if j >= k {
        return Ok((acc, p));
    }
    let p1 = if j > 0 { expect(toks, p, ',')? } else { p };
    let (a, q) = exp_or(arity, toks, p1)?;
    let mut acc = acc;
    let ghost ab = exps_view(acc@);
    acc.push(a);
    proof { assert(exps_view(acc@) =~= ab.push(a@)); }
    exp_args(arity, toks, k, j + 1, q, acc)
}

fn exp_atom(arity: &Vec<(String, usize)>, toks: &Vec<Tok>, pos: usize) -> (r: Result<(ExpFixEq, usize), ParserError>)
    requires
        toks@.len() <= usize::MAX - 8,
    ensures
        r is Ok ==> pos < r->Ok_0.1 <= toks@.len(),
        res_exp(r, e_atom(arity_view(arity@), toks_view(toks@), pos as int)),
    decreases toks@.len() - pos, 1int, 0int,
{
    if is_p(toks, pos, '(') {
        let (e, p) = exp_or(arity, toks, pos + 1)?;
        let p = expect(toks, p, ')')?;
        return Ok((e, p));
    }
    let name = word(toks, pos)?;
    match arity_of(arity, &name) {
        Some(k) => {
            let p = expect(toks, pos + 1, '(')?;
            if k == 0 {
                let p = expect(toks, p, ')')?;
                let v: Vec<ExpFixEq> = Vec::new();
                proof {
                    lemma_args_view(name, v);
                    assert(exps_view(v@) =~= Seq::<Exp>::empty());
                }
                return Ok((ExpFixEq::Operator(name, v), p));
            }
            let v0: Vec<ExpFixEq> = Vec::new();
            proof { assert(exps_view(v0@) =~= Seq::<Exp>::empty()); }
            let (args, p) = exp_args(arity, toks, k, 0, p, v0)?;
            let p = expect(toks, p, ')')?;
            proof { lemma_args_view(name, args); }
            Ok((ExpFixEq::Operator(name, args), p))
        },
        None => Ok((ExpFixEq::Id(name), pos + 1)),
    }
}

/// An equation system from token `pos` on: `Id '=' ('max' | 'min') Or ';'`
/// repeated, appended to `acc`; at the end, `None` when there is no
/// equation at all.
pub open spec fn sys_spec(ar: Seq<(Seq<char>, usize)>, tv: Seq<TokV>, pos: int, acc: Seq<EqV>) -> Option<Seq<EqV>>
    decreases tv.len() - pos,
{
    if pos < 0 || pos >= tv.len() {
        if acc.len() == 0 { None } else { Some(acc) }
    } else {
        match word_at(tv, pos) {
            None => None,
            Some(var) => if !p_at(tv, pos + 1, '=') {
                None
            } else {
                let fix = if w_at(tv, pos + 2, seq!['m', 'a', 'x']) {
                    Some(FixType::Max)
                } else if w_at(tv, pos + 2, seq!['m', 'i', 'n']) {
                    Some(FixType::Min)
                } else {
                    None
                };
                match fix {
                    None => None,
                    Some(t) => match e_or(ar, tv, pos + 3) {
                        Some((e, q)) => if q > pos && p_at(tv, q, ';') {
                            sys_spec(ar, tv, q + 1, acc.push(EqV { var, fix_ty: t, exp: e }))
                        } else {
                            None
                        },
                        None => None,
                    },
                }
            },
        }
    }
}

/// The equation system a text denotes, with the operators of `ar`.
pub open spec fn system_text(ar: Seq<(Seq<char>, usize)>, src: Seq<char>) -> Option<Seq<EqV>> {
    match tokens_of(src) {
        Some(tv) => sys_spec(ar, tv, 0, Seq::empty()),
        None => None,
    }
}

/// Reads an equation system: `(Id ('=max' | '=min') Exp ';')+`, with the
/// operators of `arity` (see [`e_or`]).
pub fn parse_fixpoint_system(arity: &Vec<(String, usize)>, src: &str) -> (r: Result<Vec<FixEq>, ParserError>)
    ensures
        r is Ok <==> system_text(arity_view(arity@), src@) is Some,
        r is Ok ==> system_view(r->Ok_0@) == system_text(arity_view(arity@), src@)->0,
{
    let toks = tokenize(src)?;
    if toks.len() > usize::MAX - 8 {
        return Err(err("input too long"));
    }
    let ghost tv = toks_view(toks@);
    let ghost av = arity_view(arity@);
    let mut out: Vec<FixEq> = Vec::new();
    let mut pos: usize = 0;
    proof {
        reveal_strlit("max");
        reveal_strlit("min");
        assert("max"@ =~= seq!['m', 'a', 'x']);
        assert("min"@ =~= seq!['m', 'i', 'n']);
        assert(system_view(out@) =~= Seq::<EqV>::empty());
    }
    while pos < toks.len()
        invariant
            toks@.len() <= usize::MAX - 8,
            tv == toks_view(toks@),
            tokens_of(src@) == Some(tv),
            av == arity_view(arity@),
            "max"@ == seq!['m', 'a', 'x'],
            "min"@ == seq!['m', 'i', 'n'],
            sys_spec(av, tv, 0, Seq::empty()) == sys_spec(av, tv, pos as int, system_view(out@)),
        decreases toks@.len() - pos,
    {
        let var = word(&toks, pos)?;
        let p = expect(&toks, pos + 1, '=')?;
        let fix_ty = if is_w(&toks, p, "max") {
            FixType::Max
        } else if is_w(&toks, p, "min") {
            FixType::Min
        } else {
            return Err(err("expected max or min"));
        };
        let (exp, q) = exp_or(arity, &toks, p + 1)?;
        pos = expect(&toks, q, ';')?;
        let ghost ob = system_view(out@);
        let eq = FixEq { var, fix_ty, exp };
        let ghost ev = eq@;
        out.push(eq);
        proof { assert(system_view(out@) =~= ob.push(ev)); }
    }
    if out.len() == 0 {
        return Err(err("empty system"));
    }
    Ok(out)
}

/// Formula grammar, by recursive descent from token `pos`: `Disj ::= Conj
/// ('or' Conj)*`, `Conj ::= Atom ('and' Atom)*`, `Atom ::= '[' b ',' n ']' |
/// 'true' | 'false' | '(' Disj ')'`. Several operands make one n-ary
/// connective; a single one stands alone.
pub open spec fn f_or(tv: Seq<TokV>, pos: int) -> Option<(Formula, int)>
    decreases tv.len() - pos, 2int, 0int,
{
    match f_and(tv, pos) {
        Some((f, p)) => if pos < p <= tv.len() {
            if w_at(tv, p, seq!['o', 'r']) { f_or_more(tv, seq![f], p) } else { Some((f, p)) }
        } else {
            None
        },
        None => None,
    }
}

pub open spec fn f_or_more(tv: Seq<TokV>, parts: Seq<Formula>, p: int) -> Option<(Formula, int)>
    decreases tv.len() - p, 2int, 1int,
{
    if w_at(tv, p, seq!['o', 'r']) {
        match f_and(tv, p + 1) {
            Some((f, q)) => if p < q <= tv.len() { f_or_more(tv, parts.push(f), q) } else { None },
            None => None,
        }
    } else {
        Some((Formula::Disj(parts), p))
    }
}

pub open spec fn f_and(tv: Seq<TokV>, pos: int) -> Option<(Formula, int)>
    decreases tv.len() - pos, 1int, 0int,
{
    match f_atom(tv, pos) {
        Some((f, p)) => if pos < p <= tv.len() {
            if w_at(tv, p, seq!['a', 'n', 'd']) { f_and_more(tv, seq![f], p) } else { Some((f, p)) }
        } else {
            None
        },
        None => None,
    }
}

pub open spec fn f_and_more(tv: Seq<TokV>, parts: Seq<Formula>, p: int) -> Option<(Formula, int)>
    decreases tv.len() - p, 1int, 1int,
{
    if w_at(tv, p, seq!['a', 'n', 'd']) {
        match f_atom(tv, p + 1) {
            Some((f, q)) => if p < q <= tv.len() { f_and_more(tv, parts.push(f), q) } else { None },
            None => None,
        }
    } else {
        Some((Formula::Conj(parts), p))
    }
}

pub open spec fn f_atom(tv: Seq<TokV>, pos: int) -> Option<(Formula, int)>
    decreases tv.len() - pos, 0int, 0int,
{
    if p_at(tv, pos, '(') {
        match f_or(tv, pos + 1) {
            Some((f, p)) => if p_at(tv, p, ')') { Some((f, p + 1)) } else { None },
            None => None,
        }
    } else if p_at(tv, pos, '[') {
        match (word_at(tv, pos + 1), num_at(tv, pos + 3)) {
            (Some(b), Some(i)) => if p_at(tv, pos + 2, ',') && p_at(tv, pos + 4, ']') {
                Some((Formula::Atom(b, i as usize), pos + 5))
            } else {
                None
            },
            _ => None,
        }
    } else if w_at(tv, pos, seq!['t', 'r', 'u', 'e']) {
        Some((Formula::True, pos + 1))
    } else if w_at(tv, pos, seq!['f', 'a', 'l', 's', 'e']) {
        Some((Formula::False, pos + 1))
    } else {
        None
    }
}

pub open spec fn res_f(r: Result<(LogicFormula, usize), ParserError>, o: Option<(Formula, int)>) -> bool {
    match r {
        Ok((f, p)) => o == Some((f@, p as int)),
        Err(_) => o is None,
    }
}

proof fn lemma_words()
    ensures
        "or"@ == seq!['o', 'r'],
        "and"@ == seq!['a', 'n', 'd'],
        "true"@ == seq!['t', 'r', 'u', 'e'],
        "false"@ == seq!['f', 'a', 'l', 's', 'e'],
        "phi"@ == seq!['p', 'h', 'i'],
        "mu"@ == seq!['m', 'u'],
        "nu"@ == seq!['n', 'u'],
        "tt"@ == seq!['t', 't'],
        "ff"@ == seq!['f', 'f'],
        "des"@ == seq!['d', 'e', 's'],
        "parity"@ == seq!['p', 'a', 'r', 'i', 't', 'y'],
{
    reveal_strlit("or");
    reveal_strlit("and");
    reveal_strlit("true");
    reveal_strlit("false");
    reveal_strlit("phi");
    reveal_strlit("mu");
    reveal_strlit("nu");
    reveal_strlit("tt");
    reveal_strlit("ff");
    reveal_strlit("des");
    reveal_strlit("parity");
    assert("or"@ =~= seq!['o', 'r']);
    assert("and"@ =~= seq!['a', 'n', 'd']);
    assert("true"@ =~= seq!['t', 'r', 'u', 'e']);
    assert("false"@ =~= seq!['f', 'a', 'l', 's', 'e']);
    assert("phi"@ =~= seq!['p', 'h', 'i']);
    assert("mu"@ =~= seq!['m', 'u']);
    assert("nu"@ =~= seq!['n', 'u']);
    assert("tt"@ =~= seq!['t', 't']);
    assert("ff"@ =~= seq!['f', 'f']);
    assert("des"@ =~= seq!['d', 'e', 's']);
    assert("parity"@ =~= seq!['p', 'a', 'r', 'i', 't', 'y']);
}

fn lf_or(toks: &Vec<Tok>, pos: usize) -> (r: Result<(LogicFormula, usize), ParserError>)
    requires
        toks@.len() <= usize::MAX - 8,
    ensures
        r is Ok ==> pos < r->Ok_0.1 <= toks@.len(),
        res_f(r, f_or(toks_view(toks@), pos as int)),
    decreases toks@.len() - pos, 2int, 0int,
{
    proof { lemma_words(); }
    let (first, p) = lf_and(toks, pos)?;
    if !is_w(toks, p, "or") {
        return Ok((first, p));
    }
    let ghost fv = first@;
    let parts: Vec<LogicFormula> = vec![first];
    proof { assert(views(parts@) =~= seq![fv]); }
    lf_or_more(toks, parts, p, pos)
}

fn lf_or_more(toks: &Vec<Tok>, parts: Vec<LogicFormula>, p: usize, pos: usize) -> (r: Result<(LogicFormula, usize), ParserError>)
    requires
        toks@.len() <= usize::MAX - 8,
        pos < p <= toks@.len(),
    ensures
        r is Ok ==> pos < r->Ok_0.1 <= toks@.len(),
        res_f(r, f_or_more(toks_view(toks@), views(parts@), p as int)),
    decreases toks@.len() - p, 2int, 1int,
{
    proof { lemma_words(); }
    if is_w(toks, p, "or") {
        let (f, q) = lf_and(toks, p + 1)?;
        let mut parts = parts;
        let ghost pb = views(parts@);
        parts.push(f);
        proof { assert(views(parts@) =~= pb.push(f@)); }
        lf_or_more(toks, parts, q, pos)
    } else {
        proof { lemma_views_conj(parts); }
        Ok((LogicFormula::Disj(parts), p))
    }
}

fn lf_and(toks: &Vec<Tok>, pos: usize) -> (r: Result<(LogicFormula, usize), ParserError>)
    requires
        toks@.len() <= usize::MAX - 8,
    ensures
        r is Ok ==> pos < r->Ok_0.1 <= toks@.len(),
        res_f(r, f_and(toks_view(toks@), pos as int)),
    decreases toks@.len() - pos, 1int, 0int,
{
    proof { lemma_words(); }
    let (first, p) = lf_atom(toks, pos)?;
    if !is_w(toks, p, "and") {
        return Ok((first, p));
    }
    let ghost fv = first@;
    let parts: Vec<LogicFormula> = vec![first];
    proof { assert(views(parts@) =~= seq![fv]); }
    lf_and_more(toks, parts, p, pos)
}

fn lf_and_more(toks: &Vec<Tok>, parts: Vec<LogicFormula>, p: usize, pos: usize) -> (r: Result<(LogicFormula, usize), ParserError>)
    requires
        toks@.len() <= usize::MAX - 8,
        pos < p <= toks@.len(),
    ensures
        r is Ok ==> pos < r->Ok_0.1 <= toks@.len(),
        res_f(r, f_and_more(toks_view(toks@), views(parts@), p as int)),
    decreases toks@.len() - p, 1int, 1int,
{
    proof { lemma_words(); }
    if is_w(toks, p, "and") {
        let (f, q) = lf_atom(toks, p + 1)?;
        let mut parts = parts;
        let ghost pb = views(parts@);
        parts.push(f);
        proof { assert(views(parts@) =~= pb.push(f@)); }
        lf_and_more(toks, parts, q, pos)
    } else {
        proof { lemma_views_conj(parts); }
        Ok((LogicFormula::Conj(parts), p))
    }
}

fn lf_atom(toks: &Vec<Tok>, pos: usize) -> (r: Result<(LogicFormula, usize), ParserError>)
    requires
        toks@.len() <= usize::MAX - 8,
    ensures
        r is Ok ==> pos < r->Ok_0.1 <= toks@.len(),
        res_f(r, f_atom(toks_view(toks@), pos as int)),
    decreases toks@.len() - pos, 0int, 0int,
{
    proof { lemma_words(); }
    if is_p(toks, pos, '(') {
        let (f, p) = lf_or(toks, pos + 1)?;
        let p = expect(toks, p, ')')?;
        Ok((f, p))
    } else if is_p(toks, pos, '[') {
        let b = word(toks, pos + 1)?;
        let p = expect(toks, pos + 2, ',')?;
        let i = number_at(toks, p)?;
        let p = expect(toks, p + 1, ']')?;
        Ok((LogicFormula::BasisElem(b, i as usize), p))
    } else if is_w(toks, pos, "true") {
        Ok((LogicFormula::True, pos + 1))
    } else if is_w(toks, pos, "false") {
        Ok((LogicFormula::False, pos + 1))
    } else {
        Err(err("expected a formula"))
    }
}

/// One move at token `pos`: `'phi' '(' b ')' '(' op ')' '=' Disj`,
/// optionally followed by `;`; the move and the position after it.
pub open spec fn move_at(tv: Seq<TokV>, pos: int) -> Option<(MoveV, int)> {
    if !(w_at(tv, pos, seq!['p', 'h', 'i']) && p_at(tv, pos + 1, '(') && p_at(tv, pos + 3, ')')
        && p_at(tv, pos + 4, '(') && p_at(tv, pos + 6, ')') && p_at(tv, pos + 7, '=')) {
        None
    } else {
        match (word_at(tv, pos + 2), word_at(tv, pos + 5), f_or(tv, pos + 8)) {
            (Some(b), Some(op), Some((f, q))) => if pos < q <= tv.len() {
                Some((MoveV { formula: f, func_name: op, basis_elem: b }, if p_at(tv, q, ';') { q + 1 } else { q }))
            } else {
                None
            },
            _ => None,
        }
    }
}

/// A list of moves from token `pos` on, appended to `acc`.
pub open spec fn moves_spec(tv: Seq<TokV>, pos: int, acc: Seq<MoveV>) -> Option<Seq<MoveV>>
    decreases tv.len() - pos,
{
    if pos < 0 || pos >= tv.len() {
        Some(acc)
    } else {
        match move_at(tv, pos) {
            Some((m, next)) => if pos < next { moves_spec(tv, next, acc.push(m)) } else { None },
            None => None,
        }
    }
}

fn move_entry(toks: &Vec<Tok>, pos: usize) -> (r: Result<(SymbolicExistsMove, usize), ParserError>)
    requires
        toks@.len() <= usize::MAX - 8,
    ensures
        r is Ok <==> move_at(toks_view(toks@), pos as int) is Some,
        r is Ok ==> move_at(toks_view(toks@), pos as int) == Some((r->Ok_0.0@, r->Ok_0.1 as int)),
        r is Ok ==> pos < r->Ok_0.1,
{
    proof { lemma_words(); }
    if !is_w(toks, pos, "phi") {
        return Err(err("expected phi"));
    }
    let p = expect(toks, pos + 1, '(')?;
    let b = word(toks, p)?;
    let p = expect(toks, p + 1, ')')?;
    let p = expect(toks, p, '(')?;
    let op = word(toks, p)?;
    let p = expect(toks, p + 1, ')')?;
    let p = expect(toks, p, '=')?;
    let (formula, q) = lf_or(toks, p)?;
    let next = if is_p(toks, q, ';') { q + 1 } else { q };
    Ok((SymbolicExistsMove { formula, func_name: op, basis_elem: b }, next))
}

/// The moves a text lists, in order.
pub open spec fn moves_text(src: Seq<char>) -> Option<Seq<MoveV>> {
    match tokens_of(src) {
        Some(tv) => moves_spec(tv, 0, Seq::empty()),
        None => None,
    }
}

/// Reads the moves of the operators of `arity` over `basis`: `'phi' '(' b
/// ')' '(' op ')' '=' Formula`, separated by `;`. The store lists the
/// operators of `arity` and the elements of `basis`, each pair holding the
/// move listed last for it, `False` when none is.
pub fn parse_symbolic_system(
    arity: &Vec<(String, usize)>,
    basis: &Vec<String>,
    src: &str,
) -> (r: Result<SymbolicExistsMoves, ParserError>)
    ensures
        r is Ok <==> moves_text(src@) is Some && arity@.len() * basis@.len() <= usize::MAX,
        r is Ok ==> {
            &&& r->Ok_0.wf()
            &&& r->Ok_0@.funs == arity_view(arity@).map_values(|x: (Seq<char>, usize)| x.0)
            &&& r->Ok_0@.basis == strs_view(basis@)
            &&& r->Ok_0@.formulas.len() == arity@.len() * basis@.len()
            &&& built_from(r->Ok_0@, moves_text(src@)->0)
        },
{
    proof { lemma_words(); }
    let toks = tokenize(src)?;
    if toks.len() > usize::MAX - 8 {
        return Err(err("input too long"));
    }
    let ghost tv = toks_view(toks@);
    let mut moves: Vec<SymbolicExistsMove> = Vec::new();
    let mut pos: usize = 0;
    proof { assert(moves_view(moves@) =~= Seq::<MoveV>::empty()); }
    while pos < toks.len()
        invariant
            toks@.len() <= usize::MAX - 8,
            tv == toks_view(toks@),
            tokens_of(src@) == Some(tv),
            moves_spec(tv, 0, Seq::empty()) == moves_spec(tv, pos as int, moves_view(moves@)),
        decreases toks@.len() - pos,
    {
        let (mv, next) = move_entry(&toks, pos)?;
        let ghost mb = moves_view(moves@);
        let ghost mvv = mv@;
        moves.push(mv);
        proof { assert(moves_view(moves@) =~= mb.push(mvv)); }
        pos = next;
    }
    let mut funs: Vec<String> = Vec::new();
    let mut j: usize = 0;
    while j < arity.len()
        invariant
            j <= arity@.len(),
            strs_view(funs@) == arity_view(arity@).map_values(|x: (Seq<char>, usize)| x.0).take(j as int),
        decreases arity@.len() - j,
    {
        let ghost fb = funs@;
        proof { assert(arity_view(arity@)[j as int].0 == arity@[j as int].0@); }
        funs.push(arity[j].0.as_str().to_owned());
        j = j + 1;
        proof {
            assert(strs_view(funs@) =~= strs_view(fb).push(arity_view(arity@)[j - 1].0));
            assert(strs_view(funs@) =~= arity_view(arity@).map_values(|x: (Seq<char>, usize)| x.0).take(j as int));
        }
    }
    let mut bs: Vec<String> = Vec::new();
    let mut j: usize = 0;
    while j < basis.len()
        invariant
            j <= basis@.len(),
            strs_view(bs@) == strs_view(basis@).take(j as int),
        decreases basis@.len() - j,
    {
        let ghost bb = bs@;
        proof { assert(strs_view(basis@)[j as int] == basis@[j as int]@); }
        bs.push(basis[j].as_str().to_owned());
        j = j + 1;
        proof {
            assert(strs_view(bs@) =~= strs_view(bb).push(strs_view(basis@)[j - 1]));
            assert(strs_view(bs@) =~= strs_view(basis@).take(j as int));
        }
    }
    proof {
        assert(strs_view(funs@) =~= arity_view(arity@).map_values(|x: (Seq<char>, usize)| x.0));
        assert(strs_view(bs@) =~= strs_view(basis@));
    }
    if funs.len().checked_mul(bs.len()).is_none() {
        return Err(err("too many moves"));
    }
    Ok(SymbolicExistsMoves::new(moves, funs, bs))
}

/// Model of a modality's label.
pub enum ActV {
    Label(Seq<char>),
    NotLabel(Seq<char>),
    True,
}

/// Model of a μ-calculus formula.
pub enum MuV {
    True,
    False,
    Var(Seq<char>),
    Eta(Seq<char>, FixType, Box<MuV>),
    Diamond(ActV, Box<MuV>),
    Box(ActV, Box<MuV>),
    And(Box<MuV>, Box<MuV>),
    Or(Box<MuV>, Box<MuV>),
}

pub open spec fn act_view(a: Act) -> ActV {
    match a {
        Act::Label(x) => ActV::Label(x@),
        Act::NotLabel(x) => ActV::NotLabel(x@),
        Act::True => ActV::True,
    }
}

pub open spec fn mu_view(f: MuCalc) -> MuV
    decreases f,
{
    match f {
        MuCalc::True => MuV::True,
        MuCalc::False => MuV::False,
        MuCalc::Var(x) => MuV::Var(x@),
        MuCalc::Eta(x, t, e) => MuV::Eta(x@, t, Box::new(mu_view(*e))),
        MuCalc::Diamond(a, e) => MuV::Diamond(act_view(a), Box::new(mu_view(*e))),
        MuCalc::Box(a, e) => MuV::Box(act_view(a), Box::new(mu_view(*e))),
        MuCalc::And(l, r) => MuV::And(Box::new(mu_view(*l)), Box::new(mu_view(*r))),
        MuCalc::Or(l, r) => MuV::Or(Box::new(mu_view(*l)), Box::new(mu_view(*r))),
    }
}

/// μ-calculus grammar, by recursive descent from token `pos`: `Expr ::=
/// ('mu' | 'nu') Id '.' Expr | Disj`, `Disj ::= Conj ('||' Conj)*` and
/// `Conj ::= Modal ('&&' Modal)*`, associated to the left, `Modal ::= '<'
/// Label '>' Modal | '[' Label ']' Modal | Atom`, `Atom ::= 'tt' | 'ff' |
/// '(' Expr ')' | Id`, `Label ::= '!' Id | 'true' | Id`.
pub open spec fn m_expr(tv: Seq<TokV>, pos: int) -> Option<(MuV, int)>
    decreases tv.len() - pos, 4int, 0int,
{
    if w_at(tv, pos, seq!['m', 'u']) || w_at(tv, pos, seq!['n', 'u']) {
        let t = if w_at(tv, pos, seq!['m', 'u']) { FixType::Min } else { FixType::Max };
        match word_at(tv, pos + 1) {
            Some(x) => if p_at(tv, pos + 2, '.') {
                match m_expr(tv, pos + 3) {
                    Some((b, q)) => Some((MuV::Eta(x, t, Box::new(b)), q)),
                    None => None,
                }
            } else {
                None
            },
            None => None,
        }
    } else {
        m_or(tv, pos)
    }
}

pub open spec fn m_or(tv: Seq<TokV>, pos: int) -> Option<(MuV, int)>
    decreases tv.len() - pos, 3int, 0int,
{
    match m_and(tv, pos) {
        Some((a, p)) => if pos < p <= tv.len() { m_or_more(tv, a, p) } else { None },
        None => None,
    }
}

pub open spec fn m_or_more(tv: Seq<TokV>, acc: MuV, p: int) -> Option<(MuV, int)>
    decreases tv.len() - p, 3int, 1int,
{
    if p_at(tv, p, '|') && p_at(tv, p + 1, '|') {
        match m_and(tv, p + 2) {
            Some((b, q)) => if p < q <= tv.len() { m_or_more(tv, MuV::Or(Box::new(acc), Box::new(b)), q) } else { None },
            None => None,
        }
    } else {
        Some((acc, p))
    }
}

pub open spec fn m_and(tv: Seq<TokV>, pos: int) -> Option<(MuV, int)>
    decreases tv.len() - pos, 2int, 0int,
{
    match m_modal(tv, pos) {
        Some((a, p)) => if pos < p <= tv.len() { m_and_more(tv, a, p) } else { None },
        None => None,
    }
}

pub open spec fn m_and_more(tv: Seq<TokV>, acc: MuV, p: int) -> Option<(MuV, int)>
    decreases tv.len() - p, 2int, 1int,
{
    if p_at(tv, p, '&') && p_at(tv, p + 1, '&') {
        match m_modal(tv, p + 2) {
            Some((b, q)) => if p < q <= tv.len() { m_and_more(tv, MuV::And(Box::new(acc), Box::new(b)), q) } else { None },
            None => None,
        }
    } else {
        Some((acc, p))
    }
}

pub open spec fn m_label(tv: Seq<TokV>, pos: int) -> Option<(ActV, int)> {
    if p_at(tv, pos, '!') {
        match word_at(tv, pos + 1) {
            Some(x) => Some((ActV::NotLabel(x), pos + 2)),
            None => None,
        }
    } else if w_at(tv, pos, seq!['t', 'r', 'u', 'e']) {
        Some((ActV::True, pos + 1))
    } else {
        match word_at(tv, pos) {
            Some(x) => Some((ActV::Label(x), pos + 1)),
            None => None,
        }
    }
}

pub open spec fn m_modal(tv: Seq<TokV>, pos: int) -> Option<(MuV, int)>
    decreases tv.len() - pos, 1int, 0int,
{
    if p_at(tv, pos, '<') || p_at(tv, pos, '[') {
        let close = if p_at(tv, pos, '<') { '>' } else { ']' };
        match m_label(tv, pos + 1) {
            Some((a, p)) => if pos < p < tv.len() && p_at(tv, p, close) {
                match m_modal(tv, p + 1) {
                    Some((e, q)) => Some((if close == '>' { MuV::Diamond(a, Box::new(e)) } else { MuV::Box(a, Box::new(e)) }, q)),
                    None => None,
                }
            } else {
                None
            },
            None => None,
        }
    } else {
        m_atom(tv, pos)
    }
}

pub open spec fn m_atom(tv: Seq<TokV>, pos: int) -> Option<(MuV, int)>
    decreases tv.len() - pos, 0int, 0int,
{
    if p_at(tv, pos, '(') {
        match m_expr(tv, pos + 1) {
            Some((e, p)) => if p_at(tv, p, ')') { Some((e, p + 1)) } else { None },
            None => None,
        }
    } else if w_at(tv, pos, seq!['t', 't']) {
        Some((MuV::True, pos + 1))
    } else if w_at(tv, pos, seq!['f', 'f']) {
        Some((MuV::False, pos + 1))
    } else {
        match word_at(tv, pos) {
            Some(x) => Some((MuV::Var(x), pos + 1)),
            None => None,
        }
    }
}

pub open spec fn res_m(r: Result<(MuCalc, usize), ParserError>, o: Option<(MuV, int)>) -> bool {
    match r {
        Ok((f, p)) => o == Some((mu_view(f), p as int)),
        Err(_) => o is None,
    }
}

fn mu_expr(toks: &Vec<Tok>, pos: usize) -> (r: Result<(MuCalc, usize), ParserError>)
    requires
        toks@.len() <= usize::MAX - 8,
    ensures
        r is Ok ==> pos < r->Ok_0.1 <= toks@.len(),
        res_m(r, m_expr(toks_view(toks@), pos as int)),
    decreases toks@.len() - pos, 4int, 0int,
{
    proof { lemma_words(); }
    if is_w(toks, pos, "mu") || is_w(toks, pos, "nu") {
        let fix_ty = if is_w(toks, pos, "mu") { FixType::Min } else { FixType::Max };
        let x = word(toks, pos + 1)?;
        let p = expect(toks, pos + 2, '.')?;
        let (body, q) = mu_expr(toks, p)?;
        Ok((MuCalc::Eta(x, fix_ty, Box::new(body)), q))
    } else {
        mu_or(toks, pos)
    }
}

fn mu_or(toks: &Vec<Tok>, pos: usize) -> (r: Result<(MuCalc, usize), ParserError>)
    requires
        toks@.len() <= usize::MAX - 8,
    ensures
        r is Ok ==> pos < r->Ok_0.1 <= toks@.len(),
        res_m(r, m_or(toks_view(toks@), pos as int)),
    decreases toks@.len() - pos, 3int, 0int,
{
    let (a, p) = mu_and(toks, pos)?;
    mu_or_more(toks, a, p, pos)
}

fn mu_or_more(toks: &Vec<Tok>, acc: MuCalc, p: usize, pos: usize) -> (r: Result<(MuCalc, usize), ParserError>)
    requires
        toks@.len() <= usize::MAX - 8,
        pos < p <= toks@.len(),
    ensures
        r is Ok ==> pos < r->Ok_0.1 <= toks@.len(),
        res_m(r, m_or_more(toks_view(toks@), mu_view(acc), p as int)),
    decreases toks@.len() - p, 3int, 1int,
{
    if is_p(toks, p, '|') && is_p(toks, p + 1, '|') {
        let (b, q) = mu_and(toks, p + 2)?;
        mu_or_more(toks, MuCalc::Or(Box::new(acc), Box::new(b)), q, pos)
    } else {
        Ok((acc, p))
    }
}

fn mu_and(toks: &Vec<Tok>, pos: usize) -> (r: Result<(MuCalc, usize), ParserError>)
    requires
        toks@.len() <= usize::MAX - 8,
    ensures
        r is Ok ==> pos < r->Ok_0.1 <= toks@.len(),
        res_m(r, m_and(toks_view(toks@), pos as int)),
    decreases toks@.len() - pos, 2int, 0int,
{
    let (a, p) = mu_modal(toks, pos)?;
    mu_and_more(toks, a, p, pos)
}

fn mu_and_more(toks: &Vec<Tok>, acc: MuCalc, p: usize, pos: usize) -> (r: Result<(MuCalc, usize), ParserError>)
    requires
        toks@.len() <= usize::MAX - 8,
        pos < p <= toks@.len(),
    ensures
        r is Ok ==> pos < r->Ok_0.1 <= toks@.len(),
        res_m(r, m_and_more(toks_view(toks@), mu_view(acc), p as int)),
    decreases toks@.len() - p, 2int, 1int,
{
    if is_p(toks, p, '&') && is_p(toks, p + 1, '&') {
        let (b, q) = mu_modal(toks, p + 2)?;
        mu_and_more(toks, MuCalc::And(Box::new(acc), Box::new(b)), q, pos)
    } else {
        Ok((acc, p))
    }
}

fn mu_label(toks: &Vec<Tok>, pos: usize) -> (r: Result<(Act, usize), ParserError>)
    requires
        toks@.len() <= usize::MAX - 8,
    ensures
        r is Ok ==> pos < r->Ok_0.1 <= toks@.len(),
        match r {
            Ok((a, p)) => m_label(toks_view(toks@), pos as int) == Some((act_view(a), p as int)),
            Err(_) => m_label(toks_view(toks@), pos as int) is None,
        },
{
    proof { lemma_words(); }
    if is_p(toks, pos, '!') {
        let x = word(toks, pos + 1)?;
        Ok((Act::NotLabel(x), pos + 2))
    } else if is_w(toks, pos, "true") {
        Ok((Act::True, pos + 1))
    } else {
        let x = word(toks, pos)?;
        Ok((Act::Label(x), pos + 1))
    }
}

fn mu_modal(toks: &Vec<Tok>, pos: usize) -> (r: Result<(MuCalc, usize), ParserError>)
    requires
        toks@.len() <= usize::MAX - 8,
    ensures
        r is Ok ==> pos < r->Ok_0.1 <= toks@.len(),
        res_m(r, m_modal(toks_view(toks@), pos as int)),
    decreases toks@.len() - pos, 1int, 0int,
{
    if is_p(toks, pos, '<') {
        let (a, p) = mu_label(toks, pos + 1)?;
        let p = expect(toks, p, '>')?;
        let (e, q) = mu_modal(toks, p)?;
        Ok((MuCalc::Diamond(a, Box::new(e)), q))
    } else if is_p(toks, pos, '[') {
        let (a, p) = mu_label(toks, pos + 1)?;
        let p = expect(toks, p, ']')?;
        let (e, q) = mu_modal(toks, p)?;
        Ok((MuCalc::Box(a, Box::new(e)), q))
    } else {
        mu_atom(toks, pos)
    }
}

fn mu_atom(toks: &Vec<Tok>, pos: usize) -> (r: Result<(MuCalc, usize), ParserError>)
    requires
        toks@.len() <= usize::MAX - 8,
    ensures
        r is Ok ==> pos < r->Ok_0.1 <= toks@.len(),
        res_m(r, m_atom(toks_view(toks@), pos as int)),
    decreases toks@.len() - pos, 0int, 0int,
{
    proof { lemma_words(); }
    if is_p(toks, pos, '(') {
        let (e, p) = mu_expr(toks, pos + 1)?;
        let p = expect(toks, p, ')')?;
        Ok((e, p))
    } else if is_w(toks, pos, "tt") {
        Ok((MuCalc::True, pos + 1))
    } else if is_w(toks, pos, "ff") {
        Ok((MuCalc::False, pos + 1))
    } else {
        let x = word(toks, pos)?;
        Ok((MuCalc::Var(x), pos + 1))
    }
}

/// The μ-calculus formula a text denotes: the tokens must form one
/// expression (see [`m_expr`]) and nothing more.
pub open spec fn mu_text(src: Seq<char>) -> Option<MuV> {
    match tokens_of(src) {
        Some(tv) => match m_expr(tv, 0) {
            Some((f, p)) => if p == tv.len() { Some(f) } else { None },
            None => None,
        },
        None => None,
    }
}

/// Reads a μ-calculus formula (the whole text).
pub fn parse_mu_calc(src: &str) -> (r: Result<MuCalc, ParserError>)
    ensures
        r is Ok <==> mu_text(src@) is Some,
        r is Ok ==> mu_view(r->Ok_0) == mu_text(src@)->0,
{
    let toks = tokenize(src)?;
    if toks.len() > usize::MAX - 8 {
        return Err(err("input too long"));
    }
    let (f, p) = mu_expr(&toks, 0)?;
    if p != toks.len() {
        return Err(err("trailing input after the formula"));
    }
    Ok(f)
}

/// Model of a labelled transition system: first state, labels, and each
/// state with its transitions (label index, target).
pub struct LtsV {
    pub first: u32,
    pub labels: Seq<Seq<char>>,
    pub adj: Seq<(u32, Seq<(usize, u32)>)>,
}

pub open spec fn adj_view(a: Seq<(u32, Vec<(usize, u32)>)>) -> Seq<(u32, Seq<(usize, u32)>)> {
    a.map_values(|x: (u32, Vec<(usize, u32)>)| (x.0, x.1@))
}

pub open spec fn lts_view(l: Lts) -> LtsV {
    LtsV { first: l.first_state, labels: strs_view(l.labels@), adj: adj_view(l.adj_list@) }
}

/// The header `des ( first , transitions , states )`: first state and
/// number of states.
pub open spec fn ald_header(tv: Seq<TokV>) -> Option<(u32, u32)> {
    if w_at(tv, 0, seq!['d', 'e', 's']) && p_at(tv, 1, '(') && p_at(tv, 3, ',') && p_at(tv, 5, ',') && p_at(tv, 7, ')') {
        match (num_at(tv, 2), num_at(tv, 4), num_at(tv, 6)) {
            (Some(f), Some(_), Some(n)) => Some((f, n)),
            _ => None,
        }
    } else {
        None
    }
}

/// A transition `( from , "label" , to )` at token `pos`.
pub open spec fn trans_at(tv: Seq<TokV>, pos: int) -> Option<(u32, Seq<char>, u32)> {
    if p_at(tv, pos, '(') && p_at(tv, pos + 2, ',') && 0 <= pos + 3 < tv.len() && tv[pos + 3] is Quoted
        && p_at(tv, pos + 4, ',') && p_at(tv, pos + 6, ')') {
        match (num_at(tv, pos + 1), num_at(tv, pos + 5)) {
            (Some(a), Some(b)) => Some((a, tv[pos + 3]->Quoted_0, b)),
            _ => None,
        }
    } else {
        None
    }
}

/// The index of `label` among `labels`, or the next one for a new label.
pub open spec fn label_index(labels: Seq<Seq<char>>, label: Seq<char>) -> int {
    if index_of(labels, label) >= 0 { index_of(labels, label) } else { labels.len() as int }
}

/// The transitions from token `pos` on, added to the labels and adjacency
/// lists: a new label is appended; each transition is appended to the list
/// of its source; a source or target that is not a state is refused.
pub open spec fn ald_spec(tv: Seq<TokV>, pos: int, labels: Seq<Seq<char>>, adj: Seq<(u32, Seq<(usize, u32)>)>) -> Option<(Seq<Seq<char>>, Seq<(u32, Seq<(usize, u32)>)>)>
    decreases tv.len() - pos,
{
    if pos < 0 || pos >= tv.len() {
        Some((labels, adj))
    } else {
        match trans_at(tv, pos) {
            Some((from, label, to)) => {
                let l = label_index(labels, label);
                let labels2 = if l == labels.len() { labels.push(label) } else { labels };
                if from >= adj.len() || to >= adj.len() {
                    None
                } else {
                    ald_spec(tv, pos + 7, labels2, adj.update(from as int, (adj[from as int].0, adj[from as int].1.push((l as usize, to)))))
                }
            },
            None => None,
        }
    }
}

/// The transition system a text in Aldebaran format denotes: states `0`
/// to `states - 1` in order, with their transitions in the order listed.
pub open spec fn ald_text(src: Seq<char>) -> Option<LtsV> {
    match tokens_of(src) {
        Some(tv) => match ald_header(tv) {
            Some((first, n)) => match ald_spec(tv, 8, Seq::empty(), Seq::new(n as nat, |j: int| (j as u32, Seq::<(usize, u32)>::empty()))) {
                Some((labels, adj)) => Some(LtsV { first, labels, adj }),
                None => None,
            },
            None => None,
        },
        None => None,
    }
}

fn quoted(toks: &Vec<Tok>, p: usize) -> (r: Option<String>)
    ensures
        r is Some <==> 0 <= p < toks@.len() && toks_view(toks@)[p as int] is Quoted,
        r is Some ==> r->0@ == toks_view(toks@)[p as int]->Quoted_0,
{
    if p < toks.len() {
        match &toks[p] {
            Tok::Quoted(x) => return Some(x.as_str().to_owned()),
            _ => {},
        }
    }
    None
}

/// Reads an Aldebaran transition system (see [`ald_text`]).
pub fn parse_ald(src: &str) -> (r: Result<Lts, ParserError>)
    ensures
        r is Ok <==> ald_text(src@) is Some,
        r is Ok ==> lts_view(r->Ok_0) == ald_text(src@)->0,
        r is Ok ==> forall|j: int| 0 <= j < r->Ok_0.adj_list@.len() ==> (#[trigger] r->Ok_0.adj_list@[j]).0 == j,
{
    proof { lemma_words(); }
    let toks = tokenize(src)?;
    if toks.len() > usize::MAX - 8 {
        return Err(err("input too long"));
    }
    let ghost tv = toks_view(toks@);
    if !is_w(&toks, 0, "des") {
        return Err(err("expected des"));
    }
    let p = expect(&toks, 1, '(')?;
    let first_state = number_at(&toks, p)?;
    let p = expect(&toks, p + 1, ',')?;
    let _transitions = number_at(&toks, p)?;
    let p = expect(&toks, p + 1, ',')?;
    let states = number_at(&toks, p)?;
    let mut pos = expect(&toks, p + 1, ')')?;
    let mut adj: Vec<(u32, Vec<(usize, u32)>)> = Vec::new();
    let mut s: u32 = 0;
    let ghost init = Seq::new(states as nat, |j: int| (j as u32, Seq::<(usize, u32)>::empty()));
    while s < states
        invariant
            adj@.len() == s,
            s <= states,
            adj_view(adj@) == init.take(s as int),
            init == Seq::new(states as nat, |j: int| (j as u32, Seq::<(usize, u32)>::empty())),
            forall|j: int| 0 <= j < adj@.len() ==> (#[trigger] adj@[j]).0 == j,
        decreases states - s,
    {
        let ghost ab = adj@;
        let v: Vec<(usize, u32)> = Vec::new();
        adj.push((s, v));
        s = s + 1;
        proof {
            assert(adj_view(adj@) =~= adj_view(ab).push((((s - 1) as u32), Seq::<(usize, u32)>::empty())));
            assert(adj_view(adj@) =~= init.take(s as int));
        }
    }
    proof { assert(init.take(states as int) =~= init); }
    let mut labels: Vec<String> = Vec::new();
    proof { assert(strs_view(labels@) =~= Seq::<Seq<char>>::empty()); }
    while pos < toks.len()
        invariant
            toks@.len() <= usize::MAX - 8,
            tv == toks_view(toks@),
            tokens_of(src@) == Some(tv),
            ald_header(tv) == Some((first_state, states)),
            ald_spec(tv, 8, Seq::empty(), init) == ald_spec(tv, pos as int, strs_view(labels@), adj_view(adj@)),
            init == Seq::new(states as nat, |j: int| (j as u32, Seq::<(usize, u32)>::empty())),
            forall|j: int| 0 <= j < adj@.len() ==> (#[trigger] adj@[j]).0 == j,
        decreases toks@.len() - pos,
    {
        let ghost pos0 = pos as int;
        let p = expect(&toks, pos, '(')?;
        let from = number_at(&toks, p)?;
        let p = expect(&toks, p + 1, ',')?;
        let label = match quoted(&toks, p) {
            Some(x) => x,
            None => return Err(err("expected a quoted label")),
        };
        let p = expect(&toks, p + 1, ',')?;
        let to = number_at(&toks, p)?;
        pos = expect(&toks, p + 1, ')')?;
        let ghost lv = strs_view(labels@);
        proof { lemma_index_of(lv, label@); }
        let mut l: usize = 0;
        while l < labels.len() && !(labels[l] == label)
            invariant
                l <= labels@.len(),
                lv == strs_view(labels@),
                forall|t: int| 0 <= t < l ==> lv[t] != label@,
            decreases labels@.len() - l,
        {
            proof { assert(lv[l as int] == labels@[l as int]@); }
            l = l + 1;
        }
        proof {
            if l < labels@.len() {
                assert(lv[l as int] == labels@[l as int]@);
                lemma_index_of_first(lv, label@, l as int);
            } else {
                lemma_index_of_none(lv, label@);
            }
        }
        if l == labels.len() {
            let ghost lb = labels@;
            labels.push(label);
            proof { assert(strs_view(labels@) =~= strs_view(lb).push(label@)); }
        }
        if (from as usize) >= adj.len() || (to as usize) >= adj.len() {
            return Err(err("transition of an unknown state"));
        }
        let ghost av = adj_view(adj@);
        let (id, mut edges) = adj.remove(from as usize);
        let ghost eb = edges@;
        edges.push((l, to));
        adj.insert(from as usize, (id, edges));
        proof {
            assert forall|j: int| 0 <= j < adj@.len() implies (#[trigger] adj@[j]).0 == j by {}
            assert(adj_view(adj@) =~= av.update(from as int, (av[from as int].0, av[from as int].1.push((l, to)))));
        }
    }
    Ok(Lts { first_state, labels, adj_list: adj })
}

/// The index after the header `parity n ;`, when the tokens start with
/// `parity`; `0` otherwise; `-1` for a header without `;`.
pub open spec fn pg_header(tv: Seq<TokV>) -> int {
    if w_at(tv, 0, seq!['p', 'a', 'r', 'i', 't', 'y']) {
        let k = first_semi(tv, 0);
        if k < tv.len() { k + 1 } else { -1 }
    } else {
        0
    }
}

/// The first index from `i` holding `;`, or the length.
pub open spec fn first_semi(tv: Seq<TokV>, i: int) -> int
    decreases tv.len() - i,
{
    if 0 <= i < tv.len() && !p_at(tv, i, ';') { first_semi(tv, i + 1) } else { i }
}

/// Successors `, n` repeated from token `p`, appended to `acc`.
pub open spec fn succ_spec(tv: Seq<TokV>, p: int, acc: Seq<u32>) -> Option<(Seq<u32>, int)>
    decreases tv.len() - p,
{
    if p_at(tv, p, ',') {
        match num_at(tv, p + 1) {
            Some(v) => succ_spec(tv, p + 2, acc.push(v)),
            None => None,
        }
    } else {
        Some((acc, p))
    }
}

/// A vertex `id priority owner s (, s)* ["name"] ;` at token `pos`; owner
/// `0` is Eve, `1` Adam; without a name the vertex is named by its
/// identifier.
pub open spec fn vertex_at(tv: Seq<TokV>, pos: int) -> Option<(crate::pg::VertexV, int)> {
    match (num_at(tv, pos), num_at(tv, pos + 1), num_at(tv, pos + 2), num_at(tv, pos + 3)) {
        (Some(id), Some(parity), Some(o), Some(s0)) => if o > 1 {
            None
        } else {
            match succ_spec(tv, pos + 4, seq![s0]) {
                Some((succ, p)) => {
                    let named = 0 <= p < tv.len() && tv[p] is Quoted;
                    let name = if named { tv[p]->Quoted_0 } else { crate::normalizer::decimal(id as nat) };
                    let p2 = if named { p + 1 } else { p };
                    if p_at(tv, p2, ';') {
                        Some((
                            crate::pg::VertexV { id, owner: if o == 0 { Player::Eve } else { Player::Adam }, parity, name, succ },
                            p2 + 1,
                        ))
                    } else {
                        None
                    }
                },
                None => None,
            }
        },
        _ => None,
    }
}

/// The vertices from token `pos` on, appended to `acc`.
pub open spec fn pg_spec(tv: Seq<TokV>, pos: int, acc: Seq<crate::pg::VertexV>) -> Option<Seq<crate::pg::VertexV>>
    decreases tv.len() - pos,
{
    if pos < 0 || pos >= tv.len() {
        Some(acc)
    } else {
        match vertex_at(tv, pos) {
            Some((v, n)) => if pos < n { pg_spec(tv, n, acc.push(v)) } else { None },
            None => None,
        }
    }
}

/// The game a text in PGSolver format denotes.
pub open spec fn pg_text(src: Seq<char>) -> Option<Seq<crate::pg::VertexV>> {
    match tokens_of(src) {
        Some(tv) => if pg_header(tv) < 0 { None } else { pg_spec(tv, pg_header(tv), Seq::empty()) },
        None => None,
    }
}

fn vertex_entry(toks: &Vec<Tok>, pos: usize) -> (r: Result<((Node, Vec<u32>), usize), ParserError>)
    requires
        toks@.len() <= usize::MAX - 8,
    ensures
        r is Ok <==> vertex_at(toks_view(toks@), pos as int) is Some,
        r is Ok ==> vertex_at(toks_view(toks@), pos as int) == Some((crate::pg::vertex_view(r->Ok_0.0), r->Ok_0.1 as int)),
        r is Ok ==> r->Ok_0.0.1@.len() > 0 && pos < r->Ok_0.1,
{
    let ghost tv = toks_view(toks@);
    let id = number_at(toks, pos)?;
    let parity = number_at(toks, pos + 1)?;
    let o = number_at(toks, pos + 2)?;
    let s0 = number_at(toks, pos + 3)?;
    if o > 1 {
        return Err(err("owner must be 0 or 1"));
    }
    let owner = if o == 0 { Player::Eve } else { Player::Adam };
    let mut succ: Vec<u32> = Vec::new();
    succ.push(s0);
    let mut p = pos + 4;
    proof { assert(succ@ =~= seq![s0]); }
    while is_p(toks, p, ',')
        invariant
            toks@.len() <= usize::MAX - 8,
            tv == toks_view(toks@),
            pos < p <= toks@.len() + 4,
            succ@.len() > 0,
            succ_spec(tv, pos + 4, seq![s0]) == succ_spec(tv, p as int, succ@),
            num_at(tv, pos as int) == Some(id),
            num_at(tv, pos + 1) == Some(parity),
            num_at(tv, pos + 2) == Some(o),
            num_at(tv, pos + 3) == Some(s0),
            o <= 1,
        decreases toks@.len() - p,
    {
        let v = number_at(toks, p + 1)?;
        succ.push(v);
        p = p + 2;
    }
    let (name, p2) = match quoted(toks, p) {
        Some(x) => (x, p + 1),
        None => (crate::normalizer::decimal_name(id as usize), p),
    };
    let next = expect(toks, p2, ';')?;
    Ok(((Node { id, owner, parity, name }, succ), next))
}

/// Reads a PGSolver game (see [`pg_text`]).
pub fn parse_pg(src: &str) -> (r: Result<PG, ParserError>)
    ensures
        r is Ok <==> pg_text(src@) is Some,
        r is Ok ==> crate::pg::vertices_view(r->Ok_0.0@) == pg_text(src@)->0,
        r is Ok ==> forall|j: int| 0 <= j < r->Ok_0.0@.len() ==> (#[trigger] r->Ok_0.0@[j]).1@.len() > 0,
{
    proof { lemma_words(); }
    let toks = tokenize(src)?;
    if toks.len() > usize::MAX - 8 {
        return Err(err("input too long"));
    }
    let ghost tv = toks_view(toks@);
    let mut pos: usize = 0;
    if is_w(&toks, 0, "parity") {
        while pos < toks.len() && !is_p(&toks, pos, ';')
            invariant
                toks@.len() <= usize::MAX - 8,
                tv == toks_view(toks@),
                pos <= toks@.len(),
                first_semi(tv, 0) == first_semi(tv, pos as int),
            decreases toks@.len() - pos,
        {
            pos = pos + 1;
        }
        pos = expect(&toks, pos, ';')?;
    }
    let mut out: Vec<(Node, Vec<u32>)> = Vec::new();
    proof { assert(crate::pg::vertices_view(out@) =~= Seq::<crate::pg::VertexV>::empty()); }
    while pos < toks.len()
        invariant
            toks@.len() <= usize::MAX - 8,
            tv == toks_view(toks@),
            tokens_of(src@) == Some(tv),
            pg_header(tv) >= 0,
            pg_spec(tv, pg_header(tv), Seq::empty()) == pg_spec(tv, pos as int, crate::pg::vertices_view(out@)),
            forall|j: int| 0 <= j < out@.len() ==> (#[trigger] out@[j]).1@.len() > 0,
        decreases toks@.len() - pos,
    {
        let (v, next) = vertex_entry(&toks, pos)?;
        let ghost ob = crate::pg::vertices_view(out@);
        let ghost vv = crate::pg::vertex_view(v);
        out.push(v);
        proof { assert(crate::pg::vertices_view(out@) =~= ob.push(vv)); }
        pos = next;
    }
    Ok(PG(out))
}

} // verus!
