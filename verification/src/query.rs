//! The keyword field of a search, as a boolean expression.
//!
//! Words next to each other are joined by AND; AND, OR and NOT join explicitly; parentheses
//! group; a quoted phrase is one word. AND binds loosest, NOT tightest, and all of them to
//! the left. Malformed input never fails: stray operators are skipped, and a query without
//! a word is one word, the trimmed text.
use vstd::prelude::*;
use vstd::utf8::*;
use crate::text;
use crate::text::{chars_of, is_whitespace, trim};

verus! {

/// Cap on the nesting of parentheses: past it a group is given up.
pub const MAX_DEPTH: u32 = 64;

/// A token of a query.
#[derive(Debug, Clone, PartialEq, Eq)]
pub enum Tok {
    Word(Vec<char>),
    And,
    Or,
    Not,
    LParen,
    RParen,
}

/// What a token holds.
pub enum TokView {
    Word(Seq<char>),
    And,
    Or,
    Not,
    LParen,
    RParen,
}

impl View for Tok {
    type V = TokView;

    open spec fn view(&self) -> TokView {
        match self {
            Tok::Word(w) => TokView::Word(w@),
            Tok::And => TokView::And,
            Tok::Or => TokView::Or,
            Tok::Not => TokView::Not,
            Tok::LParen => TokView::LParen,
            Tok::RParen => TokView::RParen,
        }
    }
}

/// What a list of tokens holds.
pub open spec fn tok_views(toks: Seq<Tok>) -> Seq<TokView> {
    toks.map_values(|t: Tok| t@)
}

/// The token of an unquoted word: an operator where it is one, in capitals.
pub open spec fn word_token(w: Seq<char>) -> TokView {
    if w == seq!['A', 'N', 'D'] {
        TokView::And
    } else if w == seq!['O', 'R'] {
        TokView::Or
    } else if w == seq!['N', 'O', 'T'] {
        TokView::Not
    } else {
        TokView::Word(w)
    }
}

/// The token of an unquoted word, or none where it is empty.
pub open spec fn flushed(w: Seq<char>) -> Seq<TokView> {
    if w.len() == 0 {
        Seq::empty()
    } else {
        seq![word_token(w)]
    }
}

/// How many characters come before the first quote, or before the end.
pub open spec fn to_quote(s: Seq<char>) -> nat
    decreases s.len(),
{
    if s.len() == 0 || s[0] == '"' {
        0
    } else {
        1 + to_quote(s.skip(1))
    }
}

/// The tokens of `s` behind `word`, the unquoted word that has begun.
pub open spec fn tokens_after(word: Seq<char>, s: Seq<char>) -> Seq<TokView>
    decreases s.len(),
{
    if s.len() == 0 {
        flushed(word)
    } else if s[0] == '"' {
        let n = to_quote(s.skip(1));
        let phrase = s.subrange(1, 1 + n as int);
        let tail = if n + 1 >= s.len() {
            Seq::empty()
        } else {
            tokens_after(Seq::empty(), s.skip(n as int + 2))
        };
        flushed(word) + (if n > 0 {
            seq![TokView::Word(phrase)]
        } else {
            Seq::empty()
        }) + tail
    } else if s[0] == '(' {
        flushed(word) + seq![TokView::LParen] + tokens_after(Seq::empty(), s.skip(1))
    } else if s[0] == ')' {
        flushed(word) + seq![TokView::RParen] + tokens_after(Seq::empty(), s.skip(1))
    } else if text::is_space(s[0]) {
        flushed(word) + tokens_after(Seq::empty(), s.skip(1))
    } else {
        tokens_after(word.push(s[0]), s.skip(1))
    }
}

/// The tokens of a query.
pub open spec fn tokens(s: Seq<char>) -> Seq<TokView> {
    tokens_after(Seq::empty(), s)
}

fn is_and(w: &Vec<char>) -> (b: bool)
    ensures
        b == (w@ == seq!['A', 'N', 'D']),
{
    let b: bool = w.len() == 3 && w[0] == 'A' && w[1] == 'N' && w[2] == 'D';
    assert(b ==> w@ =~= seq!['A', 'N', 'D']);
    b
}

fn is_or(w: &Vec<char>) -> (b: bool)
    ensures
        b == (w@ == seq!['O', 'R']),
{
    let b: bool = w.len() == 2 && w[0] == 'O' && w[1] == 'R';
    assert(b ==> w@ =~= seq!['O', 'R']);
    b
}

fn is_not(w: &Vec<char>) -> (b: bool)
    ensures
        b == (w@ == seq!['N', 'O', 'T']),
{
    let b: bool = w.len() == 3 && w[0] == 'N' && w[1] == 'O' && w[2] == 'T';
    assert(b ==> w@ =~= seq!['N', 'O', 'T']);
    b
}

/// Append the token of the unquoted word that has begun, where one has.
fn flush(word: Vec<char>, toks: &mut Vec<Tok>)
    ensures
        tok_views(final(toks)@) == tok_views(old(toks)@) + flushed(word@),
{
    let ghost w = word@;
    if word.len() == 0 {
        assert(tok_views(toks@) =~= tok_views(old(toks)@) + flushed(w));
        return ;
    }
    if is_and(&word) {
        toks.push(Tok::And);
    } else if is_or(&word) {
        toks.push(Tok::Or);
    } else if is_not(&word) {
        toks.push(Tok::Not);
    } else {
        toks.push(Tok::Word(word));
    }
    assert(tok_views(toks@) =~= tok_views(old(toks)@) + flushed(w));
}

/// The characters from `from` to the next quote, or to the end, and where that is.
fn read_phrase(chars: &Vec<char>, from: usize) -> (r: (Vec<char>, usize))
    requires
        from <= chars@.len(),
    ensures
        r.0@ == chars@.subrange(from as int, r.1 as int),
        from <= r.1 <= chars@.len(),
        r.1 - from == to_quote(chars@.skip(from as int)),
{
    let mut phrase: Vec<char> = Vec::new();
    let mut at: usize = from;
    while at < chars.len() && chars[at] != '"'
        invariant
            from <= at <= chars@.len(),
            phrase@ == chars@.subrange(from as int, at as int),
            to_quote(chars@.skip(from as int)) == (at - from) + to_quote(chars@.skip(at as int)),
        decreases chars@.len() - at,
    {
        proof {
            assert(chars@.skip(at as int).skip(1) =~= chars@.skip(at + 1));
            assert(chars@.subrange(from as int, at + 1) =~= chars@.subrange(
                from as int,
                at as int,
            ).push(chars@[at as int]));
        }
        phrase.push(chars[at]);
        at = at + 1;
    }
    (phrase, at)
}

/// Split a query into tokens. White space separates; a quoted phrase is one word, even if
/// it spells an operator; parentheses are tokens of their own; other punctuation stays
/// inside a word.
#[verifier::rlimit(40)]
pub fn tokenize(s: &str) -> (toks: Vec<Tok>)
    ensures
        tok_views(toks@) == tokens(s@),
{
    let chars = chars_of(s);
    let mut toks: Vec<Tok> = Vec::new();
    let mut word: Vec<char> = Vec::new();
    let mut pos: usize = 0;
    proof {
        assert(chars@.skip(0) =~= chars@);
        assert(tok_views(toks@) + tokens_after(word@, chars@.skip(0)) =~= tokens(s@));
    }
    while pos < chars.len()
        invariant
            pos <= chars@.len(),
            tok_views(toks@) + tokens_after(word@, chars@.skip(pos as int)) == tokens(s@),
        decreases chars@.len() - pos,
    {
        let c: char = chars[pos];
        let ghost rest = chars@.skip(pos as int);
        let ghost done = tok_views(toks@);
        let ghost begun = word@;
        assert(rest.skip(1) =~= chars@.skip(pos + 1));
        if c == '"' {
            flush(word, &mut toks);
            word = Vec::new();
            let (phrase, at) = read_phrase(&chars, pos + 1);
            let ghost spoken = phrase@;
            let ghost mid = tok_views(toks@);
            assert(rest.subrange(1, 1 + spoken.len() as int) =~= spoken);
            if phrase.len() > 0 {
                toks.push(Tok::Word(phrase));
                assert(tok_views(toks@) =~= mid + seq![TokView::Word(spoken)]);
            } else {
                assert(tok_views(toks@) =~= mid + Seq::empty());
            }
            if at < chars.len() {
                pos = at + 1;
                assert(rest.skip(spoken.len() as int + 2) =~= chars@.skip(pos as int));
            } else {
                pos = at;
                assert(chars@.skip(pos as int) =~= Seq::empty());
            }
            assert(tok_views(toks@) + tokens_after(word@, chars@.skip(pos as int)) =~= done
                + tokens_after(begun, rest));
        } else if c == '(' {
            flush(word, &mut toks);
            word = Vec::new();
            let ghost mid = tok_views(toks@);
            toks.push(Tok::LParen);
            pos = pos + 1;
            assert(tok_views(toks@) =~= mid + seq![TokView::LParen]);
            assert(tok_views(toks@) + tokens_after(word@, chars@.skip(pos as int)) =~= done
                + tokens_after(begun, rest));
        } else if c == ')' {
            flush(word, &mut toks);
            word = Vec::new();
            let ghost mid = tok_views(toks@);
            toks.push(Tok::RParen);
            pos = pos + 1;
            assert(tok_views(toks@) =~= mid + seq![TokView::RParen]);
            assert(tok_views(toks@) + tokens_after(word@, chars@.skip(pos as int)) =~= done
                + tokens_after(begun, rest));
        } else if is_whitespace(c) {
            flush(word, &mut toks);
            word = Vec::new();
            pos = pos + 1;
            assert(tok_views(toks@) + tokens_after(word@, chars@.skip(pos as int)) =~= done
                + tokens_after(begun, rest));
        } else {
            word.push(c);
            pos = pos + 1;
        }
    }
    assert(chars@.skip(pos as int) =~= Seq::empty());
    flush(word, &mut toks);
    toks
}

/// A query as a tree. The operators are binary: a NOT node is "left and not right".
#[derive(Debug, PartialEq, Eq)]
pub enum QueryExpr {
    Word(Vec<char>),
    And(Box<QueryExpr>, Box<QueryExpr>),
    Or(Box<QueryExpr>, Box<QueryExpr>),
    Not(Box<QueryExpr>, Box<QueryExpr>),
}

/// What a query tree holds.
pub enum ExprView {
    Word(Seq<char>),
    And(Box<ExprView>, Box<ExprView>),
    Or(Box<ExprView>, Box<ExprView>),
    Not(Box<ExprView>, Box<ExprView>),
}

/// See [`ExprView`].
pub open spec fn expr_view(e: QueryExpr) -> ExprView
    decreases e,
{
    match e {
        QueryExpr::Word(w) => ExprView::Word(w@),
        QueryExpr::And(l, r) => ExprView::And(Box::new(expr_view(*l)), Box::new(expr_view(*r))),
        QueryExpr::Or(l, r) => ExprView::Or(Box::new(expr_view(*l)), Box::new(expr_view(*r))),
        QueryExpr::Not(l, r) => ExprView::Not(Box::new(expr_view(*l)), Box::new(expr_view(*r))),
    }
}

impl View for QueryExpr {
    type V = ExprView;

    open spec fn view(&self) -> ExprView {
        expr_view(*self)
    }
}

/// The first token.
pub open spec fn head(t: Seq<TokView>) -> Option<TokView> {
    if t.len() == 0 {
        None
    } else {
        Some(t[0])
    }
}

/// What a level of the grammar makes of the tokens: the expression, where there is one, and
/// the tokens left.
pub type Parsed = (Option<ExprView>, Seq<TokView>);

/// A word, or a group in parentheses, behind any stray operators. The closing parenthesis
/// may be missing.
pub open spec fn primary(t: Seq<TokView>, depth: nat) -> Parsed
    decreases t.len(), 0nat,
{
    match head(t) {
        None => (None, t),
        Some(TokView::Word(w)) => (Some(ExprView::Word(w)), t.skip(1)),
        Some(TokView::LParen) => {
            let (inner, rest) = if depth + 1 > MAX_DEPTH {
                (None, t.skip(1))
            } else {
                conjunction(t.skip(1), depth + 1)
            };
            (
                inner,
                if head(rest) == Some(TokView::RParen) {
                    rest.skip(1)
                } else {
                    rest
                },
            )
        },
        Some(_) => primary(t.skip(1), depth),
    }
}

/// The NOT level: primaries joined by NOT.
pub open spec fn exclusion(t: Seq<TokView>, depth: nat) -> Parsed
    decreases t.len(), 2nat,
{
    match primary(t, depth) {
        (None, rest) => (None, rest),
        (Some(left), rest) => if rest.len() < t.len() {
            exclusion_rest(left, rest, depth)
        } else {
            (Some(left), rest)
        },
    }
}

/// The NOT level behind its left side.
pub open spec fn exclusion_rest(left: ExprView, t: Seq<TokView>, depth: nat) -> Parsed
    decreases t.len(), 1nat,
{
    match head(t) {
        Some(TokView::Not) => match primary(t.skip(1), depth) {
            (None, rest) => (Some(left), rest),
            (Some(right), rest) => {
                let both = ExprView::Not(Box::new(left), Box::new(right));
                if rest.len() < t.len() {
                    exclusion_rest(both, rest, depth)
                } else {
                    (Some(both), rest)
                }
            },
        },
        _ => (Some(left), t),
    }
}

/// The OR level: exclusions joined by OR. A trailing OR is dropped.
pub open spec fn disjunction(t: Seq<TokView>, depth: nat) -> Parsed
    decreases t.len(), 4nat,
{
    match exclusion(t, depth) {
        (None, rest) => (None, rest),
        (Some(left), rest) => if rest.len() < t.len() {
            disjunction_rest(left, rest, depth)
        } else {
            (Some(left), rest)
        },
    }
}

/// The OR level behind its left side.
pub open spec fn disjunction_rest(left: ExprView, t: Seq<TokView>, depth: nat) -> Parsed
    decreases t.len(), 3nat,
{
    match head(t) {
        Some(TokView::Or) => match exclusion(t.skip(1), depth) {
            (None, rest) => (Some(left), rest),
            (Some(right), rest) => {
                let both = ExprView::Or(Box::new(left), Box::new(right));
                if rest.len() < t.len() {
                    disjunction_rest(both, rest, depth)
                } else {
                    (Some(both), rest)
                }
            },
        },
        _ => (Some(left), t),
    }
}

/// The AND level: disjunctions joined by AND, or by standing next to each other.
pub open spec fn conjunction(t: Seq<TokView>, depth: nat) -> Parsed
    decreases t.len(), 6nat,
{
    match disjunction(t, depth) {
        (None, rest) => (None, rest),
        (Some(left), rest) => if rest.len() < t.len() {
            conjunction_rest(left, rest, depth)
        } else {
            (Some(left), rest)
        },
    }
}

/// The AND level behind its left side.
pub open spec fn conjunction_rest(left: ExprView, t: Seq<TokView>, depth: nat) -> Parsed
    decreases t.len(), 5nat,
{
    let next = match head(t) {
        Some(TokView::And) => Some(t.skip(1)),
        Some(TokView::Word(_)) => Some(t),
        Some(TokView::LParen) => Some(t),
        _ => None,
    };
    match next {
        None => (Some(left), t),
        Some(s) => if s.len() > t.len() {
            (Some(left), t)
        } else {
            match disjunction(s, depth) {
                (None, rest) => (Some(left), rest),
                (Some(right), rest) => {
                    let both = ExprView::And(Box::new(left), Box::new(right));
                    if rest.len() < t.len() {
                        conjunction_rest(both, rest, depth)
                    } else {
                        (Some(both), rest)
                    }
                },
            }
        },
    }
}

/// The tree of a query.
pub open spec fn query_tree(s: Seq<char>) -> ExprView {
    match conjunction(tokens(s), 0).0 {
        Some(e) => e,
        None => ExprView::Word(text::trimmed(s)),
    }
}

/// Recursive-descent parser over the tokens of a query.
pub struct Parser<'a> {
    pub toks: &'a Vec<Tok>,
    pub pos: usize,
    pub depth: u32,
}

impl<'a> Parser<'a> {
    pub open spec fn wf(&self) -> bool {
        &&& self.pos <= self.toks@.len()
        &&& self.depth <= MAX_DEPTH
    }

    /// The tokens not consumed yet.
    pub open spec fn left(&self) -> Seq<TokView> {
        tok_views(self.toks@).skip(self.pos as int)
    }

    /// This is `before` after a level of the grammar that came out as `r`, which is what the
    /// level is specified to make of the tokens.
    pub open spec fn went(&self, before: &Parser, r: Option<QueryExpr>, spec: Parsed) -> bool {
        &&& self.wf()
        &&& self.toks == before.toks
        &&& self.depth == before.depth
        &&& self.pos >= before.pos
        &&& r is Some ==> self.pos > before.pos
        &&& self.left() == spec.1
        &&& match r {
            Some(e) => spec.0 == Some(e@),
            None => spec.0 is None,
        }
    }

    /// The next token.
    pub fn peek(&self) -> (t: Option<&'a Tok>)
        requires
            self.wf(),
        ensures
            match t {
                Some(t) => self.pos < self.toks@.len() && *t == self.toks@[self.pos as int] && head(
                    self.left(),
                ) == Some(t@),
                None => self.pos == self.toks@.len() && head(self.left()) is None,
            },
    {
        if self.pos < self.toks.len() {
            Some(&self.toks[self.pos])
        } else {
            None
        }
    }

    /// Consume the next token.
    pub fn bump(&mut self)
        requires
            old(self).wf(),
            old(self).pos < old(self).toks.len(),
        ensures
            final(self).wf(),
            final(self).toks == old(self).toks,
            final(self).depth == old(self).depth,
            final(self).pos == old(self).pos + 1,
            final(self).left() == old(self).left().skip(1),
    {
        self.pos = self.pos + 1;
        assert(self.left() =~= old(self).left().skip(1));
    }

    /// See [`primary`].
    pub fn parse_primary(&mut self) -> (r: Option<QueryExpr>)
        requires
            old(self).wf(),
        ensures
            final(self).went(old(self), r, primary(old(self).left(), old(self).depth as nat)),
        decreases old(self).toks@.len() - old(self).pos, 0nat,
    {
        let ghost d = self.depth as nat;
        let ghost start = self.left();
        loop
            invariant
                self.wf(),
                self.toks == old(self).toks,
                self.depth == old(self).depth == d,
                self.pos >= old(self).pos,
                start == old(self).left(),
                primary(self.left(), d) == primary(start, d),
            decreases self.toks@.len() - self.pos,
        {
            let ghost here = self.left();
            match self.peek() {
                Some(Tok::LParen) => {
                    let ghost at = self.pos;
                    self.bump();
                    let inner: Option<QueryExpr>;
                    if self.depth + 1 > MAX_DEPTH {
                        inner = None;
                    } else {
                        self.depth = self.depth + 1;
                        inner = self.parse_and();
                        self.depth = self.depth - 1;
                    }
                    let closed: bool = matches!(self.peek(), Some(Tok::RParen));
                    if closed {
                        self.bump();
                    }
                    return inner;
                },
                Some(Tok::Word(w)) => {
                    let word = w.clone();
                    self.bump();
                    return Some(QueryExpr::Word(word));
                },
                Some(_) => {
                    self.bump();
                },
                None => {
                    return None;
                },
            }
        }
    }

    /// See [`exclusion`].
    pub fn parse_not(&mut self) -> (r: Option<QueryExpr>)
        requires
            old(self).wf(),
        ensures
            final(self).went(old(self), r, exclusion(old(self).left(), old(self).depth as nat)),
        decreases old(self).toks@.len() - old(self).pos, 2nat,
    {
        let ghost d = self.depth as nat;
        let mut left: QueryExpr = match self.parse_primary() {
            Some(e) => e,
            None => {
                return None;
            },
        };
        loop
            invariant
                self.wf(),
                self.toks == old(self).toks,
                self.depth == old(self).depth == d,
                self.pos > old(self).pos,
                exclusion_rest(left@, self.left(), d) == exclusion(old(self).left(), d),
            decreases self.toks@.len() - self.pos,
        {
            let again: bool = matches!(self.peek(), Some(Tok::Not));
            if !again {
                return Some(left);
            }
            self.bump();
            match self.parse_primary() {
                Some(right) => {
                    left = QueryExpr::Not(Box::new(left), Box::new(right));
                },
                None => {
                    return Some(left);
                },
            }
        }
    }

    /// See [`disjunction`].
    pub fn parse_or(&mut self) -> (r: Option<QueryExpr>)
        requires
            old(self).wf(),
        ensures
            final(self).went(old(self), r, disjunction(old(self).left(), old(self).depth as nat)),
        decreases old(self).toks@.len() - old(self).pos, 4nat,
    {
        let ghost d = self.depth as nat;
        let mut left: QueryExpr = match self.parse_not() {
            Some(e) => e,
            None => {
                return None;
            },
        };
        loop
            invariant
                self.wf(),
                self.toks == old(self).toks,
                self.depth == old(self).depth == d,
                self.pos > old(self).pos,
                disjunction_rest(left@, self.left(), d) == disjunction(old(self).left(), d),
            decreases self.toks@.len() - self.pos,
        {
            let again: bool = matches!(self.peek(), Some(Tok::Or));
            if !again {
                return Some(left);
            }
            self.bump();
            match self.parse_not() {
                Some(right) => {
                    left = QueryExpr::Or(Box::new(left), Box::new(right));
                },
                None => {
                    return Some(left);
                },
            }
        }
    }

    /// See [`conjunction`].
    pub fn parse_and(&mut self) -> (r: Option<QueryExpr>)
        requires
            old(self).wf(),
        ensures
            final(self).went(old(self), r, conjunction(old(self).left(), old(self).depth as nat)),
        decreases old(self).toks@.len() - old(self).pos, 6nat,
    {
        let ghost d = self.depth as nat;
        let mut left: QueryExpr = match self.parse_or() {
            Some(e) => e,
            None => {
                return None;
            },
        };
        loop
            invariant
                self.wf(),
                self.toks == old(self).toks,
                self.depth == old(self).depth == d,
                self.pos > old(self).pos,
                conjunction_rest(left@, self.left(), d) == conjunction(old(self).left(), d),
            decreases self.toks@.len() - self.pos,
        {
            match self.peek() {
                Some(Tok::And) => {
                    self.bump();
                },
                Some(Tok::Word(_)) | Some(Tok::LParen) => {},
                _ => {
                    return Some(left);
                },
            }
            match self.parse_or() {
                Some(right) => {
                    left = QueryExpr::And(Box::new(left), Box::new(right));
                },
                None => {
                    return Some(left);
                },
            }
        }
    }
}

/// Parse the keyword field into a tree. Never fails: where no word is found, the trimmed
/// text is the only word.
pub fn parse_query(s: &str) -> (e: QueryExpr)
    ensures
        e@ == query_tree(s@),
{
    let toks = tokenize(s);
    let mut p = Parser { toks: &toks, pos: 0, depth: 0 };
    assert(p.left() =~= tokens(s@));
    match p.parse_and() {
        Some(e) => e,
        None => QueryExpr::Word(trim(&chars_of(s))),
    }
}

/// The words of a tree, from left to right.
pub open spec fn leaves(e: ExprView) -> Seq<Seq<char>>
    decreases e,
{
    match e {
        ExprView::Word(w) => seq![w],
        ExprView::And(l, r) => leaves(*l) + leaves(*r),
        ExprView::Or(l, r) => leaves(*l) + leaves(*r),
        ExprView::Not(l, r) => leaves(*l) + leaves(*r),
    }
}

/// No word of the tree takes more than `max` bytes of UTF-8.
pub open spec fn words_within(e: ExprView, max: nat) -> bool
    decreases e,
{
    match e {
        ExprView::Word(w) => encode_utf8(w).len() <= max,
        ExprView::And(l, r) => words_within(*l, max) && words_within(*r, max),
        ExprView::Or(l, r) => words_within(*l, max) && words_within(*r, max),
        ExprView::Not(l, r) => words_within(*l, max) && words_within(*r, max),
    }
}

/// No word among the tokens takes more than `max` bytes of UTF-8.
spec fn toks_within(t: Seq<TokView>, max: nat) -> bool {
    forall|i: int|
        0 <= i < t.len() ==> (#[trigger] t[i] matches TokView::Word(w) ==> encode_utf8(w).len()
            <= max)
}

proof fn lemma_to_quote(s: Seq<char>)
    ensures
        to_quote(s) <= s.len(),
    decreases s.len(),
{
    if s.len() > 0 && s[0] != '"' {
        lemma_to_quote(s.skip(1));
    }
}

proof fn lemma_tokens_within(word: Seq<char>, s: Seq<char>, max: nat)
    requires
        encode_utf8(word + s).len() <= max,
    ensures
        toks_within(tokens_after(word, s), max),
    decreases s.len(),
{
    text::lemma_utf8_concat(word, s);
    let none = Seq::<char>::empty();
    if s.len() > 0 {
        let one = s.take(1);
        assert(one + s.skip(1) =~= s);
        text::lemma_utf8_concat(one, s.skip(1));
        assert(none + s.skip(1) =~= s.skip(1));
        if s[0] == '"' {
            let n = to_quote(s.skip(1));
            lemma_to_quote(s.skip(1));
            let phrase = s.subrange(1, 1 + n as int);
            let behind = s.skip(1 + n as int);
            assert(s.skip(1) =~= phrase + behind);
            text::lemma_utf8_concat(phrase, behind);
            if n + 1 < s.len() {
                let tail = s.skip(n as int + 2);
                assert(behind =~= behind.take(1) + tail);
                text::lemma_utf8_concat(behind.take(1), tail);
                assert(none + tail =~= tail);
                lemma_tokens_within(none, tail, max);
            }
        } else if s[0] == '(' || s[0] == ')' || text::is_space(s[0]) {
            lemma_tokens_within(none, s.skip(1), max);
        } else {
            assert(word.push(s[0]) + s.skip(1) =~= word + s);
            lemma_tokens_within(word.push(s[0]), s.skip(1), max);
        }
    }
}

/// What a level of the grammar leaves, and makes, of tokens within a bound is within it.
spec fn within(r: Parsed, max: nat) -> bool {
    &&& toks_within(r.1, max)
    &&& r.0 matches Some(e) ==> words_within(e, max)
}

proof fn lemma_primary_within(t: Seq<TokView>, d: nat, max: nat)
    requires
        toks_within(t, max),
    ensures
        within(primary(t, d), max),
    decreases t.len(), 0nat,
{
    if t.len() > 0 {
        match t[0] {
            TokView::Word(w) => {},
            TokView::LParen => {
                if d + 1 <= MAX_DEPTH {
                    lemma_conjunction_within(t.skip(1), d + 1, max);
                }
            },
            _ => {
                lemma_primary_within(t.skip(1), d, max);
            },
        }
    }
}

proof fn lemma_exclusion_within(t: Seq<TokView>, d: nat, max: nat)
    requires
        toks_within(t, max),
    ensures
        within(exclusion(t, d), max),
    decreases t.len(), 2nat,
{
    lemma_primary_within(t, d, max);
    let (left, rest) = primary(t, d);
    if left is Some && rest.len() < t.len() {
        lemma_exclusion_rest_within(left->0, rest, d, max);
    }
}

proof fn lemma_exclusion_rest_within(left: ExprView, t: Seq<TokView>, d: nat, max: nat)
    requires
        toks_within(t, max),
        words_within(left, max),
    ensures
        within(exclusion_rest(left, t, d), max),
    decreases t.len(), 1nat,
{
    if head(t) == Some(TokView::Not) {
        lemma_primary_within(t.skip(1), d, max);
        let (right, rest) = primary(t.skip(1), d);
        if right is Some && rest.len() < t.len() {
            lemma_exclusion_rest_within(
                ExprView::Not(Box::new(left), Box::new(right->0)),
                rest,
                d,
                max,
            );
        }
    }
}

proof fn lemma_disjunction_within(t: Seq<TokView>, d: nat, max: nat)
    requires
        toks_within(t, max),
    ensures
        within(disjunction(t, d), max),
    decreases t.len(), 4nat,
{
    lemma_exclusion_within(t, d, max);
    let (left, rest) = exclusion(t, d);
    if left is Some && rest.len() < t.len() {
        lemma_disjunction_rest_within(left->0, rest, d, max);
    }
}

proof fn lemma_disjunction_rest_within(left: ExprView, t: Seq<TokView>, d: nat, max: nat)
    requires
        toks_within(t, max),
        words_within(left, max),
    ensures
        within(disjunction_rest(left, t, d), max),
    decreases t.len(), 3nat,
{
    if head(t) == Some(TokView::Or) {
        lemma_exclusion_within(t.skip(1), d, max);
        let (right, rest) = exclusion(t.skip(1), d);
        if right is Some && rest.len() < t.len() {
            lemma_disjunction_rest_within(
                ExprView::Or(Box::new(left), Box::new(right->0)),
                rest,
                d,
                max,
            );
        }
    }
}

proof fn lemma_conjunction_within(t: Seq<TokView>, d: nat, max: nat)
    requires
        toks_within(t, max),
    ensures
        within(conjunction(t, d), max),
    decreases t.len(), 6nat,
{
    lemma_disjunction_within(t, d, max);
    let (left, rest) = disjunction(t, d);
    if left is Some && rest.len() < t.len() {
        lemma_conjunction_rest_within(left->0, rest, d, max);
    }
}

proof fn lemma_conjunction_rest_within(left: ExprView, t: Seq<TokView>, d: nat, max: nat)
    requires
        toks_within(t, max),
        words_within(left, max),
    ensures
        within(conjunction_rest(left, t, d), max),
    decreases t.len(), 5nat,
{
    if t.len() > 0 {
        let s = if t[0] is And {
            t.skip(1)
        } else {
            t
        };
        if t[0] is And || t[0] is Word || t[0] is LParen {
            lemma_disjunction_within(s, d, max);
            let (right, rest) = disjunction(s, d);
            if right is Some && rest.len() < t.len() {
                lemma_conjunction_rest_within(
                    ExprView::And(Box::new(left), Box::new(right->0)),
                    rest,
                    d,
                    max,
                );
            }
        }
    }
}

/// The text without the white space at its ends takes no more bytes than the text.
proof fn lemma_trimmed_within(s: Seq<char>)
    ensures
        encode_utf8(text::trimmed(s)).len() <= encode_utf8(s).len(),
    decreases s.len(),
{
    if s.len() > 0 {
        if text::is_space(s[0]) {
            lemma_trimmed_within(s.skip(1));
            assert(s.take(1) + s.skip(1) =~= s);
            text::lemma_utf8_concat(s.take(1), s.skip(1));
        } else if text::is_space(s.last()) {
            lemma_trimmed_within(s.drop_last());
            assert(s.drop_last() + seq![s.last()] =~= s);
            text::lemma_utf8_concat(s.drop_last(), seq![s.last()]);
        }
    }
}

/// No word of a query is longer than the query.
pub proof fn lemma_query_words_within(s: Seq<char>)
    ensures
        words_within(query_tree(s), encode_utf8(s).len()),
{
    let max = encode_utf8(s).len();
    assert(Seq::<char>::empty() + s =~= s);
    lemma_tokens_within(Seq::empty(), s, max);
    lemma_conjunction_within(tokens(s), 0, max);
    lemma_trimmed_within(s);
}

/// The number of quotes in a text.
pub open spec fn quotes(s: Seq<char>) -> nat
    decreases s.len(),
{
    if s.len() == 0 {
        0
    } else {
        quotes(s.skip(1)) + (if s[0] == '"' {
            1nat
        } else {
            0nat
        })
    }
}

/// A text ends outside of quotes: each quote that opens is closed.
pub open spec fn quotes_closed(s: Seq<char>) -> bool {
    quotes(s) % 2 == 0
}

/// A text is white space.
pub open spec fn is_blank(s: Seq<char>) -> bool {
    forall|i: int| 0 <= i < s.len() ==> text::is_space(#[trigger] s[i])
}

/// The first quote of a text, where it has one, is found whatever follows the text.
proof fn lemma_quote_found(s: Seq<char>, more: Seq<char>)
    requires
        quotes(s) > 0,
    ensures
        to_quote(s) < s.len(),
        to_quote(s + more) == to_quote(s),
        quotes(s.skip(to_quote(s) as int + 1)) + 1 == quotes(s),
    decreases s.len(),
{
    if s[0] != '"' {
        lemma_quote_found(s.skip(1), more);
        assert((s + more).skip(1) =~= s.skip(1) + more);
        assert(s.skip(1).skip(to_quote(s.skip(1)) as int + 1) =~= s.skip(to_quote(s) as int + 1));
    }
}

proof fn lemma_blank_skipped(blank: Seq<char>, s: Seq<char>)
    requires
        is_blank(blank),
    ensures
        tokens(blank + s) == tokens(s),
    decreases blank.len(),
{
    if blank.len() == 0 {
        assert(blank + s =~= s);
    } else {
        let rest = blank.skip(1);
        assert forall|i: int| 0 <= i < rest.len() implies text::is_space(#[trigger] rest[i]) by {
            assert(rest[i] == blank[i + 1]);
        }
        lemma_blank_skipped(rest, s);
        assert(text::is_space(blank[0]));
        assert((blank + s).skip(1) =~= rest + s);
        assert(tokens(blank + s) =~= tokens(rest + s));
    }
}

proof fn lemma_tokens_joined(word: Seq<char>, a: Seq<char>, blank: Seq<char>, b: Seq<char>)
    requires
        quotes_closed(a),
        blank.len() > 0,
        is_blank(blank),
    ensures
        tokens_after(word, a + blank + b) == tokens_after(word, a) + tokens(b),
    decreases a.len(),
{
    let all = a + blank + b;
    let none = Seq::<char>::empty();
    if a.len() == 0 {
        let rest = blank.skip(1);
        assert forall|i: int| 0 <= i < rest.len() implies text::is_space(#[trigger] rest[i]) by {
            assert(rest[i] == blank[i + 1]);
        }
        assert(text::is_space(blank[0]));
        assert(all[0] == blank[0]);
        assert(all.skip(1) =~= rest + b);
        lemma_blank_skipped(rest, b);
        assert(tokens_after(word, all) =~= tokens_after(word, a) + tokens(b));
    } else if a[0] == '"' {
        let inner = a.skip(1);
        lemma_quote_found(inner, blank + b);
        let n = to_quote(inner) as int;
        assert(all.skip(1) =~= inner + (blank + b));
        assert(all.subrange(1, 1 + n) =~= a.subrange(1, 1 + n));
        assert(inner.skip(n + 1) =~= a.skip(n + 2));
        assert(all.skip(n + 2) =~= a.skip(n + 2) + blank + b);
        lemma_tokens_joined(none, a.skip(n + 2), blank, b);
        assert(a.skip(n + 2).len() == 0 ==> tokens_after(none, a.skip(n + 2)) =~= Seq::empty());
        assert(tokens_after(word, all) =~= tokens_after(word, a) + tokens(b));
    } else {
        assert(all.skip(1) =~= a.skip(1) + blank + b);
        assert(all[0] == a[0]);
        if a[0] == '(' || a[0] == ')' || text::is_space(a[0]) {
            lemma_tokens_joined(none, a.skip(1), blank, b);
        } else {
            lemma_tokens_joined(word.push(a[0]), a.skip(1), blank, b);
        }
        assert(tokens_after(word, all) =~= tokens_after(word, a) + tokens(b));
    }
}

/// White space separates: the tokens of two texts with white space between them are those of the
/// one and then those of the other, where the first leaves no quote open.
pub proof fn law_white_space_separates(a: Seq<char>, blank: Seq<char>, b: Seq<char>)
    requires
        quotes_closed(a),
        blank.len() > 0,
        is_blank(blank),
    ensures
        tokens(a + blank + b) == tokens(a) + tokens(b),
{
    lemma_tokens_joined(Seq::empty(), a, blank, b);
}

/// A character that neither separates words nor groups them.
pub open spec fn is_plain(c: char) -> bool {
    c != '"' && c != '(' && c != ')' && !text::is_space(c)
}

/// A text that is one word: not empty, of plain characters, and no operator.
pub open spec fn is_plain_word(w: Seq<char>) -> bool {
    &&& w.len() > 0
    &&& forall|i: int| 0 <= i < w.len() ==> is_plain(#[trigger] w[i])
    &&& w != seq!['A', 'N', 'D']
    &&& w != seq!['O', 'R']
    &&& w != seq!['N', 'O', 'T']
}

proof fn lemma_plain_run(begun: Seq<char>, w: Seq<char>, rest: Seq<char>)
    requires
        forall|i: int| 0 <= i < w.len() ==> is_plain(#[trigger] w[i]),
    ensures
        tokens_after(begun, w + rest) == tokens_after(begun + w, rest),
    decreases w.len(),
{
    if w.len() == 0 {
        assert(w + rest =~= rest);
        assert(begun + w =~= begun);
    } else {
        assert(is_plain(w[0]));
        let s = w + rest;
        assert(s[0] == w[0]);
        assert(s.skip(1) =~= w.skip(1) + rest);
        assert(begun.push(w[0]) + w.skip(1) =~= begun + w);
        assert forall|i: int| 0 <= i < w.skip(1).len() implies is_plain(#[trigger] w.skip(1)[i]) by {
            assert(w.skip(1)[i] == w[i + 1]);
        }
        lemma_plain_run(begun.push(w[0]), w.skip(1), rest);
    }
}

/// The tree of a query is never empty.
pub proof fn law_query_has_a_word(s: Seq<char>)
    ensures
        leaves(query_tree(s)).len() > 0,
{
    lemma_leaves(query_tree(s));
}

proof fn lemma_leaves(e: ExprView)
    ensures
        leaves(e).len() > 0,
    decreases e,
{
    match e {
        ExprView::Word(_) => {},
        ExprView::And(l, r) => {
            lemma_leaves(*l);
        },
        ExprView::Or(l, r) => {
            lemma_leaves(*l);
        },
        ExprView::Not(l, r) => {
            lemma_leaves(*l);
        },
    }
}

/// A plain word is a leaf by itself.
pub proof fn law_plain_word_is_a_leaf(w: Seq<char>)
    requires
        is_plain_word(w),
    ensures
        query_tree(w) == ExprView::Word(w),
{
    let none = Seq::<char>::empty();
    assert(w + none =~= w);
    assert(none + w =~= w);
    lemma_plain_run(none, w, none);
    let t = tokens(w);
    assert(t =~= seq![TokView::Word(w)]);
    assert(t.skip(1) =~= Seq::empty());
    reveal_with_fuel(conjunction_rest, 1);
    assert(primary(t, 0) == (Some(ExprView::Word(w)), t.skip(1)));
    assert(exclusion(t, 0) == (Some(ExprView::Word(w)), t.skip(1)));
    assert(disjunction(t, 0) == (Some(ExprView::Word(w)), t.skip(1)));
    assert(conjunction(t, 0) == (Some(ExprView::Word(w)), t.skip(1)));
}

/// A quoted phrase is one leaf, whatever it holds.
pub proof fn law_quoted_phrase_is_a_leaf(p: Seq<char>)
    requires
        p.len() > 0,
        forall|i: int| 0 <= i < p.len() ==> #[trigger] p[i] != '"',
    ensures
        query_tree(seq!['"'] + p + seq!['"']) == ExprView::Word(p),
{
    let s = seq!['"'] + p + seq!['"'];
    assert(s.skip(1) =~= p + seq!['"']);
    lemma_quote_end(p);
    assert(s.subrange(1, 1 + p.len() as int) =~= p);
    let none = Seq::<char>::empty();
    assert(s.skip(p.len() as int + 2) =~= none);
    assert(tokens_after(none, none) =~= Seq::empty());
    let t = tokens(s);
    assert(t =~= seq![TokView::Word(p)]);
    assert(t.skip(1) =~= Seq::empty());
    assert(primary(t, 0) == (Some(ExprView::Word(p)), t.skip(1)));
    assert(exclusion(t, 0) == (Some(ExprView::Word(p)), t.skip(1)));
    assert(disjunction(t, 0) == (Some(ExprView::Word(p)), t.skip(1)));
    assert(conjunction(t, 0) == (Some(ExprView::Word(p)), t.skip(1)));
}

proof fn lemma_quote_end(p: Seq<char>)
    requires
        forall|i: int| 0 <= i < p.len() ==> #[trigger] p[i] != '"',
    ensures
        to_quote(p + seq!['"']) == p.len(),
    decreases p.len(),
{
    let s = p + seq!['"'];
    if p.len() == 0 {
        assert(s[0] == '"');
    } else {
        assert(s[0] == p[0]);
        assert(s.skip(1) =~= p.skip(1) + seq!['"']);
        assert forall|i: int| 0 <= i < p.skip(1).len() implies #[trigger] p.skip(1)[i] != '"' by {
            assert(p.skip(1)[i] == p[i + 1]);
        }
        lemma_quote_end(p.skip(1));
    }
}

/// Two words next to each other are joined by AND.
pub proof fn law_adjacent_words_are_anded(a: Seq<char>, b: Seq<char>)
    requires
        is_plain_word(a),
        is_plain_word(b),
    ensures
        query_tree(a + seq![' '] + b) == ExprView::And(
            Box::new(ExprView::Word(a)),
            Box::new(ExprView::Word(b)),
        ),
{
    let none = Seq::<char>::empty();
    let s = a + seq![' '] + b;
    let behind = seq![' '] + b;
    assert(s =~= a + behind);
    assert(none + a =~= a);
    lemma_plain_run(none, a, behind);
    assert(behind.skip(1) =~= b + none);
    assert(none + b =~= b);
    lemma_plain_run(none, b, none);
    let t = tokens(s);
    let (wa, wb) = (ExprView::Word(a), ExprView::Word(b));
    assert(t =~= seq![TokView::Word(a), TokView::Word(b)]);
    let t1 = t.skip(1);
    let t2 = t1.skip(1);
    assert(t1 =~= seq![TokView::Word(b)]);
    assert(t2 =~= Seq::empty());
    assert(primary(t, 0) == (Some(wa), t1));
    assert(exclusion_rest(wa, t1, 0) == (Some(wa), t1));
    assert(exclusion(t, 0) == (Some(wa), t1));
    assert(disjunction_rest(wa, t1, 0) == (Some(wa), t1));
    assert(disjunction(t, 0) == (Some(wa), t1));
    assert(primary(t1, 0) == (Some(wb), t2));
    assert(exclusion(t1, 0) == (Some(wb), t2));
    assert(disjunction(t1, 0) == (Some(wb), t2));
    let both = ExprView::And(Box::new(wa), Box::new(wb));
    assert(conjunction_rest(both, t2, 0) == (Some(both), t2));
    assert(conjunction_rest(wa, t1, 0) == (Some(both), t2));
}

/// How tightly the operator of an expression binds: AND least, NOT most, and a word needs no
/// brackets at all.
pub open spec fn tightness(e: ExprView) -> nat {
    match e {
        ExprView::And(_, _) => 0,
        ExprView::Or(_, _) => 1,
        ExprView::Not(_, _) => 2,
        ExprView::Word(_) => 3,
    }
}

/// Tokens in brackets, where `b` says so.
pub open spec fn bracketed(b: bool, t: Seq<TokView>) -> Seq<TokView> {
    if b {
        seq![TokView::LParen] + t + seq![TokView::RParen]
    } else {
        t
    }
}

/// An expression as one writes it, in a place that asks for a tightness of `level`: its left side,
/// its operator, its right side. A left side may be as loose as the operator, a right side is
/// tighter; what is too loose for its place stands in brackets. The AND may be left out, by `and`.
pub open spec fn written(e: ExprView, level: nat, and: bool) -> Seq<TokView>
    decreases e,
{
    match e {
        ExprView::Word(w) => seq![TokView::Word(w)],
        ExprView::And(l, r) => bracketed(
            level > 0,
            written(*l, 0, and) + (if and {
                seq![TokView::And]
            } else {
                Seq::empty()
            }) + written(*r, 1, and),
        ),
        ExprView::Or(l, r) => bracketed(
            level > 1,
            written(*l, 1, and) + seq![TokView::Or] + written(*r, 2, and),
        ),
        ExprView::Not(l, r) => bracketed(
            level > 2,
            written(*l, 2, and) + seq![TokView::Not] + written(*r, 3, and),
        ),
    }
}

/// How deep the brackets of an expression nest, as it is written.
pub open spec fn nesting(e: ExprView, level: nat) -> nat
    decreases e,
{
    let inner = match e {
        ExprView::Word(_) => 0,
        ExprView::And(l, r) => deeper(nesting(*l, 0), nesting(*r, 1)),
        ExprView::Or(l, r) => deeper(nesting(*l, 1), nesting(*r, 2)),
        ExprView::Not(l, r) => deeper(nesting(*l, 2), nesting(*r, 3)),
    };
    if level > tightness(e) {
        inner + 1
    } else {
        inner
    }
}

/// The greater of two.
pub open spec fn deeper(a: nat, b: nat) -> nat {
    if a < b {
        b
    } else {
        a
    }
}

proof fn lemma_written_head(e: ExprView, level: nat, and: bool)
    ensures
        written(e, level, and).len() > 0,
        written(e, level, and)[0] is Word || written(e, level, and)[0] is LParen,
    decreases e,
{
    match e {
        ExprView::Word(_) => {},
        ExprView::And(l, _) => {
            lemma_written_head(*l, 0, and);
        },
        ExprView::Or(l, _) => {
            lemma_written_head(*l, 1, and);
        },
        ExprView::Not(l, _) => {
            lemma_written_head(*l, 2, and);
        },
    }
}

/// How far a level is from the one at which the expression is taken apart.
spec fn steps_to_own(e: ExprView, level: nat) -> nat {
    if level > tightness(e) {
        (10 - level) as nat
    } else {
        (tightness(e) - level) as nat
    }
}

/// What each level of the grammar makes of an expression that is written for it.
#[verifier::rlimit(60)]
proof fn lemma_written(e: ExprView, level: nat, and: bool, rest: Seq<TokView>, d: nat)
    requires
        level <= 3,
        d + nesting(e, level) <= MAX_DEPTH,
        level <= 1 ==> head(rest) != Some(TokView::Not),
        level == 0 ==> head(rest) != Some(TokView::Or),
    ensures
        level == 3 ==> primary(written(e, level, and) + rest, d) == (Some(e), rest),
        level == 2 ==> exclusion(written(e, level, and) + rest, d) == exclusion_rest(e, rest, d),
        level == 1 ==> disjunction(written(e, level, and) + rest, d) == disjunction_rest(e, rest, d),
        level == 0 ==> conjunction(written(e, level, and) + rest, d) == conjunction_rest(e, rest, d),
    decreases e, steps_to_own(e, level),
{
    let t = written(e, level, and) + rest;
    lemma_written_head(e, level, and);
    if level < tightness(e) {
        lemma_written_at(e, level, and);
        lemma_written(e, level + 1, and, rest, d);
    } else if level > tightness(e) {
        if level < 3 {
            lemma_written_at(e, level, and);
            lemma_written(e, 3, and, rest, d);
        } else {
            let close = seq![TokView::RParen] + rest;
            let inner = written(e, 0, and);
            lemma_written_at(e, 3, and);
            lemma_written_at(e, 0, and);
            assert(t =~= seq![TokView::LParen] + (inner + close));
            assert(t.skip(1) =~= inner + close);
            lemma_written(e, 0, and, close, d + 1);
            assert(head(close) == Some(TokView::RParen));
            assert(conjunction_rest(e, close, d + 1) == (Some(e), close));
            assert(close.skip(1) =~= rest);
        }
    } else {
        match e {
            ExprView::Word(w) => {
                assert(t.skip(1) =~= rest);
            },
            ExprView::Not(l, r) => {
                let (pl, pr) = (written(*l, 2, and), written(*r, 3, and));
                let behind = seq![TokView::Not] + (pr + rest);
                assert(t =~= pl + behind);
                lemma_written(*l, 2, and, behind, d);
                assert(behind.skip(1) =~= pr + rest);
                lemma_written(*r, 3, and, rest, d);
            },
            ExprView::Or(l, r) => {
                let (pl, pr) = (written(*l, 1, and), written(*r, 2, and));
                let behind = seq![TokView::Or] + (pr + rest);
                assert(t =~= pl + behind);
                lemma_written(*l, 1, and, behind, d);
                assert(behind.skip(1) =~= pr + rest);
                lemma_written(*r, 2, and, rest, d);
                assert(exclusion_rest(*r, rest, d) == (Some(*r), rest));
            },
            ExprView::And(l, r) => {
                let (pl, pr) = (written(*l, 0, and), written(*r, 1, and));
                lemma_written_head(*r, 1, and);
                let behind = (if and {
                    seq![TokView::And]
                } else {
                    Seq::empty()
                }) + (pr + rest);
                assert(t =~= pl + behind);
                assert(!and ==> behind[0] == pr[0]);
                lemma_written(*l, 0, and, behind, d);
                if and {
                    assert(behind.skip(1) =~= pr + rest);
                } else {
                    assert(behind =~= pr + rest);
                }
                lemma_written(*r, 1, and, rest, d);
                assert(disjunction_rest(*r, rest, d) == (Some(*r), rest));
            },
        }
    }
}

/// An expression is written alike wherever it needs no brackets, and alike where it needs them.
proof fn lemma_written_at(e: ExprView, level: nat, and: bool)
    requires
        level <= 3,
    ensures
        level < tightness(e) ==> written(e, level, and) == written(e, level + 1, and) && nesting(
            e,
            level,
        ) == nesting(e, level + 1),
        level > tightness(e) ==> written(e, level, and) == written(e, 3, and) && nesting(e, level)
            == nesting(e, 3) && nesting(e, 0) + 1 == nesting(e, 3) && written(e, 3, and)
            == seq![TokView::LParen] + written(e, 0, and) + seq![TokView::RParen],
{
}

/// A query is read as it is written: NOT binds tightest and AND loosest, operators of a kind group
/// to the left, brackets group what stands in them, words next to each other are joined by AND, and
/// the left side of an operator is the one to its left.
pub proof fn law_a_query_is_read_as_written(s: Seq<char>, e: ExprView, and: bool)
    requires
        tokens(s) == written(e, 0, and),
        nesting(e, 0) <= 64,
    ensures
        query_tree(s) == e,
{
    let none = Seq::<TokView>::empty();
    lemma_written(e, 0, and, none, 0);
    assert(written(e, 0, and) + none =~= tokens(s));
    assert(conjunction_rest(e, none, 0) == (Some(e), none));
}

proof fn lemma_no_quotes(w: Seq<char>)
    requires
        forall|i: int| 0 <= i < w.len() ==> #[trigger] w[i] != '"',
    ensures
        quotes(w) == 0,
    decreases w.len(),
{
    if w.len() > 0 {
        assert forall|i: int| 0 <= i < w.skip(1).len() implies #[trigger] w.skip(1)[i] != '"' by {
            assert(w.skip(1)[i] == w[i + 1]);
        }
        lemma_no_quotes(w.skip(1));
        assert(w[0] != '"');
    }
}

/// A run of plain characters is one token: an operator if it is AND, OR or NOT in capitals, else a
/// word, as it stands.
pub proof fn law_a_run_of_characters_is_one_token(w: Seq<char>)
    requires
        w.len() > 0,
        forall|i: int| 0 <= i < w.len() ==> is_plain(#[trigger] w[i]),
    ensures
        tokens(w) == seq![
            if w == seq!['A', 'N', 'D'] {
                TokView::And
            } else if w == seq!['O', 'R'] {
                TokView::Or
            } else if w == seq!['N', 'O', 'T'] {
                TokView::Not
            } else {
                TokView::Word(w)
            },
        ],
{
    let none = Seq::<char>::empty();
    assert(w + none =~= w);
    assert(none + w =~= w);
    lemma_plain_run(none, w, none);
}

/// A bracket is a token of its own and separates what stands around it, where no quote is open.
pub proof fn law_a_bracket_is_a_token(a: Seq<char>, b: Seq<char>)
    requires
        quotes_closed(a),
    ensures
        tokens(a + seq!['('] + b) == tokens(a) + seq![TokView::LParen] + tokens(b),
        tokens(a + seq![')'] + b) == tokens(a) + seq![TokView::RParen] + tokens(b),
{
    lemma_bracket(Seq::empty(), a, '(', b);
    lemma_bracket(Seq::empty(), a, ')', b);
}

proof fn lemma_bracket(word: Seq<char>, a: Seq<char>, c: char, b: Seq<char>)
    requires
        quotes_closed(a),
        c == '(' || c == ')',
    ensures
        tokens_after(word, a + seq![c] + b) == tokens_after(word, a) + seq![
            if c == '(' {
                TokView::LParen
            } else {
                TokView::RParen
            },
        ] + tokens(b),
    decreases a.len(),
{
    let all = a + seq![c] + b;
    let none = Seq::<char>::empty();
    let tok = seq![
        if c == '(' {
            TokView::LParen
        } else {
            TokView::RParen
        },
    ];
    if a.len() == 0 {
        assert(all[0] == c);
        assert(all.skip(1) =~= b);
        assert(tokens_after(word, all) =~= tokens_after(word, a) + tok + tokens(b));
    } else if a[0] == '"' {
        let inner = a.skip(1);
        lemma_quote_found(inner, seq![c] + b);
        let n = to_quote(inner) as int;
        assert(all.skip(1) =~= inner + (seq![c] + b));
        assert(all.subrange(1, 1 + n) =~= a.subrange(1, 1 + n));
        assert(inner.skip(n + 1) =~= a.skip(n + 2));
        assert(all.skip(n + 2) =~= a.skip(n + 2) + seq![c] + b);
        lemma_bracket(none, a.skip(n + 2), c, b);
        assert(a.skip(n + 2).len() == 0 ==> tokens_after(none, a.skip(n + 2)) =~= Seq::empty());
        assert(tokens_after(word, all) =~= tokens_after(word, a) + tok + tokens(b));
    } else {
        assert(all.skip(1) =~= a.skip(1) + seq![c] + b);
        assert(all[0] == a[0]);
        if a[0] == '(' || a[0] == ')' || text::is_space(a[0]) {
            lemma_bracket(none, a.skip(1), c, b);
        } else {
            lemma_bracket(word.push(a[0]), a.skip(1), c, b);
        }
        assert(tokens_after(word, all) =~= tokens_after(word, a) + tok + tokens(b));
    }
}

/// What stands in quotes is one word, whatever it holds, and separates what stands around it.
pub proof fn law_a_phrase_is_a_token(a: Seq<char>, phrase: Seq<char>, b: Seq<char>)
    requires
        quotes_closed(a),
        phrase.len() > 0,
        forall|i: int| 0 <= i < phrase.len() ==> #[trigger] phrase[i] != '"',
    ensures
        tokens(a + seq!['"'] + phrase + seq!['"'] + b) == tokens(a) + seq![TokView::Word(phrase)]
            + tokens(b),
{
    lemma_phrase(Seq::empty(), a, phrase, b);
}

proof fn lemma_phrase(word: Seq<char>, a: Seq<char>, phrase: Seq<char>, b: Seq<char>)
    requires
        quotes_closed(a),
        phrase.len() > 0,
        forall|i: int| 0 <= i < phrase.len() ==> #[trigger] phrase[i] != '"',
    ensures
        tokens_after(word, a + seq!['"'] + phrase + seq!['"'] + b) == tokens_after(word, a) + seq![
            TokView::Word(phrase),
        ] + tokens(b),
    decreases a.len(),
{
    let quoted = seq!['"'] + phrase + seq!['"'];
    let all = a + seq!['"'] + phrase + seq!['"'] + b;
    let none = Seq::<char>::empty();
    let tok = seq![TokView::Word(phrase)];
    assert(all =~= a + (quoted + b));
    if a.len() == 0 {
        let inner = phrase + seq!['"'];
        assert(all[0] == '"');
        assert(all.skip(1) =~= inner + b);
        lemma_quote_end(phrase);
        assert(inner.last() == '"');
        lemma_quotes_some(inner, phrase.len() as int);
        lemma_quote_found(inner, b);
        let n = phrase.len() as int;
        assert(all.subrange(1, 1 + n) =~= phrase);
        assert(all.skip(n + 2) =~= b);
        assert(b.len() == 0 ==> tokens(b) =~= Seq::empty());
        assert(tokens_after(word, all) =~= tokens_after(word, a) + tok + tokens(b));
    } else if a[0] == '"' {
        let inner = a.skip(1);
        lemma_quote_found(inner, quoted + b);
        let n = to_quote(inner) as int;
        assert(all.skip(1) =~= inner + (quoted + b));
        assert(all.subrange(1, 1 + n) =~= a.subrange(1, 1 + n));
        assert(inner.skip(n + 1) =~= a.skip(n + 2));
        assert(all.skip(n + 2) =~= a.skip(n + 2) + seq!['"'] + phrase + seq!['"'] + b);
        lemma_phrase(none, a.skip(n + 2), phrase, b);
        assert(a.skip(n + 2).len() == 0 ==> tokens_after(none, a.skip(n + 2)) =~= Seq::empty());
        assert(tokens_after(word, all) =~= tokens_after(word, a) + tok + tokens(b));
    } else {
        assert(all.skip(1) =~= a.skip(1) + seq!['"'] + phrase + seq!['"'] + b);
        assert(all[0] == a[0]);
        if a[0] == '(' || a[0] == ')' || text::is_space(a[0]) {
            lemma_phrase(none, a.skip(1), phrase, b);
        } else {
            lemma_phrase(word.push(a[0]), a.skip(1), phrase, b);
        }
        assert(tokens_after(word, all) =~= tokens_after(word, a) + tok + tokens(b));
    }
}

proof fn lemma_quotes_some(s: Seq<char>, i: int)
    requires
        0 <= i < s.len(),
        s[i] == '"',
    ensures
        quotes(s) > 0,
    decreases s.len(),
{
    if i > 0 {
        assert(s.skip(1)[i - 1] == s[i]);
        lemma_quotes_some(s.skip(1), i - 1);
    }
}

/// Two words with an operator between them are joined by it, the first on its left.
pub proof fn law_an_operator_joins_two_words(a: Seq<char>, b: Seq<char>)
    requires
        is_plain_word(a),
        is_plain_word(b),
    ensures
        query_tree(a + seq![' ', 'N', 'O', 'T', ' '] + b) == ExprView::Not(
            Box::new(ExprView::Word(a)),
            Box::new(ExprView::Word(b)),
        ),
        query_tree(a + seq![' ', 'O', 'R', ' '] + b) == ExprView::Or(
            Box::new(ExprView::Word(a)),
            Box::new(ExprView::Word(b)),
        ),
        query_tree(a + seq![' ', 'A', 'N', 'D', ' '] + b) == ExprView::And(
            Box::new(ExprView::Word(a)),
            Box::new(ExprView::Word(b)),
        ),
{
    let (wa, wb) = (Box::new(ExprView::Word(a)), Box::new(ExprView::Word(b)));
    let (not, or, and) = (seq!['N', 'O', 'T'], seq!['O', 'R'], seq!['A', 'N', 'D']);
    lemma_joined_by(a, not, b);
    lemma_joined_by(a, or, b);
    lemma_joined_by(a, and, b);
    assert(a + seq![' ', 'N', 'O', 'T', ' '] + b =~= a + seq![' '] + (not + seq![' '] + b));
    assert(a + seq![' ', 'O', 'R', ' '] + b =~= a + seq![' '] + (or + seq![' '] + b));
    assert(a + seq![' ', 'A', 'N', 'D', ' '] + b =~= a + seq![' '] + (and + seq![' '] + b));
    reveal_with_fuel(written, 2);
    reveal_with_fuel(nesting, 2);
    let (ta, tb) = (TokView::Word(a), TokView::Word(b));
    assert(written(ExprView::Not(wa, wb), 0, true) =~= seq![ta, TokView::Not, tb]);
    assert(written(ExprView::Or(wa, wb), 0, true) =~= seq![ta, TokView::Or, tb]);
    assert(written(ExprView::And(wa, wb), 0, true) =~= seq![ta, TokView::And, tb]);
    law_a_query_is_read_as_written(
        a + seq![' ', 'N', 'O', 'T', ' '] + b,
        ExprView::Not(wa, wb),
        true,
    );
    law_a_query_is_read_as_written(a + seq![' ', 'O', 'R', ' '] + b, ExprView::Or(wa, wb), true);
    law_a_query_is_read_as_written(
        a + seq![' ', 'A', 'N', 'D', ' '] + b,
        ExprView::And(wa, wb),
        true,
    );
}

proof fn lemma_joined_by(a: Seq<char>, op: Seq<char>, b: Seq<char>)
    requires
        is_plain_word(a),
        is_plain_word(b),
        op == seq!['N', 'O', 'T'] || op == seq!['O', 'R'] || op == seq!['A', 'N', 'D'],
    ensures
        tokens(a + seq![' '] + (op + seq![' '] + b)) == seq![
            TokView::Word(a),
            word_token(op),
            TokView::Word(b),
        ],
{
    assert forall|i: int| 0 <= i < op.len() implies is_plain(#[trigger] op[i]) by {}
    lemma_no_quotes(a);
    lemma_no_quotes(op);
    law_white_space_separates(op, seq![' '], b);
    law_white_space_separates(a, seq![' '], op + seq![' '] + b);
    law_a_run_of_characters_is_one_token(a);
    law_a_run_of_characters_is_one_token(op);
    law_a_run_of_characters_is_one_token(b);
    assert(seq![TokView::Word(a)] + (seq![word_token(op)] + seq![TokView::Word(b)]) =~= seq![
        TokView::Word(a),
        word_token(op),
        TokView::Word(b),
    ]);
}

/// No token of the list is a word.
pub open spec fn wordless(t: Seq<TokView>) -> bool {
    forall|i: int| 0 <= i < t.len() ==> !((#[trigger] t[i]) is Word)
}

proof fn lemma_wordless(t: Seq<TokView>, d: nat)
    requires
        wordless(t),
    ensures
        primary(t, d).0 is None,
        conjunction(t, d).0 is None,
        wordless(primary(t, d).1),
        wordless(conjunction(t, d).1),
    decreases t.len(),
{
    if t.len() > 0 {
        assert(!(t[0] is Word));
        lemma_wordless_skip(t);
        lemma_wordless(t.skip(1), d);
        if t[0] is LParen {
            lemma_wordless(t.skip(1), d + 1);
            let (inner, rest) = if d + 1 > MAX_DEPTH {
                (None, t.skip(1))
            } else {
                conjunction(t.skip(1), d + 1)
            };
            if head(rest) == Some(TokView::RParen) {
                lemma_wordless_skip(rest);
            }
        }
    }
}

proof fn lemma_wordless_skip(t: Seq<TokView>)
    requires
        wordless(t),
        t.len() > 0,
    ensures
        wordless(t.skip(1)),
{
    assert forall|i: int| 0 <= i < t.skip(1).len() implies !((#[trigger] t.skip(1)[i]) is Word) by {
        assert(t.skip(1)[i] == t[i + 1]);
    }
}

/// A query without a word is one word, the text without the white space around it. So is one that
/// begins with more brackets than may nest.
pub proof fn law_a_query_that_says_nothing_is_taken_literally(s: Seq<char>)
    requires
        ({
            ||| wordless(tokens(s))
            ||| tokens(s).len() > 64 && forall|i: int|
                0 <= i <= 64 ==> (#[trigger] tokens(s)[i]) is LParen
        }),
    ensures
        query_tree(s) == ExprView::Word(text::trimmed(s)),
{
    let t = tokens(s);
    if wordless(t) {
        lemma_wordless(t, 0);
    } else {
        lemma_too_deep(t, 0);
    }
}

proof fn lemma_too_deep(t: Seq<TokView>, d: nat)
    requires
        d <= MAX_DEPTH,
        t.len() > MAX_DEPTH - d,
        forall|i: int| 0 <= i <= MAX_DEPTH - d ==> (#[trigger] t[i]) is LParen,
    ensures
        primary(t, d).0 is None,
        conjunction(t, d).0 is None,
    decreases MAX_DEPTH - d,
{
    assert(t[0] is LParen);
    if d < MAX_DEPTH {
        let less = t.skip(1);
        assert forall|i: int| 0 <= i <= MAX_DEPTH - (d + 1) implies (#[trigger] less[i]) is LParen by {
            assert(less[i] == t[i + 1]);
        }
        lemma_too_deep(less, d + 1);
    }
}

} // verus!
