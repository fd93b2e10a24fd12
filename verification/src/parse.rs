//! The parser: turns source text into a parse tree.

use crate::tree::{lemma_pair_views, pair_views, Pair, PairView, Rule};
use vstd::prelude::*;
use vstd::std_specs::iter::IteratorSpec;

verus! {

/// Why a source text could not be parsed.
#[derive(Debug, Clone, Copy, PartialEq, Eq, Structural)]
pub enum Error {
    ParseError,
}

/// A source text with its characters at hand.
struct Source<'a> {
    text: &'a str,
    chars: Vec<char>,
}

impl<'a> View for Source<'a> {
    type V = Seq<char>;

    closed spec fn view(&self) -> Seq<char> {
        self.text@
    }
}

impl<'a> Source<'a> {
    #[verifier::type_invariant]
    closed spec fn consistent(&self) -> bool {
        self.chars@ == self.text@
    }

    /// The source of the text `text`.
    fn new(text: &'a str) -> (src: Source<'a>)
        ensures
            src@ == text@,
    {
        let mut chars: Vec<char> = Vec::new();
        let mut rest = text.chars();
        loop
            invariant
                chars@ + rest.remaining() == text@,
                rest.obeys_prophetic_iter_laws(),
                rest.decrease() is Some,
            ensures
                chars@ == text@,
            decreases rest.decrease()->0,
        {
            let ghost before = rest;
            match rest.next() {
                Some(c) => {
                    chars.push(c);
                    assert(chars@ + rest.remaining() =~= text@);
                },
                None => {
                    assert(chars@ =~= text@);
                    break ;
                },
            }
        }
        Source { text, chars }
    }

    /// The number of characters.
    fn len(&self) -> (n: usize)
        ensures
            n == self@.len(),
    {
        proof {
            use_type_invariant(self);
        }
        self.chars.len()
    }

    /// The character at position `at`, if the text goes that far.
    fn peek(&self, at: usize) -> (c: Option<char>)
        ensures
            c == look(self@, at as int),
    {
        proof {
            use_type_invariant(self);
        }
        if at < self.chars.len() {
            Some(self.chars[at])
        } else {
            None
        }
    }

    /// The text from position `from` up to position `to`.
    fn slice(&self, from: usize, to: usize) -> (s: String)
        requires
            from <= to <= self@.len(),
        ensures
            s@ == self@.subrange(from as int, to as int),
    {
        self.text.substring_char(from, to).to_owned()
    }
}

/// The character at position `at` of `src`, if `src` goes that far.
pub open spec fn look(src: Seq<char>, at: int) -> Option<char> {
    if 0 <= at < src.len() {
        Some(src[at])
    } else {
        None
    }
}


/// Blanks between the tokens.
pub open spec fn is_space(c: char) -> bool {
    c == ' ' || c == '\t' || c == '\n' || c == '\r'
}

/// The characters of a number.
pub open spec fn is_digit(c: char) -> bool {
    '0' <= c <= '9'
}

/// The characters that an identifier begins with.
pub open spec fn is_ident_start(c: char) -> bool {
    'a' <= c <= 'z' || 'A' <= c <= 'Z' || c == '_'
}

/// The characters that an identifier goes on with.
pub open spec fn is_ident_part(c: char) -> bool {
    is_ident_start(c) || is_digit(c)
}

/// Where the text goes on behind the blanks and comments that begin at
/// `at`. A comment runs from `#` to the end of its line; `in_comment` says
/// that `at` stands in one.
pub open spec fn skip(src: Seq<char>, at: int, in_comment: bool) -> int
    decreases src.len() - at,
{
    if at < 0 || at >= src.len() {
        at
    } else if in_comment {
        skip(src, at + 1, src[at] != '\n')
    } else if is_space(src[at]) {
        skip(src, at + 1, false)
    } else if src[at] == '#' {
        skip(src, at + 1, true)
    } else {
        at
    }
}

/// Where the digits that begin at `at` end.
pub open spec fn digits_end(src: Seq<char>, at: int) -> int
    decreases src.len() - at,
{
    if 0 <= at < src.len() && is_digit(src[at]) {
        digits_end(src, at + 1)
    } else {
        at
    }
}

/// Where the identifier characters that begin at `at` end.
pub open spec fn ident_end(src: Seq<char>, at: int) -> int
    decreases src.len() - at,
{
    if 0 <= at < src.len() && is_ident_part(src[at]) {
        ident_end(src, at + 1)
    } else {
        at
    }
}

/// The first position from `at` on that holds `quote`, or the end of the
/// text.
pub open spec fn find(src: Seq<char>, at: int, quote: char) -> int
    decreases src.len() - at,
{
    if 0 <= at < src.len() && src[at] != quote {
        find(src, at + 1, quote)
    } else {
        at
    }
}

/// Whether `word` stands at position `at`.
pub open spec fn has(src: Seq<char>, at: int, word: Seq<char>) -> bool {
    0 <= at && at + word.len() <= src.len() && src.subrange(at, at + word.len()) == word
}

/// Skipping blanks goes forward, and not beyond the end of the text.
pub proof fn lemma_skip(src: Seq<char>, at: int, in_comment: bool)
    requires
        at <= src.len(),
    ensures
        at <= skip(src, at, in_comment) <= src.len(),
    decreases src.len() - at,
{
    if 0 <= at < src.len() {
        lemma_skip(src, at + 1, true);
        lemma_skip(src, at + 1, false);
    }
}

fn space(c: char) -> (r: bool)
    ensures
        r == is_space(c),
{
    c == ' ' || c == '\t' || c == '\n' || c == '\r'
}

fn digit(c: char) -> (r: bool)
    ensures
        r == is_digit(c),
{
    '0' <= c && c <= '9'
}

fn ident_start(c: char) -> (r: bool)
    ensures
        r == is_ident_start(c),
{
    ('a' <= c && c <= 'z') || ('A' <= c && c <= 'Z') || c == '_'
}

impl<'a> Source<'a> {
    /// Skips blanks and comments from `at` on.
    fn skip_blanks(&self, at: usize) -> (end: usize)
        requires
            at <= self@.len(),
        ensures
            end == skip(self@, at as int, false),
            at <= end <= self@.len(),
    {
        let n = self.len();
        let mut i = at;
        let mut in_comment = false;
        loop
            invariant
                n == self@.len(),
                at <= i <= self@.len(),
                skip(self@, at as int, false) == skip(self@, i as int, in_comment),
            ensures
                at <= i <= self@.len(),
                i == skip(self@, at as int, false),
            decreases self@.len() - i,
        {
            match self.peek(i) {
                None => {
                    break ;
                },
                Some(c) => {
                    if in_comment {
                        in_comment = c != '\n';
                    } else if space(c) {
                    } else if c == '#' {
                        in_comment = true;
                    } else {
                        break ;
                    }
                },
            }
            i += 1;
        }
        i
    }

    /// Runs over the digits from `at` on.
    fn scan_digits(&self, at: usize) -> (end: usize)
        requires
            at <= self@.len(),
        ensures
            end == digits_end(self@, at as int),
            at <= end <= self@.len(),
    {
        let n = self.len();
        let mut i = at;
        loop
            invariant
                n == self@.len(),
                at <= i <= self@.len(),
                digits_end(self@, at as int) == digits_end(self@, i as int),
            ensures
                at <= i <= self@.len(),
                i == digits_end(self@, at as int),
            decreases self@.len() - i,
        {
            match self.peek(i) {
                None => {
                    break ;
                },
                Some(c) => {
                    if !digit(c) {
                        break ;
                    }
                },
            }
            i += 1;
        }
        i
    }

    /// Runs over the characters of an identifier from `at` on.
    fn scan_ident(&self, at: usize) -> (end: usize)
        requires
            at <= self@.len(),
        ensures
            end == ident_end(self@, at as int),
            at <= end <= self@.len(),
    {
        let n = self.len();
        let mut i = at;
        loop
            invariant
                n == self@.len(),
                at <= i <= self@.len(),
                ident_end(self@, at as int) == ident_end(self@, i as int),
            ensures
                at <= i <= self@.len(),
                i == ident_end(self@, at as int),
            decreases self@.len() - i,
        {
            match self.peek(i) {
                None => {
                    break ;
                },
                Some(c) => {
                    if !(ident_start(c) || digit(c)) {
                        break ;
                    }
                },
            }
            i += 1;
        }
        i
    }

    /// Looks for `quote` from `at` on.
    fn find_quote(&self, at: usize, quote: char) -> (end: usize)
        requires
            at <= self@.len(),
        ensures
            end == find(self@, at as int, quote),
            at <= end <= self@.len(),
    {
        let n = self.len();
        let mut i = at;
        loop
            invariant
                n == self@.len(),
                at <= i <= self@.len(),
                find(self@, at as int, quote) == find(self@, i as int, quote),
            ensures
                at <= i <= self@.len(),
                i == find(self@, at as int, quote),
            decreases self@.len() - i,
        {
            match self.peek(i) {
                None => {
                    break ;
                },
                Some(c) => {
                    if c == quote {
                        break ;
                    }
                },
            }
            i += 1;
        }
        i
    }

    /// Whether `word` stands at position `at`.
    fn starts_with(&self, at: usize, word: &str) -> (r: bool)
        requires
            at <= self@.len(),
        ensures
            r == has(self@, at as int, word@),
    {
        let n = word.unicode_len();
        let total = self.len();
        if n > total - at {
            return false;
        }
        let mut i: usize = 0;
        while i < n
            invariant
                i <= n,
                total == self@.len(),
                n == word@.len(),
                at + n <= self@.len(),
                forall|j: int| 0 <= j < i ==> self@[at + j] == word@[j],
            decreases n - i,
        {
            match self.peek(at + i) {
                Some(c) => {
                    if c != word.get_char(i) {
                        assert(self@.subrange(at as int, at + n)[i as int] != word@[i as int]);
                        return false;
                    }
                },
                None => {
                    return false;
                },
            }
            i += 1;
        }
        assert(self@.subrange(at as int, at + n) =~= word@);
        true
    }

    /// The token of the rule `rule` that spans the text from `from` to `to`.
    fn leaf(&self, rule: Rule, from: usize, to: usize) -> (pair: Pair)
        requires
            from <= to <= self@.len(),
        ensures
            pair@ == token(self@, rule, from as int, to as int),
    {
        let pair = Pair { rule, text: self.slice(from, to), inner: Vec::new() };
        assert(pair_views(pair.inner@) =~= Seq::<PairView>::empty());
        pair
    }

    /// The node of the rule `rule` that spans the text from `from` to `to`,
    /// with `inner` under it.
    fn branch(&self, rule: Rule, from: usize, to: usize, inner: Vec<Pair>) -> (pair: Pair)
        requires
            from <= to <= self@.len(),
        ensures
            pair@ == tree(self@, rule, from as int, to as int, pair_views(inner@)),
    {
        Pair { rule, text: self.slice(from, to), inner }
    }
}

/// A node without nodes under it.
pub open spec fn token(src: Seq<char>, rule: Rule, from: int, to: int) -> PairView {
    PairView { rule, text: src.subrange(from, to), inner: Seq::empty() }
}

/// A node with `inner` under it.
pub open spec fn tree(src: Seq<char>, rule: Rule, from: int, to: int, inner: Seq<PairView>) -> PairView {
    PairView { rule, text: src.subrange(from, to), inner }
}

/// Puts `pair` behind `pairs`.
fn push_pair(pairs: &mut Vec<Pair>, pair: Pair)
    ensures
        pair_views(final(pairs)@) == pair_views(old(pairs)@).push(pair@),
{
    let ghost before = pairs@;
    pairs.push(pair);
    assert(pairs@.drop_last() =~= before);
}


/// A node with the position behind it.
pub type Parsed = Option<(PairView, int)>;

/// Nodes with the position behind them.
pub type ParsedMany = Option<(Seq<PairView>, int)>;

/// An identifier: a letter or an underscore, then letters, digits and
/// underscores.
pub open spec fn p_ident(src: Seq<char>, at: int) -> Parsed {
    match look(src, at) {
        Some(c) => if is_ident_start(c) {
            let end = ident_end(src, at + 1);
            Some((token(src, Rule::Ident, at, end), end))
        } else {
            None
        },
        None => None,
    }
}

/// A number: an optional minus sign and digits make an integer; with a point
/// and more digits behind them they make a decimal.
pub open spec fn p_number(src: Seq<char>, at: int) -> Parsed {
    let start = if look(src, at) == Some('-') {
        at + 1
    } else {
        at
    };
    let whole = digits_end(src, start);
    if at < 0 || whole <= start {
        None
    } else if look(src, whole) == Some('.') && digits_end(src, whole + 1) > whole + 1 {
        let end = digits_end(src, whole + 1);
        Some((tree(src, Rule::Number, at, end, Seq::empty().push(token(src, Rule::Decimal, at, end))), end))
    } else {
        Some((tree(src, Rule::Number, at, whole, Seq::empty().push(token(src, Rule::Int, at, whole))), whole))
    }
}

/// A string: the text between two double quotes or two single quotes.
pub open spec fn p_string(src: Seq<char>, at: int) -> Parsed {
    match look(src, at) {
        Some(quote) => if quote == '"' || quote == '\'' {
            let close = find(src, at + 1, quote);
            if close < src.len() {
                Some(
                    (
                        tree(
                            src,
                            Rule::String,
                            at,
                            close + 1,
                            Seq::empty().push(token(src, Rule::StringInner, at + 1, close)),
                        ),
                        close + 1,
                    ),
                )
            } else {
                None
            }
        } else {
            None
        },
        None => None,
    }
}

/// Whether `c` may be the one character of an operator.
pub open spec fn is_verb(c: char) -> bool {
    c == '*' || c == '+' || c == '-' || c == '/' || c == '%' || c == '<' || c == '>'
}

/// Whether `a` and `b` are the two characters of an operator.
pub open spec fn is_long_verb(a: char, b: char) -> bool {
    (b == '=' && (a == '=' || a == '!' || a == '<' || a == '>')) || (a == '&' && b == '&') || (a == '|' && b
        == '|')
}

/// The length of the operator at position `at`: 2, 1, or 0 where there is
/// none.
pub open spec fn verb_len(src: Seq<char>, at: int) -> int {
    match (look(src, at), look(src, at + 1)) {
        (Some(a), Some(b)) => if is_long_verb(a, b) {
            2
        } else if is_verb(a) {
            1
        } else {
            0
        },
        (Some(a), None) => if is_verb(a) {
            1
        } else {
            0
        },
        _ => 0,
    }
}

/// The word that begins a conditional chain.
pub open spec fn word_if() -> Seq<char> {
    seq!['i', 'f']
}

/// The word that begins a further arm of a conditional chain.
pub open spec fn word_else() -> Seq<char> {
    seq!['e', 'l', 's', 'e']
}

/// The word that begins a return.
pub open spec fn word_return() -> Seq<char> {
    seq!['r', 'e', 't', 'u', 'r', 'n']
}

/// Whether a position lies behind `at` and within the text.
pub open spec fn ahead(src: Seq<char>, at: int, end: int) -> bool {
    at < end <= src.len()
}

/// A term: a number, a string, an array or an identifier.
pub open spec fn p_terms(src: Seq<char>, at: int) -> Parsed
    decreases src.len() - at, 0nat,
{
    let found = if p_number(src, at) is Some {
        p_number(src, at)
    } else if p_string(src, at) is Some {
        p_string(src, at)
    } else if look(src, at) == Some('[') {
        proof {
            lemma_skip(src, at + 1, false);
        }
        match p_items(src, skip(src, at + 1, false), Seq::empty().push(token(src, Rule::ArrayStart, at, at + 1))) {
            Some((inner, end)) => Some((tree(src, Rule::Array, at, end, inner), end)),
            None => None,
        }
    } else {
        p_ident(src, at)
    };
    match found {
        Some((node, end)) => Some((tree(src, Rule::Terms, at, end, Seq::empty().push(node)), end)),
        None => None,
    }
}

/// The rest of an array from position `at` on, behind the nodes `inner`:
/// the closing bracket, or an expression and then a comma and more, or the
/// closing bracket.
pub open spec fn p_items(src: Seq<char>, at: int, inner: Seq<PairView>) -> ParsedMany
    decreases src.len() - at, 2nat,
{
    if look(src, at) == Some(']') && inner.len() == 1 {
        Some((inner.push(token(src, Rule::ArrayEnd, at, at + 1)), at + 1))
    } else {
        match p_expr(src, at) {
            Some((e, end1)) => if !ahead(src, at, end1) {
                None
            } else {
                proof {
                    lemma_skip(src, end1, false);
                }
                let q = skip(src, end1, false);
                if look(src, q) == Some(',') {
                    proof {
                        lemma_skip(src, q + 1, false);
                    }
                    p_items(src, skip(src, q + 1, false), inner.push(e))
                } else if look(src, q) == Some(']') {
                    Some((inner.push(e).push(token(src, Rule::ArrayEnd, q, q + 1)), q + 1))
                } else {
                    None
                }
            },
            None => None,
        }
    }
}

/// An expression: a term alone, or a term, an operator and an expression.
pub open spec fn p_expr(src: Seq<char>, at: int) -> Parsed
    decreases src.len() - at, 1nat,
{
    match p_terms(src, at) {
        Some((t, end1)) => if !ahead(src, at, end1) {
            None
        } else {
            proof {
                lemma_skip(src, end1, false);
            }
            let v = skip(src, end1, false);
            let n = verb_len(src, v);
            let alone = Some((tree(src, Rule::Expr, at, end1, Seq::empty().push(t)), end1));
            if n == 0 {
                alone
            } else {
                proof {
                    lemma_skip(src, v + n, false);
                }
                let r = skip(src, v + n, false);
                match p_expr(src, r) {
                    Some((e, end2)) => if !ahead(src, r, end2) {
                        alone
                    } else {
                        let dyadic = tree(
                            src,
                            Rule::DyadicExpr,
                            at,
                            end2,
                            Seq::empty().push(t).push(token(src, Rule::Verb, v, v + n)).push(e),
                        );
                        Some((tree(src, Rule::Expr, at, end2, Seq::empty().push(dyadic)), end2))
                    },
                    None => alone,
                }
            }
        },
        None => None,
    }
}

/// An expression and the semicolon behind it, from position `at` on, behind
/// the nodes `inner`.
pub open spec fn p_value(src: Seq<char>, at: int, inner: Seq<PairView>) -> ParsedMany {
    match p_expr(src, at) {
        Some((e, end1)) => if !ahead(src, at, end1) {
            None
        } else {
            let semi = skip(src, end1, false);
            if look(src, semi) == Some(';') {
                Some((inner.push(e).push(token(src, Rule::Semi, semi, semi + 1)), semi + 1))
            } else {
                None
            }
        },
        None => None,
    }
}

/// An assignment: an identifier, `=`, an expression and `;`.
pub open spec fn p_assignment(src: Seq<char>, at: int) -> Parsed {
    match p_ident(src, at) {
        Some((id, end1)) => {
            let eq = skip(src, end1, false);
            if look(src, eq) == Some('=') {
                match p_value(
                    src,
                    skip(src, eq + 1, false),
                    Seq::empty().push(id).push(token(src, Rule::OpAssign, eq, eq + 1)),
                ) {
                    Some((inner, end)) => Some((tree(src, Rule::Assignment, at, end, inner), end)),
                    None => None,
                }
            } else {
                None
            }
        },
        None => None,
    }
}

/// A return: the word `return`, an expression and `;`.
pub open spec fn p_ret(src: Seq<char>, at: int) -> Parsed {
    if has(src, at, word_return()) {
        match p_value(src, skip(src, at + 6, false), Seq::empty()) {
            Some((inner, end)) => Some((tree(src, Rule::Ret, at, end, inner), end)),
            None => None,
        }
    } else {
        None
    }
}

/// A statement: an assignment, a conditional chain or a return.
pub open spec fn p_statement(src: Seq<char>, at: int) -> Parsed
    decreases src.len() - at, 4nat,
{
    if p_assignment(src, at) is Some {
        p_assignment(src, at)
    } else if has(src, at, word_if()) {
        match p_guarded(src, at + 2, Seq::empty().push(token(src, Rule::OpIf, at, at + 2))) {
            Some((inner, end)) => if !ahead(src, at, end) {
                None
            } else {
                let all = p_arms(src, end, inner);
                Some((tree(src, Rule::Conditional, at, all.1, all.0), all.1))
            },
            None => None,
        }
    } else {
        p_ret(src, at)
    }
}

/// A guard in parentheses and a block, from position `at` on, behind the
/// nodes `inner`.
pub open spec fn p_guarded(src: Seq<char>, at: int, inner: Seq<PairView>) -> ParsedMany
    decreases src.len() - at, 3nat,
{
    if at < 0 || at > src.len() {
        None
    } else {
        let open = skip(src, at, false);
        if look(src, open) == Some('(') {
            let first = skip(src, open + 1, false);
            match p_expr(src, first) {
                Some((e, end1)) => if !ahead(src, first, end1) {
                    None
                } else {
                    let close = skip(src, end1, false);
                    if look(src, close) == Some(')') {
                        proof {
                            lemma_skip(src, at, false);
                            lemma_skip(src, open + 1, false);
                            lemma_skip(src, end1, false);
                            lemma_skip(src, close + 1, false);
                        }
                        p_block(src, skip(src, close + 1, false), inner.push(e))
                    } else {
                        None
                    }
                },
                None => None,
            }
        } else {
            None
        }
    }
}

/// A block from position `at` on, behind the nodes `inner`: `{`, statements
/// and `}`.
pub open spec fn p_block(src: Seq<char>, at: int, inner: Seq<PairView>) -> ParsedMany
    decreases src.len() - at, 6nat,
{
    if look(src, at) == Some('{') {
        proof {
            lemma_skip(src, at + 1, false);
        }
        p_statements(src, skip(src, at + 1, false), inner.push(token(src, Rule::BlockStart, at, at + 1)))
    } else {
        None
    }
}

/// The statements of a block from position `at` on, behind the nodes
/// `inner`, up to the closing brace.
pub open spec fn p_statements(src: Seq<char>, at: int, inner: Seq<PairView>) -> ParsedMany
    decreases src.len() - at, 5nat,
{
    if look(src, at) == Some('}') {
        Some((inner.push(token(src, Rule::BlockEnd, at, at + 1)), at + 1))
    } else {
        match p_statement(src, at) {
            Some((s, end1)) => if !ahead(src, at, end1) {
                None
            } else {
                proof {
                    lemma_skip(src, end1, false);
                }
                p_statements(src, skip(src, end1, false), inner.push(s))
            },
            None => None,
        }
    }
}

/// The arms of a conditional chain that follow position `at`, behind the
/// nodes `inner`: any number of `else if` with a guard and a block, then at
/// most one `else` with a block. Where no further arm can be read, the chain
/// ends at `at`.
pub open spec fn p_arms(src: Seq<char>, at: int, inner: Seq<PairView>) -> (Seq<PairView>, int)
    decreases src.len() - at, 5nat,
{
    if at < 0 || at > src.len() {
        (inner, at)
    } else {
        let e = skip(src, at, false);
        if has(src, e, word_else()) {
            let k = skip(src, e + 4, false);
            proof {
                lemma_skip(src, at, false);
                lemma_skip(src, e + 4, false);
            }
            if has(src, k, word_if()) {
                match p_guarded(src, k + 2, inner.push(token(src, Rule::OpElseIf, e, k + 2))) {
                    Some((more, end)) => if ahead(src, k + 2, end) {
                        p_arms(src, end, more)
                    } else {
                        (inner, at)
                    },
                    None => (inner, at),
                }
            } else {
                match p_block(src, k, inner.push(token(src, Rule::OpElse, e, e + 4))) {
                    Some((more, end)) => if ahead(src, k, end) {
                        (more, end)
                    } else {
                        (inner, at)
                    },
                    None => (inner, at),
                }
            }
        } else {
            (inner, at)
        }
    }
}

/// The statements of a program from position `at` on, behind the nodes
/// `done`, up to the end of the text, which the end-of-input marker stands
/// for.
pub open spec fn p_top(src: Seq<char>, at: int, done: Seq<PairView>) -> Option<Seq<PairView>>
    decreases src.len() - at,
{
    if at < 0 || at >= src.len() {
        Some(done.push(token(src, Rule::EOI, src.len() as int, src.len() as int)))
    } else {
        match p_statement(src, at) {
            Some((s, end1)) => if !ahead(src, at, end1) {
                None
            } else {
                proof {
                    lemma_skip(src, end1, false);
                }
                p_top(src, skip(src, end1, false), done.push(s))
            },
            None => None,
        }
    }
}

/// The parse tree of a program: its statements in order and the
/// end-of-input marker, or nothing where the text is no program.
pub open spec fn p_program(src: Seq<char>) -> Option<Seq<PairView>> {
    p_top(src, skip(src, 0, false), Seq::empty())
}


/// Whether `r` is what `expected` says.
pub open spec fn parsed_as(r: Option<(Pair, usize)>, expected: Parsed) -> bool {
    match expected {
        Some((node, end)) => r matches Some(found) && found.0@ == node && found.1 == end,
        None => r is None,
    }
}

/// Whether `r` is what `expected` says.
pub open spec fn many_as(r: Option<(Vec<Pair>, usize)>, expected: ParsedMany) -> bool {
    match expected {
        Some((nodes, end)) => r matches Some(found) && pair_views(found.0@) == nodes && found.1 == end,
        None => r is None,
    }
}

fn verb_char(c: char) -> (r: bool)
    ensures
        r == is_verb(c),
{
    c == '*' || c == '+' || c == '-' || c == '/' || c == '%' || c == '<' || c == '>'
}

fn long_verb(a: char, b: char) -> (r: bool)
    ensures
        r == is_long_verb(a, b),
{
    (b == '=' && (a == '=' || a == '!' || a == '<' || a == '>')) || (a == '&' && b == '&') || (a == '|' && b
        == '|')
}

impl<'a> Source<'a> {
    /// Whether the character `c` stands at position `at`.
    fn is_at(&self, at: usize, c: char) -> (r: bool)
        ensures
            r == (look(self@, at as int) == Some(c)),
    {
        match self.peek(at) {
            Some(found) => found == c,
            None => false,
        }
    }

    /// Reads an identifier at position `at`.
    fn ident(&self, at: usize) -> (r: Option<(Pair, usize)>)
        requires
            at <= self@.len(),
        ensures
            parsed_as(r, p_ident(self@, at as int)),
            r matches Some(found) ==> at < found.1 <= self@.len(),
    {
        let _total = self.len();
        match self.peek(at) {
            Some(c) => {
                if ident_start(c) {
                    let end = self.scan_ident(at + 1);
                    Some((self.leaf(Rule::Ident, at, end), end))
                } else {
                    None
                }
            },
            None => None,
        }
    }

    /// Reads a number at position `at`.
    fn number(&self, at: usize) -> (r: Option<(Pair, usize)>)
        requires
            at <= self@.len(),
        ensures
            parsed_as(r, p_number(self@, at as int)),
            r matches Some(found) ==> at < found.1 <= self@.len(),
    {
        let _total = self.len();
        let start = if self.is_at(at, '-') {
            at + 1
        } else {
            at
        };
        let whole = self.scan_digits(start);
        if whole <= start {
            return None;
        }
        if self.is_at(whole, '.') {
            let end = self.scan_digits(whole + 1);
            if end > whole + 1 {
                let mut inner: Vec<Pair> = Vec::new();
                push_pair(&mut inner, self.leaf(Rule::Decimal, at, end));
                return Some((self.branch(Rule::Number, at, end, inner), end));
            }
        }
        let mut inner: Vec<Pair> = Vec::new();
        push_pair(&mut inner, self.leaf(Rule::Int, at, whole));
        Some((self.branch(Rule::Number, at, whole, inner), whole))
    }

    /// Reads a string at position `at`.
    fn string(&self, at: usize) -> (r: Option<(Pair, usize)>)
        requires
            at <= self@.len(),
        ensures
            parsed_as(r, p_string(self@, at as int)),
            r matches Some(found) ==> at < found.1 <= self@.len(),
    {
        let _total = self.len();
        match self.peek(at) {
            Some(quote) => {
                if quote == '"' || quote == '\'' {
                    let close = self.find_quote(at + 1, quote);
                    if close < self.len() {
                        let mut inner: Vec<Pair> = Vec::new();
                        push_pair(&mut inner, self.leaf(Rule::StringInner, at + 1, close));
                        Some((self.branch(Rule::String, at, close + 1, inner), close + 1))
                    } else {
                        None
                    }
                } else {
                    None
                }
            },
            None => None,
        }
    }

    /// The length of the operator at position `at`, 0 where there is none.
    fn verb(&self, at: usize) -> (n: usize)
        requires
            at <= self@.len(),
        ensures
            n == verb_len(self@, at as int),
            at + n <= self@.len(),
    {
        let total = self.len();
        match self.peek(at) {
            Some(a) => {
                let second = if at + 1 < total {
                    self.peek(at + 1)
                } else {
                    None
                };
                match second {
                    Some(b) => {
                        if long_verb(a, b) {
                            2
                        } else if verb_char(a) {
                            1
                        } else {
                            0
                        }
                    },
                    None => {
                        if verb_char(a) {
                            1
                        } else {
                            0
                        }
                    },
                }
            },
            None => 0,
        }
    }

    /// Reads a term at position `at`.
    fn terms(&self, at: usize) -> (r: Option<(Pair, usize)>)
        requires
            at <= self@.len(),
        ensures
            parsed_as(r, p_terms(self@, at as int)),
            r matches Some(found) ==> at < found.1 <= self@.len(),
        decreases self@.len() - at, 0nat,
    {
        let _total = self.len();
        let found = match self.number(at) {
            Some(found) => Some(found),
            None => match self.string(at) {
                Some(found) => Some(found),
                None => {
                    if self.is_at(at, '[') {
                        let mut inner: Vec<Pair> = Vec::new();
                        push_pair(&mut inner, self.leaf(Rule::ArrayStart, at, at + 1));
                        let first = self.skip_blanks(at + 1);
                        match self.items(first, inner) {
                            Some((inner, end)) => Some((self.branch(Rule::Array, at, end, inner), end)),
                            None => None,
                        }
                    } else {
                        self.ident(at)
                    }
                },
            },
        };
        match found {
            Some((node, end)) => {
                let mut inner: Vec<Pair> = Vec::new();
                push_pair(&mut inner, node);
                Some((self.branch(Rule::Terms, at, end, inner), end))
            },
            None => None,
        }
    }

    /// Reads the rest of an array from position `at` on.
    fn items(&self, at: usize, inner: Vec<Pair>) -> (r: Option<(Vec<Pair>, usize)>)
        requires
            at <= self@.len(),
        ensures
            many_as(r, p_items(self@, at as int, pair_views(inner@))),
            r matches Some(found) ==> at < found.1 <= self@.len(),
        decreases self@.len() - at, 2nat,
    {
        let _total = self.len();
        let mut inner = inner;
        proof {
            lemma_pair_views(inner@);
        }
        if self.is_at(at, ']') && inner.len() == 1 {
            push_pair(&mut inner, self.leaf(Rule::ArrayEnd, at, at + 1));
            return Some((inner, at + 1));
        }
        match self.expr(at) {
            Some((e, end1)) => {
                let q = self.skip_blanks(end1);
                if self.is_at(q, ',') {
                    push_pair(&mut inner, e);
                    let next = self.skip_blanks(q + 1);
                    self.items(next, inner)
                } else if self.is_at(q, ']') {
                    push_pair(&mut inner, e);
                    push_pair(&mut inner, self.leaf(Rule::ArrayEnd, q, q + 1));
                    Some((inner, q + 1))
                } else {
                    None
                }
            },
            None => None,
        }
    }

    /// Reads an expression at position `at`.
    fn expr(&self, at: usize) -> (r: Option<(Pair, usize)>)
        requires
            at <= self@.len(),
        ensures
            parsed_as(r, p_expr(self@, at as int)),
            r matches Some(found) ==> at < found.1 <= self@.len(),
        decreases self@.len() - at, 1nat,
    {
        let _total = self.len();
        match self.terms(at) {
            Some((t, end1)) => {
                let v = self.skip_blanks(end1);
                let n = self.verb(v);
                if n > 0 {
                    let after = self.skip_blanks(v + n);
                    match self.expr(after) {
                        Some((e, end2)) => {
                            let mut parts: Vec<Pair> = Vec::new();
                            push_pair(&mut parts, t);
                            push_pair(&mut parts, self.leaf(Rule::Verb, v, v + n));
                            push_pair(&mut parts, e);
                            let dyadic = self.branch(Rule::DyadicExpr, at, end2, parts);
                            let mut inner: Vec<Pair> = Vec::new();
                            push_pair(&mut inner, dyadic);
                            return Some((self.branch(Rule::Expr, at, end2, inner), end2));
                        },
                        None => {},
                    }
                }
                let mut inner: Vec<Pair> = Vec::new();
                push_pair(&mut inner, t);
                Some((self.branch(Rule::Expr, at, end1, inner), end1))
            },
            None => None,
        }
    }

    /// Reads an expression and the semicolon behind it.
    fn value(&self, at: usize, inner: Vec<Pair>) -> (r: Option<(Vec<Pair>, usize)>)
        requires
            at <= self@.len(),
        ensures
            many_as(r, p_value(self@, at as int, pair_views(inner@))),
            r matches Some(found) ==> at < found.1 <= self@.len(),
    {
        let _total = self.len();
        let mut inner = inner;
        match self.expr(at) {
            Some((e, end1)) => {
                let semi = self.skip_blanks(end1);
                if self.is_at(semi, ';') {
                    push_pair(&mut inner, e);
                    push_pair(&mut inner, self.leaf(Rule::Semi, semi, semi + 1));
                    Some((inner, semi + 1))
                } else {
                    None
                }
            },
            None => None,
        }
    }

    /// Reads an assignment at position `at`.
    fn assignment(&self, at: usize) -> (r: Option<(Pair, usize)>)
        requires
            at <= self@.len(),
        ensures
            parsed_as(r, p_assignment(self@, at as int)),
            r matches Some(found) ==> at < found.1 <= self@.len(),
    {
        let _total = self.len();
        match self.ident(at) {
            Some((id, end1)) => {
                let eq = self.skip_blanks(end1);
                if self.is_at(eq, '=') {
                    let mut inner: Vec<Pair> = Vec::new();
                    push_pair(&mut inner, id);
                    push_pair(&mut inner, self.leaf(Rule::OpAssign, eq, eq + 1));
                    let first = self.skip_blanks(eq + 1);
                    match self.value(first, inner) {
                        Some((inner, end)) => Some((self.branch(Rule::Assignment, at, end, inner), end)),
                        None => None,
                    }
                } else {
                    None
                }
            },
            None => None,
        }
    }

    /// Reads a return at position `at`.
    fn ret(&self, at: usize) -> (r: Option<(Pair, usize)>)
        requires
            at <= self@.len(),
        ensures
            parsed_as(r, p_ret(self@, at as int)),
            r matches Some(found) ==> at < found.1 <= self@.len(),
    {
        let _total = self.len();
        proof {
            reveal_strlit("return");
            assert("return"@ =~= word_return());
        }
        if self.starts_with(at, "return") {
            let first = self.skip_blanks(at + 6);
            match self.value(first, Vec::new()) {
                Some((inner, end)) => Some((self.branch(Rule::Ret, at, end, inner), end)),
                None => None,
            }
        } else {
            None
        }
    }

    /// Reads a statement at position `at`.
    fn statement(&self, at: usize) -> (r: Option<(Pair, usize)>)
        requires
            at <= self@.len(),
        ensures
            parsed_as(r, p_statement(self@, at as int)),
            r matches Some(found) ==> at < found.1 <= self@.len(),
        decreases self@.len() - at, 4nat,
    {
        let _total = self.len();
        proof {
            reveal_strlit("if");
            assert("if"@ =~= word_if());
        }
        match self.assignment(at) {
            Some(found) => Some(found),
            None => {
                if self.starts_with(at, "if") {
                    let mut inner: Vec<Pair> = Vec::new();
                    push_pair(&mut inner, self.leaf(Rule::OpIf, at, at + 2));
                    match self.guarded(at + 2, inner) {
                        Some((inner, end)) => {
                            let (all, fin) = self.arms(end, inner);
                            Some((self.branch(Rule::Conditional, at, fin, all), fin))
                        },
                        None => None,
                    }
                } else {
                    self.ret(at)
                }
            },
        }
    }

    /// Reads a guard in parentheses and a block.
    fn guarded(&self, at: usize, inner: Vec<Pair>) -> (r: Option<(Vec<Pair>, usize)>)
        requires
            at <= self@.len(),
        ensures
            many_as(r, p_guarded(self@, at as int, pair_views(inner@))),
            r matches Some(found) ==> at < found.1 <= self@.len(),
        decreases self@.len() - at, 3nat,
    {
        let _total = self.len();
        let mut inner = inner;
        let open = self.skip_blanks(at);
        if !self.is_at(open, '(') {
            return None;
        }
        let first = self.skip_blanks(open + 1);
        match self.expr(first) {
            Some((e, end1)) => {
                let close = self.skip_blanks(end1);
                if self.is_at(close, ')') {
                    push_pair(&mut inner, e);
                    let start = self.skip_blanks(close + 1);
                    self.block(start, inner)
                } else {
                    None
                }
            },
            None => None,
        }
    }

    /// Reads a block at position `at`.
    fn block(&self, at: usize, inner: Vec<Pair>) -> (r: Option<(Vec<Pair>, usize)>)
        requires
            at <= self@.len(),
        ensures
            many_as(r, p_block(self@, at as int, pair_views(inner@))),
            r matches Some(found) ==> at < found.1 <= self@.len(),
        decreases self@.len() - at, 6nat,
    {
        let _total = self.len();
        let mut inner = inner;
        if self.is_at(at, '{') {
            push_pair(&mut inner, self.leaf(Rule::BlockStart, at, at + 1));
            let first = self.skip_blanks(at + 1);
            self.statements(first, inner)
        } else {
            None
        }
    }

    /// Reads the statements of a block up to its closing brace.
    fn statements(&self, at: usize, inner: Vec<Pair>) -> (r: Option<(Vec<Pair>, usize)>)
        requires
            at <= self@.len(),
        ensures
            many_as(r, p_statements(self@, at as int, pair_views(inner@))),
            r matches Some(found) ==> at < found.1 <= self@.len(),
        decreases self@.len() - at, 5nat,
    {
        let _total = self.len();
        let mut inner = inner;
        if self.is_at(at, '}') {
            push_pair(&mut inner, self.leaf(Rule::BlockEnd, at, at + 1));
            return Some((inner, at + 1));
        }
        match self.statement(at) {
            Some((s, end1)) => {
                push_pair(&mut inner, s);
                let next = self.skip_blanks(end1);
                self.statements(next, inner)
            },
            None => None,
        }
    }

    /// Reads the arms that follow the first of a conditional chain.
    fn arms(&self, at: usize, inner: Vec<Pair>) -> (r: (Vec<Pair>, usize))
        requires
            at <= self@.len(),
        ensures
            pair_views(r.0@) == p_arms(self@, at as int, pair_views(inner@)).0,
            r.1 == p_arms(self@, at as int, pair_views(inner@)).1,
            at <= r.1 <= self@.len(),
        decreases self@.len() - at, 5nat,
    {
        let _total = self.len();
        proof {
            reveal_strlit("if");
            assert("if"@ =~= word_if());
            reveal_strlit("else");
            assert("else"@ =~= word_else());
        }
        let e = self.skip_blanks(at);
        if !self.starts_with(e, "else") {
            return (inner, at);
        }
        let k = self.skip_blanks(e + 4);
        if self.starts_with(k, "if") {
            let mut more = copy_pairs(&inner);
            push_pair(&mut more, self.leaf(Rule::OpElseIf, e, k + 2));
            match self.guarded(k + 2, more) {
                Some((more, end)) => self.arms(end, more),
                None => (inner, at),
            }
        } else {
            let mut more = copy_pairs(&inner);
            push_pair(&mut more, self.leaf(Rule::OpElse, e, e + 4));
            match self.block(k, more) {
                Some((more, end)) => (more, end),
                None => (inner, at),
            }
        }
    }
}

/// A deep copy of `pair`.
#[verifier::loop_isolation(false)]
fn copy_pair(pair: &Pair) -> (out: Pair)
    ensures
        out@ == pair@,
    decreases pair, 1nat,
{
    Pair { rule: pair.rule, text: pair.text.clone(), inner: copy_pairs(&pair.inner) }
}

/// Deep copies of `pairs`, item by item.
#[verifier::loop_isolation(false)]
fn copy_pairs(pairs: &Vec<Pair>) -> (out: Vec<Pair>)
    ensures
        pair_views(out@) == pair_views(pairs@),
    decreases pairs, 0nat,
{
    let mut out: Vec<Pair> = Vec::new();
    let mut i: usize = 0;
    while i < pairs.len()
        invariant
            i <= pairs.len(),
            out.len() == i,
            forall|j: int| 0 <= j < i ==> (#[trigger] out@[j])@ == pairs@[j]@,
        decreases pairs.len() - i,
    {
        out.push(copy_pair(&pairs[i]));
        i += 1;
    }
    proof {
        lemma_pair_views(out@);
        lemma_pair_views(pairs@);
        assert(pair_views(out@) =~= pair_views(pairs@));
    }
    out
}

/// Parses a program: its statements in order, and the end-of-input marker
/// behind them.
pub fn parse(src: &str) -> (r: Result<Vec<Pair>, Error>)
    ensures
        match p_program(src@) {
            Some(pairs) => r matches Ok(found) && pair_views(found@) == pairs,
            None => r matches Err(e) && e == Error::ParseError,
        },
{
    let source = Source::new(src);
    let total = source.len();
    let mut done: Vec<Pair> = Vec::new();
    let mut at = source.skip_blanks(0);
    while at < total
        invariant
            at <= total,
            total == source@.len(),
            source@ == src@,
            p_program(src@) == p_top(src@, at as int, pair_views(done@)),
        decreases total - at,
    {
        match source.statement(at) {
            Some((s, end1)) => {
                push_pair(&mut done, s);
                at = source.skip_blanks(end1);
            },
            None => {
                return Err(Error::ParseError);
            },
        }
    }
    push_pair(&mut done, source.leaf(Rule::EOI, total, total));
    Ok(done)
}

/// The parser of the language.
pub struct PlanoutParser;

impl PlanoutParser {
    /// Parses a program.
    pub fn parse(src: &str) -> (r: Result<Vec<Pair>, Error>)
        ensures
            match p_program(src@) {
                Some(pairs) => r matches Ok(found) && pair_views(found@) == pairs,
                None => r matches Err(e) && e == Error::ParseError,
            },
    {
        parse(src)
    }
}

} // verus!
