//! Timeline expressions: their parsing from strings, their constant folding
//! and their structure.

use vstd::prelude::*;
use crate::text::{
    chars_of, parse_i64, parse_i64_spec, split_white_space, split_words, string_of, word_views, is_digit,
    unsigned_part,
};
use crate::patterns::{regex_replace_all, operators_spaced};

verus! {

/// The operators of an expression.
#[derive(PartialEq, Eq, Structural, Debug, Clone, Copy)]
pub enum ExpressionOperator {
    And,
    Or,
    Add,
    Subtract,
    Multiply,
    Divide,
    Remainder,
}

/// An expression, as found in the enable fields of a timeline object.
#[derive(PartialEq, Debug)]
pub enum Expression {
    Null,
    Number(i64),
    Bool(bool),
    String(String),
    Expression(Box<ExpressionObj>),
    Invert(Box<Expression>),
}

/// A binary expression.
#[derive(PartialEq, Debug)]
pub struct ExpressionObj {
    pub l: Expression,
    pub o: ExpressionOperator,
    pub r: Expression,
}

/// The mathematical value of an [`Expression`]: strings are taken by their
/// characters.
pub enum ExprValue {
    Null,
    Number(i64),
    Bool(bool),
    Text(Seq<char>),
    Op(Box<ExprValue>, ExpressionOperator, Box<ExprValue>),
    Invert(Box<ExprValue>),
}

/// The errors that parsing an expression string can give.
#[derive(PartialEq, Eq, Structural, Debug, Clone, Copy)]
pub enum ExpressionError {
    MismatchedParenthesis,
    Invalid,
    MissingOperator,
    InvalidOperator,
}

pub open spec fn expr_view(e: Expression) -> ExprValue
    decreases e,
{
    match e {
        Expression::Null => ExprValue::Null,
        Expression::Number(n) => ExprValue::Number(n),
        Expression::Bool(b) => ExprValue::Bool(b),
        Expression::String(s) => ExprValue::Text(s@),
        Expression::Expression(o) => ExprValue::Op(
            Box::new(expr_view(o.l)),
            o.o,
            Box::new(expr_view(o.r)),
        ),
        Expression::Invert(x) => ExprValue::Invert(Box::new(expr_view(*x))),
    }
}

impl View for Expression {
    type V = ExprValue;

    open spec fn view(&self) -> ExprValue {
        expr_view(*self)
    }
}

impl ExpressionObj {
    /// Makes the binary expression into an expression.
    pub fn wrap(self) -> (e: Expression)
        ensures
            e@ == ExprValue::Op(Box::new(self.l@), self.o, Box::new(self.r@)),
    {
        Expression::Expression(Box::new(self))
    }

    /// The binary expression `l o r`.
    pub fn create(l: Expression, o: ExpressionOperator, r: Expression) -> (e: Expression)
        ensures
            e@ == ExprValue::Op(Box::new(l@), o, Box::new(r@)),
    {
        Expression::Expression(Box::new(ExpressionObj { l, o, r }))
    }
}

/// Whether an expression value holds no reference: strings are references,
/// an inverted expression is constant when what it inverts is, and a binary
/// expression counts as constant.
pub open spec fn is_constant_spec(e: ExprValue) -> bool
    decreases e,
{
    match e {
        ExprValue::Text(_) => false,
        ExprValue::Invert(x) => is_constant_spec(*x),
        _ => true,
    }
}

pub fn is_constant(expression: &Expression) -> (b: bool)
    ensures
        b == is_constant_spec(expression@),
    decreases expression,
{
    match expression {
        Expression::Null => true,
        Expression::Number(_) => true,
        Expression::Bool(_) => true,
        Expression::String(_) => false,
        Expression::Expression(_) => true,
        Expression::Invert(inner_expr) => is_constant(inner_expr),
    }
}

/// A copy of an expression.
pub fn copy_expression(e: &Expression) -> (c: Expression)
    ensures
        c@ == e@,
    decreases e,
{
    match e {
        Expression::Null => Expression::Null,
        Expression::Number(n) => Expression::Number(*n),
        Expression::Bool(b) => Expression::Bool(*b),
        Expression::String(s) => Expression::String(s.clone()),
        Expression::Expression(o) => {
            let l = copy_expression(&o.l);
            let r = copy_expression(&o.r);
            Expression::Expression(Box::new(ExpressionObj { l, o: o.o, r }))
        },
        Expression::Invert(x) => Expression::Invert(Box::new(copy_expression(x))),
    }
}


/// A word of an expression, or a parenthesised group of words.
#[derive(PartialEq, Debug)]
pub enum WrappedWords {
    Single(Vec<char>),
    Group(Vec<WrappedWords>),
}

/// The value of a [`WrappedWords`].
pub enum SpecWord {
    Single(Seq<char>),
    Group(Seq<SpecWord>),
}

pub open spec fn word_view(w: WrappedWords) -> SpecWord
    decreases w, 0nat,
{
    match w {
        WrappedWords::Single(v) => SpecWord::Single(v@),
        WrappedWords::Group(g) => SpecWord::Group(words_view_upto(g@, g@.len())),
    }
}

/// The values of the first `n` words of `ws`.
pub open spec fn words_view_upto(ws: Seq<WrappedWords>, n: nat) -> Seq<SpecWord>
    decreases ws, n,
{
    if n == 0 || n > ws.len() {
        Seq::empty()
    } else {
        words_view_upto(ws, (n - 1) as nat).push(word_view(ws[n - 1]))
    }
}

pub open spec fn words_view(ws: Seq<WrappedWords>) -> Seq<SpecWord> {
    words_view_upto(ws, ws.len())
}

proof fn lemma_words_view_upto(ws: Seq<WrappedWords>, n: nat)
    requires
        n <= ws.len(),
    ensures
        words_view_upto(ws, n).len() == n,
        forall|i: int| 0 <= i < n ==> #[trigger] words_view_upto(ws, n)[i] == word_view(ws[i]),
    decreases n,
{
    if n > 0 {
        lemma_words_view_upto(ws, (n - 1) as nat);
    }
}

/// The view of a list of words has a view for each word, in order.
pub proof fn lemma_words_view(ws: Seq<WrappedWords>)
    ensures
        words_view(ws).len() == ws.len(),
        forall|i: int| 0 <= i < ws.len() ==> #[trigger] words_view(ws)[i] == word_view(ws[i]),
{
    lemma_words_view_upto(ws, ws.len());
}

proof fn lemma_words_view_subrange(ws: Seq<WrappedWords>, a: int, b: int)
    requires
        0 <= a <= b <= ws.len(),
    ensures
        words_view(ws.subrange(a, b)) == words_view(ws).subrange(a, b),
{
    lemma_words_view(ws);
    lemma_words_view(ws.subrange(a, b));
    assert(words_view(ws.subrange(a, b)) =~= words_view(ws).subrange(a, b));
}

pub open spec fn paren_open() -> Seq<char> {
    seq!['(']
}

pub open spec fn paren_close() -> Seq<char> {
    seq![')']
}

/// Groups `tokens[i..]` by their parentheses, up to the first `)` that
/// closes nothing, or up to the end: the words and the index where it
/// stopped. `None` where an opened group is never closed.
pub open spec fn group_from(tokens: Seq<Seq<char>>, i: int) -> Option<(Seq<SpecWord>, int)>
    decreases tokens.len() - i,
{
    if i < 0 || i >= tokens.len() {
        Some((Seq::empty(), tokens.len() as int))
    } else if tokens[i] == paren_close() {
        Some((Seq::empty(), i))
    } else if tokens[i] == paren_open() {
        match group_from(tokens, i + 1) {
            None => None,
            Some((inner, j)) => if j <= i || j >= tokens.len() {
                None
            } else {
                match group_from(tokens, j + 1) {
                    None => None,
                    Some((rest, k)) => Some((seq![SpecWord::Group(inner)] + rest, k)),
                }
            },
        }
    } else {
        match group_from(tokens, i + 1) {
            None => None,
            Some((rest, k)) => Some((seq![SpecWord::Single(tokens[i])] + rest, k)),
        }
    }
}

/// The words of `tokens`, grouped by their parentheses; `None` where the
/// parentheses do not match.
pub open spec fn group_words(tokens: Seq<Seq<char>>) -> Option<Seq<SpecWord>> {
    match group_from(tokens, 0) {
        Some((ws, k)) => if k == tokens.len() {
            Some(ws)
        } else {
            None
        },
        None => None,
    }
}

proof fn lemma_group_from_index(tokens: Seq<Seq<char>>, i: int)
    requires
        0 <= i <= tokens.len(),
    ensures
        group_from(tokens, i) matches Some((ws, k)) ==> i <= k <= tokens.len() && (k == tokens.len()
            || tokens[k] == paren_close()),
    decreases tokens.len() - i,
{
    if i < tokens.len() && tokens[i] != paren_close() {
        lemma_group_from_index(tokens, i + 1);
        if tokens[i] == paren_open() {
            if let Some((inner, j)) = group_from(tokens, i + 1) {
                if i < j < tokens.len() {
                    lemma_group_from_index(tokens, j + 1);
                }
            }
        }
    }
}

fn is_single_char(t: &Vec<char>, c: char) -> (b: bool)
    ensures
        b == (t@ == seq![c]),
{
    let r = t.len() == 1 && t[0] == c;
    if t.len() == 1 {
        assert(r ==> t@ =~= seq![c]);
    }
    r
}

fn copy_chars(t: &Vec<char>) -> (c: Vec<char>)
    ensures
        c@ == t@,
{
    let mut c: Vec<char> = Vec::new();
    let mut i: usize = 0;
    while i < t.len()
        invariant
            i <= t@.len(),
            c@ == t@.take(i as int),
        decreases t@.len() - i,
    {
        c.push(t[i]);
        i = i + 1;
        assert(c@ =~= t@.take(i as int));
    }
    assert(t@.take(t@.len() as int) =~= t@);
    c
}

fn group_from_exec(tokens: &Vec<Vec<char>>, i: usize) -> (r: Option<(Vec<WrappedWords>, usize)>)
    requires
        i <= tokens@.len(),
    ensures
        match r {
            Some((ws, k)) => group_from(word_views(tokens@), i as int) == Some(
                (words_view(ws@), k as int),
            ),
            None => group_from(word_views(tokens@), i as int) is None,
        },
    decreases tokens@.len() - i,
{
    let ghost tv = word_views(tokens@);
    if i >= tokens.len() {
        proof {
            lemma_words_view(Seq::<WrappedWords>::empty());
            assert(words_view(Seq::<WrappedWords>::empty()) =~= Seq::empty());
        }
        return Some((Vec::new(), tokens.len()));
    }
    assert(tv[i as int] == tokens@[i as int]@);
    if is_single_char(&tokens[i], ')') {
        proof {
            lemma_words_view(Seq::<WrappedWords>::empty());
            assert(words_view(Seq::<WrappedWords>::empty()) =~= Seq::empty());
        }
        Some((Vec::new(), i))
    } else if is_single_char(&tokens[i], '(') {
        match group_from_exec(tokens, i + 1) {
            None => None,
            Some((inner, j)) => {
                proof {
                    lemma_group_from_index(tv, i + 1);
                }
                if j >= tokens.len() {
                    None
                } else {
                    match group_from_exec(tokens, j + 1) {
                        None => None,
                        Some((rest, k)) => {
                            let ghost rest_v = rest@;
                            let mut out = rest;
                            out.insert(0, WrappedWords::Group(inner));
                            proof {
                                lemma_words_view(out@);
                                lemma_words_view(rest_v);
                                lemma_words_view(inner@);
                                assert(word_view(out@[0]) == SpecWord::Group(words_view(inner@)));
                                assert(words_view(out@) =~= seq![SpecWord::Group(words_view(inner@))]
                                    + words_view(rest_v));
                            }
                            Some((out, k))
                        },
                    }
                }
            },
        }
    } else {
        match group_from_exec(tokens, i + 1) {
            None => None,
            Some((rest, k)) => {
                let ghost rest_v = rest@;
                let mut out = rest;
                let w = copy_chars(&tokens[i]);
                out.insert(0, WrappedWords::Single(w));
                proof {
                    lemma_words_view(out@);
                    lemma_words_view(rest_v);
                    assert(words_view(out@) =~= seq![SpecWord::Single(tv[i as int])] + words_view(
                        rest_v,
                    ));
                }
                Some((out, k))
            },
        }
    }
}

/// Groups the words of an expression by their parentheses.
pub fn wrap_expression(words: Vec<Vec<char>>) -> (r: Result<Vec<WrappedWords>, ExpressionError>)
    ensures
        match r {
            Ok(ws) => group_words(word_views(words@)) == Some(words_view(ws@)),
            Err(e) => group_words(word_views(words@)) is None && e
                == ExpressionError::MismatchedParenthesis,
        },
{
    match group_from_exec(&words, 0) {
        Some((ws, k)) => {
            if k == words.len() {
                Ok(ws)
            } else {
                Err(ExpressionError::MismatchedParenthesis)
            }
        },
        None => Err(ExpressionError::MismatchedParenthesis),
    }
}


/// The operator characters, in the order in which they bind most loosely.
pub open spec fn op_char(k: int) -> char {
    if k == 0 {
        '&'
    } else if k == 1 {
        '|'
    } else if k == 2 {
        '+'
    } else if k == 3 {
        '-'
    } else if k == 4 {
        '*'
    } else if k == 5 {
        '/'
    } else if k == 6 {
        '%'
    } else {
        '!'
    }
}

pub open spec fn match_operator_spec(t: Seq<char>) -> Option<ExpressionOperator> {
    if t == seq!['+'] {
        Some(ExpressionOperator::Add)
    } else if t == seq!['-'] {
        Some(ExpressionOperator::Subtract)
    } else if t == seq!['*'] {
        Some(ExpressionOperator::Multiply)
    } else if t == seq!['/'] {
        Some(ExpressionOperator::Divide)
    } else if t == seq!['%'] {
        Some(ExpressionOperator::Remainder)
    } else if t == seq!['&'] {
        Some(ExpressionOperator::And)
    } else if t == seq!['|'] {
        Some(ExpressionOperator::Or)
    } else {
        None
    }
}

/// The index of the last word of `phrase` that is the single character `c`,
/// or -1.
pub open spec fn last_index_of(phrase: Seq<SpecWord>, c: char) -> int
    decreases phrase.len(),
{
    if phrase.len() == 0 {
        -1
    } else if phrase.last() == SpecWord::Single(seq![c]) {
        phrase.len() - 1
    } else {
        last_index_of(phrase.drop_last(), c)
    }
}

/// The index of the operator that `phrase` splits at: the last occurrence of
/// the first operator character, in binding order from `k` on, that occurs
/// at all; -1 if none does.
pub open spec fn operator_index_from(phrase: Seq<SpecWord>, k: int) -> int
    decreases 8 - k,
{
    if k < 0 || k >= 8 {
        -1
    } else if last_index_of(phrase, op_char(k)) >= 0 {
        last_index_of(phrase, op_char(k))
    } else {
        operator_index_from(phrase, k + 1)
    }
}

/// The sign that an operator before a number gives it.
pub open spec fn polarity_spec(prev_op: Option<ExpressionOperator>, val: i64) -> Option<i64> {
    match prev_op {
        None => Some(val),
        Some(ExpressionOperator::Add) => Some(val),
        Some(ExpressionOperator::Subtract) => if val == i64::MIN {
            None
        } else {
            Some((-val) as i64)
        },
        Some(_) => None,
    }
}

/// The expression that a grouped phrase denotes, given the operator (if
/// any) that stands right before it.
pub open spec fn interpret_spec(phrase: Seq<SpecWord>, prev_op: Option<ExpressionOperator>) -> Result<
    ExprValue,
    ExpressionError,
>
    decreases phrase,
{
    let len = phrase.len();
    if len == 0 {
        Ok(ExprValue::Null)
    } else if len == 1 {
        match phrase[0] {
            SpecWord::Single(w) => match parse_i64_spec(w) {
                Some(n) => match polarity_spec(prev_op, n) {
                    Some(v) => Ok(ExprValue::Number(v)),
                    None => Err(ExpressionError::Invalid),
                },
                None => Ok(ExprValue::Text(w)),
            },
            SpecWord::Group(g) => if prev_op is Some {
                Err(ExpressionError::Invalid)
            } else {
                interpret_spec(g, None)
            },
        }
    } else {
        let op_index = operator_index_from(phrase, 0);
        if op_index < 0 || op_index >= len {
            Err(ExpressionError::MissingOperator)
        } else if op_index == len - 1 {
            Err(ExpressionError::Invalid)
        } else {
            match phrase[op_index] {
                SpecWord::Group(_) => Err(ExpressionError::MissingOperator),
                SpecWord::Single(raw_op) => {
                    let prev_as_op = if op_index > 0 {
                        match phrase[op_index - 1] {
                            SpecWord::Single(t) => match_operator_spec(t),
                            SpecWord::Group(_) => None,
                        }
                    } else {
                        None
                    };
                    if op_index == 0 && raw_op == seq!['!'] {
                        match interpret_spec(phrase.subrange(1, len as int), None) {
                            Ok(r) => Ok(ExprValue::Invert(Box::new(r))),
                            Err(e) => Err(e),
                        }
                    } else {
                        match match_operator_spec(raw_op) {
                            None => Err(ExpressionError::InvalidOperator),
                            Some(new_op) => if op_index == 0 {
                                if prev_op is Some {
                                    Err(ExpressionError::Invalid)
                                } else {
                                    interpret_spec(phrase.subrange(1, len as int), Some(new_op))
                                }
                            } else {
                                let real_op = match prev_as_op {
                                    Some(p) => p,
                                    None => new_op,
                                };
                                let index = if prev_as_op is Some {
                                    op_index - 1
                                } else {
                                    op_index
                                };
                                match interpret_spec(phrase.subrange(0, index), prev_op) {
                                    Err(e) => Err(e),
                                    Ok(l) => match interpret_spec(
                                        phrase.subrange(op_index + 1, len as int),
                                        if prev_as_op is Some {
                                            Some(new_op)
                                        } else {
                                            None
                                        },
                                    ) {
                                        Err(e) => Err(e),
                                        Ok(r) => Ok(ExprValue::Op(Box::new(l), real_op, Box::new(r))),
                                    },
                                }
                            },
                        }
                    }
                },
            }
        }
    }
}

proof fn lemma_last_index_of_bounds(phrase: Seq<SpecWord>, c: char)
    ensures
        -1 <= last_index_of(phrase, c) < phrase.len(),
        last_index_of(phrase, c) >= 0 ==> phrase[last_index_of(phrase, c)] == SpecWord::Single(
            seq![c],
        ),
    decreases phrase.len(),
{
    if phrase.len() > 0 && phrase.last() != SpecWord::Single(seq![c]) {
        lemma_last_index_of_bounds(phrase.drop_last(), c);
    }
}

proof fn lemma_operator_index_bounds(phrase: Seq<SpecWord>, k: int)
    ensures
        -1 <= operator_index_from(phrase, k) < phrase.len(),
    decreases 8 - k,
{
    if 0 <= k < 8 {
        lemma_last_index_of_bounds(phrase, op_char(k));
        lemma_operator_index_bounds(phrase, k + 1);
    }
}

/// A word that reads as a number is no operator.
proof fn lemma_number_word(w: Seq<char>)
    requires
        parse_i64_spec(w) is Some,
    ensures
        w.len() != 1 || is_digit(w[0]),
        match_operator_spec(w) is None,
        forall|c: char| !is_digit(c) ==> w != seq![c],
{
    if w.len() == 1 {
        if w[0] == '+' || w[0] == '-' {
            assert(unsigned_part(w).len() == 0);
        } else {
            assert(unsigned_part(w) == w);
            assert(is_digit(unsigned_part(w)[0]));
        }
    }
    assert forall|c: char| !is_digit(c) implies w != seq![c] by {
        if w == seq![c] {
            assert(w[0] == c);
        }
    }
    assert(!is_digit('+') && !is_digit('-') && !is_digit('*') && !is_digit('/') && !is_digit('%') && !is_digit('&')
        && !is_digit('|'));
}

/// A phrase without the word `c` has no last index of it.
proof fn lemma_no_word(p: Seq<SpecWord>, c: char)
    requires
        forall|i: int| 0 <= i < p.len() ==> p[i] != SpecWord::Single(seq![c]),
    ensures
        last_index_of(p, c) == -1,
    decreases p.len(),
{
    if p.len() > 0 {
        assert(p.last() == p[p.len() - 1]);
        assert forall|i: int| 0 <= i < p.drop_last().len() implies p.drop_last()[i] != SpecWord::Single(seq![c]) by {
            assert(p.drop_last()[i] == p[i]);
        }
        lemma_no_word(p.drop_last(), c);
    }
}

/// Where a phrase has no last index of the word `c`, it has no such word.
proof fn lemma_none_word(p: Seq<SpecWord>, c: char)
    ensures
        last_index_of(p, c) == -1 ==> forall|i: int| 0 <= i < p.len() ==> p[i] != SpecWord::Single(seq![c]),
    decreases p.len(),
{
    if p.len() > 0 && last_index_of(p, c) == -1 {
        lemma_none_word(p.drop_last(), c);
        assert forall|i: int| 0 <= i < p.len() implies p[i] != SpecWord::Single(seq![c]) by {
            if i < p.len() - 1 {
                assert(p[i] == p.drop_last()[i]);
            }
        }
    }
}

/// A phrase of numbers joined by `+` and `-`: a number word at every even
/// place, the word `+` or `-` at every odd place.
pub open spec fn add_sub_chain(p: Seq<SpecWord>) -> bool {
    &&& p.len() % 2 == 1
    &&& forall|i: int|
        0 <= i < p.len() && i % 2 == 0 ==> (#[trigger] p[i] matches SpecWord::Single(w) && parse_i64_spec(w) is Some)
    &&& forall|i: int|
        0 <= i < p.len() && i % 2 == 1 ==> (#[trigger] p[i] == SpecWord::Single(seq!['+']) || p[i] == SpecWord::Single(
            seq!['-'],
        ))
}

/// The number that a number word reads as.
pub open spec fn word_number(w: SpecWord) -> int {
    match w {
        SpecWord::Single(s) => match parse_i64_spec(s) {
            Some(n) => n as int,
            None => 0,
        },
        SpecWord::Group(_) => 0,
    }
}

/// The value of a chain of numbers joined by `+` and `-`, taken from left
/// to right.
pub open spec fn chain_value(p: Seq<SpecWord>) -> int
    decreases p.len(),
{
    if p.len() < 3 {
        word_number(p[0])
    } else if p[p.len() - 2] == SpecWord::Single(seq!['+']) {
        chain_value(p.subrange(0, p.len() - 2)) + word_number(p[p.len() - 1])
    } else {
        chain_value(p.subrange(0, p.len() - 2)) - word_number(p[p.len() - 1])
    }
}

/// The value of an expression tree of numbers, sums and differences.
pub open spec fn add_sub_value(e: ExprValue) -> int
    decreases e,
{
    match e {
        ExprValue::Number(n) => n as int,
        ExprValue::Op(l, o, r) => if o == ExpressionOperator::Add {
            add_sub_value(*l) + add_sub_value(*r)
        } else if o == ExpressionOperator::Subtract {
            add_sub_value(*l) - add_sub_value(*r)
        } else {
            0
        },
        _ => 0,
    }
}

/// Parts of a chain are chains.
proof fn lemma_chain_parts(p: Seq<SpecWord>, a: int, b: int)
    requires
        add_sub_chain(p),
        0 <= a < b <= p.len(),
        a % 2 == 0,
        (b - a) % 2 == 1,
    ensures
        add_sub_chain(p.subrange(a, b)),
{
    let q = p.subrange(a, b);
    assert forall|i: int| 0 <= i < q.len() && i % 2 == 0 implies (#[trigger] q[i] matches SpecWord::Single(w)
        && parse_i64_spec(w) is Some) by {
        assert(q[i] == p[a + i]);
        assert((a + i) % 2 == 0);
    }
    assert forall|i: int| 0 <= i < q.len() && i % 2 == 1 implies (#[trigger] q[i] == SpecWord::Single(seq!['+'])
        || q[i] == SpecWord::Single(seq!['-'])) by {
        assert(q[i] == p[a + i]);
        assert((a + i) % 2 == 1);
    }
}

/// Splitting a chain at a `+` adds the values of the two sides.
proof fn lemma_chain_split_add(p: Seq<SpecWord>, j: int)
    requires
        add_sub_chain(p),
        0 < j < p.len() - 1,
        j % 2 == 1,
        p[j] == SpecWord::Single(seq!['+']),
    ensures
        chain_value(p) == chain_value(p.subrange(0, j)) + chain_value(p.subrange(j + 1, p.len() as int)),
    decreases p.len(),
{
    let n = p.len() as int;
    let right = p.subrange(j + 1, n);
    if j == n - 2 {
        assert(p.subrange(0, n - 2) =~= p.subrange(0, j));
        assert(right.len() == 1);
        assert(right[0] == p[n - 1]);
    } else {
        let q = p.subrange(0, n - 2);
        lemma_chain_parts(p, 0, n - 2);
        assert(q[j] == p[j]);
        lemma_chain_split_add(q, j);
        assert(q.subrange(0, j) =~= p.subrange(0, j));
        assert(q.subrange(j + 1, q.len() as int) =~= p.subrange(j + 1, n - 2));
        assert(right.subrange(0, right.len() - 2) =~= p.subrange(j + 1, n - 2));
        assert(right[right.len() - 2] == p[n - 2]);
        assert(right[right.len() - 1] == p[n - 1]);
    }
}

/// A chain of numbers joined by `+` and `-` parses into a tree whose sums
/// and differences give the value of the chain taken from left to right:
/// `a - b + c` is `(a - b) + c`, never `a - (b + c)`.
pub proof fn lemma_add_sub_chain(p: Seq<SpecWord>)
    requires
        add_sub_chain(p),
    ensures
        interpret_spec(p, None) matches Ok(t) && add_sub_value(t) == chain_value(p),
    decreases p.len(),
{
    let n = p.len() as int;
    assert(p[0] matches SpecWord::Single(w) && parse_i64_spec(w) is Some);
    if n == 1 {
        return;
    }
    // no `&` or `|` in a chain
    assert forall|i: int| 0 <= i < n implies p[i] != SpecWord::Single(seq!['&']) && p[i] != SpecWord::Single(
        seq!['|'],
    ) && p[i] != SpecWord::Single(seq!['!']) by {
        if i % 2 == 0 {
            let w = p[i]->Single_0;
            lemma_number_word(w);
            assert(!is_digit('&') && !is_digit('|') && !is_digit('!'));
        } else {
            assert(p[i] == SpecWord::Single(seq!['+']) || p[i] == SpecWord::Single(seq!['-']));
            assert(seq!['+'] != seq!['&'] && seq!['-'] != seq!['&'] && seq!['+'] != seq!['|'] && seq!['-'] != seq![
                '|'
            ] && seq!['+'] != seq!['!'] && seq!['-'] != seq!['!']) by {
                assert(seq!['+'][0] != seq!['&'][0]);
                assert(seq!['-'][0] != seq!['&'][0]);
                assert(seq!['+'][0] != seq!['|'][0]);
                assert(seq!['-'][0] != seq!['|'][0]);
                assert(seq!['+'][0] != seq!['!'][0]);
                assert(seq!['-'][0] != seq!['!'][0]);
            }
        }
    }
    lemma_no_word(p, '&');
    lemma_no_word(p, '|');
    assert(op_char(0) == '&' && op_char(1) == '|' && op_char(2) == '+' && op_char(3) == '-');
    let jp = last_index_of(p, '+');
    lemma_last_index_of_bounds(p, '+');
    lemma_none_word(p, '+');
    let j = if jp >= 0 {
        jp
    } else {
        assert(p[n - 2] != SpecWord::Single(seq!['+']));
        assert(p[n - 2] == SpecWord::Single(seq!['-']));
        let w = p[n - 1]->Single_0;
        lemma_number_word(w);
        assert(!is_digit('-'));
        assert(p.last() == p[n - 1]);
        assert(p.drop_last().last() == p[n - 2]);
        assert(p[n - 1] == SpecWord::Single(w));
        assert(w != seq!['-']);
        assert(p.last() != SpecWord::Single(seq!['-']));
        assert(last_index_of(p.drop_last(), '-') == n - 2);
        assert(last_index_of(p, '-') == n - 2);
        n - 2
    };
    assert(operator_index_from(p, 3) == last_index_of(p, '-') || jp >= 0);
    assert(operator_index_from(p, 0) == j) by {
        assert(operator_index_from(p, 0) == operator_index_from(p, 1));
        assert(operator_index_from(p, 1) == operator_index_from(p, 2));
        if jp < 0 {
            assert(operator_index_from(p, 2) == operator_index_from(p, 3));
        }
    }
    // the operator sits at an odd place, between two numbers
    assert(j % 2 == 1) by {
        if j % 2 == 0 {
            let w = p[j]->Single_0;
            lemma_number_word(w);
            assert(!is_digit('+') && !is_digit('-'));
        }
    }
    assert(0 < j < n - 1);
    let before = p[j - 1]->Single_0;
    assert(p[j - 1] matches SpecWord::Single(w) && parse_i64_spec(w) is Some);
    lemma_number_word(before);
    let left = p.subrange(0, j);
    let right = p.subrange(j + 1, n);
    lemma_chain_parts(p, 0, j);
    lemma_chain_parts(p, j + 1, n);
    lemma_add_sub_chain(left);
    lemma_add_sub_chain(right);
    if p[j] == SpecWord::Single(seq!['+']) {
        assert(match_operator_spec(seq!['+']) == Some(ExpressionOperator::Add));
        assert(seq!['+'] != seq!['!']) by {
            assert(seq!['+'][0] != seq!['!'][0]);
        }
        lemma_chain_split_add(p, j);
    } else {
        assert(p[j] == SpecWord::Single(seq!['-']));
        assert(j == n - 2) by {
            if jp >= 0 {
                assert(p[jp] == SpecWord::Single(seq!['+']));
            }
        }
        assert(match_operator_spec(seq!['-']) == Some(ExpressionOperator::Subtract)) by {
            assert(seq!['-'] != seq!['+']) by {
                assert(seq!['-'][0] != seq!['+'][0]);
            }
        }
        assert(seq!['-'] != seq!['!']) by {
            assert(seq!['-'][0] != seq!['!'][0]);
        }
        assert(p.subrange(0, n - 2) =~= left);
        assert(right.len() == 1 && right[0] == p[n - 1]);
    }
}

/// Whether the word is `+` or `-`.
pub open spec fn is_sum_sign(w: SpecWord) -> bool {
    w == SpecWord::Single(seq!['+']) || w == SpecWord::Single(seq!['-'])
}

/// A phrase of numbers joined by `+`, `-` and `*`: a number word at every
/// even place, one of those operator words at every odd place.
pub open spec fn arith_chain(p: Seq<SpecWord>) -> bool {
    &&& p.len() % 2 == 1
    &&& forall|i: int|
        0 <= i < p.len() && i % 2 == 0 ==> (#[trigger] p[i] matches SpecWord::Single(w) && parse_i64_spec(w) is Some)
    &&& forall|i: int|
        0 <= i < p.len() && i % 2 == 1 ==> (is_sum_sign(#[trigger] p[i]) || p[i] == SpecWord::Single(seq!['*']))
}

/// The last place before `n` of a `+` or `-`, or -1.
pub open spec fn last_sum_sign(p: Seq<SpecWord>, n: int) -> int
    decreases n,
{
    if n <= 0 {
        -1
    } else if is_sum_sign(p[n - 1]) {
        n - 1
    } else {
        last_sum_sign(p, n - 1)
    }
}

/// The product of a chain of numbers joined by `*`, from left to right.
pub open spec fn product_value(p: Seq<SpecWord>) -> int
    decreases p.len(),
{
    if p.len() < 3 {
        word_number(p[0])
    } else {
        product_value(p.subrange(0, p.len() - 2)) * word_number(p[p.len() - 1])
    }
}

/// The value of a chain of numbers joined by `+`, `-` and `*` in the usual
/// reading: products first, then sums and differences from left to right.
pub open spec fn arith_value(p: Seq<SpecWord>) -> int
    decreases p.len(),
{
    let k = last_sum_sign(p, p.len() as int);
    if 0 <= k < p.len() {
        if p[k] == SpecWord::Single(seq!['+']) {
            arith_value(p.subrange(0, k)) + product_value(p.subrange(k + 1, p.len() as int))
        } else {
            arith_value(p.subrange(0, k)) - product_value(p.subrange(k + 1, p.len() as int))
        }
    } else {
        product_value(p)
    }
}

/// The value of an expression tree of numbers, sums, differences and
/// products.
pub open spec fn arith_tree_value(e: ExprValue) -> int
    decreases e,
{
    match e {
        ExprValue::Number(n) => n as int,
        ExprValue::Op(l, o, r) => if o == ExpressionOperator::Add {
            arith_tree_value(*l) + arith_tree_value(*r)
        } else if o == ExpressionOperator::Subtract {
            arith_tree_value(*l) - arith_tree_value(*r)
        } else if o == ExpressionOperator::Multiply {
            arith_tree_value(*l) * arith_tree_value(*r)
        } else {
            0
        },
        _ => 0,
    }
}

/// The last sign before `n` is the last `+` or `-` there.
proof fn lemma_last_sum_sign(p: Seq<SpecWord>, n: int)
    requires
        0 <= n <= p.len(),
    ensures
        ({
            let k = last_sum_sign(p, n);
            ||| k == -1 && forall|i: int| 0 <= i < n ==> !is_sum_sign(#[trigger] p[i])
            ||| 0 <= k < n && is_sum_sign(p[k]) && forall|i: int| k < i < n ==> !is_sum_sign(#[trigger] p[i])
        }),
    decreases n,
{
    if n > 0 && !is_sum_sign(p[n - 1]) {
        lemma_last_sum_sign(p, n - 1);
    }
}

/// The last sign is determined by the words it ranges over.
proof fn lemma_last_sum_sign_is(p: Seq<SpecWord>, n: int, k: int)
    requires
        0 <= n <= p.len(),
        -1 <= k < n,
        k >= 0 ==> is_sum_sign(p[k]),
        forall|i: int| k < i < n ==> !is_sum_sign(#[trigger] p[i]),
    ensures
        last_sum_sign(p, n) == k,
    decreases n,
{
    if n > 0 && n - 1 != k {
        lemma_last_sum_sign_is(p, n - 1, k);
    }
}

/// Parts of a chain are chains.
proof fn lemma_arith_parts(p: Seq<SpecWord>, a: int, b: int)
    requires
        arith_chain(p),
        0 <= a < b <= p.len(),
        a % 2 == 0,
        (b - a) % 2 == 1,
    ensures
        arith_chain(p.subrange(a, b)),
{
    let q = p.subrange(a, b);
    assert forall|i: int| 0 <= i < q.len() && i % 2 == 0 implies (#[trigger] q[i] matches SpecWord::Single(w)
        && parse_i64_spec(w) is Some) by {
        assert(q[i] == p[a + i]);
        assert((a + i) % 2 == 0);
    }
    assert forall|i: int| 0 <= i < q.len() && i % 2 == 1 implies (is_sum_sign(#[trigger] q[i]) || q[i]
        == SpecWord::Single(seq!['*'])) by {
        assert(q[i] == p[a + i]);
        assert((a + i) % 2 == 1);
    }
}

/// Without `+` and `-`, a chain is worth its product.
proof fn lemma_arith_no_sign(p: Seq<SpecWord>)
    requires
        p.len() > 0,
        forall|i: int| 0 <= i < p.len() ==> !is_sum_sign(#[trigger] p[i]),
    ensures
        arith_value(p) == product_value(p),
{
    lemma_last_sum_sign_is(p, p.len() as int, -1);
}

/// Splitting a chain at a `+` adds the values of the two sides.
proof fn lemma_arith_split_add(p: Seq<SpecWord>, j: int)
    requires
        arith_chain(p),
        0 < j < p.len() - 1,
        j % 2 == 1,
        p[j] == SpecWord::Single(seq!['+']),
    ensures
        arith_value(p) == arith_value(p.subrange(0, j)) + arith_value(p.subrange(j + 1, p.len() as int)),
    decreases p.len(),
{
    let n = p.len() as int;
    let r = p.subrange(j + 1, n);
    lemma_last_sum_sign(p, n);
    let k = last_sum_sign(p, n);
    assert(is_sum_sign(p[j]));
    assert(k >= j);
    assert(k % 2 == 1) by {
        if k % 2 == 0 {
            let w = p[k]->Single_0;
            lemma_number_word(w);
            assert(!is_digit('+') && !is_digit('-'));
        }
    }
    if k == j {
        assert forall|i: int| 0 <= i < r.len() implies !is_sum_sign(#[trigger] r[i]) by {
            assert(r[i] == p[j + 1 + i]);
        }
        lemma_arith_no_sign(r);
    } else {
        let q = p.subrange(0, k);
        lemma_arith_parts(p, 0, k);
        assert(q[j] == p[j]);
        lemma_arith_split_add(q, j);
        assert(q.subrange(0, j) =~= p.subrange(0, j));
        assert(q.subrange(j + 1, k) =~= p.subrange(j + 1, k));
        // the last sign of the right side is that of the chain
        let kr = k - (j + 1);
        assert(r[kr] == p[k]);
        assert forall|i: int| kr < i < r.len() implies !is_sum_sign(#[trigger] r[i]) by {
            assert(r[i] == p[j + 1 + i]);
        }
        lemma_last_sum_sign_is(r, r.len() as int, kr);
        assert(r.subrange(0, kr) =~= p.subrange(j + 1, k));
        assert(r.subrange(kr + 1, r.len() as int) =~= p.subrange(k + 1, n));
    }
}

/// A chain of numbers joined by `+`, `-` and `*` parses into a tree whose
/// sums, differences and products give the value of the chain in the usual
/// reading: `a + b * c` is `a + (b * c)`, `a - b + c` is `(a - b) + c`.
pub proof fn lemma_arith_chain(p: Seq<SpecWord>)
    requires
        arith_chain(p),
    ensures
        interpret_spec(p, None) matches Ok(t) && arith_tree_value(t) == arith_value(p),
    decreases p.len(),
{
    let n = p.len() as int;
    assert(p[0] matches SpecWord::Single(w) && parse_i64_spec(w) is Some);
    if n == 1 {
        let w = p[0]->Single_0;
        lemma_number_word(w);
        assert(!is_digit('+') && !is_digit('-'));
        assert(seq!['+'][0] == '+' && seq!['-'][0] == '-');
        lemma_last_sum_sign_is(p, 1, -1);
        return;
    }
    assert(seq!['+'][0] == '+' && seq!['-'][0] == '-' && seq!['*'][0] == '*' && seq!['&'][0] == '&' && seq!['|'][0]
        == '|' && seq!['!'][0] == '!');
    assert(!is_digit('&') && !is_digit('|') && !is_digit('!') && !is_digit('+') && !is_digit('-') && !is_digit('*'));
    assert forall|i: int| 0 <= i < n implies p[i] != SpecWord::Single(seq!['&']) && p[i] != SpecWord::Single(
        seq!['|'],
    ) by {
        if i % 2 == 0 {
            let w = p[i]->Single_0;
            lemma_number_word(w);
        }
    }
    lemma_no_word(p, '&');
    lemma_no_word(p, '|');
    assert(op_char(0) == '&' && op_char(1) == '|' && op_char(2) == '+' && op_char(3) == '-' && op_char(4) == '*');
    lemma_last_index_of_bounds(p, '+');
    lemma_last_index_of_bounds(p, '-');
    lemma_last_index_of_bounds(p, '*');
    lemma_none_word(p, '+');
    lemma_none_word(p, '-');
    let jp = last_index_of(p, '+');
    let jm = last_index_of(p, '-');
    assert(last_index_of(p, op_char(0)) == -1);
    assert(operator_index_from(p, 0) == operator_index_from(p, 1));
    assert(last_index_of(p, op_char(1)) == -1);
    assert(operator_index_from(p, 1) == operator_index_from(p, 2));
    let j = if jp >= 0 {
        jp
    } else if jm >= 0 {
        assert(operator_index_from(p, 2) == operator_index_from(p, 3));
        jm
    } else {
        assert(operator_index_from(p, 2) == operator_index_from(p, 3));
        assert(operator_index_from(p, 3) == operator_index_from(p, 4));
        assert(p[n - 2] == SpecWord::Single(seq!['*']));
        let w = p[n - 1]->Single_0;
        lemma_number_word(w);
        assert(p[n - 1] == SpecWord::Single(w));
        assert(w != seq!['*']);
        assert(p.last() != SpecWord::Single(seq!['*']));
        assert(p.drop_last().last() == p[n - 2]);
        assert(last_index_of(p.drop_last(), '*') == n - 2);
        assert(last_index_of(p, '*') == n - 2);
        n - 2
    };
    assert(operator_index_from(p, 0) == j);
    assert(j % 2 == 1) by {
        if j % 2 == 0 {
            let w = p[j]->Single_0;
            lemma_number_word(w);
        }
    }
    assert(0 < j < n - 1);
    let before = p[j - 1]->Single_0;
    assert(p[j - 1] matches SpecWord::Single(w) && parse_i64_spec(w) is Some);
    lemma_number_word(before);
    let left = p.subrange(0, j);
    let right = p.subrange(j + 1, n);
    lemma_arith_parts(p, 0, j);
    lemma_arith_parts(p, j + 1, n);
    lemma_arith_chain(left);
    lemma_arith_chain(right);
    assert(seq!['+'] != seq!['!'] && seq!['-'] != seq!['!'] && seq!['*'] != seq!['!']);
    assert(seq!['-'] != seq!['+'] && seq!['*'] != seq!['+'] && seq!['*'] != seq!['-']);
    assert(match_operator_spec(seq!['+']) == Some(ExpressionOperator::Add));
    assert(match_operator_spec(seq!['-']) == Some(ExpressionOperator::Subtract));
    assert(match_operator_spec(seq!['*']) == Some(ExpressionOperator::Multiply));
    if jp >= 0 {
        lemma_arith_split_add(p, j);
    } else if jm >= 0 {
        // no `+`: the last `-` is the last sign, and the right side is a product
        assert(p[j] == SpecWord::Single(seq!['-']));
        assert forall|i: int| j < i < n implies !is_sum_sign(#[trigger] p[i]) by {
            if p[i] == SpecWord::Single(seq!['-']) {
                lemma_last_index_of_after(p, '-', i);
            }
        }
        lemma_last_sum_sign_is(p, n, j);
        assert forall|i: int| 0 <= i < right.len() implies !is_sum_sign(#[trigger] right[i]) by {
            assert(right[i] == p[j + 1 + i]);
        }
        lemma_arith_no_sign(right);
    } else {
        assert forall|i: int| 0 <= i < n implies !is_sum_sign(#[trigger] p[i]) by {}
        lemma_arith_no_sign(p);
        assert forall|i: int| 0 <= i < left.len() implies !is_sum_sign(#[trigger] left[i]) by {
            assert(left[i] == p[i]);
        }
        lemma_arith_no_sign(left);
        assert(p.subrange(0, n - 2) =~= left);
        assert(right.len() == 1 && right[0] == p[n - 1]);
        let w = p[n - 1]->Single_0;
        lemma_number_word(w);
        lemma_last_sum_sign_is(right, 1, -1);
    }
}

/// No occurrence of `c` lies after its last index.
proof fn lemma_last_index_of_after(p: Seq<SpecWord>, c: char, i: int)
    requires
        0 <= i < p.len(),
        p[i] == SpecWord::Single(seq![c]),
    ensures
        i <= last_index_of(p, c),
    decreases p.len(),
{
    if p.last() != SpecWord::Single(seq![c]) {
        assert(i < p.len() - 1);
        assert(p.drop_last()[i] == p[i]);
        lemma_last_index_of_after(p.drop_last(), c, i);
    }
}

/// The words as a phrase of single words.
pub open spec fn single_words(words: Seq<Seq<char>>) -> Seq<SpecWord> {
    words.map_values(|w: Seq<char>| SpecWord::Single(w))
}

/// Words without parentheses group into single words.
proof fn lemma_group_plain(tokens: Seq<Seq<char>>, i: int)
    requires
        0 <= i <= tokens.len(),
        forall|k: int| 0 <= k < tokens.len() ==> tokens[k] != paren_open() && tokens[k] != paren_close(),
    ensures
        group_from(tokens, i) == Some((single_words(tokens.subrange(i, tokens.len() as int)), tokens.len() as int)),
    decreases tokens.len() - i,
{
    if i < tokens.len() {
        lemma_group_plain(tokens, i + 1);
        assert(seq![SpecWord::Single(tokens[i])] + single_words(tokens.subrange(i + 1, tokens.len() as int))
            =~= single_words(tokens.subrange(i, tokens.len() as int)));
    } else {
        assert(single_words(tokens.subrange(i, tokens.len() as int)) =~= Seq::<SpecWord>::empty());
    }
}

/// Words of numbers joined by `+` and `-` parse into a tree whose sums and
/// differences give the value of the words taken from left to right.
pub proof fn lemma_add_sub_words(words: Seq<Seq<char>>)
    requires
        add_sub_chain(single_words(words)),
    ensures
        interpret_words_spec(words) matches Ok(t) && add_sub_value(t) == chain_value(single_words(words)),
{
    let p = single_words(words);
    assert forall|k: int| 0 <= k < words.len() implies words[k] != paren_open() && words[k] != paren_close() by {
        assert(p[k] == SpecWord::Single(words[k]));
        if k % 2 == 0 {
            lemma_number_word(words[k]);
            assert(!is_digit('(') && !is_digit(')'));
        } else {
            assert(words[k] == seq!['+'] || words[k] == seq!['-']);
            assert(seq!['+'][0] != '(' && seq!['-'][0] != '(' && seq!['+'][0] != ')' && seq!['-'][0] != ')');
            assert(paren_open()[0] == '(' && paren_close()[0] == ')');
        }
    }
    lemma_group_plain(words, 0);
    assert(words.subrange(0, words.len() as int) =~= words);
    lemma_add_sub_chain(p);
}

/// Words of numbers joined by `+`, `-` and `*` parse into a tree worth the
/// value of the words in the usual reading, products first.
pub proof fn lemma_arith_words(words: Seq<Seq<char>>)
    requires
        arith_chain(single_words(words)),
    ensures
        interpret_words_spec(words) matches Ok(t) && arith_tree_value(t) == arith_value(single_words(words)),
{
    let p = single_words(words);
    assert forall|k: int| 0 <= k < words.len() implies words[k] != paren_open() && words[k] != paren_close() by {
        assert(p[k] == SpecWord::Single(words[k]));
        assert(paren_open()[0] == '(' && paren_close()[0] == ')');
        if k % 2 == 0 {
            lemma_number_word(words[k]);
            assert(!is_digit('(') && !is_digit(')'));
        } else {
            assert(words[k] == seq!['+'] || words[k] == seq!['-'] || words[k] == seq!['*']);
            assert(seq!['+'][0] != '(' && seq!['-'][0] != '(' && seq!['+'][0] != ')' && seq!['-'][0] != ')');
            assert(seq!['*'][0] != '(' && seq!['*'][0] != ')');
        }
    }
    lemma_group_plain(words, 0);
    assert(words.subrange(0, words.len() as int) =~= words);
    lemma_arith_chain(p);
}

fn ensure_number_polarity(prev_op: Option<ExpressionOperator>, val: i64) -> (r: Option<i64>)
    ensures
        r == polarity_spec(prev_op, val),
{
    match prev_op {
        None => Some(val),
        Some(ExpressionOperator::Add) => Some(val),
        Some(ExpressionOperator::Subtract) => if val == i64::MIN {
            None
        } else {
            Some(-val)
        },
        Some(_) => None,
    }
}

fn match_operator(t: &Vec<char>) -> (r: Option<ExpressionOperator>)
    ensures
        r == match_operator_spec(t@),
{
    if is_single_char(t, '+') {
        Some(ExpressionOperator::Add)
    } else if is_single_char(t, '-') {
        Some(ExpressionOperator::Subtract)
    } else if is_single_char(t, '*') {
        Some(ExpressionOperator::Multiply)
    } else if is_single_char(t, '/') {
        Some(ExpressionOperator::Divide)
    } else if is_single_char(t, '%') {
        Some(ExpressionOperator::Remainder)
    } else if is_single_char(t, '&') {
        Some(ExpressionOperator::And)
    } else if is_single_char(t, '|') {
        Some(ExpressionOperator::Or)
    } else {
        None
    }
}

fn op_char_exec(k: usize) -> (c: char)
    ensures
        c == op_char(k as int),
{
    if k == 0 {
        '&'
    } else if k == 1 {
        '|'
    } else if k == 2 {
        '+'
    } else if k == 3 {
        '-'
    } else if k == 4 {
        '*'
    } else if k == 5 {
        '/'
    } else if k == 6 {
        '%'
    } else {
        '!'
    }
}

fn last_index_of_exec(phrase: &[WrappedWords], c: char) -> (r: Option<usize>)
    ensures
        match r {
            Some(i) => last_index_of(words_view(phrase@), c) == i as int,
            None => last_index_of(words_view(phrase@), c) == -1,
        },
{
    let ghost v = words_view(phrase@);
    proof {
        lemma_words_view(phrase@);
    }
    let mut n: usize = phrase.len();
    assert(v.take(n as int) =~= v);
    while n > 0
        invariant
            n <= phrase@.len(),
            v == words_view(phrase@),
            v.len() == phrase@.len(),
            forall|i: int| 0 <= i < phrase@.len() ==> #[trigger] v[i] == word_view(phrase@[i]),
            last_index_of(v, c) == last_index_of(v.take(n as int), c),
        decreases n,
    {
        let ghost t = v.take(n as int);
        assert(t.last() == v[n - 1]);
        let hit = match &phrase[n - 1] {
            WrappedWords::Single(w) => is_single_char(w, c),
            WrappedWords::Group(_) => false,
        };
        if hit {
            return Some(n - 1);
        }
        assert(t.drop_last() =~= v.take(n - 1));
        n = n - 1;
    }
    None
}

fn operator_index(phrase: &[WrappedWords]) -> (r: Option<usize>)
    ensures
        r matches Some(i) ==> i < phrase@.len(),
        match r {
            Some(i) => operator_index_from(words_view(phrase@), 0) == i as int,
            None => operator_index_from(words_view(phrase@), 0) == -1,
        },
{
    let mut k: usize = 0;
    while k < 8
        invariant
            k <= 8,
            operator_index_from(words_view(phrase@), 0) == operator_index_from(
                words_view(phrase@),
                k as int,
            ),
        decreases 8 - k,
    {
        let c = op_char_exec(k);
        if let Some(i) = last_index_of_exec(phrase, c) {
            proof {
                lemma_last_index_of_bounds(words_view(phrase@), c);
                lemma_words_view(phrase@);
            }
            return Some(i);
        }
        k = k + 1;
    }
    None
}

/// Interprets a grouped phrase, given the operator (if any) that stands
/// right before it.
pub fn interpret_phrase(phrase: &[WrappedWords], prev_op: Option<ExpressionOperator>) -> (r: Result<
    Expression,
    ExpressionError,
>)
    ensures
        match r {
            Ok(e) => interpret_spec(words_view(phrase@), prev_op) == Ok::<
                ExprValue,
                ExpressionError,
            >(e@),
            Err(x) => interpret_spec(words_view(phrase@), prev_op) == Err::<
                ExprValue,
                ExpressionError,
            >(x),
        },
    decreases phrase@,
{
    let ghost v = words_view(phrase@);
    proof {
        lemma_words_view(phrase@);
    }
    let len = phrase.len();
    if len == 0 {
        Ok(Expression::Null)
    } else if len == 1 {
        assert(v[0] == word_view(phrase@[0]));
        match &phrase[0] {
            WrappedWords::Single(word) => {
                match parse_i64(word.as_slice()) {
                    Some(num) => match ensure_number_polarity(prev_op, num) {
                        Some(p) => Ok(Expression::Number(p)),
                        None => Err(ExpressionError::Invalid),
                    },
                    None => Ok(Expression::String(string_of(word.as_slice()))),
                }
            },
            WrappedWords::Group(grp) => {
                if prev_op.is_some() {
                    Err(ExpressionError::Invalid)
                } else {
                    assert(decreases_to!(phrase@ => phrase@[0]));
                    interpret_phrase(grp.as_slice(), None)
                }
            },
        }
    } else {
        proof {
            lemma_operator_index_bounds(v, 0);
        }
        match operator_index(phrase) {
            None => Err(ExpressionError::MissingOperator),
            Some(op_index) => {
                if op_index == len - 1 {
                    return Err(ExpressionError::Invalid);
                }
                assert(v[op_index as int] == word_view(phrase@[op_index as int]));
                let raw_op = match &phrase[op_index] {
                    WrappedWords::Group(_) => {
                        return Err(ExpressionError::MissingOperator);
                    },
                    WrappedWords::Single(w) => w,
                };
                let prev_as_op = if op_index > 0 {
                    assert(v[op_index - 1] == word_view(phrase@[op_index - 1]));
                    match &phrase[op_index - 1] {
                        WrappedWords::Single(t) => match_operator(t),
                        WrappedWords::Group(_) => None,
                    }
                } else {
                    None
                };
                if op_index == 0 && is_single_char(raw_op, '!') {
                    proof {
                        lemma_words_view_subrange(phrase@, 1, len as int);
                    }
                    let r2 = interpret_phrase(&phrase[1..len], None)?;
                    Ok(Expression::Invert(Box::new(r2)))
                } else {
                    let new_op = match match_operator(raw_op) {
                        Some(o) => o,
                        None => {
                            return Err(ExpressionError::InvalidOperator);
                        },
                    };
                    if op_index == 0 {
                        if prev_op.is_some() {
                            Err(ExpressionError::Invalid)
                        } else {
                            proof {
                                lemma_words_view_subrange(phrase@, 1, len as int);
                            }
                            interpret_phrase(&phrase[1..len], Some(new_op))
                        }
                    } else {
                        let real_op = match prev_as_op {
                            Some(p) => p,
                            None => new_op,
                        };
                        let index = if prev_as_op.is_some() {
                            op_index - 1
                        } else {
                            op_index
                        };
                        proof {
                            lemma_words_view_subrange(phrase@, 0, index as int);
                            lemma_words_view_subrange(phrase@, op_index + 1, len as int);
                        }
                        let l2 = interpret_phrase(&phrase[0..index], prev_op)?;
                        let r2 = interpret_phrase(
                            &phrase[(op_index + 1)..len],
                            if prev_as_op.is_some() {
                                Some(new_op)
                            } else {
                                None
                            },
                        )?;
                        Ok(ExpressionObj { l: l2, o: real_op, r: r2 }.wrap())
                    }
                }
            },
        }
    }
}


/// The regular expression that finds the operator characters and the
/// parentheses of an expression string.
pub const OPERATOR_PATTERN: &'static str = "([\\&\\|\\+\\-\\*/%!\\\\(\\\\)])";

/// What each operator character or parenthesis is replaced with: itself,
/// set apart by spaces.
pub const OPERATOR_REPLACEMENT: &'static str = " $1 ";

pub open spec fn result_view(r: Result<Expression, ExpressionError>) -> Result<
    ExprValue,
    ExpressionError,
> {
    match r {
        Ok(e) => Ok(e@),
        Err(x) => Err(x),
    }
}

/// The expression that a list of words denotes.
pub open spec fn interpret_words_spec(words: Seq<Seq<char>>) -> Result<ExprValue, ExpressionError> {
    if words.len() == 0 {
        Ok(ExprValue::Null)
    } else {
        match group_words(words) {
            None => Err(ExpressionError::MismatchedParenthesis),
            Some(phrase) => interpret_spec(phrase, None),
        }
    }
}

/// The expression that an expression string denotes: its operators and
/// parentheses are set apart by spaces, it is split into words at white
/// space, and the words are grouped and interpreted.
pub open spec fn interpret_string_spec(s: Seq<char>) -> Result<ExprValue, ExpressionError> {
    interpret_words_spec(split_white_space(operators_spaced(s)))
}

/// Interprets the words of an expression.
pub fn interpret_words(words: Vec<Vec<char>>) -> (r: Result<Expression, ExpressionError>)
    ensures
        result_view(r) == interpret_words_spec(word_views(words@)),
{
    if words.len() == 0 {
        return Ok(Expression::Null);
    }
    let wrapped = wrap_expression(words)?;
    interpret_phrase(wrapped.as_slice(), None)
}

/// Interprets an expression string whose operators and parentheses are
/// already set apart by white space.
pub fn interpret_spaced_expression(spaced: &str) -> (r: Result<Expression, ExpressionError>)
    ensures
        result_view(r) == interpret_words_spec(split_white_space(spaced@)),
{
    let chars = chars_of(spaced);
    let words = split_words(chars.as_slice());
    interpret_words(words)
}

/// Parses an expression string.
pub fn interpret_expression_string(expression_str: &str) -> (r: Result<Expression, ExpressionError>)
    ensures
        result_view(r) == interpret_string_spec(expression_str@),
{
    match regex_replace_all(OPERATOR_PATTERN, expression_str, OPERATOR_REPLACEMENT) {
        Some(spaced) => interpret_spaced_expression(spaced.as_str()),
        None => Err(ExpressionError::Invalid),
    }
}

/// Parses the strings inside an expression.
pub open spec fn interpret_expression_spec(e: ExprValue) -> Result<ExprValue, ExpressionError>
    decreases e,
{
    match e {
        ExprValue::Null => Ok(ExprValue::Null),
        ExprValue::Number(n) => Ok(ExprValue::Number(n)),
        ExprValue::Bool(b) => Ok(ExprValue::Bool(b)),
        ExprValue::Text(s) => interpret_string_spec(s),
        ExprValue::Op(l, o, r) => match interpret_expression_spec(*l) {
            Err(x) => Err(x),
            Ok(l2) => match interpret_expression_spec(*r) {
                Err(x) => Err(x),
                Ok(r2) => Ok(ExprValue::Op(Box::new(l2), o, Box::new(r2))),
            },
        },
        ExprValue::Invert(x) => match interpret_expression_spec(*x) {
            Err(y) => Err(y),
            Ok(v) => Ok(ExprValue::Invert(Box::new(v))),
        },
    }
}

pub fn interpret_expression(expression: &Expression) -> (r: Result<Expression, ExpressionError>)
    ensures
        result_view(r) == interpret_expression_spec(expression@),
    decreases expression,
{
    match expression {
        Expression::Null => Ok(Expression::Null),
        Expression::Number(val) => Ok(Expression::Number(*val)),
        Expression::Bool(val) => Ok(Expression::Bool(*val)),
        Expression::String(val) => interpret_expression_string(val.as_str()),
        Expression::Expression(expr_obj) => {
            let l = interpret_expression(&expr_obj.l)?;
            let r = interpret_expression(&expr_obj.r)?;
            Ok(ExpressionObj { l, o: expr_obj.o, r }.wrap())
        },
        Expression::Invert(inner_expr) => {
            let res = interpret_expression(inner_expr)?;
            Ok(Expression::Invert(Box::new(res)))
        },
    }
}

/// The number that an arithmetic operator gives for two numbers, where it
/// gives one without overflow or division by zero.
pub open spec fn apply_operator(a: i64, o: ExpressionOperator, b: i64) -> Option<i64> {
    match o {
        ExpressionOperator::Add => a.checked_add(b),
        ExpressionOperator::Subtract => a.checked_sub(b),
        ExpressionOperator::Multiply => a.checked_mul(b),
        ExpressionOperator::Divide => a.checked_div(b),
        ExpressionOperator::Remainder => a.checked_rem(b),
        _ => None,
    }
}

/// A binary expression over two numbers becomes their result; anything else
/// stays as it is.
pub open spec fn fold_op(l: ExprValue, o: ExpressionOperator, r: ExprValue) -> ExprValue {
    match (l, r) {
        (ExprValue::Number(a), ExprValue::Number(b)) => match apply_operator(a, o, b) {
            Some(v) => ExprValue::Number(v),
            None => ExprValue::Op(Box::new(l), o, Box::new(r)),
        },
        _ => ExprValue::Op(Box::new(l), o, Box::new(r)),
    }
}

/// Constant folding, bottom up.
pub open spec fn fold_spec(e: ExprValue) -> ExprValue
    decreases e,
{
    match e {
        ExprValue::Op(l, o, r) => fold_op(fold_spec(*l), o, fold_spec(*r)),
        ExprValue::Invert(x) => ExprValue::Invert(Box::new(fold_spec(*x))),
        _ => e,
    }
}

/// Parses the strings of an expression and folds its constants.
pub open spec fn simplify_spec(e: ExprValue) -> Result<ExprValue, ExpressionError>
    decreases e,
{
    match e {
        ExprValue::Text(s) => match interpret_string_spec(s) {
            Err(x) => Err(x),
            Ok(v) => match v {
                ExprValue::Text(_) => Ok(v),
                _ => Ok(fold_spec(v)),
            },
        },
        ExprValue::Null => Ok(ExprValue::Null),
        ExprValue::Number(n) => Ok(ExprValue::Number(n)),
        ExprValue::Bool(b) => Ok(ExprValue::Bool(b)),
        ExprValue::Invert(x) => match simplify_spec(*x) {
            Err(y) => Err(y),
            Ok(v) => Ok(ExprValue::Invert(Box::new(v))),
        },
        ExprValue::Op(l, o, r) => match simplify_spec(*l) {
            Err(x) => Err(x),
            Ok(l2) => match simplify_spec(*r) {
                Err(x) => Err(x),
                Ok(r2) => Ok(fold_op(l2, o, r2)),
            },
        },
    }
}

/// The expression `a o b` over two numbers.
pub open spec fn number_op(a: i64, o: ExpressionOperator, b: i64) -> ExprValue {
    ExprValue::Op(Box::new(ExprValue::Number(a)), o, Box::new(ExprValue::Number(b)))
}

/// Simplifying an arithmetic expression over two numbers gives the number
/// that the operator makes of them where it fits: their sum, difference or
/// product; for a non-negative dividend and a positive divisor, the quotient
/// `q` and remainder `m` with `a == q * b + m` and `0 <= m < b`. Where the
/// result does not fit, or the divisor is zero, the expression stays.
pub proof fn lemma_simplify_arithmetic(a: i64, b: i64)
    ensures
        i64::MIN <= a + b <= i64::MAX ==> simplify_spec(number_op(a, ExpressionOperator::Add, b)) == Ok::<
            ExprValue,
            ExpressionError,
        >(ExprValue::Number((a + b) as i64)),
        i64::MIN <= a - b <= i64::MAX ==> simplify_spec(number_op(a, ExpressionOperator::Subtract, b)) == Ok::<
            ExprValue,
            ExpressionError,
        >(ExprValue::Number((a - b) as i64)),
        i64::MIN <= a * b <= i64::MAX ==> simplify_spec(number_op(a, ExpressionOperator::Multiply, b)) == Ok::<
            ExprValue,
            ExpressionError,
        >(ExprValue::Number((a * b) as i64)),
        !(i64::MIN <= a * b <= i64::MAX) ==> simplify_spec(number_op(a, ExpressionOperator::Multiply, b)) == Ok::<
            ExprValue,
            ExpressionError,
        >(number_op(a, ExpressionOperator::Multiply, b)),
        a >= 0 && b > 0 ==> (simplify_spec(number_op(a, ExpressionOperator::Divide, b)) matches Ok(
            ExprValue::Number(q),
        ) && q * b <= a < (q + 1) * b),
        a >= 0 && b > 0 ==> (simplify_spec(number_op(a, ExpressionOperator::Remainder, b)) matches Ok(
            ExprValue::Number(m),
        ) && 0 <= m < b && exists|q: int| #[trigger] (q * b) + m == a),
        b == 0 ==> simplify_spec(number_op(a, ExpressionOperator::Divide, b)) == Ok::<ExprValue, ExpressionError>(
            number_op(a, ExpressionOperator::Divide, b),
        ),
{
    reveal_with_fuel(simplify_spec, 2);
    if a >= 0 && b > 0 {
        let q = (a as int) / (b as int);
        let m = (a as int) % (b as int);
        assert(q * b <= a < (q + 1) * b && 0 <= m < b && q * b + m == a && 0 <= q <= a) by (nonlinear_arith)
            requires
                b > 0,
                a >= 0,
                q == (a as int) / (b as int),
                m == (a as int) % (b as int),
        ;
    }
}

fn fold_pair(l: Expression, o: ExpressionOperator, r: Expression) -> (e: Expression)
    ensures
        e@ == fold_op(l@, o, r@),
{
    if let Expression::Number(a) = l {
        if let Expression::Number(b) = r {
            let v = match o {
                ExpressionOperator::Add => a.checked_add(b),
                ExpressionOperator::Subtract => a.checked_sub(b),
                ExpressionOperator::Multiply => a.checked_mul(b),
                ExpressionOperator::Divide => a.checked_div(b),
                ExpressionOperator::Remainder => a.checked_rem(b),
                _ => None,
            };
            return match v {
                Some(n) => Expression::Number(n),
                None => ExpressionObj { l, o, r }.wrap(),
            };
        }
    }
    ExpressionObj { l, o, r }.wrap()
}

fn fold_constants(e: Expression) -> (f: Expression)
    ensures
        f@ == fold_spec(e@),
    decreases e,
{
    match e {
        Expression::Expression(obj) => {
            let ExpressionObj { l, o, r } = *obj;
            let l2 = fold_constants(l);
            let r2 = fold_constants(r);
            fold_pair(l2, o, r2)
        },
        Expression::Invert(x) => Expression::Invert(Box::new(fold_constants(*x))),
        other => other,
    }
}

/// Parses the strings of an expression and folds its constants: a binary
/// arithmetic expression over two numbers becomes a number, unless that
/// overflows or divides by zero, in which case it is left as it is.
///
/// A word that parsing leaves as a string parses to itself again, so the
/// tree that parsing a string gives is folded as it is.
pub fn simplify_expression(expression: &Expression) -> (r: Result<Expression, ExpressionError>)
    ensures
        result_view(r) == simplify_spec(expression@),
    decreases expression,
{
    match expression {
        Expression::String(str) => {
            let new_expr = interpret_expression_string(str.as_str())?;
            match new_expr {
                Expression::String(_) => Ok(new_expr),
                _ => Ok(fold_constants(new_expr)),
            }
        },
        Expression::Null => Ok(Expression::Null),
        Expression::Invert(inner_expr) => {
            let e = simplify_expression(inner_expr)?;
            Ok(Expression::Invert(Box::new(e)))
        },
        Expression::Number(val) => Ok(Expression::Number(*val)),
        Expression::Bool(val) => Ok(Expression::Bool(*val)),
        Expression::Expression(obj) => {
            let l = simplify_expression(&obj.l)?;
            let r = simplify_expression(&obj.r)?;
            Ok(fold_pair(l, obj.o, r))
        },
    }
}

/// The boolean that a `while` condition of the number or the string one
/// (`true`) or zero (`false`) stands for, if it is one of those.
pub open spec fn boolean_while_spec(e: Option<ExprValue>) -> Option<bool> {
    match e {
        Some(ExprValue::Number(n)) => if n == 1 {
            Some(true)
        } else if n == 0 {
            Some(false)
        } else {
            None
        },
        Some(ExprValue::Text(s)) => if s == seq!['1'] {
            Some(true)
        } else if s == seq!['0'] {
            Some(false)
        } else {
            None
        },
        _ => None,
    }
}

/// A `while` condition that always or never holds, written as one or zero,
/// becomes the boolean expression it stands for.
pub fn hack_boolean_expression(e: Option<&Expression>) -> (r: Option<Expression>)
    ensures
        match boolean_while_spec(
            match e {
                Some(x) => Some(x@),
                None => None,
            },
        ) {
            Some(b) => r matches Some(x) && x@ == ExprValue::Bool(b),
            None => r is None,
        },
{
    match e {
        Some(Expression::Number(n)) => {
            if *n == 1 {
                Some(Expression::Bool(true))
            } else if *n == 0 {
                Some(Expression::Bool(false))
            } else {
                None
            }
        },
        Some(Expression::String(s)) => {
            let cs = chars_of(s.as_str());
            if cs.len() == 1 && cs[0] == '1' {
                assert(s@ =~= seq!['1']);
                Some(Expression::Bool(true))
            } else if cs.len() == 1 && cs[0] == '0' {
                assert(s@ =~= seq!['0']);
                Some(Expression::Bool(false))
            } else {
                assert(s@ != seq!['1'] && s@ != seq!['0']) by {
                    if s@ == seq!['1'] {
                        assert(cs@[0] == '1');
                    }
                    if s@ == seq!['0'] {
                        assert(cs@[0] == '0');
                    }
                }
                None
            }
        },
        _ => None,
    }
}

/// The number of nodes of an expression.
pub open spec fn expr_size(e: Expression) -> nat
    decreases e,
{
    match e {
        Expression::Expression(o) => 1 + expr_size(o.l) + expr_size(o.r),
        Expression::Invert(x) => 1 + expr_size(*x),
        _ => 1,
    }
}

} // verus!
