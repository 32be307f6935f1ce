//! Reading a program from text: clauses such as
//! `reachable(A) :- reachable(B), edge(B, A).`, facts such as `edge(1, 2).`

use crate::program::args_view;
use crate::program::body_view;
use crate::program::written_view;
use crate::program::Arg;
use crate::program::ArgView;
use crate::program::Program;
use crate::program::ProgramView;
use crate::program::Written;
use crate::program::WrittenView;
use vstd::prelude::*;
use vstd::string::StrSliceExecFns;

verus! {

/// A word of a program text.
pub enum Token {
    /// A name: a letter or `_`, then letters, digits and `_`.
    Name(String),
    /// An integer: digits, with `-` before them where it is negative.
    Number(i64),
    /// `(`
    Open,
    /// `)`
    Close,
    /// `,`
    Comma,
    /// `.`
    Dot,
    /// `:-`
    Neck,
}

/// A [`Token`] as plain values.
pub enum TokenView {
    Name(Seq<char>),
    Number(i64),
    Open,
    Close,
    Comma,
    Dot,
    Neck,
}

impl View for Token {
    type V = TokenView;

    open spec fn view(&self) -> TokenView {
        match self {
            Token::Name(name) => TokenView::Name(name@),
            Token::Number(v) => TokenView::Number(*v),
            Token::Open => TokenView::Open,
            Token::Close => TokenView::Close,
            Token::Comma => TokenView::Comma,
            Token::Dot => TokenView::Dot,
            Token::Neck => TokenView::Neck,
        }
    }
}

/// The tokens `tokens` as plain values.
pub open spec fn tokens_view(tokens: Seq<Token>) -> Seq<TokenView> {
    tokens.map_values(|t: Token| t@)
}

/// Whether `c` may stand between tokens.
pub open spec fn is_space(c: char) -> bool {
    c == ' ' || c == '\t' || c == '\n' || c == '\r'
}

/// Whether `c` is a digit.
pub open spec fn is_digit(c: char) -> bool {
    '0' <= c <= '9'
}

/// Whether a name may start with `c`.
pub open spec fn starts_name(c: char) -> bool {
    'a' <= c <= 'z' || 'A' <= c <= 'Z' || c == '_'
}

/// Whether `c` may stand in a name.
pub open spec fn in_name(c: char) -> bool {
    starts_name(c) || is_digit(c)
}

/// The first place from `at` on where no space stands.
pub open spec fn spaces_end(text: Seq<char>, at: int) -> int
    decreases text.len() - at,
{
    if 0 <= at < text.len() && is_space(text[at]) {
        spaces_end(text, at + 1)
    } else {
        at
    }
}

/// The first place from `at` on where no character of a name stands.
pub open spec fn name_end(text: Seq<char>, at: int) -> int
    decreases text.len() - at,
{
    if 0 <= at < text.len() && in_name(text[at]) {
        name_end(text, at + 1)
    } else {
        at
    }
}

/// The first place from `at` on where no digit stands.
pub open spec fn digits_end(text: Seq<char>, at: int) -> int
    decreases text.len() - at,
{
    if 0 <= at < text.len() && is_digit(text[at]) {
        digits_end(text, at + 1)
    } else {
        at
    }
}

/// The number that the digits of `text` from `from` up to `to` write.
pub open spec fn digits_value(text: Seq<char>, from: int, to: int) -> int
    decreases to - from,
{
    if to <= from {
        0
    } else {
        digits_value(text, from, to - 1) * 10 + (text[to - 1] as int - '0' as int)
    }
}

/// A token, and the place behind it.
pub struct Lexeme {
    pub token: TokenView,
    pub end: int,
}

/// The token that starts at `at`, if one does.
pub open spec fn token_at(text: Seq<char>, at: int) -> Option<Lexeme> {
    let c = text[at];
    if c == '(' {
        Some(Lexeme { token: TokenView::Open, end: at + 1 })
    } else if c == ')' {
        Some(Lexeme { token: TokenView::Close, end: at + 1 })
    } else if c == ',' {
        Some(Lexeme { token: TokenView::Comma, end: at + 1 })
    } else if c == '.' {
        Some(Lexeme { token: TokenView::Dot, end: at + 1 })
    } else if c == ':' {
        if at + 1 < text.len() && text[at + 1] == '-' {
            Some(Lexeme { token: TokenView::Neck, end: at + 2 })
        } else {
            None
        }
    } else if starts_name(c) {
        Some(
            Lexeme {
                token: TokenView::Name(text.subrange(at, name_end(text, at))),
                end: name_end(text, at),
            },
        )
    } else if is_digit(c) || c == '-' {
        let start = if c == '-' {
            at + 1
        } else {
            at
        };
        let end = digits_end(text, start);
        let value = if c == '-' {
            -digits_value(text, start, end)
        } else {
            digits_value(text, start, end)
        };
        if start < end && i64::MIN <= value <= i64::MAX {
            Some(Lexeme { token: TokenView::Number(value as i64), end })
        } else {
            None
        }
    } else {
        None
    }
}

/// The tokens of `text` from `at` on; nothing where something stands that
/// is no token.
pub open spec fn lex(text: Seq<char>, at: int) -> Option<Seq<TokenView>>
    decreases text.len() - at,
{
    let start = spaces_end(text, at);
    if start < at || start >= text.len() {
        Some(Seq::empty())
    } else {
        match token_at(text, start) {
            None => None,
            Some(l) => if l.end <= start || l.end > text.len() {
                None
            } else {
                match lex(text, l.end) {
                    None => None,
                    Some(rest) => Some(seq![l.token] + rest),
                }
            },
        }
    }
}

/// `done` followed by `rest`, where there is a `rest`.
pub open spec fn followed<A>(done: Seq<A>, rest: Option<Seq<A>>) -> Option<Seq<A>> {
    match rest {
        None => None,
        Some(r) => Some(done + r),
    }
}

/// The characters of `text`, in their order.
pub fn chars_of(text: &str) -> (chars: Vec<char>)
    ensures
        chars@ == text@,
{
    let mut chars: Vec<char> = Vec::new();
    for c in it: text.chars()
        invariant
            chars@ == it.seq().take(it.index()),
    {
        chars.push(c);
    }
    chars
}

/// The first place from `at` on where no space stands.
fn skip_spaces(chars: &Vec<char>, at: usize) -> (end: usize)
    requires
        at <= chars.len(),
    ensures
        at <= end <= chars.len(),
        end == spaces_end(chars@, at as int),
{
    let mut i: usize = at;
    while i < chars.len() && (chars[i] == ' ' || chars[i] == '\t' || chars[i] == '\n' || chars[i]
        == '\r')
        invariant
            at <= i <= chars.len(),
            spaces_end(chars@, at as int) == spaces_end(chars@, i as int),
        decreases chars.len() - i,
    {
        i += 1;
    }
    i
}

/// Whether `c` is a digit.
fn digit(c: char) -> (r: bool)
    ensures
        r == is_digit(c),
{
    '0' <= c && c <= '9'
}

/// Whether `c` may stand in a name.
fn name_char(c: char) -> (r: bool)
    ensures
        r == in_name(c),
{
    ('a' <= c && c <= 'z') || ('A' <= c && c <= 'Z') || c == '_' || digit(c)
}

/// The first place from `at` on where no character of a name stands.
fn skip_name(chars: &Vec<char>, at: usize) -> (end: usize)
    requires
        at <= chars.len(),
    ensures
        at <= end <= chars.len(),
        end == name_end(chars@, at as int),
{
    let mut i: usize = at;
    while i < chars.len() && name_char(chars[i])
        invariant
            at <= i <= chars.len(),
            name_end(chars@, at as int) == name_end(chars@, i as int),
        decreases chars.len() - i,
    {
        i += 1;
    }
    i
}

/// The digits from `from` up to `digits_end` are digits.
proof fn lemma_digits_end(text: Seq<char>, from: int)
    requires
        0 <= from <= text.len(),
    ensures
        from <= digits_end(text, from) <= text.len(),
        forall|k: int| from <= k < digits_end(text, from) ==> is_digit(#[trigger] text[k]),
        digits_end(text, from) < text.len() ==> !is_digit(text[digits_end(text, from)]),
    decreases text.len() - from,
{
    if from < text.len() && is_digit(text[from]) {
        lemma_digits_end(text, from + 1);
    }
}

/// More digits write no smaller number.
proof fn lemma_digits_value_grows(text: Seq<char>, from: int, mid: int, to: int)
    requires
        0 <= from <= mid <= to <= text.len(),
        forall|k: int| from <= k < to ==> is_digit(#[trigger] text[k]),
    ensures
        0 <= digits_value(text, from, mid) <= digits_value(text, from, to),
    decreases to - from,
{
    if mid < to {
        lemma_digits_value_grows(text, from, mid, to - 1);
        assert(is_digit(text[to - 1]));
    } else if from < mid {
        lemma_digits_value_grows(text, from, mid - 1, mid - 1);
        assert(is_digit(text[mid - 1]));
    }
}

/// The integer whose digits start at `start`, negative where `negative`,
/// and the place behind it; nothing where no digit stands there or the
/// integer is out of range.
fn scan_number(chars: &Vec<char>, start: usize, negative: bool) -> (r: Option<(i64, usize)>)
    requires
        start <= chars.len(),
    ensures
        ({
            let end = digits_end(chars@, start as int);
            let value = if negative {
                -digits_value(chars@, start as int, end)
            } else {
                digits_value(chars@, start as int, end)
            };
            match r {
                Some((v, e)) => start < end && e == end && v == value && e <= chars.len(),
                None => !(start < end && i64::MIN <= value <= i64::MAX),
            }
        }),
{
    let limit: i128 = 0x8000_0000_0000_0000;
    let mut acc: i128 = 0;
    let mut i: usize = start;
    proof {
        lemma_digits_end(chars@, start as int);
    }
    while i < chars.len() && digit(chars[i])
        invariant
            start <= i <= chars.len(),
            limit == 0x8000_0000_0000_0000,
            digits_end(chars@, start as int) == digits_end(chars@, i as int),
            forall|k: int|
                start <= k < digits_end(chars@, start as int) ==> is_digit(#[trigger] chars@[k]),
            digits_end(chars@, start as int) <= chars.len(),
            acc == digits_value(chars@, start as int, i as int),
            0 <= acc <= limit,
        decreases chars.len() - i,
    {
        let d: i128 = (chars[i] as u32 - '0' as u32) as i128;
        acc = acc * 10 + d;
        i += 1;
        if acc > limit {
            proof {
                lemma_digits_end(chars@, i as int);
                lemma_digits_value_grows(
                    chars@,
                    start as int,
                    i as int,
                    digits_end(chars@, start as int),
                );
            }
            return None;
        }
    }
    if i == start {
        return None;
    }
    if negative {
        Some(((-acc) as i64, i))
    } else if acc < limit {
        Some((acc as i64, i))
    } else {
        None
    }
}

/// A name does not end before it starts.
proof fn lemma_name_end(text: Seq<char>, from: int)
    requires
        0 <= from <= text.len(),
    ensures
        from <= name_end(text, from) <= text.len(),
    decreases text.len() - from,
{
    if from < text.len() && in_name(text[from]) {
        lemma_name_end(text, from + 1);
    }
}

/// The token that starts at `at`, and the place behind it; nothing where
/// none starts there.
fn scan_token(text: &str, chars: &Vec<char>, at: usize) -> (r: Option<(Token, usize)>)
    requires
        chars@ == text@,
        at < chars.len(),
    ensures
        match r {
            Some((t, end)) => token_at(chars@, at as int) == Some(
                Lexeme { token: t@, end: end as int },
            ) && at < end <= chars.len(),
            None => token_at(chars@, at as int) is None,
        },
{
    let c = chars[at];
    if c == '(' {
        Some((Token::Open, at + 1))
    } else if c == ')' {
        Some((Token::Close, at + 1))
    } else if c == ',' {
        Some((Token::Comma, at + 1))
    } else if c == '.' {
        Some((Token::Dot, at + 1))
    } else if c == ':' {
        if at + 1 < chars.len() && chars[at + 1] == '-' {
            Some((Token::Neck, at + 2))
        } else {
            None
        }
    } else if ('a' <= c && c <= 'z') || ('A' <= c && c <= 'Z') || c == '_' {
        let end = skip_name(chars, at);
        proof {
            lemma_name_end(chars@, at + 1);
        }
        let name = text.substring_char(at, end).to_owned();
        Some((Token::Name(name), end))
    } else if digit(c) || c == '-' {
        let start = if c == '-' {
            at + 1
        } else {
            at
        };
        match scan_number(chars, start, c == '-') {
            Some((v, end)) => Some((Token::Number(v), end)),
            None => None,
        }
    } else {
        None
    }
}

/// The tokens of `text`; nothing where something stands in it that is no
/// token.
pub fn tokens_of(text: &str) -> (r: Option<Vec<Token>>)
    ensures
        match r {
            Some(tokens) => lex(text@, 0) == Some(tokens_view(tokens@)),
            None => lex(text@, 0) is None,
        },
{
    let chars = chars_of(text);
    let mut tokens: Vec<Token> = Vec::new();
    let mut i: usize = 0;
    proof {
        assert(tokens_view(tokens@) =~= Seq::<TokenView>::empty());
        if lex(text@, 0) is Some {
            assert(Seq::<TokenView>::empty() + lex(text@, 0).unwrap() =~= lex(text@, 0).unwrap());
        }
    }
    loop
        invariant
            i <= chars.len(),
            chars@ == text@,
            lex(text@, 0) == followed(tokens_view(tokens@), lex(text@, i as int)),
        ensures
            lex(text@, 0) == Some(tokens_view(tokens@)),
        decreases chars.len() - i,
    {
        let start = skip_spaces(&chars, i);
        if start >= chars.len() {
            proof {
                assert(tokens_view(tokens@) + Seq::<TokenView>::empty() =~= tokens_view(tokens@));
            }
            break ;
        }
        match scan_token(text, &chars, start) {
            None => {
                return None;
            },
            Some((t, end)) => {
                let ghost before = tokens@;
                tokens.push(t);
                proof {
                    assert(tokens_view(tokens@) =~= tokens_view(before).push(t@));
                    if lex(text@, end as int) is Some {
                        let rest = lex(text@, end as int).unwrap();
                        assert(tokens_view(before) + (seq![t@] + rest) =~= tokens_view(
                            before,
                        ).push(t@) + rest);
                    }
                }
                i = end;
            },
        }
    }
    Some(tokens)
}

/// What was read, and the place behind it.
pub struct Parsed<A> {
    pub value: A,
    pub end: int,
}

/// `done` followed by what `rest` read, where it read something.
pub open spec fn after<A>(done: Seq<A>, rest: Option<Parsed<Seq<A>>>) -> Option<Parsed<Seq<A>>> {
    match rest {
        None => None,
        Some(r) => Some(Parsed { value: done + r.value, end: r.end }),
    }
}

/// The argument that the token `t` writes, if it writes one: a name is a
/// variable, a number a literal.
pub open spec fn arg_of(t: TokenView) -> Option<ArgView> {
    match t {
        TokenView::Name(name) => Some(ArgView::Var(name)),
        TokenView::Number(v) => Some(ArgView::Lit(v)),
        _ => None,
    }
}

/// The arguments from `at` on, where an argument has just been read: each
/// behind a comma, up to the closing bracket.
pub open spec fn more_args(tokens: Seq<TokenView>, at: int) -> Option<Parsed<Seq<ArgView>>>
    decreases tokens.len() - at,
{
    if !(0 <= at < tokens.len()) {
        None
    } else if tokens[at] is Close {
        Some(Parsed { value: Seq::empty(), end: at + 1 })
    } else if tokens[at] is Comma && at + 1 < tokens.len() {
        match arg_of(tokens[at + 1]) {
            None => None,
            Some(a) => after(seq![a], more_args(tokens, at + 2)),
        }
    } else {
        None
    }
}

/// The arguments from `at` on, behind an opening bracket: none, or one and
/// more behind commas, up to the closing bracket.
pub open spec fn args_at(tokens: Seq<TokenView>, at: int) -> Option<Parsed<Seq<ArgView>>> {
    if !(0 <= at < tokens.len()) {
        None
    } else if tokens[at] is Close {
        Some(Parsed { value: Seq::empty(), end: at + 1 })
    } else {
        match arg_of(tokens[at]) {
            None => None,
            Some(a) => after(seq![a], more_args(tokens, at + 1)),
        }
    }
}

/// The predicate that starts at `at`: a name, and arguments in brackets.
pub open spec fn predicate_at(tokens: Seq<TokenView>, at: int) -> Option<Parsed<WrittenView>> {
    if 0 <= at && at + 1 < tokens.len() && tokens[at] is Name && tokens[at + 1] is Open {
        match args_at(tokens, at + 2) {
            None => None,
            Some(args) => Some(Parsed { value: (tokens[at]->Name_0, args.value), end: args.end }),
        }
    } else {
        None
    }
}

/// The predicates from `at` on, where a predicate of a body has just been
/// read: each behind a comma, up to the full stop.
pub open spec fn more_body(tokens: Seq<TokenView>, at: int) -> Option<Parsed<Seq<WrittenView>>>
    decreases tokens.len() - at,
{
    if !(0 <= at < tokens.len()) {
        None
    } else if tokens[at] is Dot {
        Some(Parsed { value: Seq::empty(), end: at + 1 })
    } else if tokens[at] is Comma {
        match predicate_at(tokens, at + 1) {
            None => None,
            Some(p) => if p.end <= at || p.end > tokens.len() {
                None
            } else {
                after(seq![p.value], more_body(tokens, p.end))
            },
        }
    } else {
        None
    }
}

/// A clause as it is written: its head and its body.
pub type WrittenClause = (WrittenView, Seq<WrittenView>);

/// The clause that starts at `at`: a predicate and a full stop, or a
/// predicate, `:-`, one predicate and more behind commas, and a full stop.
pub open spec fn clause_at(tokens: Seq<TokenView>, at: int) -> Option<Parsed<WrittenClause>> {
    match predicate_at(tokens, at) {
        None => None,
        Some(head) => if !(0 <= head.end < tokens.len()) {
            None
        } else if tokens[head.end] is Dot {
            Some(Parsed { value: (head.value, Seq::empty()), end: head.end + 1 })
        } else if tokens[head.end] is Neck {
            match predicate_at(tokens, head.end + 1) {
                None => None,
                Some(first) => match more_body(tokens, first.end) {
                    None => None,
                    Some(rest) => Some(
                        Parsed { value: (head.value, seq![first.value] + rest.value), end: rest.end },
                    ),
                },
            }
        } else {
            None
        },
    }
}

/// The clauses from `at` on, up to the end of the tokens.
pub open spec fn clauses_at(tokens: Seq<TokenView>, at: int) -> Option<Seq<WrittenClause>>
    decreases tokens.len() - at,
{
    if !(0 <= at < tokens.len()) {
        Some(Seq::empty())
    } else {
        match clause_at(tokens, at) {
            None => None,
            Some(c) => if c.end <= at || c.end > tokens.len() {
                None
            } else {
                followed(seq![c.value], clauses_at(tokens, c.end))
            },
        }
    }
}

/// The program that the clauses `clauses` make up, added one after the
/// other.
pub open spec fn program_of(clauses: Seq<WrittenClause>) -> ProgramView
    decreases clauses.len(),
{
    if clauses.len() == 0 {
        ProgramView { names: Seq::empty(), clauses: Seq::empty() }
    } else {
        program_of(clauses.drop_last()).with_clause(clauses.last().0, clauses.last().1)
    }
}

/// Why a text is no program.
#[derive(Clone, Copy, Debug, PartialEq, Eq, Structural)]
pub enum BuildError {
    /// Something stands in the text that is no token: a character that no
    /// token holds, a `:` without `-`, a `-` without digits, or an integer
    /// out of range.
    BadToken,
    /// The tokens do not make up clauses.
    BadClause,
}

/// The program that `text` writes.
pub open spec fn build(text: Seq<char>) -> Result<ProgramView, BuildError> {
    match lex(text, 0) {
        None => Err(BuildError::BadToken),
        Some(tokens) => match clauses_at(tokens, 0) {
            None => Err(BuildError::BadClause),
            Some(clauses) => Ok(program_of(clauses)),
        },
    }
}

/// The argument that the token `t` writes, if it writes one.
fn read_arg(t: &Token) -> (r: Option<Arg>)
    ensures
        match r {
            Some(a) => arg_of(t@) == Some(a@),
            None => arg_of(t@) is None,
        },
{
    match t {
        Token::Name(name) => Some(Arg::Var(name.clone())),
        Token::Number(v) => Some(Arg::Lit(*v)),
        _ => None,
    }
}

/// The arguments from `at` on, behind an opening bracket, and the place
/// behind the closing bracket.
fn read_args(tokens: &Vec<Token>, at: usize) -> (r: Option<(Vec<Arg>, usize)>)
    ensures
        match r {
            Some((args, end)) => args_at(tokens_view(tokens@), at as int) == Some(
                Parsed { value: args_view(args@), end: end as int },
            ) && at < end <= tokens.len(),
            None => args_at(tokens_view(tokens@), at as int) is None,
        },
{
    let ghost all = tokens_view(tokens@);
    let mut args: Vec<Arg> = Vec::new();
    if at >= tokens.len() {
        return None;
    }
    proof {
        assert(all[at as int] == tokens@[at as int]@);
        assert(args_view(args@) =~= Seq::<ArgView>::empty());
    }
    match &tokens[at] {
        Token::Close => {
            return Some((args, at + 1));
        },
        _ => {},
    }
    match read_arg(&tokens[at]) {
        None => {
            return None;
        },
        Some(a) => {
            args.push(a);
            proof {
                assert(args_view(args@) =~= seq![a@]);
            }
        },
    }
    let mut i: usize = at + 1;
    loop
        invariant
            at < i <= tokens.len(),
            all == tokens_view(tokens@),
            args_at(all, at as int) == after(args_view(args@), more_args(all, i as int)),
        decreases tokens.len() - i,
    {
        if i >= tokens.len() {
            return None;
        }
        proof {
            assert(all[i as int] == tokens@[i as int]@);
        }
        match &tokens[i] {
            Token::Close => {
                proof {
                    assert(args_view(args@) + Seq::<ArgView>::empty() =~= args_view(args@));
                }
                return Some((args, i + 1));
            },
            Token::Comma => {
                if i + 1 >= tokens.len() {
                    return None;
                }
                proof {
                    assert(all[i + 1] == tokens@[i + 1]@);
                }
                match read_arg(&tokens[i + 1]) {
                    None => {
                        return None;
                    },
                    Some(a) => {
                        let ghost before = args@;
                        args.push(a);
                        proof {
                            assert(args_view(args@) =~= args_view(before).push(a@));
                            if more_args(all, i + 2) is Some {
                                let rest = more_args(all, i + 2).unwrap().value;
                                assert(args_view(before) + (seq![a@] + rest) =~= args_view(
                                    before,
                                ).push(a@) + rest);
                            }
                        }
                        i = i + 2;
                    },
                }
            },
            _ => {
                return None;
            },
        }
    }
}

/// The predicate that starts at `at`, and the place behind it.
fn read_predicate(tokens: &Vec<Token>, at: usize) -> (r: Option<(Written, usize)>)
    ensures
        match r {
            Some((p, end)) => predicate_at(tokens_view(tokens@), at as int) == Some(
                Parsed { value: written_view(p), end: end as int },
            ) && at < end <= tokens.len(),
            None => predicate_at(tokens_view(tokens@), at as int) is None,
        },
{
    let ghost all = tokens_view(tokens@);
    if at >= tokens.len() || tokens.len() - at < 2 {
        return None;
    }
    proof {
        assert(all[at as int] == tokens@[at as int]@);
        assert(all[at + 1] == tokens@[at + 1]@);
    }
    let name = match &tokens[at] {
        Token::Name(name) => name.clone(),
        _ => {
            return None;
        },
    };
    match &tokens[at + 1] {
        Token::Open => {},
        _ => {
            return None;
        },
    }
    match read_args(tokens, at + 2) {
        None => None,
        Some((args, end)) => Some(((name, args), end)),
    }
}

/// The clause that starts at `at`, and the place behind it.
fn read_clause(tokens: &Vec<Token>, at: usize) -> (r: Option<(Written, Vec<Written>, usize)>)
    ensures
        match r {
            Some((head, body, end)) => clause_at(tokens_view(tokens@), at as int) == Some(
                Parsed { value: (written_view(head), body_view(body@)), end: end as int },
            ) && at < end <= tokens.len(),
            None => clause_at(tokens_view(tokens@), at as int) is None,
        },
{
    let ghost all = tokens_view(tokens@);
    let (head, head_end) = match read_predicate(tokens, at) {
        None => {
            return None;
        },
        Some(found) => found,
    };
    let mut body: Vec<Written> = Vec::new();
    if head_end >= tokens.len() {
        return None;
    }
    proof {
        assert(all[head_end as int] == tokens@[head_end as int]@);
        assert(body_view(body@) =~= Seq::<WrittenView>::empty());
    }
    match &tokens[head_end] {
        Token::Dot => {
            return Some((head, body, head_end + 1));
        },
        Token::Neck => {},
        _ => {
            return None;
        },
    }
    let mut i: usize = match read_predicate(tokens, head_end + 1) {
        None => {
            return None;
        },
        Some((first, end)) => {
            body.push(first);
            proof {
                assert(body_view(body@) =~= seq![written_view(first)]);
            }
            end
        },
    };
    loop
        invariant
            at < i <= tokens.len(),
            all == tokens_view(tokens@),
            predicate_at(all, at as int) == Some(
                Parsed { value: written_view(head), end: head_end as int },
            ),
            head_end < tokens.len(),
            all[head_end as int] is Neck,
            ({
                let first = predicate_at(all, head_end + 1);
                &&& first is Some
                &&& after(seq![first.unwrap().value], more_body(all, first.unwrap().end)) == after(
                    body_view(body@),
                    more_body(all, i as int),
                )
            }),
        decreases tokens.len() - i,
    {
        if i >= tokens.len() {
            return None;
        }
        proof {
            assert(all[i as int] == tokens@[i as int]@);
        }
        match &tokens[i] {
            Token::Dot => {
                proof {
                    assert(body_view(body@) + Seq::<WrittenView>::empty() =~= body_view(body@));
                }
                return Some((head, body, i + 1));
            },
            Token::Comma => {
                match read_predicate(tokens, i + 1) {
                    None => {
                        return None;
                    },
                    Some((p, end)) => {
                        let ghost before = body@;
                        body.push(p);
                        proof {
                            assert(body_view(body@) =~= body_view(before).push(written_view(p)));
                            if more_body(all, end as int) is Some {
                                let rest = more_body(all, end as int).unwrap().value;
                                assert(body_view(before) + (seq![written_view(p)] + rest)
                                    =~= body_view(before).push(written_view(p)) + rest);
                            }
                        }
                        i = end;
                    },
                }
            },
            _ => {
                return None;
            },
        }
    }
}

impl Program {
    /// Reads a program from `text`: clauses, each a head, then `:-` and a
    /// body of predicates between commas where it has one, then a full
    /// stop. A predicate is a name and its arguments in brackets, between
    /// commas; an argument that is a name is a variable, one that is an
    /// integer a literal.
    pub fn build(text: &str) -> (r: Result<Program, BuildError>)
        ensures
            match build(text@) {
                Ok(p) => r matches Ok(program) && program.wf() && program@ == p,
                Err(e) => r matches Err(err) && err == e,
            },
    {
        let tokens = match tokens_of(text) {
            None => {
                return Err(BuildError::BadToken);
            },
            Some(tokens) => tokens,
        };
        let ghost all = tokens_view(tokens@);
        let ghost mut done: Seq<WrittenClause> = Seq::empty();
        let mut program = Program::new();
        let mut i: usize = 0;
        proof {
            if clauses_at(all, 0) is Some {
                assert(done + clauses_at(all, 0).unwrap() =~= clauses_at(all, 0).unwrap());
            }
        }
        while i < tokens.len()
            invariant
                i <= tokens.len(),
                all == tokens_view(tokens@),
                lex(text@, 0) == Some(all),
                program.wf(),
                program@ == program_of(done),
                clauses_at(all, 0) == followed(done, clauses_at(all, i as int)),
            decreases tokens.len() - i,
        {
            match read_clause(&tokens, i) {
                None => {
                    return Err(BuildError::BadClause);
                },
                Some((head, body, end)) => {
                    let ghost c = (written_view(head), body_view(body@));
                    program.clause(head, body);
                    proof {
                        if clauses_at(all, end as int) is Some {
                            let rest = clauses_at(all, end as int).unwrap();
                            assert(done + (seq![c] + rest) =~= done.push(c) + rest);
                        }
                        assert(done.push(c).drop_last() =~= done);
                        done = done.push(c);
                    }
                    i = end;
                },
            }
        }
        proof {
            assert(done + Seq::<WrittenClause>::empty() =~= done);
        }
        Ok(program)
    }
}

} // verus!
