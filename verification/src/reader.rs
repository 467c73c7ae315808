//! The reader: a text is cut into tokens by a regular expression, and the tokens
//! are read as one form.

use crate::text::{
    decimal, escape, is_digit, lemma_decimal_reads_back, lemma_digits_spell,
    lemma_literal_reads_back, literal_content, parse_integer, parse_integer_spec, read_literal,
    text_is,
};
use crate::types::{all_closed, pr_str_spec, values_of, LispType, Value};
use vstd::prelude::*;

verus! {

/// Why a text could not be read.
#[derive(Clone, Copy, Debug, PartialEq, Eq, Structural)]
pub enum ParseErrorKind {
    /// The tokens ended inside a form, or there was none.
    UnexpectedEof,
    /// A string literal ends on a backslash that escapes nothing.
    UnfinishedEscape,
    /// The pattern that describes a token was not accepted.
    BadPattern,
}

/// A reading error.
#[derive(Debug)]
pub struct ParseError {
    pub kind: ParseErrorKind,
}

/// What reading gives: a value, or the reason why there is none.
pub type ParseResult = Result<LispType, ParseError>;

/// The model of a reading's result.
pub open spec fn parse_view(r: ParseResult) -> Result<Value, ParseErrorKind> {
    match r {
        Ok(v) => Ok(v@),
        Err(e) => Err(e.kind),
    }
}

/// `regex::Error`: what `regex::Regex::new` returns for a pattern that it refuses.
/// Nothing is said of what it holds.
#[verifier::external_type_specification]
#[verifier::external_body]
pub struct ExRegexError(regex::Error);

/// What `regex::Regex::new(pattern)` and then `captures_iter(haystack)` give: none
/// where the pattern is refused; else, for each match in the haystack, from left to
/// right, the text that the first group captured, if it took part in the match.
pub uninterp spec fn regex_first_groups(pattern: Seq<char>, haystack: Seq<char>) -> Option<Seq<Option<Seq<char>>>>;

/// Compiles `pattern` with `regex::Regex::new`, walks the matches in `haystack` with
/// `Regex::captures_iter`, and takes from each, with `Captures::get(1)` and
/// `Match::as_str`, the text of the first group. The contract says only that the
/// outcome is the one that `regex_first_groups` names.
#[verifier::external_body]
fn first_groups(pattern: &str, haystack: &str) -> (r: Result<Vec<Option<String>>, regex::Error>)
    ensures
        match regex_first_groups(pattern@, haystack@) {
            Some(groups) => r matches Ok(found) && found.deep_view() == groups,
            None => r is Err,
        },
{
    let re = regex::Regex::new(pattern)?;
    Ok(re.captures_iter(haystack).map(|c| c.get(1).map(|m| m.as_str().to_owned())).collect())
}

/// The pattern of one token: blanks and commas, which are skipped, and then, as
/// the first group, a two-character `~@`, a single special character, a string
/// literal, a comment to the end of the line, or a run of other characters.
pub const TOKEN_PATTERN: &'static str =
    "[\\s,]*(~@|[\\[\\]{}()'`~^@]|\"(?:\\\\.|[^\\\\\"])*\"|;.*|[^\\t\\n\\v\\f\\r \\[\\]{}('\"`,;)]+)";

/// The token pattern as a sequence of characters.
pub open spec fn token_pattern() -> Seq<char> {
    TOKEN_PATTERN@
}

/// The groups that took part, in order.
pub open spec fn present(groups: Seq<Option<Seq<char>>>) -> Seq<Seq<char>>
    decreases groups.len(),
{
    if groups.len() == 0 {
        Seq::empty()
    } else if groups.last() is Some {
        present(groups.drop_last()).push(groups.last()->0)
    } else {
        present(groups.drop_last())
    }
}

/// The pieces of `input` that the first group of `pattern` captures, match by match.
pub open spec fn pieces_spec(pattern: Seq<char>, input: Seq<char>) -> Result<
    Seq<Seq<char>>,
    ParseErrorKind,
> {
    match regex_first_groups(pattern, input) {
        Some(groups) => Ok(present(groups)),
        None => Err(ParseErrorKind::BadPattern),
    }
}

/// The tokens of `input`: the pieces that the token pattern cuts it into.
pub open spec fn tokens_spec(input: Seq<char>) -> Result<Seq<Seq<char>>, ParseErrorKind> {
    pieces_spec(token_pattern(), input)
}

/// The first groups that took part in their match, in order: the tokens.
pub fn tokens_of(found: &Vec<Option<String>>) -> (tokens: Vec<String>)
    ensures
        tokens.deep_view() == present(found.deep_view()),
{
    let ghost groups = found.deep_view();
    let mut tokens: Vec<String> = Vec::new();
    let mut i: usize = 0;
    while i < found.len()
        invariant
            i <= found.len(),
            groups == found.deep_view(),
            tokens.deep_view() == present(groups.take(i as int)),
        decreases found.len() - i,
    {
        assert(groups.take(i + 1).drop_last() =~= groups.take(i as int));
        assert(groups[i as int] == found[i as int].deep_view());
        let ghost before = tokens.deep_view();
        match &found[i] {
            Some(token) => {
                tokens.push(token.clone());
                assert(tokens.deep_view() =~= before.push(token@));
            },
            None => {},
        }
        i += 1;
    }
    assert(groups.take(found.len() as int) =~= groups);
    tokens
}

/// Cuts `input` into the pieces that the first group of `pattern` captures. Fails
/// where the pattern is refused.
pub fn pieces(pattern: &str, input: &str) -> (r: Result<Vec<String>, ParseError>)
    ensures
        match pieces_spec(pattern@, input@) {
            Ok(tokens) => r matches Ok(found) && found.deep_view() == tokens,
            Err(kind) => r matches Err(e) && e.kind == kind,
        },
{
    match first_groups(pattern, input) {
        Ok(found) => Ok(tokens_of(&found)),
        Err(_) => Err(ParseError { kind: ParseErrorKind::BadPattern }),
    }
}

/// Cuts `input` into tokens.
pub fn tokenize(input: &str) -> (r: Result<Vec<String>, ParseError>)
    ensures
        match tokens_spec(input@) {
            Ok(tokens) => r matches Ok(found) && found.deep_view() == tokens,
            Err(kind) => r matches Err(e) && e.kind == kind,
        },
{
    pieces(TOKEN_PATTERN, input)
}

/// The value that a token other than a bracket stands for.
pub open spec fn atom_spec(token: Seq<char>) -> Result<Value, ParseErrorKind> {
    if token == "nil"@ {
        Ok(Value::Nil)
    } else if token == "true"@ {
        Ok(Value::True)
    } else if token == "false"@ {
        Ok(Value::False)
    } else if parse_integer_spec(token) is Some {
        Ok(Value::Integer(parse_integer_spec(token)->0))
    } else if token.len() > 0 && token[0] == '"' {
        match literal_content(token) {
            Some(text) => Ok(Value::Str(text)),
            None => Err(ParseErrorKind::UnfinishedEscape),
        }
    } else if token.len() > 0 && token[0] == ':' {
        Ok(Value::Keyword(token))
    } else {
        Ok(Value::Symbol(token))
    }
}

/// The text of an integer, read as a token, is the integer.
pub proof fn lemma_integer_reads_back(i: int)
    requires
        i64::MIN <= i <= i64::MAX,
    ensures
        atom_spec(pr_str_spec(Value::Integer(i), true)) == Ok::<Value, ParseErrorKind>(
            Value::Integer(i),
        ),
{
    let token = decimal(i);
    lemma_decimal_reads_back(i);
    reveal_strlit("nil");
    reveal_strlit("true");
    reveal_strlit("false");
    assert(token.len() > 0);
    assert(token[0] == '-' || is_digit(token[0])) by {
        if i >= 0 {
            lemma_digits_spell(i as nat);
        }
    }
    assert("nil"@[0] == 'n');
    assert("true"@[0] == 't');
    assert("false"@[0] == 'f');
}

/// The text of a string, read as a token, is the string.
pub proof fn lemma_string_reads_back(s: Seq<char>)
    ensures
        atom_spec(pr_str_spec(Value::Str(s), true)) == Ok::<Value, ParseErrorKind>(Value::Str(s)),
{
    let token = seq!['"'] + escape(s) + seq!['"'];
    lemma_literal_reads_back(s);
    reveal_strlit("nil");
    reveal_strlit("true");
    reveal_strlit("false");
    assert(token[0] == '"');
    assert("nil"@[0] == 'n');
    assert("true"@[0] == 't');
    assert("false"@[0] == 'f');
    assert(token.skip(0) =~= token);
    assert(!is_digit(token.skip(0)[0]));
}

/// The form that begins at token `pos`, and the position after it.
pub open spec fn form_at(tokens: Seq<Seq<char>>, pos: int) -> Result<(Value, int), ParseErrorKind>
    decreases tokens.len() - pos, 0nat,
{
    if pos < 0 || pos >= tokens.len() {
        Err(ParseErrorKind::UnexpectedEof)
    } else if tokens[pos] == "("@ {
        match rest_at(tokens, pos + 1, ")"@, Seq::empty()) {
            Ok((items, after)) => Ok((Value::List(items), after)),
            Err(e) => Err(e),
        }
    } else if tokens[pos] == "["@ {
        match rest_at(tokens, pos + 1, "]"@, Seq::empty()) {
            Ok((items, after)) => Ok((Value::Vector(items), after)),
            Err(e) => Err(e),
        }
    } else {
        match atom_spec(tokens[pos]) {
            Ok(v) => Ok((v, pos + 1)),
            Err(e) => Err(e),
        }
    }
}

/// The forms from token `pos` up to the token `close`, added to `done`, and the
/// position after `close`.
pub open spec fn rest_at(
    tokens: Seq<Seq<char>>,
    pos: int,
    close: Seq<char>,
    done: Seq<Value>,
) -> Result<
    (Seq<Value>, int),
    ParseErrorKind,
>
    decreases tokens.len() - pos, 1nat,
{
    if pos < 0 || pos >= tokens.len() {
        Err(ParseErrorKind::UnexpectedEof)
    } else if tokens[pos] == close {
        Ok((done, pos + 1))
    } else {
        match form_at(tokens, pos) {
            Ok((v, after)) => if pos < after <= tokens.len() {
                rest_at(tokens, after, close, done.push(v))
            } else {
                Err(ParseErrorKind::UnexpectedEof)
            },
            Err(e) => Err(e),
        }
    }
}

/// The first form of `tokens`.
pub open spec fn read_spec(tokens: Seq<Seq<char>>) -> Result<Value, ParseErrorKind> {
    match form_at(tokens, 0) {
        Ok((v, _)) => Ok(v),
        Err(e) => Err(e),
    }
}

/// A form ends after where it begins.
pub proof fn lemma_form_advances(tokens: Seq<Seq<char>>, pos: int)
    ensures
        form_at(tokens, pos) matches Ok((_, after)) ==> pos < after <= tokens.len(),
    decreases tokens.len() - pos, 0nat,
{
    if 0 <= pos < tokens.len() {
        if tokens[pos] == "("@ {
            lemma_rest_advances(tokens, pos + 1, ")"@, Seq::empty());
        } else if tokens[pos] == "["@ {
            lemma_rest_advances(tokens, pos + 1, "]"@, Seq::empty());
        }
    }
}

/// A run of forms ends after where it begins.
pub proof fn lemma_rest_advances(
    tokens: Seq<Seq<char>>,
    pos: int,
    close: Seq<char>,
    done: Seq<Value>,
)
    ensures
        rest_at(tokens, pos, close, done) matches Ok((_, after)) ==> pos < after <= tokens.len(),
    decreases tokens.len() - pos, 1nat,
{
    if 0 <= pos < tokens.len() && tokens[pos] != close {
        lemma_form_advances(tokens, pos);
        match form_at(tokens, pos) {
            Ok((v, after)) => {
                if pos < after <= tokens.len() {
                    lemma_rest_advances(tokens, after, close, done.push(v));
                }
            },
            Err(_) => {},
        }
    }
}

/// The tokens of a text, and the position of the next one to read.
pub struct Reader {
    tokens: Vec<String>,
    position: usize,
}

impl Reader {
    /// The tokens' texts.
    pub closed spec fn texts(&self) -> Seq<Seq<char>> {
        self.tokens.deep_view()
    }

    /// The position of the next token.
    pub closed spec fn pos(&self) -> int {
        self.position as int
    }

    /// The position is within the tokens, or right after them.
    pub closed spec fn wf(&self) -> bool {
        self.position <= self.tokens.len()
    }

    /// A reader at the first of `tokens`.
    pub fn new(tokens: Vec<String>) -> (reader: Reader)
        ensures
            reader.wf(),
            reader.texts() == tokens.deep_view(),
            reader.pos() == 0,
    {
        Reader { tokens, position: 0 }
    }

    /// The next token, which stays the next.
    pub fn peek(&self) -> (r: Result<&str, ParseError>)
        requires
            self.wf(),
        ensures
            match r {
                Ok(token) => self.pos() < self.texts().len() && token@ == self.texts()[self.pos()],
                Err(e) => self.pos() >= self.texts().len() && e.kind == ParseErrorKind::UnexpectedEof,
            },
    {
        if self.position < self.tokens.len() {
            assert(self.tokens.deep_view()[self.position as int] == self.tokens[self.position as int]@);
            Ok(self.tokens[self.position].as_str())
        } else {
            Err(ParseError { kind: ParseErrorKind::UnexpectedEof })
        }
    }

    /// The next token, which is then passed.
    pub fn next(&mut self) -> (r: Result<String, ParseError>)
        requires
            old(self).wf(),
        ensures
            final(self).wf(),
            final(self).texts() == old(self).texts(),
            match r {
                Ok(token) => {
                    &&& old(self).pos() < old(self).texts().len()
                    &&& token@ == old(self).texts()[old(self).pos()]
                    &&& final(self).pos() == old(self).pos() + 1
                },
                Err(e) => {
                    &&& old(self).pos() >= old(self).texts().len()
                    &&& e.kind == ParseErrorKind::UnexpectedEof
                    &&& final(self).pos() == old(self).pos()
                },
            },
    {
        if self.position < self.tokens.len() {
            assert(self.tokens.deep_view()[self.position as int] == self.tokens[self.position as int]@);
            let token = self.tokens[self.position].clone();
            self.position += 1;
            Ok(token)
        } else {
            Err(ParseError { kind: ParseErrorKind::UnexpectedEof })
        }
    }
}

/// Whether `s` begins with `c`.
fn starts_with(s: &str, c: char) -> (r: bool)
    ensures
        r == (s@.len() > 0 && s@[0] == c),
{
    let mut it = s.chars();
    match it.next() {
        Some(first) => first == c,
        None => false,
    }
}

/// Reads a token other than a bracket.
pub fn read_atom(reader: &mut Reader) -> (r: ParseResult)
    requires
        old(reader).wf(),
    ensures
        final(reader).wf(),
        final(reader).texts() == old(reader).texts(),
        old(reader).pos() >= old(reader).texts().len() ==> (r matches Err(e) && e.kind
            == ParseErrorKind::UnexpectedEof),
        old(reader).pos() < old(reader).texts().len() ==> {
            &&& parse_view(r) == atom_spec(old(reader).texts()[old(reader).pos()])
            &&& final(reader).pos() == old(reader).pos() + 1
        },
        r matches Ok(v) ==> v@.closed_under(0),
{
    let token = match reader.next() {
        Ok(token) => token,
        Err(e) => {
            return Err(e);
        },
    };
    if text_is(&token, "nil") {
        Ok(LispType::Nil)
    } else if text_is(&token, "true") {
        Ok(LispType::True)
    } else if text_is(&token, "false") {
        Ok(LispType::False)
    } else if let Some(number) = parse_integer(token.as_str()) {
        Ok(LispType::Integer(number))
    } else if starts_with(token.as_str(), '"') {
        match read_literal(token.as_str()) {
            Some(text) => Ok(LispType::Str(text)),
            None => Err(ParseError { kind: ParseErrorKind::UnfinishedEscape }),
        }
    } else if starts_with(token.as_str(), ':') {
        Ok(LispType::Keyword(token))
    } else {
        Ok(LispType::Symbol(token))
    }
}

/// Reads the forms up to the token `close`, which is passed too.
fn read_rest(reader: &mut Reader, close: &str) -> (r: Result<Vec<LispType>, ParseError>)
    requires
        old(reader).wf(),
    ensures
        final(reader).wf(),
        final(reader).texts() == old(reader).texts(),
        match rest_at(old(reader).texts(), old(reader).pos(), close@, Seq::empty()) {
            Ok((items, after)) => {
                &&& r matches Ok(elems)
                &&& values_of(elems) == items
                &&& final(reader).pos() == after
            },
            Err(kind) => r matches Err(e) && e.kind == kind,
        },
        r matches Ok(elems) ==> all_closed(values_of(elems), 0),
    decreases old(reader).texts().len() - old(reader).pos(), 3nat,
{
    let ghost tokens = reader.texts();
    let ghost goal = rest_at(tokens, reader.pos(), close@, Seq::empty());
    let close_text = close.to_owned();
    let mut elems: Vec<LispType> = Vec::new();
    assert(values_of(elems) =~= Seq::empty());
    loop
        invariant
            reader.wf(),
            reader.texts() == tokens,
            tokens == old(reader).texts(),
            old(reader).pos() <= reader.pos(),
            close_text@ == close@,
            goal == rest_at(tokens, old(reader).pos(), close@, Seq::empty()),
            rest_at(tokens, reader.pos(), close@, values_of(elems)) == goal,
            all_closed(values_of(elems), 0),
        decreases tokens.len() - reader.pos(),
    {
        let at_close = match reader.peek() {
            Ok(token) => token.to_owned() == close_text,
            Err(e) => {
                return Err(e);
            },
        };
        if at_close {
            let _ = reader.next();
            return Ok(elems);
        }
        let ghost here = reader.pos();
        let ghost done = values_of(elems);
        proof {
            lemma_form_advances(tokens, here);
        }
        match read_form(reader) {
            Ok(v) => {
                elems.push(v);
                assert(values_of(elems) =~= done.push(v@));
            },
            Err(e) => {
                return Err(e);
            },
        }
    }
}

/// Reads a list, whose opening bracket is the next token.
pub fn read_list(reader: &mut Reader) -> (r: ParseResult)
    requires
        old(reader).wf(),
        old(reader).pos() < old(reader).texts().len(),
        old(reader).texts()[old(reader).pos()] == "("@,
    ensures
        final(reader).wf(),
        final(reader).texts() == old(reader).texts(),
        match form_at(old(reader).texts(), old(reader).pos()) {
            Ok((v, after)) => r matches Ok(x) && x@ == v && final(reader).pos() == after,
            Err(kind) => r matches Err(e) && e.kind == kind,
        },
        r matches Ok(v) ==> v@.closed_under(0),
    decreases old(reader).texts().len() - old(reader).pos(), 1nat,
{
    let _ = reader.next();
    match read_rest(reader, ")") {
        Ok(elems) => Ok(LispType::List(elems)),
        Err(e) => Err(e),
    }
}

/// Reads a vector, whose opening bracket is the next token.
pub fn read_vector(reader: &mut Reader) -> (r: ParseResult)
    requires
        old(reader).wf(),
        old(reader).pos() < old(reader).texts().len(),
        old(reader).texts()[old(reader).pos()] == "["@,
        old(reader).texts()[old(reader).pos()] != "("@,
    ensures
        final(reader).wf(),
        final(reader).texts() == old(reader).texts(),
        match form_at(old(reader).texts(), old(reader).pos()) {
            Ok((v, after)) => r matches Ok(x) && x@ == v && final(reader).pos() == after,
            Err(kind) => r matches Err(e) && e.kind == kind,
        },
        r matches Ok(v) ==> v@.closed_under(0),
    decreases old(reader).texts().len() - old(reader).pos(), 1nat,
{
    let _ = reader.next();
    match read_rest(reader, "]") {
        Ok(elems) => Ok(LispType::Vector(elems)),
        Err(e) => Err(e),
    }
}

/// Reads the form that begins at the next token.
pub fn read_form(reader: &mut Reader) -> (r: ParseResult)
    requires
        old(reader).wf(),
    ensures
        final(reader).wf(),
        final(reader).texts() == old(reader).texts(),
        match form_at(old(reader).texts(), old(reader).pos()) {
            Ok((v, after)) => r matches Ok(x) && x@ == v && final(reader).pos() == after,
            Err(kind) => r matches Err(e) && e.kind == kind,
        },
        r matches Ok(v) ==> v@.closed_under(0),
    decreases old(reader).texts().len() - old(reader).pos(), 2nat,
{
    let (open_list, open_vector) = match reader.peek() {
        Ok(token) => {
            let token = token.to_owned();
            (text_is(&token, "("), text_is(&token, "["))
        },
        Err(e) => {
            return Err(e);
        },
    };
    if open_list {
        read_list(reader)
    } else if open_vector {
        read_vector(reader)
    } else {
        read_atom(reader)
    }
}

/// Reads the first form of `tokens`.
pub fn read_tokens(tokens: Vec<String>) -> (r: ParseResult)
    ensures
        parse_view(r) == read_spec(tokens.deep_view()),
        r matches Ok(v) ==> v@.closed_under(0),
{
    let mut reader = Reader::new(tokens);
    read_form(&mut reader)
}

/// Reads the first form of `input`.
pub fn read_str(input: &str) -> (r: ParseResult)
    ensures
        parse_view(r) == match tokens_spec(input@) {
            Ok(tokens) => read_spec(tokens),
            Err(kind) => Err(kind),
        },
        r matches Ok(v) ==> v@.closed_under(0),
{
    match tokenize(input) {
        Ok(tokens) => read_tokens(tokens),
        Err(e) => Err(e),
    }
}

/// The text that tells a user of a reading error.
pub open spec fn parse_message_spec(kind: ParseErrorKind) -> Seq<char> {
    match kind {
        ParseErrorKind::UnexpectedEof => "expected more input but got EOF"@,
        ParseErrorKind::UnfinishedEscape => "string literal ends inside an escape"@,
        ParseErrorKind::BadPattern => "the token pattern was not accepted"@,
    }
}

impl ParseError {
    /// The text that tells a user of this error.
    pub fn message(&self) -> (text: String)
        ensures
            text@ == parse_message_spec(self.kind),
    {
        match self.kind {
            ParseErrorKind::UnexpectedEof => "expected more input but got EOF".to_owned(),
            ParseErrorKind::UnfinishedEscape => "string literal ends inside an escape".to_owned(),
            ParseErrorKind::BadPattern => "the token pattern was not accepted".to_owned(),
        }
    }
}

} // verus!
