//! Texts: decimal notation and string literals, written and read.

use vstd::prelude::*;
use vstd::std_specs::iter::IteratorSpec;

verus! {

/// `String::push` appends one character.
pub assume_specification[ String::push ](s: &mut String, c: char)
    ensures
        final(s)@ == old(s)@.push(c),
;

/// Whether `s` is the text `lit`.
pub fn text_is(s: &String, lit: &str) -> (r: bool)
    ensures
        r == (s@ == lit@),
{
    *s == lit.to_owned()
}

/// The character that stands for the digit `d`.
pub open spec fn digit(d: int) -> char {
    if d == 0 {
        '0'
    } else if d == 1 {
        '1'
    } else if d == 2 {
        '2'
    } else if d == 3 {
        '3'
    } else if d == 4 {
        '4'
    } else if d == 5 {
        '5'
    } else if d == 6 {
        '6'
    } else if d == 7 {
        '7'
    } else if d == 8 {
        '8'
    } else {
        '9'
    }
}

/// The decimal digits of `n`, without leading zeros.
pub open spec fn digits(n: nat) -> Seq<char>
    decreases n,
{
    if n < 10 {
        seq![digit(n as int)]
    } else {
        digits(n / 10).push(digit((n % 10) as int))
    }
}

/// The decimal notation of `i`, with a minus sign where it is negative.
pub open spec fn decimal(i: int) -> Seq<char> {
    if i < 0 {
        seq!['-'] + digits((-i) as nat)
    } else {
        digits(i as nat)
    }
}

fn digit_char(d: u64) -> (c: char)
    requires
        d < 10,
    ensures
        c == digit(d as int),
{
    if d == 0 {
        '0'
    } else if d == 1 {
        '1'
    } else if d == 2 {
        '2'
    } else if d == 3 {
        '3'
    } else if d == 4 {
        '4'
    } else if d == 5 {
        '5'
    } else if d == 6 {
        '6'
    } else if d == 7 {
        '7'
    } else if d == 8 {
        '8'
    } else {
        '9'
    }
}

/// Appends the decimal digits of `n` to `buf`.
fn push_digits(buf: &mut String, n: u64)
    ensures
        final(buf)@ == old(buf)@ + digits(n as nat),
{
    let mut rev: Vec<char> = Vec::new();
    rev.push(digit_char(n % 10));
    let mut rest: u64 = n / 10;
    let ghost mut tail: Seq<char> = seq![digit((n % 10) as int)];
    while rest > 0
        invariant
            rev.len() == tail.len(),
            rev.len() > 0,
            forall|j: int| 0 <= j < rev.len() ==> rev[j] == tail[tail.len() - 1 - j],
            digits(n as nat) == (if rest == 0 {
                Seq::<char>::empty()
            } else {
                digits(rest as nat)
            }) + tail,
        decreases rest,
    {
        let c = digit_char(rest % 10);
        proof {
            let shorter = if rest / 10 == 0 {
                Seq::<char>::empty()
            } else {
                digits((rest / 10) as nat)
            };
            assert(digits(rest as nat) =~= shorter + seq![c]);
            assert(digits(n as nat) =~= shorter + (seq![c] + tail));
            tail = seq![c] + tail;
        }
        rev.push(c);
        rest = rest / 10;
    }
    assert(digits(n as nat) =~= tail);
    let mut k: usize = rev.len();
    while k > 0
        invariant
            k <= rev.len(),
            rev.len() == tail.len(),
            forall|j: int| 0 <= j < rev.len() ==> rev[j] == tail[tail.len() - 1 - j],
            buf@ == old(buf)@ + tail.subrange(0, rev.len() - k),
        decreases k,
    {
        k -= 1;
        buf.push(rev[k]);
        assert(buf@ =~= old(buf)@ + tail.subrange(0, rev.len() - k));
    }
    assert(tail.subrange(0, rev.len() as int) =~= tail);
}

/// The decimal notation of `n`.
pub fn natural_text(n: u64) -> (s: String)
    ensures
        s@ == digits(n as nat),
{
    let mut buf = String::new();
    push_digits(&mut buf, n);
    assert(buf@ =~= digits(n as nat));
    buf
}

/// The decimal notation of `i`.
pub fn integer_text(i: i64) -> (s: String)
    ensures
        s@ == decimal(i as int),
{
    let mut buf = String::new();
    if i < 0 {
        buf.push('-');
        let magnitude: u64 = ((-(i + 1)) as u64) + 1;
        push_digits(&mut buf, magnitude);
        assert(buf@ =~= decimal(i as int));
    } else {
        push_digits(&mut buf, i as u64);
        assert(buf@ =~= decimal(i as int));
    }
    buf
}

/// What stands for `c` inside a string literal.
pub open spec fn escape_char(c: char) -> Seq<char> {
    if c == '"' {
        seq!['\\', '"']
    } else if c == '\\' {
        seq!['\\', '\\']
    } else if c == '\r' {
        seq!['\\', 'r']
    } else if c == '\n' {
        seq!['\\', 'n']
    } else if c == '\t' {
        seq!['\\', 't']
    } else {
        seq![c]
    }
}

/// The text `s` with each character escaped as inside a string literal.
pub open spec fn escape(s: Seq<char>) -> Seq<char>
    decreases s.len(),
{
    if s.len() == 0 {
        Seq::empty()
    } else {
        escape(s.drop_last()) + escape_char(s.last())
    }
}

/// Appends `s` to `buf`, each character escaped.
pub fn push_escaped(buf: &mut String, s: &str)
    ensures
        final(buf)@ == old(buf)@ + escape(s@),
{
    let mut it = s.chars();
    let ghost mut i: int = 0;
    loop
        invariant
            0 <= i <= s@.len(),
            it.obeys_prophetic_iter_laws(),
            it.remaining() == s@.skip(i),
            buf@ == old(buf)@ + escape(s@.take(i)),
        ensures
            i == s@.len(),
            buf@ == old(buf)@ + escape(s@.take(i)),
        decreases s@.len() - i,
    {
        match it.next() {
            Some(c) => {
                proof {
                    assert(c == s@[i]);
                    assert(s@.take(i + 1).drop_last() =~= s@.take(i));
                    assert(it.remaining() =~= s@.skip(i + 1));
                }
                if c == '"' {
                    buf.push('\\');
                    buf.push('"');
                } else if c == '\\' {
                    buf.push('\\');
                    buf.push('\\');
                } else if c == '\r' {
                    buf.push('\\');
                    buf.push('r');
                } else if c == '\n' {
                    buf.push('\\');
                    buf.push('n');
                } else if c == '\t' {
                    buf.push('\\');
                    buf.push('t');
                } else {
                    buf.push(c);
                }
                proof {
                    i = i + 1;
                    assert(buf@ =~= old(buf)@ + escape(s@.take(i)));
                }
            },
            None => {
                break ;
            },
        }
    }
    assert(s@.take(s@.len() as int) =~= s@);
}

/// The text that `chars` spells.
pub fn text_of(chars: &Vec<char>) -> (s: String)
    ensures
        s@ == chars@,
{
    let mut buf = String::new();
    let mut i: usize = 0;
    while i < chars.len()
        invariant
            i <= chars.len(),
            buf@ == chars@.take(i as int),
        decreases chars.len() - i,
    {
        buf.push(chars[i]);
        i += 1;
        assert(buf@ =~= chars@.take(i as int));
    }
    assert(chars@.take(chars.len() as int) =~= chars@);
    buf
}

/// What the character after a backslash stands for, inside a string literal.
pub open spec fn unescape_char(c: char) -> Seq<char> {
    if c == '"' {
        seq!['"']
    } else if c == '\\' {
        seq!['\\']
    } else if c == 'r' {
        seq!['\r']
    } else if c == 'n' {
        seq!['\n']
    } else if c == 't' {
        seq!['\t']
    } else {
        seq!['\\', c]
    }
}

/// The text `s` from position `i` on with its escapes resolved, added to `done`.
/// None where `s` ends on a backslash.
pub open spec fn unescape_from(s: Seq<char>, i: int, done: Seq<char>) -> Option<Seq<char>>
    decreases s.len() - i,
{
    if i < 0 || i >= s.len() {
        Some(done)
    } else if s[i] == '\\' {
        if i + 1 >= s.len() {
            None
        } else {
            unescape_from(s, i + 2, done + unescape_char(s[i + 1]))
        }
    } else {
        unescape_from(s, i + 1, done.push(s[i]))
    }
}

/// The content of the string literal `token`: what follows its first character,
/// escapes resolved, without the last character of that. None where `token` ends
/// on a backslash that escapes nothing.
pub open spec fn literal_content(token: Seq<char>) -> Option<Seq<char>> {
    match unescape_from(token, 1, Seq::empty()) {
        Some(text) => Some(
            if text.len() > 0 {
                text.drop_last()
            } else {
                text
            },
        ),
        None => None,
    }
}

/// The content of the string literal `token`.
pub fn read_literal(token: &str) -> (r: Option<String>)
    requires
        token@.len() > 0,
    ensures
        match literal_content(token@) {
            Some(text) => r matches Some(s) && s@ == text,
            None => r is None,
        },
{
    let ghost goal = unescape_from(token@, 1, Seq::empty());
    let mut it = token.chars();
    let _ = it.next();
    let mut buf: Vec<char> = Vec::new();
    let ghost mut i: int = 1;
    proof {
        assert(it.remaining() =~= token@.skip(1));
    }
    loop
        invariant
            1 <= i <= token@.len(),
            it.obeys_prophetic_iter_laws(),
            it.remaining() == token@.skip(i),
            goal == unescape_from(token@, 1, Seq::empty()),
            unescape_from(token@, i, buf@) == goal,
        ensures
            goal == Some(buf@),
        decreases token@.len() - i,
    {
        match it.next() {
            Some(c) => {
                proof {
                    assert(c == token@[i]);
                    assert(it.remaining() =~= token@.skip(i + 1));
                }
                if c == '\\' {
                    match it.next() {
                        Some(d) => {
                            proof {
                                assert(d == token@[i + 1]);
                                assert(it.remaining() =~= token@.skip(i + 2));
                            }
                            let ghost before = buf@;
                            if d == '"' {
                                buf.push('"');
                            } else if d == '\\' {
                                buf.push('\\');
                            } else if d == 'r' {
                                buf.push('\r');
                            } else if d == 'n' {
                                buf.push('\n');
                            } else if d == 't' {
                                buf.push('\t');
                            } else {
                                buf.push('\\');
                                buf.push(d);
                            }
                            proof {
                                assert(buf@ =~= before + unescape_char(d));
                                i = i + 2;
                            }
                        },
                        None => {
                            return None;
                        },
                    }
                } else {
                    buf.push(c);
                    proof {
                        i = i + 1;
                    }
                }
            },
            None => {
                break ;
            },
        }
    }
    buf.pop();
    assert(buf@ =~= literal_content(token@)->0);
    Some(text_of(&buf))
}

/// Whether `c` is a decimal digit.
pub open spec fn is_digit(c: char) -> bool {
    '0' <= c <= '9'
}

/// The number that the digits `s` spell.
pub open spec fn digits_value(s: Seq<char>) -> nat
    decreases s.len(),
{
    if s.len() == 0 {
        0
    } else {
        (digits_value(s.drop_last()) * 10 + (s.last() as int - '0' as int)) as nat
    }
}

/// How many characters the sign of `s` takes: one or none.
pub open spec fn sign_length(s: Seq<char>) -> int {
    if s.len() > 0 && (s[0] == '-' || s[0] == '+') {
        1
    } else {
        0
    }
}

/// The integer that `s` spells: an optional sign, then one decimal digit or more.
/// None where `s` is not of that form, and where the number does not fit in 64 bits.
pub open spec fn parse_integer_spec(s: Seq<char>) -> Option<int> {
    if s.len() == 0 {
        None
    } else {
        let negative = s[0] == '-';
        let body = s.skip(sign_length(s));
        if body.len() == 0 || !(forall|i: int| 0 <= i < body.len() ==> is_digit(#[trigger] body[i])) {
            None
        } else {
            let value = if negative {
                -(digits_value(body) as int)
            } else {
                digits_value(body) as int
            };
            if i64::MIN <= value <= i64::MAX {
                Some(value)
            } else {
                None
            }
        }
    }
}

/// The number that a longer run of digits spells is no smaller.
proof fn lemma_digits_value_grows(s: Seq<char>, k: int)
    requires
        0 <= k <= s.len(),
        forall|i: int| 0 <= i < s.len() ==> is_digit(#[trigger] s[i]),
    ensures
        digits_value(s.take(k)) <= digits_value(s),
    decreases s.len() - k,
{
    if k < s.len() {
        lemma_digits_value_grows(s.drop_last(), k);
        assert(s.drop_last().take(k) =~= s.take(k));
        assert(is_digit(s[s.len() - 1]));
    } else {
        assert(s.take(k) =~= s);
    }
}

/// The integer that `s` spells.
pub fn parse_integer(s: &str) -> (r: Option<i64>)
    ensures
        match parse_integer_spec(s@) {
            Some(value) => r == Some(value as i64),
            None => r is None,
        },
{
    let mut it = s.chars();
    let first = match it.next() {
        Some(c) => c,
        None => {
            return None;
        },
    };
    proof {
        assert(first == s@[0]);
        assert(it.remaining() =~= s@.skip(1));
    }
    let negative = first == '-';
    let signed = first == '-' || first == '+';
    let limit: u64 = if negative {
        0x8000_0000_0000_0000
    } else {
        0x7fff_ffff_ffff_ffff
    };
    let ghost start: int = sign_length(s@);
    let ghost body = s@.skip(start);
    let ghost mut i: int = start;
    let mut total: u64 = 0;
    let mut seen: bool = !signed;
    if !signed {
        if !('0' <= first && first <= '9') {
            assert(!is_digit(body[0]));
            return None;
        }
        total = (first as u64) - ('0' as u64);
        proof {
            i = 1;
            assert(body.take(1).drop_last() =~= Seq::<char>::empty());
            assert(body.take(1).last() == first);
            assert(digits_value(body.take(1).drop_last()) == 0);
            assert(digits_value(body.take(1)) == total);
        }
    } else {
        assert(body.take(0) =~= Seq::<char>::empty());
    }
    loop
        invariant
            start <= i <= s@.len(),
            0 <= start <= 1,
            body == s@.skip(start),
            it.obeys_prophetic_iter_laws(),
            it.remaining() == s@.skip(i),
            forall|j: int| 0 <= j < i - start ==> is_digit(#[trigger] body[j]),
            total == digits_value(body.take(i - start)),
            total <= limit,
            0x7fff_ffff_ffff_ffff <= limit <= 0x8000_0000_0000_0000,
            seen == (i > start),
            s@.len() > 0,
            negative == (s@[0] == '-'),
            limit == if negative { 0x8000_0000_0000_0000u64 } else { 0x7fff_ffff_ffff_ffffu64 },
            start == sign_length(s@),
        ensures
            i == s@.len(),
            seen == (i > start),
            forall|j: int| 0 <= j < body.len() ==> is_digit(#[trigger] body[j]),
            total == digits_value(body),
            total <= limit,
            body == s@.skip(start),
            start == sign_length(s@),
            s@.len() > 0,
            negative == (s@[0] == '-'),
            limit == if negative { 0x8000_0000_0000_0000u64 } else { 0x7fff_ffff_ffff_ffffu64 },
        decreases s@.len() - i,
    {
        match it.next() {
            Some(c) => {
                proof {
                    assert(c == s@[i]);
                    assert(c == body[i - start]);
                    assert(it.remaining() =~= s@.skip(i + 1));
                }
                if !('0' <= c && c <= '9') {
                    assert(!is_digit(body[i - start]));
                    return None;
                }
                let d: u64 = (c as u64) - ('0' as u64);
                proof {
                    assert(body.take(i - start + 1).drop_last() =~= body.take(i - start));
                    assert(digits_value(body.take(i - start + 1)) == total * 10 + d);
                }
                if total > (limit - d) / 10 {
                    proof {
                        if forall|j: int| 0 <= j < body.len() ==> is_digit(#[trigger] body[j]) {
                            lemma_digits_value_grows(body, i - start + 1);
                        }
                    }
                    return None;
                }
                total = total * 10 + d;
                seen = true;
                proof {
                    i = i + 1;
                }
            },
            None => {
                proof {
                    assert(body.take(i - start) =~= body);
                }
                break ;
            },
        }
    }
    if !seen {
        return None;
    }
    if negative {
        if total == 0x8000_0000_0000_0000 {
            Some(i64::MIN)
        } else {
            Some(-(total as i64))
        }
    } else {
        Some(total as i64)
    }
}

/// Escaping goes character by character, from the front too.
proof fn lemma_escape_front(s: Seq<char>)
    requires
        s.len() > 0,
    ensures
        escape(s) == escape_char(s[0]) + escape(s.skip(1)),
    decreases s.len(),
{
    if s.len() == 1 {
        assert(s.drop_last() =~= Seq::<char>::empty());
        assert(s.skip(1) =~= Seq::<char>::empty());
        assert(escape(s.skip(1)) =~= Seq::<char>::empty());
        assert(escape(s) =~= escape_char(s[0]) + escape(s.skip(1)));
    } else {
        lemma_escape_front(s.drop_last());
        assert(s.drop_last().skip(1) =~= s.skip(1).drop_last());
        assert(s.skip(1).last() == s.last());
        assert(escape(s) =~= escape_char(s[0]) + escape(s.skip(1)));
    }
}

/// Resolving the escapes of an escaped text gives the text: inside `whole`, where
/// `escape(s)` stands at position `k`, reading goes from its first character to the
/// one after its last, and adds `s` to what was read.
proof fn lemma_unescape_escaped(whole: Seq<char>, k: int, s: Seq<char>, done: Seq<char>)
    requires
        0 <= k,
        k + escape(s).len() <= whole.len(),
        whole.subrange(k, k + escape(s).len()) == escape(s),
    ensures
        unescape_from(whole, k, done) == unescape_from(whole, k + escape(s).len(), done + s),
    decreases s.len(),
{
    if s.len() == 0 {
        assert(done + s =~= done);
    } else {
        lemma_escape_front(s);
        let c = s[0];
        let head = escape_char(c);
        let tail = s.skip(1);
        let piece = whole.subrange(k, k + escape(s).len());
        assert(forall|j: int| 0 <= j < head.len() ==> whole[k + j] == piece[j]);
        assert(forall|j: int| 0 <= j < head.len() ==> piece[j] == head[j]);
        assert(whole.subrange(k + head.len(), k + head.len() + escape(tail).len()) =~= escape(tail)) by {
            assert forall|j: int| 0 <= j < escape(tail).len() implies whole[k + head.len() + j]
                == escape(tail)[j] by {
                assert(whole[k + head.len() + j] == piece[head.len() + j]);
            }
        }
        lemma_unescape_escaped(whole, k + head.len(), tail, done + seq![c]);
        assert(done + seq![c] + tail =~= done + s);
        if head.len() == 2 {
            assert(whole[k] == piece[0]);
            assert(whole[k + 1] == piece[1]);
            assert(piece[0] == head[0]);
            assert(piece[1] == head[1]);
            assert(unescape_char(whole[k + 1]) =~= seq![c]);
        } else {
            assert(head =~= seq![c]);
            assert(whole[k] == piece[0]);
            assert(piece[0] == head[0]);
            assert(done.push(c) =~= done + seq![c]);
        }
    }
}

/// Reading the literal that stands for a text gives the text back.
pub proof fn lemma_literal_reads_back(s: Seq<char>)
    ensures
        literal_content(seq!['"'] + escape(s) + seq!['"']) == Some(s),
{
    let token = seq!['"'] + escape(s) + seq!['"'];
    let end = 1 + escape(s).len() as int;
    assert(token.subrange(1, end) =~= escape(s));
    lemma_unescape_escaped(token, 1, s, Seq::empty());
    assert(Seq::<char>::empty() + s =~= s);
    assert(token[end] == '"');
    assert(unescape_from(token, end + 1, s.push('"')) == Some(s.push('"')));
    assert(unescape_from(token, end, s) == Some(s.push('"')));
    assert(s.push('"').drop_last() =~= s);
}

/// The digits of a number are digits, at least one, and spell the number.
pub proof fn lemma_digits_spell(n: nat)
    ensures
        digits(n).len() > 0,
        forall|i: int| 0 <= i < digits(n).len() ==> is_digit(#[trigger] digits(n)[i]),
        digits_value(digits(n)) == n,
    decreases n,
{
    if n < 10 {
        assert(digits(n).drop_last() =~= Seq::<char>::empty());
        assert(digits_value(digits(n).drop_last()) == 0);
    } else {
        lemma_digits_spell(n / 10);
        assert(digits(n).drop_last() =~= digits(n / 10));
        assert(digits(n).last() == digit((n % 10) as int));
    }
}

/// Reading the decimal notation of a 64-bit integer gives the integer back.
pub proof fn lemma_decimal_reads_back(i: int)
    requires
        i64::MIN <= i <= i64::MAX,
    ensures
        parse_integer_spec(decimal(i)) == Some(i),
{
    if i < 0 {
        let body = digits((-i) as nat);
        lemma_digits_spell((-i) as nat);
        assert(decimal(i)[0] == '-');
        assert(decimal(i).skip(1) =~= body);
    } else {
        let body = digits(i as nat);
        lemma_digits_spell(i as nat);
        assert(is_digit(body[0]));
        assert(decimal(i).skip(0) =~= body);
    }
}

} // verus!
