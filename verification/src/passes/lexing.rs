use vstd::prelude::*;

use crate::shared::text::{chars_of, push_char};
use crate::shared::tokens::{tokens_view, Token, TokenV};

verus! {

// ---------------------------------------------------------------------------------------------
// Characters.

/// The characters with the Unicode `White_Space` property.
pub open spec fn is_space(c: char) -> bool {
    let n = c as u32;
    ||| 9 <= n <= 13
    ||| n == 32
    ||| n == 0x85
    ||| n == 0xA0
    ||| n == 0x1680
    ||| 0x2000 <= n <= 0x200A
    ||| n == 0x2028
    ||| n == 0x2029
    ||| n == 0x202F
    ||| n == 0x205F
    ||| n == 0x3000
}

pub open spec fn is_alpha(c: char) -> bool {
    ('a' <= c && c <= 'z') || ('A' <= c && c <= 'Z')
}

pub open spec fn is_digit(c: char) -> bool {
    '0' <= c && c <= '9'
}

/// A character that may continue a word: a letter, a digit or an underscore.
pub open spec fn is_word_char(c: char) -> bool {
    is_alpha(c) || is_digit(c) || c == '_'
}

fn char_is_space(c: char) -> (r: bool)
    ensures
        r == is_space(c),
{
    let n = c as u32;
    (9 <= n && n <= 13) || n == 32 || n == 0x85 || n == 0xA0 || n == 0x1680 || (0x2000 <= n && n <= 0x200A) || n == 0x2028
        || n == 0x2029 || n == 0x202F || n == 0x205F || n == 0x3000
}

fn char_is_alpha(c: char) -> (r: bool)
    ensures
        r == is_alpha(c),
{
    ('a' <= c && c <= 'z') || ('A' <= c && c <= 'Z')
}

fn char_is_digit(c: char) -> (r: bool)
    ensures
        r == is_digit(c),
{
    '0' <= c && c <= '9'
}

// ---------------------------------------------------------------------------------------------
// The token language.

/// The length of the longest prefix of word characters.
pub open spec fn word_len(s: Seq<char>) -> nat
    decreases s.len(),
{
    if s.len() > 0 && is_word_char(s[0]) {
        1 + word_len(s.drop_first())
    } else {
        0
    }
}

/// The length of the longest prefix of digits.
pub open spec fn digits_len(s: Seq<char>) -> nat
    decreases s.len(),
{
    if s.len() > 0 && is_digit(s[0]) {
        1 + digits_len(s.drop_first())
    } else {
        0
    }
}

/// The number a string of decimal digits denotes.
pub open spec fn digits_value(s: Seq<char>) -> nat
    decreases s.len(),
{
    if s.len() == 0 {
        0
    } else {
        digits_value(s.drop_last()) * 10 + ((s.last() as u32) - ('0' as u32)) as nat
    }
}

/// The token for a word: a keyword, or an identifier.
pub open spec fn word_token(w: Seq<char>) -> TokenV {
    if w == seq!['i', 'f'] {
        TokenV::Other(Token::If)
    } else if w == seq!['e', 'l', 's', 'e'] {
        TokenV::Other(Token::Else)
    } else if w == seq!['w', 'h', 'i', 'l', 'e'] {
        TokenV::Other(Token::While)
    } else if w == seq!['b', 'r', 'e', 'a', 'k'] {
        TokenV::Other(Token::Break)
    } else if w == seq!['c', 'o', 'n', 't', 'i', 'n', 'u', 'e'] {
        TokenV::Other(Token::Continue)
    } else if w == seq!['f', 'u', 'n'] {
        TokenV::Other(Token::Function)
    } else if w == seq!['r', 'e', 't', 'u', 'r', 'n'] {
        TokenV::Other(Token::Return)
    } else if w == seq!['p', 'r', 'i', 'n', 't'] {
        TokenV::Other(Token::Print)
    } else {
        TokenV::Ident(w)
    }
}

/// The token of a character that is a token by itself.
pub open spec fn single_token(c: char) -> Option<Token> {
    if c == '+' {
        Some(Token::Plus)
    } else if c == '-' {
        Some(Token::Minus)
    } else if c == '*' {
        Some(Token::Multiply)
    } else if c == ';' {
        Some(Token::Semicolon)
    } else if c == '(' {
        Some(Token::LeftParen)
    } else if c == ')' {
        Some(Token::RightParen)
    } else if c == '{' {
        Some(Token::LeftBrace)
    } else if c == '}' {
        Some(Token::RightBrace)
    } else if c == '<' {
        Some(Token::Less)
    } else if c == '%' {
        Some(Token::Modulo)
    } else if c == ',' {
        Some(Token::Comma)
    } else {
        None
    }
}

pub open spec fn prepend(t: TokenV, rest: Option<Seq<TokenV>>) -> Option<Seq<TokenV>> {
    match rest {
        Some(r) => Some(seq![t] + r),
        None => None,
    }
}

/// The tokens of a program text, ended by `EOF`; `None` where the text holds a character that
/// starts no token, or a number too large for an `i32`. White space separates tokens; a word or
/// a number extends as far as it can; `==` is one token.
pub open spec fn lex_spec(s: Seq<char>) -> Option<Seq<TokenV>>
    decreases s.len(),
{
    if s.len() == 0 {
        Some(seq![TokenV::Other(Token::EOF)])
    } else {
        let c = s[0];
        if is_space(c) {
            lex_spec(s.drop_first())
        } else if is_alpha(c) {
            let n = word_len(s);
            proof {
                lemma_word_len(s);
            }
            prepend(word_token(s.take(n as int)), lex_spec(s.skip(n as int)))
        } else if is_digit(c) {
            let n = digits_len(s);
            proof {
                lemma_digits_len(s);
            }
            if digits_value(s.take(n as int)) > i32::MAX {
                None
            } else {
                prepend(TokenV::Other(Token::IntLiteral(digits_value(s.take(n as int)) as i32)), lex_spec(s.skip(n as int)))
            }
        } else if c == '=' {
            if s.len() > 1 && s[1] == '=' {
                prepend(TokenV::Other(Token::Equals), lex_spec(s.skip(2)))
            } else {
                prepend(TokenV::Other(Token::Assign), lex_spec(s.skip(1)))
            }
        } else {
            match single_token(c) {
                Some(t) => prepend(TokenV::Other(t), lex_spec(s.skip(1))),
                None => None,
            }
        }
    }
}

pub proof fn lemma_word_len(s: Seq<char>)
    ensures
        word_len(s) <= s.len(),
        s.len() > 0 && is_word_char(s[0]) ==> word_len(s) >= 1,
        forall|i: int| 0 <= i < word_len(s) ==> is_word_char(#[trigger] s[i]),
        word_len(s) < s.len() ==> !is_word_char(s[word_len(s) as int]),
    decreases s.len(),
{
    if s.len() > 0 && is_word_char(s[0]) {
        lemma_word_len(s.drop_first());
        assert forall|i: int| 0 < i < word_len(s) implies is_word_char(#[trigger] s[i]) by {
            assert(s[i] == s.drop_first()[i - 1]);
        }
        if word_len(s) < s.len() {
            assert(s[word_len(s) as int] == s.drop_first()[word_len(s) - 1]);
        }
    }
}

pub proof fn lemma_digits_len(s: Seq<char>)
    ensures
        digits_len(s) <= s.len(),
        s.len() > 0 && is_digit(s[0]) ==> digits_len(s) >= 1,
        forall|i: int| 0 <= i < digits_len(s) ==> is_digit(#[trigger] s[i]),
        digits_len(s) < s.len() ==> !is_digit(s[digits_len(s) as int]),
    decreases s.len(),
{
    if s.len() > 0 && is_digit(s[0]) {
        lemma_digits_len(s.drop_first());
        assert forall|i: int| 0 < i < digits_len(s) implies is_digit(#[trigger] s[i]) by {
            assert(s[i] == s.drop_first()[i - 1]);
        }
        if digits_len(s) < s.len() {
            assert(s[digits_len(s) as int] == s.drop_first()[digits_len(s) - 1]);
        }
    }
}

// ---------------------------------------------------------------------------------------------
// The lexer.

fn chars_eq(w: &Vec<char>, k: &[char]) -> (r: bool)
    ensures
        r == (w@ == k@),
{
    if w.len() != k.len() {
        return false;
    }
    let mut i: usize = 0;
    while i < w.len()
        invariant
            w@.len() == k@.len(),
            i <= w.len(),
            forall|j: int| 0 <= j < i ==> w@[j] == k@[j],
        decreases w.len() - i,
    {
        if w[i] != k[i] {
            return false;
        }
        i = i + 1;
    }
    assert(w@ =~= k@);
    true
}

/// The token for a word.
fn word_token_of(w: &Vec<char>) -> (r: Token)
    ensures
        r@ == word_token(w@),
{
    if chars_eq(w, &['i', 'f']) {
        assert(['i', 'f']@ =~= seq!['i', 'f']);
        Token::If
    } else if chars_eq(w, &['e', 'l', 's', 'e']) {
        assert(['i', 'f']@ =~= seq!['i', 'f']);
        assert(['e', 'l', 's', 'e']@ =~= seq!['e', 'l', 's', 'e']);
        Token::Else
    } else if chars_eq(w, &['w', 'h', 'i', 'l', 'e']) {
        assert(['i', 'f']@ =~= seq!['i', 'f']);
        assert(['e', 'l', 's', 'e']@ =~= seq!['e', 'l', 's', 'e']);
        assert(['w', 'h', 'i', 'l', 'e']@ =~= seq!['w', 'h', 'i', 'l', 'e']);
        Token::While
    } else if chars_eq(w, &['b', 'r', 'e', 'a', 'k']) {
        assert(['i', 'f']@ =~= seq!['i', 'f']);
        assert(['e', 'l', 's', 'e']@ =~= seq!['e', 'l', 's', 'e']);
        assert(['w', 'h', 'i', 'l', 'e']@ =~= seq!['w', 'h', 'i', 'l', 'e']);
        assert(['b', 'r', 'e', 'a', 'k']@ =~= seq!['b', 'r', 'e', 'a', 'k']);
        Token::Break
    } else if chars_eq(w, &['c', 'o', 'n', 't', 'i', 'n', 'u', 'e']) {
        assert(['i', 'f']@ =~= seq!['i', 'f']);
        assert(['e', 'l', 's', 'e']@ =~= seq!['e', 'l', 's', 'e']);
        assert(['w', 'h', 'i', 'l', 'e']@ =~= seq!['w', 'h', 'i', 'l', 'e']);
        assert(['b', 'r', 'e', 'a', 'k']@ =~= seq!['b', 'r', 'e', 'a', 'k']);
        assert(['c', 'o', 'n', 't', 'i', 'n', 'u', 'e']@ =~= seq!['c', 'o', 'n', 't', 'i', 'n', 'u', 'e']);
        Token::Continue
    } else if chars_eq(w, &['f', 'u', 'n']) {
        assert(['i', 'f']@ =~= seq!['i', 'f']);
        assert(['e', 'l', 's', 'e']@ =~= seq!['e', 'l', 's', 'e']);
        assert(['w', 'h', 'i', 'l', 'e']@ =~= seq!['w', 'h', 'i', 'l', 'e']);
        assert(['b', 'r', 'e', 'a', 'k']@ =~= seq!['b', 'r', 'e', 'a', 'k']);
        assert(['c', 'o', 'n', 't', 'i', 'n', 'u', 'e']@ =~= seq!['c', 'o', 'n', 't', 'i', 'n', 'u', 'e']);
        assert(['f', 'u', 'n']@ =~= seq!['f', 'u', 'n']);
        Token::Function
    } else if chars_eq(w, &['r', 'e', 't', 'u', 'r', 'n']) {
        assert(['i', 'f']@ =~= seq!['i', 'f']);
        assert(['e', 'l', 's', 'e']@ =~= seq!['e', 'l', 's', 'e']);
        assert(['w', 'h', 'i', 'l', 'e']@ =~= seq!['w', 'h', 'i', 'l', 'e']);
        assert(['b', 'r', 'e', 'a', 'k']@ =~= seq!['b', 'r', 'e', 'a', 'k']);
        assert(['c', 'o', 'n', 't', 'i', 'n', 'u', 'e']@ =~= seq!['c', 'o', 'n', 't', 'i', 'n', 'u', 'e']);
        assert(['f', 'u', 'n']@ =~= seq!['f', 'u', 'n']);
        assert(['r', 'e', 't', 'u', 'r', 'n']@ =~= seq!['r', 'e', 't', 'u', 'r', 'n']);
        Token::Return
    } else if chars_eq(w, &['p', 'r', 'i', 'n', 't']) {
        assert(['i', 'f']@ =~= seq!['i', 'f']);
        assert(['e', 'l', 's', 'e']@ =~= seq!['e', 'l', 's', 'e']);
        assert(['w', 'h', 'i', 'l', 'e']@ =~= seq!['w', 'h', 'i', 'l', 'e']);
        assert(['b', 'r', 'e', 'a', 'k']@ =~= seq!['b', 'r', 'e', 'a', 'k']);
        assert(['c', 'o', 'n', 't', 'i', 'n', 'u', 'e']@ =~= seq!['c', 'o', 'n', 't', 'i', 'n', 'u', 'e']);
        assert(['f', 'u', 'n']@ =~= seq!['f', 'u', 'n']);
        assert(['r', 'e', 't', 'u', 'r', 'n']@ =~= seq!['r', 'e', 't', 'u', 'r', 'n']);
        assert(['p', 'r', 'i', 'n', 't']@ =~= seq!['p', 'r', 'i', 'n', 't']);
        Token::Print
    } else {
        assert(['i', 'f']@ =~= seq!['i', 'f']);
        assert(['e', 'l', 's', 'e']@ =~= seq!['e', 'l', 's', 'e']);
        assert(['w', 'h', 'i', 'l', 'e']@ =~= seq!['w', 'h', 'i', 'l', 'e']);
        assert(['b', 'r', 'e', 'a', 'k']@ =~= seq!['b', 'r', 'e', 'a', 'k']);
        assert(['c', 'o', 'n', 't', 'i', 'n', 'u', 'e']@ =~= seq!['c', 'o', 'n', 't', 'i', 'n', 'u', 'e']);
        assert(['f', 'u', 'n']@ =~= seq!['f', 'u', 'n']);
        assert(['r', 'e', 't', 'u', 'r', 'n']@ =~= seq!['r', 'e', 't', 'u', 'r', 'n']);
        assert(['p', 'r', 'i', 'n', 't']@ =~= seq!['p', 'r', 'i', 'n', 't']);
        let mut name = String::new();
        let mut i: usize = 0;
        while i < w.len()
            invariant
                i <= w.len(),
                name@ == w@.subrange(0, i as int),
            decreases w.len() - i,
        {
            push_char(&mut name, w[i]);
            assert(name@ =~= w@.subrange(0, i + 1));
            i = i + 1;
        }
        assert(w@.subrange(0, w@.len() as int) =~= w@);
        Token::Identifier(name)
    }
}

fn single_token_of(c: char) -> (r: Option<Token>)
    ensures
        match single_token(c) {
            Some(t) => r is Some && r->Some_0@ == TokenV::Other(t),
            None => r is None,
        },
{
    if c == '+' {
        Some(Token::Plus)
    } else if c == '-' {
        Some(Token::Minus)
    } else if c == '*' {
        Some(Token::Multiply)
    } else if c == ';' {
        Some(Token::Semicolon)
    } else if c == '(' {
        Some(Token::LeftParen)
    } else if c == ')' {
        Some(Token::RightParen)
    } else if c == '{' {
        Some(Token::LeftBrace)
    } else if c == '}' {
        Some(Token::RightBrace)
    } else if c == '<' {
        Some(Token::Less)
    } else if c == '%' {
        Some(Token::Modulo)
    } else if c == ',' {
        Some(Token::Comma)
    } else {
        None
    }
}

pub proof fn lemma_word_len_exact(s: Seq<char>, m: int)
    requires
        0 <= m <= s.len(),
        forall|k: int| 0 <= k < m ==> is_word_char(#[trigger] s[k]),
        m == s.len() || !is_word_char(s[m]),
    ensures
        word_len(s) == m,
    decreases m,
{
    if m > 0 {
        assert forall|k: int| 0 <= k < m - 1 implies is_word_char(#[trigger] s.drop_first()[k]) by {
            assert(s.drop_first()[k] == s[k + 1]);
        }
        if m < s.len() {
            assert(s.drop_first()[m - 1] == s[m]);
        }
        lemma_word_len_exact(s.drop_first(), m - 1);
    }
}

pub proof fn lemma_digits_len_exact(s: Seq<char>, m: int)
    requires
        0 <= m <= s.len(),
        forall|k: int| 0 <= k < m ==> is_digit(#[trigger] s[k]),
        m == s.len() || !is_digit(s[m]),
    ensures
        digits_len(s) == m,
    decreases m,
{
    if m > 0 {
        assert forall|k: int| 0 <= k < m - 1 implies is_digit(#[trigger] s.drop_first()[k]) by {
            assert(s.drop_first()[k] == s[k + 1]);
        }
        if m < s.len() {
            assert(s.drop_first()[m - 1] == s[m]);
        }
        lemma_digits_len_exact(s.drop_first(), m - 1);
    }
}

/// The value of a prefix of a digit string is at most that of the whole.
pub proof fn lemma_digits_value_mono(s: Seq<char>, k: int)
    requires
        0 <= k <= s.len(),
        forall|i: int| 0 <= i < s.len() ==> is_digit(#[trigger] s[i]),
    ensures
        digits_value(s.take(k)) <= digits_value(s),
    decreases s.len() - k,
{
    if k < s.len() {
        let t = s.take(k + 1);
        assert(t.drop_last() =~= s.take(k));
        assert forall|i: int| 0 <= i < t.len() implies is_digit(#[trigger] t[i]) by {
            assert(t[i] == s[i]);
        }
        lemma_digits_value_mono(s, k + 1);
    } else {
        assert(s.take(k) =~= s);
    }
}

pub open spec fn prepend_all(ts: Seq<TokenV>, rest: Option<Seq<TokenV>>) -> Option<Seq<TokenV>> {
    match rest {
        Some(r) => Some(ts + r),
        None => None,
    }
}

/// Splits a program text into tokens, ended by `EOF`; `None` where the text holds a character
/// that starts no token, or a number too large for an `i32`.
pub fn try_lex(program: &str) -> (r: Option<Vec<Token>>)
    ensures
        match lex_spec(program@) {
            Some(ts) => r is Some && tokens_view(r->Some_0@) == ts,
            None => r is None,
        },
{
    let cs = chars_of(program);
    let ghost s = cs@;
    let mut tokens: Vec<Token> = Vec::new();
    let mut i: usize = 0;
    assert(s.skip(0) =~= s);
    assert(tokens_view(tokens@) =~= Seq::<TokenV>::empty());
    assert(lex_spec(s) == prepend_all(tokens_view(tokens@), lex_spec(s.skip(0))));
    while i < cs.len()
        invariant
            s == cs@,
            s == program@,
            i <= cs.len(),
            lex_spec(s) == prepend_all(tokens_view(tokens@), lex_spec(s.skip(i as int))),
        decreases cs.len() - i,
    {
        let ghost rest = s.skip(i as int);
        let ghost before = tokens_view(tokens@);
        let c = cs[i];
        assert(rest[0] == c);
        if char_is_space(c) {
            assert(rest.drop_first() =~= s.skip(i + 1));
            i = i + 1;
        } else if char_is_alpha(c) {
            let mut j: usize = i;
            while j < cs.len() && (char_is_alpha(cs[j]) || char_is_digit(cs[j]) || cs[j] == '_')
                invariant
                    i <= j <= cs.len(),
                    s == cs@,
                    forall|k: int| i <= k < j ==> is_word_char(#[trigger] s[k]),
                decreases cs.len() - j,
            {
                j = j + 1;
            }
            proof {
                assert forall|k: int| 0 <= k < j - i implies is_word_char(#[trigger] rest[k]) by {
                    assert(rest[k] == s[i + k]);
                }
                if j < cs.len() {
                    assert(rest[j - i] == s[j as int]);
                }
                lemma_word_len_exact(rest, j - i);
            }
            let mut word: Vec<char> = Vec::new();
            let mut k: usize = i;
            while k < j
                invariant
                    i <= k <= j <= cs.len(),
                    s == cs@,
                    word@ == s.subrange(i as int, k as int),
                decreases j - k,
            {
                word.push(cs[k]);
                assert(word@ =~= s.subrange(i as int, k + 1));
                k = k + 1;
            }
            assert(word@ =~= rest.take(j - i));
            let tok = word_token_of(&word);
            tokens.push(tok);
            proof {
                assert(rest.skip(j - i) =~= s.skip(j as int));
                assert(tokens_view(tokens@) =~= before + seq![tok@]);
            }
            i = j;
        } else if char_is_digit(c) {
            let mut j: usize = i;
            while j < cs.len() && char_is_digit(cs[j])
                invariant
                    i <= j <= cs.len(),
                    s == cs@,
                    forall|k: int| i <= k < j ==> is_digit(#[trigger] s[k]),
                decreases cs.len() - j,
            {
                j = j + 1;
            }
            proof {
                assert forall|k: int| 0 <= k < j - i implies is_digit(#[trigger] rest[k]) by {
                    assert(rest[k] == s[i + k]);
                }
                if j < cs.len() {
                    assert(rest[j - i] == s[j as int]);
                }
                lemma_digits_len_exact(rest, j - i);
            }
            let ghost digits = rest.take(j - i);
            let mut value: i32 = 0;
            let mut k: usize = i;
            while k < j
                invariant
                    i <= k <= j <= cs.len(),
                    s == cs@,
                    rest == s.skip(i as int),
                    digits == rest.take(j - i),
                    forall|m: int| i <= m < j ==> is_digit(#[trigger] s[m]),
                    lex_spec(s) == prepend_all(before, lex_spec(rest)),
                    s == program@,
                    rest.len() > 0,
                    !is_space(rest[0]),
                    !is_alpha(rest[0]),
                    is_digit(rest[0]),
                    digits_len(rest) == j - i,
                    value == digits_value(digits.take(k - i)),
                decreases j - k,
            {
                proof {
                    assert forall|m: int| 0 <= m < digits.len() implies is_digit(#[trigger] digits[m]) by {
                        assert(digits[m] == s[i + m]);
                    }
                    lemma_digits_value_mono(digits, k - i + 1);
                    let t = digits.take(k - i + 1);
                    assert(t.drop_last() =~= digits.take(k - i));
                    assert(t.last() == s[k as int]);
                }
                let d = (cs[k] as u32 - '0' as u32) as i32;
                if value > (i32::MAX - d) / 10 {
                    proof {
                        assert(value * 10 + d > i32::MAX) by (nonlinear_arith)
                            requires
                                value > (i32::MAX - d) / 10,
                                0 <= d <= 9,
                                value >= 0,
                        ;
                        assert(digits_value(digits.take(k - i + 1)) == value * 10 + d);
                        assert(digits_value(digits) > i32::MAX);
                        assert(lex_spec(rest) is None);
                    }
                    return None;
                }
                assert(value * 10 + d <= i32::MAX) by (nonlinear_arith)
                    requires
                        value <= (i32::MAX - d) / 10,
                        0 <= d <= 9,
                        value >= 0,
                ;
                value = value * 10 + d;
                k = k + 1;
            }
            assert(digits.take(j - i) =~= digits);
            tokens.push(Token::IntLiteral(value));
            proof {
                assert(rest.skip(j - i) =~= s.skip(j as int));
                assert(tokens_view(tokens@) =~= before + seq![TokenV::Other(Token::IntLiteral(value))]);
            }
            i = j;
        } else if c == '=' {
            if i + 1 < cs.len() && cs[i + 1] == '=' {
                assert(rest[1] == s[i + 1]);
                tokens.push(Token::Equals);
                proof {
                    assert(rest.skip(2) =~= s.skip(i + 2));
                    assert(tokens_view(tokens@) =~= before + seq![TokenV::Other(Token::Equals)]);
                }
                i = i + 2;
            } else {
                proof {
                    if rest.len() > 1 {
                        assert(rest[1] == s[i + 1]);
                    }
                }
                tokens.push(Token::Assign);
                proof {
                    assert(rest.skip(1) =~= s.skip(i + 1));
                    assert(tokens_view(tokens@) =~= before + seq![TokenV::Other(Token::Assign)]);
                }
                i = i + 1;
            }
        } else {
            match single_token_of(c) {
                Some(tok) => {
                    tokens.push(tok);
                    proof {
                        assert(rest.skip(1) =~= s.skip(i + 1));
                        assert(tokens_view(tokens@) =~= before + seq![tok@]);
                    }
                    i = i + 1;
                },
                None => {
                    return None;
                },
            }
        }
    }
    let ghost before = tokens_view(tokens@);
    tokens.push(Token::EOF);
    proof {
        assert(s.skip(i as int) =~= Seq::<char>::empty());
        assert(tokens_view(tokens@) =~= before + seq![TokenV::Other(Token::EOF)]);
    }
    Some(tokens)
}

/// Splits a program text into tokens, ended by `EOF`.
pub fn lex(program: &str) -> (r: Vec<Token>)
    requires
        lex_spec(program@) is Some,
    ensures
        tokens_view(r@) == lex_spec(program@)->Some_0,
{
    match try_lex(program) {
        Some(tokens) => tokens,
        None => unreached(),
    }
}

/// The tokens of a text end with `EOF`, and `EOF` occurs nowhere else.
pub proof fn law_lex_single_eof(s: Seq<char>)
    requires
        lex_spec(s) is Some,
    ensures
        lex_spec(s)->Some_0.len() > 0,
        lex_spec(s)->Some_0.last() == TokenV::Other(Token::EOF),
        forall|i: int| 0 <= i < lex_spec(s)->Some_0.len() - 1 ==> lex_spec(s)->Some_0[i] != TokenV::Other(Token::EOF),
    decreases s.len(),
{
    if s.len() > 0 {
        let c = s[0];
        if is_space(c) {
            law_lex_single_eof(s.drop_first());
        } else {
            let (t, rest) = if is_alpha(c) {
                let n = word_len(s);
                lemma_word_len(s);
                (word_token(s.take(n as int)), s.skip(n as int))
            } else if is_digit(c) {
                let n = digits_len(s);
                lemma_digits_len(s);
                (TokenV::Other(Token::IntLiteral(digits_value(s.take(n as int)) as i32)), s.skip(n as int))
            } else if c == '=' {
                if s.len() > 1 && s[1] == '=' {
                    (TokenV::Other(Token::Equals), s.skip(2))
                } else {
                    (TokenV::Other(Token::Assign), s.skip(1))
                }
            } else {
                (TokenV::Other(single_token(c)->Some_0), s.skip(1))
            };
            assert(lex_spec(s) == prepend(t, lex_spec(rest)));
            assert(t != TokenV::Other(Token::EOF));
            law_lex_single_eof(rest);
            let ts = lex_spec(rest)->Some_0;
            assert(lex_spec(s)->Some_0 =~= seq![t] + ts);
            assert forall|i: int| 0 <= i < lex_spec(s)->Some_0.len() - 1 implies lex_spec(s)->Some_0[i] != TokenV::Other(Token::EOF) by {
                if i > 0 {
                    assert(lex_spec(s)->Some_0[i] == ts[i - 1]);
                }
            }
        }
    }
}

/// White space before a text changes none of its tokens, however much of it there is.
pub proof fn law_lex_skips_space(c: char, s: Seq<char>)
    requires
        is_space(c),
    ensures
        lex_spec(seq![c] + s) == lex_spec(s),
{
    assert((seq![c] + s).drop_first() =~= s);
}

} // verus!
