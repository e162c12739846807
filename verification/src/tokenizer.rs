//! Tokenizer for the robot-control script language.
//!
//! A script is processed line by line: each line is split on whitespace and
//! every word becomes one token.  Each word is classified independently, in
//! order: a word in the fixed keyword set becomes a keyword; else a word
//! that reads as a signed 32-bit integer becomes a number; else a word that
//! is exactly one of the four brace or parenthesis characters becomes a
//! symbol; everything else is an identifier.  Tokenization is total: it
//! never fails, and blank lines yield no tokens.

use vstd::prelude::*;
use vstd::string::*;

use crate::text::{
    all_digits, digit_val, digits_val, is_digit_char, lemma_digits_val_nonneg,
    lemma_digits_val_prefix, lemma_digits_val_step, str_eq,
};
use crate::views::lemma_deep_view_push;

verus! {

/// One token of a script.
#[derive(Debug, Clone, PartialEq)]
pub enum Token {
    Keyword(String),
    Identifier(String),
    Number(i32),
    Symbol(char),
}

/// Mathematical image of a [`Token`].
pub ghost enum TokenModel {
    Keyword(Seq<char>),
    Identifier(Seq<char>),
    Number(int),
    Symbol(char),
}

impl DeepView for Token {
    type V = TokenModel;

    open spec fn deep_view(&self) -> TokenModel {
        match self {
            Token::Keyword(s) => TokenModel::Keyword(s@),
            Token::Identifier(s) => TokenModel::Identifier(s@),
            Token::Number(n) => TokenModel::Number(*n as int),
            Token::Symbol(c) => TokenModel::Symbol(*c),
        }
    }
}

/// Whitespace that separates words: exactly the Unicode white-space
/// characters.
pub open spec fn is_space_char(c: char) -> bool {
    let u = c as u32;
    ||| u == 0x9
    ||| u == 0xA
    ||| u == 0xB
    ||| u == 0xC
    ||| u == 0xD
    ||| u == 0x20
    ||| u == 0x85
    ||| u == 0xA0
    ||| u == 0x1680
    ||| (0x2000 <= u && u <= 0x200A)
    ||| u == 0x2028
    ||| u == 0x2029
    ||| u == 0x202F
    ||| u == 0x205F
    ||| u == 0x3000
}

/// The fixed keyword set of the language.
pub open spec fn is_keyword_str(w: Seq<char>) -> bool {
    ||| w == "rotate"@
    ||| w == "move"@
    ||| w == "scan"@
    ||| w == "fire"@
    ||| w == "if"@
    ||| w == "else"@
    ||| w == "while"@
    ||| w == "loop"@
}

/// The four one-character symbols the language knows.
pub open spec fn is_symbol_char(c: char) -> bool {
    c == '{' || c == '}' || c == '(' || c == ')'
}

/// The digits of a word, the optional leading sign removed.
pub open spec fn int_body(w: Seq<char>) -> Seq<char> {
    if w.len() > 0 && (w[0] == '+' || w[0] == '-') {
        w.drop_first()
    } else {
        w
    }
}

/// The word is an optional sign followed by at least one decimal digit.
pub open spec fn is_int_literal(w: Seq<char>) -> bool {
    int_body(w).len() > 0 && all_digits(int_body(w))
}

/// Value of an integer literal word.
pub open spec fn int_literal_val(w: Seq<char>) -> int {
    if w.len() > 0 && w[0] == '-' {
        -digits_val(int_body(w))
    } else {
        digits_val(int_body(w))
    }
}

/// The word is an integer literal whose value fits in an `i32`.
pub open spec fn is_i32_literal(w: Seq<char>) -> bool {
    is_int_literal(w) && i32::MIN <= int_literal_val(w) <= i32::MAX
}

/// How one word is classified, the keyword test first in order: a keyword,
/// else a number, else a symbol, else an identifier.
pub open spec fn classify_word(w: Seq<char>) -> TokenModel {
    if is_keyword_str(w) {
        TokenModel::Keyword(w)
    } else if is_i32_literal(w) {
        TokenModel::Number(int_literal_val(w))
    } else if w.len() == 1 && is_symbol_char(w[0]) {
        TokenModel::Symbol(w[0])
    } else {
        TokenModel::Identifier(w)
    }
}

/// Length of the word starting at the front of `s`: the number of characters
/// before the first whitespace character.
pub open spec fn word_len(s: Seq<char>) -> nat
    decreases s.len(),
{
    if s.len() == 0 || is_space_char(s[0]) {
        0
    } else {
        1 + word_len(s.drop_first())
    }
}

/// A word never reaches past the end of the text.
pub proof fn lemma_word_len_le(s: Seq<char>)
    ensures
        word_len(s) <= s.len(),
    decreases s.len(),
{
    if !(s.len() == 0 || is_space_char(s[0])) {
        lemma_word_len_le(s.drop_first());
    }
}

/// The tokens of the words of `s`: each whitespace-separated word
/// classified in order.
pub open spec fn words_tokens(s: Seq<char>) -> Seq<TokenModel>
    decreases s.len(),
{
    if s.len() == 0 {
        Seq::empty()
    } else if is_space_char(s[0]) {
        words_tokens(s.drop_first())
    } else {
        proof {
            assert(word_len(s) == 1 + word_len(s.drop_first()));
            lemma_word_len_le(s);
        }
        seq![classify_word(s.take(word_len(s) as int))] + words_tokens(s.skip(word_len(s) as int))
    }
}

/// The tokens of one line.
pub open spec fn tokenize_line_spec(line: Seq<char>) -> Seq<TokenModel> {
    words_tokens(line)
}

/// Number of characters before the first line break in `s`.
pub open spec fn line_len(s: Seq<char>) -> nat
    decreases s.len(),
{
    if s.len() == 0 || s[0] == '\n' {
        0
    } else {
        1 + line_len(s.drop_first())
    }
}

/// The tokens of a whole script: the lines are split on line breaks and
/// tokenized in order.
pub open spec fn tokenize_script_spec(s: Seq<char>) -> Seq<TokenModel>
    decreases s.len(),
{
    if s.len() == 0 {
        Seq::empty()
    } else {
        let k = line_len(s) as int;
        tokenize_line_spec(s.take(k)) + if k < s.len() {
            tokenize_script_spec(s.skip(k + 1))
        } else {
            Seq::empty()
        }
    }
}

/// `word_len` is exactly the index of the first whitespace character.
proof fn lemma_word_len_is(s: Seq<char>, k: int)
    requires
        0 <= k <= s.len(),
        forall|m: int| 0 <= m < k ==> !is_space_char(#[trigger] s[m]),
        k == s.len() || is_space_char(s[k]),
    ensures
        word_len(s) == k,
    decreases k,
{
    if k == 0 {
    } else {
        assert(!is_space_char(s[0]));
        let t = s.drop_first();
        assert forall|m: int| 0 <= m < k - 1 implies !is_space_char(#[trigger] t[m]) by {
            assert(t[m] == s[m + 1]);
        }
        if k < s.len() {
            assert(t[k - 1] == s[k]);
        }
        lemma_word_len_is(t, k - 1);
    }
}

/// `line_len` is exactly the index of the first line break.
proof fn lemma_line_len_is(s: Seq<char>, k: int)
    requires
        0 <= k <= s.len(),
        forall|m: int| 0 <= m < k ==> #[trigger] s[m] != '\n',
        k == s.len() || s[k] == '\n',
    ensures
        line_len(s) == k,
    decreases k,
{
    if k == 0 {
    } else {
        assert(s[0] != '\n');
        let t = s.drop_first();
        assert forall|m: int| 0 <= m < k - 1 implies #[trigger] t[m] != '\n' by {
            assert(t[m] == s[m + 1]);
        }
        if k < s.len() {
            assert(t[k - 1] == s[k]);
        }
        lemma_line_len_is(t, k - 1);
    }
}

/// Whitespace test for one character.
fn is_space_ch(c: char) -> (r: bool)
    ensures
        r == is_space_char(c),
{
    let u = c as u32;
    u == 0x9 || u == 0xA || u == 0xB || u == 0xC || u == 0xD || u == 0x20 || u == 0x85 || u == 0xA0
        || u == 0x1680 || (0x2000 <= u && u <= 0x200A) || u == 0x2028 || u == 0x2029 || u == 0x202F
        || u == 0x205F || u == 0x3000
}

/// Keyword test for one word.
fn is_keyword_word(w: &str) -> (r: bool)
    ensures
        r == is_keyword_str(w@),
{
    str_eq(w, "rotate") || str_eq(w, "move") || str_eq(w, "scan") || str_eq(w, "fire") || str_eq(
        w,
        "if",
    ) || str_eq(w, "else") || str_eq(w, "while") || str_eq(w, "loop")
}

/// Reads `w` as a signed 32-bit decimal integer, if it is one.
fn parse_i32_word(w: &str) -> (r: Option<i32>)
    ensures
        r is Some <==> is_i32_literal(w@),
        r matches Some(v) ==> v as int == int_literal_val(w@),
{
    let n = w.unicode_len();
    if n == 0 {
        return None;
    }
    let c0 = w.get_char(0);
    let neg = c0 == '-';
    let has_sign = c0 == '-' || c0 == '+';
    let start: usize = if has_sign {
        1
    } else {
        0
    };
    let ghost body = int_body(w@);
    proof {
        assert(body =~= w@.skip(start as int));
    }
    if start == n {
        return None;
    }
    let mut i: usize = start;
    while i < n
        invariant
            n == w@.len(),
            start <= i <= n,
            start < n,
            body == w@.skip(start as int),
            body == int_body(w@),
            forall|m: int| 0 <= m < i - start ==> is_digit_char(#[trigger] body[m]),
        decreases n - i,
    {
        let c = w.get_char(i);
        let u = c as u32;
        if u < 48 || u > 57 {
            proof {
                assert(body[i - start] == w@[i as int]);
                assert(!is_digit_char(body[i - start]));
                assert(!all_digits(body));
                assert(!is_i32_literal(w@));
            }
            return None;
        }
        i = i + 1;
    }
    proof {
        assert(all_digits(body));
        assert(is_int_literal(w@));
    }
    let mut acc: u64 = 0;
    let mut i: usize = start;
    while i < n
        invariant
            n == w@.len(),
            start <= i <= n,
            start < n,
            body == w@.skip(start as int),
            body == int_body(w@),
            all_digits(body),
            acc <= 0x8000_0000,
            acc == digits_val(body.take(i - start)),
        decreases n - i,
    {
        let c = w.get_char(i);
        let u = c as u32;
        proof {
            assert(body[i - start] == w@[i as int]);
            assert(is_digit_char(body[i - start]));
        }
        let d = (u - 48) as u64;
        let next = acc * 10 + d;
        proof {
            lemma_digits_val_step(body, i - start);
        }
        if next > 0x8000_0000 {
            proof {
                assert(digits_val(body.take(i - start + 1)) == next);
                lemma_digits_val_prefix(body, i - start + 1);
                assert(digits_val(body) > 0x8000_0000);
                if w@[0] == '-' {
                    assert(int_literal_val(w@) < i32::MIN);
                } else {
                    assert(int_literal_val(w@) > i32::MAX);
                }
                assert(!is_i32_literal(w@));
            }
            return None;
        }
        acc = next;
        i = i + 1;
    }
    proof {
        assert(body.take(n - start) =~= body);
        lemma_digits_val_nonneg(body);
    }
    if neg {
        let v = -(acc as i64);
        Some(v as i32)
    } else {
        if acc > 0x7fff_ffff {
            return None;
        }
        Some(acc as i32)
    }
}

/// Classifies one word as a token.
fn classify_word_exec(w: &str) -> (t: Token)
    ensures
        t.deep_view() == classify_word(w@),
{
    if is_keyword_word(w) {
        return Token::Keyword(w.to_owned());
    }
    match parse_i32_word(w) {
        Some(v) => Token::Number(v),
        None => {
            if w.unicode_len() == 1 {
                let c = w.get_char(0);
                if c == '{' || c == '}' || c == '(' || c == ')' {
                    Token::Symbol(c)
                } else {
                    Token::Identifier(w.to_owned())
                }
            } else {
                Token::Identifier(w.to_owned())
            }
        },
    }
}

/// Tokenizes a single line of script text.
///
/// The result is exactly [`tokenize_line_spec`] of the line: one token per
/// whitespace-separated word, each word classified against the keyword set
/// first, in source order.
pub fn tokenize_line(line: &str) -> (tokens: Vec<Token>)
    ensures
        tokens.deep_view() == tokenize_line_spec(line@),
{
    let n = line.unicode_len();
    let mut tokens: Vec<Token> = Vec::new();
    let mut i: usize = 0;
    proof {
        assert(line@.skip(0) =~= line@);
        assert(tokens.deep_view() =~= Seq::<TokenModel>::empty());
        assert(Seq::<TokenModel>::empty() + words_tokens(line@) =~= words_tokens(line@));
    }
    while i < n
        invariant
            n == line@.len(),
            0 <= i <= n,
            tokenize_line_spec(line@) == tokens.deep_view() + words_tokens(line@.skip(i as int)),
        decreases n - i,
    {
        let c = line.get_char(i);
        if is_space_ch(c) {
            proof {
                assert(line@.skip(i as int).drop_first() =~= line@.skip(i as int + 1));
            }
            i = i + 1;
        } else {
            let mut j: usize = i + 1;
            while j < n && !is_space_ch(line.get_char(j))
                invariant
                    n == line@.len(),
                    i < j <= n,
                    forall|m: int| i <= m < j ==> !is_space_char(#[trigger] line@[m]),
                decreases n - j,
            {
                j = j + 1;
            }
            proof {
                let rest = line@.skip(i as int);
                assert forall|m: int| 0 <= m < j - i implies !is_space_char(
                    #[trigger] rest[m],
                ) by {
                    assert(rest[m] == line@[i + m]);
                }
                if j < n {
                    assert(rest[j - i] == line@[j as int]);
                }
                lemma_word_len_is(rest, j - i);
            }
            let word = line.substring_char(i, j);
            let tok = classify_word_exec(word);
            let ghost tokens_before = tokens;
            tokens.push(tok);
            proof {
                lemma_deep_view_push(tokens_before, tokens, tok);
                let rest = line@.skip(i as int);
                assert(rest.take(j - i) =~= word@);
                assert(rest.skip(j - i) =~= line@.skip(j as int));
                assert(tokens_before.deep_view().push(tok.deep_view()) + words_tokens(
                    line@.skip(j as int),
                ) =~= tokens_before.deep_view() + (seq![tok.deep_view()] + words_tokens(
                    line@.skip(j as int),
                )));
            }
            i = j;
        }
    }
    proof {
        assert(line@.skip(n as int) =~= Seq::<char>::empty());
        assert(tokens.deep_view() + Seq::<TokenModel>::empty() =~= tokens.deep_view());
    }
    tokens
}

/// Tokenizes a whole script.
///
/// The result is exactly [`tokenize_script_spec`] of the text: every line
/// tokenized in order, with line breaks separating the lines.
pub fn tokenize_script(script: &str) -> (tokens: Vec<Token>)
    ensures
        tokens.deep_view() == tokenize_script_spec(script@),
{
    let n = script.unicode_len();
    let mut tokens: Vec<Token> = Vec::new();
    let mut i: usize = 0;
    proof {
        assert(script@.skip(0) =~= script@);
        assert(tokens.deep_view() =~= Seq::<TokenModel>::empty());
        assert(Seq::<TokenModel>::empty() + tokenize_script_spec(script@) =~= tokenize_script_spec(
            script@,
        ));
    }
    while i < n
        invariant
            n == script@.len(),
            0 <= i <= n,
            tokenize_script_spec(script@) == tokens.deep_view() + tokenize_script_spec(
                script@.skip(i as int),
            ),
        decreases n - i,
    {
        let mut j: usize = i;
        while j < n && script.get_char(j) != '\n'
            invariant
                n == script@.len(),
                i <= j <= n,
                forall|m: int| i <= m < j ==> #[trigger] script@[m] != '\n',
            decreases n - j,
        {
            j = j + 1;
        }
        proof {
            let rest = script@.skip(i as int);
            assert forall|m: int| 0 <= m < j - i implies #[trigger] rest[m] != '\n' by {
                assert(rest[m] == script@[i + m]);
            }
            if j < n {
                assert(rest[j - i] == script@[j as int]);
            }
            lemma_line_len_is(rest, j - i);
        }
        let line = script.substring_char(i, j);
        let mut line_tokens = tokenize_line(line);
        let ghost tokens_before = tokens;
        let ghost line_tokens_before = line_tokens;
        tokens.append(&mut line_tokens);
        proof {
            crate::views::lemma_deep_view_concat(tokens_before, line_tokens_before, tokens);
            let rest = script@.skip(i as int);
            assert(rest.take(j - i) =~= line@);
            if j < n {
                assert(rest.skip(j - i + 1) =~= script@.skip(j + 1));
            }
            assert((tokens_before.deep_view() + line_tokens_before.deep_view()) + (if j < n {
                tokenize_script_spec(script@.skip(j + 1))
            } else {
                Seq::<TokenModel>::empty()
            }) =~= tokens_before.deep_view() + (line_tokens_before.deep_view() + (if j < n {
                tokenize_script_spec(script@.skip(j + 1))
            } else {
                Seq::<TokenModel>::empty()
            })));
        }
        if j < n {
            i = j + 1;
        } else {
            i = n;
        }
    }
    proof {
        assert(script@.skip(n as int) =~= Seq::<char>::empty());
        assert(tokens.deep_view() + Seq::<TokenModel>::empty() =~= tokens.deep_view());
    }
    tokens
}

} // verus!
