//! Parser for the robot-control script language.
//!
//! The parser reads the token sequence left to right, building the command
//! tree with a stack of open blocks: `loop {` opens a block, `}` closes the
//! innermost open block, and every other command is appended to the innermost
//! open block.  A stray brace where no block is open is skipped silently, and
//! blocks still open at the end of input are closed there.  Parsing fails as
//! a whole on the first offending token: a missing argument, a keyword that
//! heads no command, or a token where a statement should start.

use vstd::prelude::*;
use vstd::string::*;

use crate::ast::{cmd_view, Command, CommandModel, Section};
use crate::text::str_eq;
use crate::tokenizer::{tokenize_script_spec, Token, TokenModel};
use crate::views::lemma_deep_view_push;

verus! {

/// Why a parse failed.
#[derive(Debug)]
pub enum ParseError {
    /// Input ended where a construct expected another token.
    UnexpectedEOF,
    /// The given token stood where another kind of token was expected.
    UnexpectedToken(Token),
    /// A keyword that does not head any command stood at a statement start.
    InvalidCommand,
}

/// Mathematical image of a [`ParseError`].
#[verifier::ext_equal]
pub ghost enum ParseErrorModel {
    UnexpectedEOF,
    UnexpectedToken(TokenModel),
    InvalidCommand,
}

impl DeepView for ParseError {
    type V = ParseErrorModel;

    open spec fn deep_view(&self) -> ParseErrorModel {
        match self {
            ParseError::UnexpectedEOF => ParseErrorModel::UnexpectedEOF,
            ParseError::UnexpectedToken(t) => ParseErrorModel::UnexpectedToken(t.deep_view()),
            ParseError::InvalidCommand => ParseErrorModel::InvalidCommand,
        }
    }
}

/// The section a word names, if any.
pub open spec fn section_of_name(w: Seq<char>) -> Option<Section> {
    if w == "body"@ {
        Some(Section::Body)
    } else if w == "turret"@ {
        Some(Section::Turret)
    } else if w == "scanner"@ {
        Some(Section::Scanner)
    } else {
        None
    }
}

/// The section a token names: a keyword or identifier reading `body`,
/// `turret` or `scanner`.
pub open spec fn section_of_token(t: TokenModel) -> Option<Section> {
    match t {
        TokenModel::Keyword(w) => section_of_name(w),
        TokenModel::Identifier(w) => section_of_name(w),
        _ => None,
    }
}

/// Appends a command to the innermost open block.
pub open spec fn push_cmd(stack: Seq<Seq<CommandModel>>, c: CommandModel) -> Seq<
    Seq<CommandModel>,
>
    recommends
        stack.len() >= 1,
{
    stack.update(stack.len() - 1, stack.last().push(c))
}

/// Closes the innermost open block: it becomes a `Loop` command of the block
/// around it.
pub open spec fn close_block(stack: Seq<Seq<CommandModel>>) -> Seq<Seq<CommandModel>>
    recommends
        stack.len() >= 2,
{
    push_cmd(stack.drop_last(), CommandModel::Loop { block: stack.last() })
}

/// Closes every block still open, innermost first, and yields the program.
pub open spec fn collapse(stack: Seq<Seq<CommandModel>>) -> Seq<CommandModel>
    decreases stack.len(),
{
    if stack.len() == 0 {
        Seq::empty()
    } else if stack.len() == 1 {
        stack[0]
    } else {
        collapse(close_block(stack))
    }
}

/// One step of parsing per token, from position `i` with the given stack of
/// open blocks.  This is the parser's whole meaning: [`parse_spec`] runs it
/// from the start with one open block.
pub open spec fn parse_from(
    tokens: Seq<TokenModel>,
    i: nat,
    stack: Seq<Seq<CommandModel>>,
) -> Result<Seq<CommandModel>, ParseErrorModel>
    recommends
        stack.len() >= 1,
    decreases tokens.len() - i,
{
    if i >= tokens.len() {
        Ok(collapse(stack))
    } else {
        match tokens[i as int] {
            TokenModel::Keyword(k) => {
                if k == "move"@ {
                    if i + 1 >= tokens.len() {
                        Err(ParseErrorModel::UnexpectedEOF)
                    } else {
                        match tokens[i as int + 1] {
                            TokenModel::Identifier(d) => {
                                if i + 2 >= tokens.len() {
                                    Err(ParseErrorModel::UnexpectedEOF)
                                } else {
                                    match tokens[i as int + 2] {
                                        TokenModel::Number(v) => parse_from(
                                            tokens,
                                            i + 3,
                                            push_cmd(
                                                stack,
                                                CommandModel::Move { direction: d, distance: v },
                                            ),
                                        ),
                                        t => Err(ParseErrorModel::UnexpectedToken(t)),
                                    }
                                }
                            },
                            t => Err(ParseErrorModel::UnexpectedToken(t)),
                        }
                    }
                } else if k == "rotate"@ {
                    if i + 1 >= tokens.len() {
                        Err(ParseErrorModel::UnexpectedEOF)
                    } else {
                        match section_of_token(tokens[i as int + 1]) {
                            Some(section) => {
                                if i + 2 >= tokens.len() {
                                    Err(ParseErrorModel::UnexpectedEOF)
                                } else {
                                    match tokens[i as int + 2] {
                                        TokenModel::Number(v) => parse_from(
                                            tokens,
                                            i + 3,
                                            push_cmd(
                                                stack,
                                                CommandModel::Rotate { section: section, angle: v },
                                            ),
                                        ),
                                        t => Err(ParseErrorModel::UnexpectedToken(t)),
                                    }
                                }
                            },
                            None => Err(ParseErrorModel::UnexpectedToken(tokens[i as int + 1])),
                        }
                    }
                } else if k == "scan"@ {
                    parse_from(tokens, i + 1, push_cmd(stack, CommandModel::Scan))
                } else if k == "fire"@ {
                    parse_from(tokens, i + 1, push_cmd(stack, CommandModel::Fire))
                } else if k == "loop"@ {
                    if i + 1 >= tokens.len() {
                        Err(ParseErrorModel::UnexpectedEOF)
                    } else {
                        match tokens[i as int + 1] {
                            TokenModel::Symbol(c) => {
                                if c == '{' {
                                    parse_from(tokens, i + 2, stack.push(Seq::empty()))
                                } else {
                                    Err(ParseErrorModel::UnexpectedToken(tokens[i as int + 1]))
                                }
                            },
                            t => Err(ParseErrorModel::UnexpectedToken(t)),
                        }
                    }
                } else {
                    Err(ParseErrorModel::InvalidCommand)
                }
            },
            TokenModel::Symbol(c) => {
                if c == '{' {
                    parse_from(tokens, i + 1, stack)
                } else if c == '}' {
                    if stack.len() > 1 {
                        parse_from(tokens, i + 1, close_block(stack))
                    } else {
                        parse_from(tokens, i + 1, stack)
                    }
                } else {
                    Err(ParseErrorModel::UnexpectedToken(tokens[i as int]))
                }
            },
            t => Err(ParseErrorModel::UnexpectedToken(t)),
        }
    }
}

/// The meaning of parsing a token sequence.
pub open spec fn parse_spec(tokens: Seq<TokenModel>) -> Result<
    Seq<CommandModel>,
    ParseErrorModel,
> {
    parse_from(tokens, 0, seq![Seq::empty()])
}

/// Mathematical image of a parse outcome.
pub open spec fn parse_result_view(r: Result<Vec<Command>, ParseError>) -> Result<
    Seq<CommandModel>,
    ParseErrorModel,
> {
    match r {
        Ok(cmds) => Ok(cmds.deep_view()),
        Err(e) => Err(e.deep_view()),
    }
}

/// A copy of a token, with the same mathematical image.
fn clone_token(t: &Token) -> (r: Token)
    ensures
        r.deep_view() == t.deep_view(),
{
    match t {
        Token::Keyword(s) => Token::Keyword(s.clone()),
        Token::Identifier(s) => Token::Identifier(s.clone()),
        Token::Number(n) => Token::Number(*n),
        Token::Symbol(c) => Token::Symbol(*c),
    }
}

/// The section a word names, if any.
fn section_of_word(w: &str) -> (r: Option<Section>)
    ensures
        r == section_of_name(w@),
{
    if str_eq(w, "body") {
        Some(Section::Body)
    } else if str_eq(w, "turret") {
        Some(Section::Turret)
    } else if str_eq(w, "scanner") {
        Some(Section::Scanner)
    } else {
        None
    }
}

/// Appends a command to the innermost open block of the stack.
fn push_onto_top(stack: &mut Vec<Vec<Command>>, c: Command)
    requires
        old(stack).len() >= 1,
    ensures
        final(stack).deep_view() == push_cmd(old(stack).deep_view(), c.deep_view()),
        final(stack).len() == old(stack).len(),
{
    let ghost sv = stack.deep_view();
    let mut top = stack.pop().unwrap();
    let ghost top_before = top;
    let ghost cmd = c;
    top.push(c);
    proof {
        lemma_deep_view_push(top_before, top, cmd);
    }
    stack.push(top);
    proof {
        assert(stack.deep_view() =~~= push_cmd(sv, cmd.deep_view()));
    }
}

/// Closes the innermost open block of the stack.
fn close_top_block(stack: &mut Vec<Vec<Command>>)
    requires
        old(stack).len() >= 2,
    ensures
        final(stack).deep_view() == close_block(old(stack).deep_view()),
        final(stack).len() == old(stack).len() - 1,
{
    let ghost sv = stack.deep_view();
    let b = stack.pop().unwrap();
    proof {
        crate::ast::lemma_cmds_view_eq(b@);
        assert(cmd_view(Command::Loop { block: b }) matches CommandModel::Loop { block: bm }
            && bm =~= sv.last());
    }
    push_onto_top(stack, Command::Loop { block: b });
    proof {
        assert(stack.deep_view() =~~= close_block(sv));
    }
}

/// Parses a token sequence into a command sequence.
///
/// The outcome is exactly [`parse_spec`] of the tokens: the commands in
/// source order with nested blocks for `loop` constructs, or the error the
/// first offending token gives.
pub fn parse_tokens(tokens: &Vec<Token>) -> (r: Result<Vec<Command>, ParseError>)
    ensures
        parse_result_view(r) == parse_spec(tokens.deep_view()),
{
    let ghost toks = tokens.deep_view();
    let n = tokens.len();
    let mut stack: Vec<Vec<Command>> = Vec::new();
    stack.push(Vec::new());
    let mut i: usize = 0;
    proof {
        assert(stack.deep_view() =~~= seq![Seq::<CommandModel>::empty()]);
    }
    while i < n
        invariant
            toks == tokens.deep_view(),
            n == tokens.len(),
            toks.len() == n,
            0 <= i <= n,
            stack.len() >= 1,
            parse_from(toks, i as nat, stack.deep_view()) == parse_spec(toks),
        decreases n - i,
    {
        let ghost sv = stack.deep_view();
        match &tokens[i] {
            Token::Keyword(k) => {
                if str_eq(k.as_str(), "move") {
                    if i + 1 >= n {
                        return Err(ParseError::UnexpectedEOF);
                    }
                    let direction = match &tokens[i + 1] {
                        Token::Identifier(d) => d.clone(),
                        t => {
                            return Err(ParseError::UnexpectedToken(clone_token(t)));
                        },
                    };
                    if i + 2 >= n {
                        return Err(ParseError::UnexpectedEOF);
                    }
                    let distance = match &tokens[i + 2] {
                        Token::Number(v) => *v,
                        t => {
                            return Err(ParseError::UnexpectedToken(clone_token(t)));
                        },
                    };
                    push_onto_top(&mut stack, Command::Move { direction, distance });
                    i = i + 3;
                } else if str_eq(k.as_str(), "rotate") {
                    if i + 1 >= n {
                        return Err(ParseError::UnexpectedEOF);
                    }
                    let section_found = match &tokens[i + 1] {
                        Token::Keyword(w) => section_of_word(w.as_str()),
                        Token::Identifier(w) => section_of_word(w.as_str()),
                        _ => None,
                    };
                    let section = match section_found {
                        Some(s) => s,
                        None => {
                            return Err(ParseError::UnexpectedToken(clone_token(&tokens[i + 1])));
                        },
                    };
                    if i + 2 >= n {
                        return Err(ParseError::UnexpectedEOF);
                    }
                    let angle = match &tokens[i + 2] {
                        Token::Number(v) => *v,
                        t => {
                            return Err(ParseError::UnexpectedToken(clone_token(t)));
                        },
                    };
                    push_onto_top(&mut stack, Command::Rotate { section, angle });
                    i = i + 3;
                } else if str_eq(k.as_str(), "scan") {
                    push_onto_top(&mut stack, Command::Scan);
                    i = i + 1;
                } else if str_eq(k.as_str(), "fire") {
                    push_onto_top(&mut stack, Command::Fire);
                    i = i + 1;
                } else if str_eq(k.as_str(), "loop") {
                    if i + 1 >= n {
                        return Err(ParseError::UnexpectedEOF);
                    }
                    match &tokens[i + 1] {
                        Token::Symbol(c) => {
                            if *c != '{' {
                                return Err(ParseError::UnexpectedToken(clone_token(
                                    &tokens[i + 1],
                                )));
                            }
                        },
                        t => {
                            return Err(ParseError::UnexpectedToken(clone_token(t)));
                        },
                    }
                    stack.push(Vec::new());
                    proof {
                        assert(stack.deep_view() =~~= sv.push(Seq::<CommandModel>::empty()));
                    }
                    i = i + 2;
                } else {
                    return Err(ParseError::InvalidCommand);
                }
            },
            Token::Symbol(c) => {
                if *c == '{' {
                    i = i + 1;
                } else if *c == '}' {
                    if stack.len() > 1 {
                        close_top_block(&mut stack);
                    }
                    i = i + 1;
                } else {
                    return Err(ParseError::UnexpectedToken(clone_token(&tokens[i])));
                }
            },
            t => {
                return Err(ParseError::UnexpectedToken(clone_token(t)));
            },
        }
    }
    while stack.len() > 1
        invariant
            stack.len() >= 1,
            Ok::<Seq<CommandModel>, ParseErrorModel>(collapse(stack.deep_view())) == parse_spec(
                toks,
            ),
        decreases stack.len(),
    {
        close_top_block(&mut stack);
    }
    let program = match stack.pop() {
        Some(p) => p,
        None => {
            proof {
                assert(false);
            }
            Vec::new()
        },
    };
    proof {
        assert(collapse(seq![program.deep_view()]) == program.deep_view());
    }
    Ok(program)
}

/// Compiling is deterministic: one and the same script text always
/// tokenizes and parses to one and the same outcome, so parsing the
/// tokens of a script twice gives equal results.
pub proof fn lemma_parse_deterministic(s1: Seq<char>, s2: Seq<char>)
    requires
        s1 == s2,
    ensures
        parse_spec(tokenize_script_spec(s1)) == parse_spec(tokenize_script_spec(s2)),
{
}

} // verus!
