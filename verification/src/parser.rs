use vstd::prelude::*;
use vstd::string::StrSliceExecFns;
use crate::errors::{MemoryLayerErrors, ParserError};
use crate::operation::{Op, OpBuilder, OpType};

verus! {

/// One whitespace-delimited word of a request line, classified.
#[derive(Debug, Clone, PartialEq, Eq, Hash)]
pub enum Token {
    SET,
    GET,
    DEL,
    AND,
    TO,
    LITERAL(String),
    EOF,
}

impl Token {
    /// A copy of this token equal to the original.
    pub fn dup(&self) -> (t: Token)
        ensures
            t == *self,
    {
        match self {
            Token::SET => Token::SET,
            Token::GET => Token::GET,
            Token::DEL => Token::DEL,
            Token::AND => Token::AND,
            Token::TO => Token::TO,
            Token::LITERAL(s) => Token::LITERAL(s.clone()),
            Token::EOF => Token::EOF,
        }
    }
}

/// The token that classifying the word `w` must produce: the five keywords
/// map to their tokens, every other word to a literal carrying it.
pub open spec fn token_matches(t: Token, w: Seq<char>) -> bool {
    if w == "SET"@ {
        t == Token::SET
    } else if w == "GET"@ {
        t == Token::GET
    } else if w == "DEL"@ {
        t == Token::DEL
    } else if w == "AND"@ {
        t == Token::AND
    } else if w == "TO"@ {
        t == Token::TO
    } else {
        t matches Token::LITERAL(s) && s@ == w
    }
}

/// The whitespace that separates words of a request line.
pub open spec fn is_ws(c: char) -> bool {
    c == ' ' || c == '\t' || c == '\n' || c == '\r'
}

/// The word splitter's scan: `start` remembers where the word in progress
/// began; whitespace closes it, the end of the line closes the last one.
pub open spec fn words_scan(s: Seq<char>, i: int, start: Option<int>, acc: Seq<Seq<char>>) -> Seq<
    Seq<char>,
>
    decreases s.len() - i,
{
    if i < 0 || i >= s.len() {
        match start {
            Some(st) => acc.push(s.subrange(st, s.len() as int)),
            None => acc,
        }
    } else if is_ws(s[i]) {
        match start {
            Some(st) => words_scan(s, i + 1, None, acc.push(s.subrange(st, i))),
            None => words_scan(s, i + 1, None, acc),
        }
    } else {
        match start {
            Some(_) => words_scan(s, i + 1, start, acc),
            None => words_scan(s, i + 1, Some(i), acc),
        }
    }
}

/// The whitespace-delimited words of a line, in order.
pub open spec fn spec_words(s: Seq<char>) -> Seq<Seq<char>> {
    words_scan(s, 0, None::<int>, Seq::<Seq<char>>::empty())
}

pub struct Lexer;

impl Lexer {
    pub fn new() -> (r: Self) {
        Lexer
    }

    /// True exactly when the two strings hold the same characters.
    fn word_is(word: &str, kw: &str) -> (r: bool)
        ensures
            r == (word@ == kw@),
    {
        let n = word.unicode_len();
        if n != kw.unicode_len() {
            return false;
        }
        let mut i: usize = 0;
        while i < n
            invariant
                n == word@.len(),
                n == kw@.len(),
                0 <= i <= n,
                forall|j: int| 0 <= j < i ==> word@[j] == kw@[j],
            decreases n - i,
        {
            if word.get_char(i) != kw.get_char(i) {
                return false;
            }
            i = i + 1;
        }
        proof {
            assert(word@ =~= kw@);
        }
        true
    }

    /// Classifies one word.
    pub fn eval_word(&self, word: &str) -> (t: Token)
        ensures
            token_matches(t, word@),
    {
        if Self::word_is(word, "SET") {
            Token::SET
        } else if Self::word_is(word, "GET") {
            Token::GET
        } else if Self::word_is(word, "DEL") {
            Token::DEL
        } else if Self::word_is(word, "AND") {
            Token::AND
        } else if Self::word_is(word, "TO") {
            Token::TO
        } else {
            Token::LITERAL(word.to_owned())
        }
    }

    /// Splits a line on whitespace and classifies each word.
    pub fn tokenize(&self, input: &str) -> (tokens: Vec<Token>)
        ensures
            tokens@.len() == spec_words(input@).len(),
            forall|i: int|
                0 <= i < tokens@.len() ==> token_matches(
                    #[trigger] tokens@[i],
                    spec_words(input@)[i],
                ),
    {
        let n = input.unicode_len();
        let mut tokens: Vec<Token> = Vec::new();
        let ghost mut acc: Seq<Seq<char>> = Seq::empty();
        let mut start: Option<usize> = None;
        let mut i: usize = 0;
        while i < n
            invariant
                n == input@.len(),
                0 <= i <= n,
                match start {
                    Some(st) => 0 <= st < i,
                    None => true,
                },
                tokens@.len() == acc.len(),
                forall|j: int|
                    0 <= j < acc.len() ==> token_matches(#[trigger] tokens@[j], acc[j]),
                spec_words(input@) == words_scan(
                    input@,
                    i as int,
                    match start {
                        Some(st) => Some(st as int),
                        None => None::<int>,
                    },
                    acc,
                ),
            decreases n - i,
        {
            let c = input.get_char(i);
            let ws = c == ' ' || c == '\t' || c == '\n' || c == '\r';
            if ws {
                match start {
                    Some(st) => {
                        let word = input.substring_char(st, i);
                        let t = self.eval_word(word);
                        tokens.push(t);
                        proof {
                            acc = acc.push(input@.subrange(st as int, i as int));
                        }
                        start = None;
                    },
                    None => {},
                }
            } else {
                match start {
                    Some(_) => {},
                    None => {
                        start = Some(i);
                    },
                }
            }
            i = i + 1;
        }
        match start {
            Some(st) => {
                let word = input.substring_char(st, n);
                let t = self.eval_word(word);
                tokens.push(t);
                proof {
                    acc = acc.push(input@.subrange(st as int, n as int));
                }
            },
            None => {},
        }
        tokens
    }
}

/// The states of the statement machine.
#[derive(Debug, Clone, PartialEq, Eq, Hash)]
pub enum ParserStates {
    Start,
    SetOp,
    Get,
    Del,
    To,
    Key,
    Value,
}

/// A builder with nothing filled in yet.
pub open spec fn empty_builder() -> OpBuilder {
    OpBuilder { timestamp: 0i64, op_type: None, key: None, value: None }
}

/// The state machine that consumes one token stream and emits operations.
/// `pending` holds an operation emitted by the last transition until
/// `get_operation` takes it.
pub struct StateMachine {
    pub state: ParserStates,
    pub op_builder: OpBuilder,
    pub pending: Option<Op>,
}

/// A machine at the start state with an empty builder.
pub open spec fn initial_machine() -> StateMachine {
    StateMachine { state: ParserStates::Start, op_builder: empty_builder(), pending: None }
}

/// One transition of the statement machine. `None` is a parse error; the
/// machine is left unchanged then. An emitting transition (leaving `Key` or
/// `Value` on `AND` or end of line) places what the builder yields into
/// `pending` and resets the builder. The end-of-line token at `Start` is
/// accepted and emits nothing, so an empty line parses to no operations.
pub open spec fn spec_step(s: StateMachine, token: Token) -> Option<StateMachine> {
    match s.state {
        ParserStates::Start => match token {
            Token::SET => Some(
                StateMachine {
                    state: ParserStates::SetOp,
                    op_builder: OpBuilder { op_type: Some(OpType::SET), ..s.op_builder },
                    pending: None,
                },
            ),
            Token::GET => Some(
                StateMachine {
                    state: ParserStates::Get,
                    op_builder: OpBuilder { op_type: Some(OpType::GET), ..s.op_builder },
                    pending: None,
                },
            ),
            Token::DEL => Some(
                StateMachine {
                    state: ParserStates::Del,
                    op_builder: OpBuilder { op_type: Some(OpType::DEL), ..s.op_builder },
                    pending: None,
                },
            ),
            Token::EOF => Some(StateMachine { pending: None, ..s }),
            _ => None,
        },
        ParserStates::SetOp | ParserStates::Get | ParserStates::Del => match token {
            Token::LITERAL(k) => Some(
                StateMachine {
                    state: ParserStates::Key,
                    op_builder: OpBuilder { key: Some(k), ..s.op_builder },
                    pending: None,
                },
            ),
            _ => None,
        },
        ParserStates::Key => match token {
            Token::TO => Some(StateMachine { state: ParserStates::To, pending: None, ..s }),
            Token::AND => Some(
                StateMachine {
                    state: ParserStates::Start,
                    op_builder: empty_builder(),
                    pending: s.op_builder.spec_build(),
                },
            ),
            Token::EOF => Some(
                StateMachine {
                    state: ParserStates::Start,
                    op_builder: empty_builder(),
                    pending: s.op_builder.spec_build(),
                },
            ),
            _ => None,
        },
        ParserStates::To => match token {
            Token::LITERAL(v) => Some(
                StateMachine {
                    state: ParserStates::Value,
                    op_builder: OpBuilder { value: Some(v), ..s.op_builder },
                    pending: None,
                },
            ),
            _ => None,
        },
        ParserStates::Value => match token {
            Token::AND => Some(
                StateMachine {
                    state: ParserStates::Start,
                    op_builder: empty_builder(),
                    pending: s.op_builder.spec_build(),
                },
            ),
            Token::EOF => Some(
                StateMachine {
                    state: ParserStates::Start,
                    op_builder: empty_builder(),
                    pending: s.op_builder.spec_build(),
                },
            ),
            _ => None,
        },
    }
}

impl StateMachine {
    pub fn new() -> (r: Self)
        ensures
            r == initial_machine(),
    {
        StateMachine {
            state: ParserStates::Start,
            op_builder: OpBuilder::new(),
            pending: None,
        }
    }

    /// Feeds one token to the machine.
    pub fn process(&mut self, token: Token) -> (r: Result<(), MemoryLayerErrors>)
        ensures
            match spec_step(*old(self), token) {
                Some(s2) => r == Ok::<(), MemoryLayerErrors>(()) && *final(self) == s2,
                None => (r matches Err(MemoryLayerErrors::GenericError(_))) && *final(self)
                    == *old(self),
            },
    {
        match &self.state {
            ParserStates::Start => match token {
                Token::SET => {
                    self.op_builder.set_op_type(OpType::SET);
                    self.state = ParserStates::SetOp;
                    self.pending = None;
                    Ok(())
                },
                Token::GET => {
                    self.op_builder.set_op_type(OpType::GET);
                    self.state = ParserStates::Get;
                    self.pending = None;
                    Ok(())
                },
                Token::DEL => {
                    self.op_builder.set_op_type(OpType::DEL);
                    self.state = ParserStates::Del;
                    self.pending = None;
                    Ok(())
                },
                Token::EOF => {
                    self.pending = None;
                    Ok(())
                },
                _ => Err(MemoryLayerErrors::GenericError("Invalid operation".to_owned())),
            },
            ParserStates::SetOp | ParserStates::Get | ParserStates::Del => match token {
                Token::LITERAL(key) => {
                    self.op_builder.set_key(key);
                    self.state = ParserStates::Key;
                    self.pending = None;
                    Ok(())
                },
                _ => Err(MemoryLayerErrors::GenericError("Invalid key".to_owned())),
            },
            ParserStates::Key => match token {
                Token::TO => {
                    self.state = ParserStates::To;
                    self.pending = None;
                    Ok(())
                },
                Token::AND => {
                    self.pending = self.op_builder.build();
                    self.op_builder = OpBuilder::new();
                    self.state = ParserStates::Start;
                    Ok(())
                },
                Token::EOF => {
                    self.pending = self.op_builder.build();
                    self.op_builder = OpBuilder::new();
                    self.state = ParserStates::Start;
                    Ok(())
                },
                _ => Err(MemoryLayerErrors::GenericError("Invalid operation".to_owned())),
            },
            ParserStates::To => match token {
                Token::LITERAL(value) => {
                    self.op_builder.set_value(value);
                    self.state = ParserStates::Value;
                    self.pending = None;
                    Ok(())
                },
                _ => Err(MemoryLayerErrors::GenericError("Invalid value".to_owned())),
            },
            ParserStates::Value => match token {
                Token::AND => {
                    self.pending = self.op_builder.build();
                    self.op_builder = OpBuilder::new();
                    self.state = ParserStates::Start;
                    Ok(())
                },
                Token::EOF => {
                    self.pending = self.op_builder.build();
                    self.op_builder = OpBuilder::new();
                    self.state = ParserStates::Start;
                    Ok(())
                },
                _ => Err(MemoryLayerErrors::GenericError("Invalid operation".to_owned())),
            },
        }
    }

    /// Takes the operation emitted by the last transition, if any.
    pub fn get_operation(&mut self) -> (r: Option<Op>)
        ensures
            r == old(self).pending,
            *final(self) == (StateMachine { pending: None, ..*old(self) }),
    {
        let p = self.pending.take();
        p
    }
}

/// Runs the machine over the tokens from position `i` on, collecting every
/// emitted operation; `None` on the first refused token.
pub open spec fn run_tokens(tokens: Seq<Token>, i: int, s: StateMachine, acc: Seq<Op>) -> Option<
    Seq<Op>,
>
    decreases tokens.len() - i,
{
    if i < 0 || i >= tokens.len() {
        Some(acc)
    } else {
        match spec_step(s, tokens[i]) {
            None => None,
            Some(s2) => {
                let acc2 = match s2.pending {
                    Some(op) => acc.push(op),
                    None => acc,
                };
                run_tokens(tokens, i + 1, StateMachine { pending: None, ..s2 }, acc2)
            },
        }
    }
}

/// Parses request lines: lexes a line into tokens and runs the statement
/// machine over them, with an end-of-line token appended.
pub struct Parser {
    pub token_stream: Vec<Token>,
}

impl Parser {
    pub fn new() -> (r: Self)
        ensures
            r.token_stream@.len() == 0,
    {
        Parser { token_stream: Vec::new() }
    }

    /// Parses one request line into its operations. A refused token gives a
    /// command error; a line with no operations at all is itself an error.
    pub fn parse(&mut self, input: &str) -> (r: Result<Vec<Op>, ParserError>)
        ensures
            final(self).token_stream@.len() == spec_words(input@).len(),
            forall|i: int|
                0 <= i < final(self).token_stream@.len() ==> token_matches(
                    #[trigger] final(self).token_stream@[i],
                    spec_words(input@)[i],
                ),
            match run_tokens(
                final(self).token_stream@ + seq![Token::EOF],
                0,
                initial_machine(),
                Seq::<Op>::empty(),
            ) {
                None => r matches Err(e) && (e matches ParserError::CommandParseError(_)),
                Some(ops) => if ops.len() == 0 {
                    r == Err::<Vec<Op>, ParserError>(ParserError::NoOperations)
                } else {
                    r matches Ok(v) && v@ == ops
                },
            },
    {
        let lexer = Lexer::new();
        self.token_stream = lexer.tokenize(input);
        let ghost toks = self.token_stream@ + seq![Token::EOF];
        let mut operations: Vec<Op> = Vec::new();
        let mut state_machine = StateMachine::new();
        let mut idx: usize = 0;
        proof {
            assert(toks.len() == self.token_stream@.len() + 1);
        }
        while idx < self.token_stream.len()
            invariant
                toks == self.token_stream@ + seq![Token::EOF],
                self.token_stream@.len() == spec_words(input@).len(),
                forall|i: int|
                    0 <= i < self.token_stream@.len() ==> token_matches(
                        #[trigger] self.token_stream@[i],
                        spec_words(input@)[i],
                    ),
                0 <= idx <= self.token_stream@.len(),
                state_machine.pending is None,
                run_tokens(toks, 0, initial_machine(), Seq::<Op>::empty()) == run_tokens(
                    toks,
                    idx as int,
                    state_machine,
                    operations@,
                ),
            decreases self.token_stream@.len() - idx,
        {
            let token = self.token_stream[idx].dup();
            proof {
                assert(toks[idx as int] == self.token_stream@[idx as int]);
            }
            match state_machine.process(token) {
                Ok(_) => {},
                Err(_) => {
                    return Err(ParserError::CommandParseError("Invalid request".to_owned()));
                },
            }
            if let Some(op) = state_machine.get_operation() {
                operations.push(op);
            }
            idx = idx + 1;
        }
        proof {
            assert(toks[idx as int] == Token::EOF);
        }
        match state_machine.process(Token::EOF) {
            Ok(_) => {},
            Err(_) => {
                return Err(ParserError::CommandParseError("Invalid request".to_owned()));
            },
        }
        if let Some(op) = state_machine.get_operation() {
            operations.push(op);
        }
        proof {
            assert(run_tokens(toks, idx + 1, state_machine, operations@) == Some(operations@));
        }
        if operations.len() == 0 {
            return Err(ParserError::NoOperations);
        }
        Ok(operations)
    }
}

} // verus!
