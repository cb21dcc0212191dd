use vstd::prelude::*;
use crate::errors::ParserError;
use crate::operation::Op;
use crate::parser::{Parser, run_tokens, initial_machine, spec_words, token_matches, Token};

verus! {

/// Bundles the parser with a queue of operations awaiting dispatch.
pub struct IOHandler {
    pub parser: Parser,
    pub operation_queue: Vec<Op>,
}

impl IOHandler {
    pub fn new() -> (r: Self)
        ensures
            r.parser.token_stream@.len() == 0,
            r.operation_queue@.len() == 0,
    {
        let parser = Parser::new();
        let operation_queue = Vec::new();
        IOHandler { parser, operation_queue }
    }

    /// Parses one request line read from the input.
    pub fn parse_input(&mut self, input: &str) -> (r: Result<Vec<Op>, ParserError>)
        ensures
            final(self).parser.token_stream@.len() == spec_words(input@).len(),
            forall|i: int|
                0 <= i < final(self).parser.token_stream@.len() ==> token_matches(
                    #[trigger] final(self).parser.token_stream@[i],
                    spec_words(input@)[i],
                ),
            match run_tokens(
                final(self).parser.token_stream@ + seq![Token::EOF],
                0,
                initial_machine(),
                Seq::<Op>::empty(),
            ) {
                None => r matches Err(e) && (e matches ParserError::CommandParseError(_)),
                Some(ops) => if ops.len() == 0 {
                    r == Err::<Vec<Op>, ParserError>(ParserError::NoOperations)
                } else {
                    r matches Ok(v) && v@ == ops
                },
            },
    {
        self.parser.parse(input)
    }
}

} // verus!
