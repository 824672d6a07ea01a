//! Collects the messages of the stages of the compiler.
use crate::frontend_v0::errors::ast_errors::AstBuilderError;
use crate::frontend_v0::errors::goto_table_errors::GotoTableError;
use crate::frontend_v0::errors::lexer_errors::LexerError;
use crate::frontend_v0::errors::parser_errors::ParserError;
use crate::frontend_v0::lexer::common::lexer::Position;
use vstd::prelude::*;

verus! {

/// `std::io::Error`, carried through as it is.
#[verifier::external_type_specification]
#[verifier::external_body]
pub struct ExIoError(std::io::Error);

/// The stage of the compiler that a message comes from.
#[derive(Clone, Copy, PartialEq, Eq, Structural, Debug)]
pub enum CompilationStage {
    PrimaryFileReading,
}

/// A message of the compiler.
pub enum CompilationMessage {
    IOError(std::io::Error),
    LexingError(LexerError, Position),
    ParsingError(ParserError, Position),
    GotoTableError(GotoTableError),
    AstBuildingError(AstBuilderError, Position),
}

/// The messages so far, each with the stage it came in, and the current
/// stage.
pub struct MessageController {
    current_stage: CompilationStage,
    message_list: Vec<(CompilationStage, CompilationMessage)>,
}

impl MessageController {
    pub closed spec fn spec_stage(&self) -> CompilationStage {
        self.current_stage
    }

    pub closed spec fn spec_messages(&self) -> Seq<(CompilationStage, CompilationMessage)> {
        self.message_list@
    }

    pub fn new() -> (r: MessageController)
        ensures
            r.spec_stage() == CompilationStage::PrimaryFileReading,
            r.spec_messages() == Seq::<(CompilationStage, CompilationMessage)>::empty(),
    {
        MessageController { current_stage: CompilationStage::PrimaryFileReading, message_list: Vec::new() }
    }

    pub fn set_stage(&mut self, stage: CompilationStage)
        ensures
            final(self).spec_stage() == stage,
            final(self).spec_messages() == old(self).spec_messages(),
    {
        self.current_stage = stage;
    }

    /// The messages, in the order they came.
    pub fn messages(&self) -> (r: &Vec<(CompilationStage, CompilationMessage)>)
        ensures
            r@ == self.spec_messages(),
    {
        &self.message_list
    }

    fn accept(&mut self, message: CompilationMessage)
        ensures
            final(self).spec_stage() == old(self).spec_stage(),
            final(self).spec_messages() == old(self).spec_messages().push((old(self).spec_stage(), message)),
    {
        let stage = self.current_stage;
        self.message_list.push((stage, message));
    }

    pub fn accept_io_error(&mut self, error: std::io::Error)
        ensures
            final(self).spec_stage() == old(self).spec_stage(),
            final(self).spec_messages() == old(self).spec_messages().push(
                (old(self).spec_stage(), CompilationMessage::IOError(error)),
            ),
    {
        self.accept(CompilationMessage::IOError(error));
    }

    pub fn accept_lexer_error(&mut self, error: LexerError, position: Position)
        ensures
            final(self).spec_stage() == old(self).spec_stage(),
            final(self).spec_messages() == old(self).spec_messages().push(
                (old(self).spec_stage(), CompilationMessage::LexingError(error, position)),
            ),
    {
        self.accept(CompilationMessage::LexingError(error, position));
    }

    pub fn accept_goto_table_error(&mut self, error: GotoTableError)
        ensures
            final(self).spec_stage() == old(self).spec_stage(),
            final(self).spec_messages() == old(self).spec_messages().push(
                (old(self).spec_stage(), CompilationMessage::GotoTableError(error)),
            ),
    {
        self.accept(CompilationMessage::GotoTableError(error));
    }

    pub fn accept_parser_error(&mut self, error: ParserError, position: Position)
        ensures
            final(self).spec_stage() == old(self).spec_stage(),
            final(self).spec_messages() == old(self).spec_messages().push(
                (old(self).spec_stage(), CompilationMessage::ParsingError(error, position)),
            ),
    {
        self.accept(CompilationMessage::ParsingError(error, position));
    }

    pub fn accept_ast_error(&mut self, error: AstBuilderError, position: Position)
        ensures
            final(self).spec_stage() == old(self).spec_stage(),
            final(self).spec_messages() == old(self).spec_messages().push(
                (old(self).spec_stage(), CompilationMessage::AstBuildingError(error, position)),
            ),
    {
        self.accept(CompilationMessage::AstBuildingError(error, position));
    }
}

} // verus!
