//! The message-handler capability interface.
//!
//! A handler is a polymorphic consumer of decoded messages and string-table
//! updates, driven uniformly by the outer decode loop; at end of stream it
//! is consumed by value into its output.  Each implementation supplies the
//! spec functions below, so that every call through the interface carries
//! that implementation's own exact contract.

use vstd::prelude::*;

verus! {

use crate::message::Message;
use crate::message::MessageType;
use crate::message::StringTableEntry;
use crate::state::ParserState;

/// A consumer of decoded messages and string-table entries.
pub trait MessageHandler: Sized {
    /// What the handler is consumed into at end of stream.
    type Output;

    /// Which message types this handler consumes.
    spec fn handles_spec(message_type: MessageType) -> bool;

    /// What a string-table entry must look like for this handler to accept
    /// it.
    spec fn entry_pre(&self, table: &String, index: usize, entry: &StringTableEntry) -> bool;

    /// How one delivered message transforms the handler.
    spec fn message_post(pre: Self, post: Self, message: Message, tick: u32) -> bool;

    /// How one delivered string-table entry transforms the handler.
    spec fn entry_post(
        pre: Self,
        post: Self,
        table: &String,
        index: usize,
        entry: &StringTableEntry,
    ) -> bool;

    /// What the produced output is, given the final parser state.
    spec fn output_spec(self, state: ParserState, output: Self::Output) -> bool;

    /// Whether this handler consumes messages of the given type.
    fn does_handle(message_type: MessageType) -> (r: bool)
        ensures
            r == Self::handles_spec(message_type),
    ;

    /// Observe one fully decoded message.
    fn handle_message(&mut self, message: Message, tick: u32)
        ensures
            Self::message_post(*old(self), *final(self), message, tick),
    ;

    /// Observe one string-table entry update.
    fn handle_string_entry(&mut self, table: &String, index: usize, entry: &StringTableEntry)
        requires
            old(self).entry_pre(table, index, entry),
        ensures
            Self::entry_post(*old(self), *final(self), table, index, entry),
    ;

    /// Consume the handler into its immutable output; called exactly once,
    /// at end of stream.
    fn get_output(self, state: ParserState) -> (r: Self::Output)
        ensures
            self.output_spec(state, r),
    ;
}

} // verus!
