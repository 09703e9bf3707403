//! The console side: each line read becomes a command sent to the thread
//! that drives the display.

use vstd::prelude::*;
use std::sync::mpsc::Sender;
use crate::message::{event_of, is_whitespace, law_no_words_iff_all_whitespace, words, EventModel, IoEvent};

verus! {

#[verifier::external_type_specification]
#[verifier::external_body]
#[verifier::reject_recursive_types(T)]
pub struct ExSender<T>(Sender<T>);

/// Calls `std::sync::mpsc::Sender::send` on the handler's channel. Trusted:
/// `Ok` means the channel took the value, and it is recorded as handed over;
/// on `Err` (the receiving end is gone) the `SendError` holds the value that
/// was to be sent, which is handed back, and nothing is recorded. Which of
/// the two happens depends on the other thread and is not stated.
#[verifier::external_body]
fn send_event(h: &mut IoHandler, ev: IoEvent) -> (r: Result<(), IoEvent>)
    ensures
        final(h).sender() == old(h).sender(),
        r is Ok ==> final(h).sent() == old(h).sent().push(ev@),
        r matches Err(e) ==> e == ev && final(h).sent() == old(h).sent(),
{
    match h.tx.send(ev) {
        Ok(()) => Ok(()),
        Err(e) => Err(e.0),
    }
}

/// Whether a line holds nothing but whitespace (trimming it leaves it empty).
pub open spec fn is_blank(line: Seq<char>) -> bool {
    forall|i: int| 0 <= i < line.len() ==> is_whitespace(#[trigger] line[i])
}

/// A line is blank, and skipped, exactly when every character of it is
/// whitespace, which is exactly when it holds no word: a line with any other
/// character in it is handed over as the command it stands for.
pub proof fn law_blank_iff_no_words(line: Seq<char>)
    ensures
        is_blank(line) <==> (forall|i: int| 0 <= i < line.len() ==> is_whitespace(#[trigger] line[i])),
        is_blank(line) <==> words(line).len() == 0,
{
    law_no_words_iff_all_whitespace(line);
}

/// Reads commands from the console and sends them on a channel.
pub struct IoHandler {
    tx: Sender<IoEvent>,
    sent: Ghost<Seq<EventModel>>,
}

impl IoHandler {
    /// The channel end that commands are sent on.
    pub closed spec fn sender(&self) -> Sender<IoEvent> {
        self.tx
    }

    /// The commands handed over to the channel so far, in order.
    pub closed spec fn sent(&self) -> Seq<EventModel> {
        self.sent@
    }

    pub fn new(tx: Sender<IoEvent>) -> (h: IoHandler)
        ensures
            h.sender() == tx,
            h.sent() == Seq::<EventModel>::empty(),
    {
        IoHandler { tx, sent: Ghost(Seq::empty()) }
    }

    /// The command to send for a console line: none for a blank line, else
    /// the command the line stands for.
    pub fn event_for_line(line: &String) -> (r: Option<IoEvent>)
        ensures
            r is None <==> is_blank(line@),
            r matches Some(ev) ==> ev@ == event_of(line@),
    {
        let chars = crate::chars::chars_of(line.as_str());
        let mut i: usize = 0;
        while i < chars.len()
            invariant
                chars@ == line@,
                0 <= i <= chars@.len(),
                forall|j: int| 0 <= j < i ==> is_whitespace(#[trigger] chars@[j]),
            decreases chars@.len() - i,
        {
            if !crate::message::is_whitespace_char(chars[i]) {
                return Some(IoEvent::new(line));
            }
            i += 1;
        }
        None
    }

    /// Handles one console line: a blank line is skipped (`Ok(false)`);
    /// otherwise the command it stands for is handed to the channel
    /// (`Ok(true)`), or, when the channel does not take it, handed back
    /// (`Err`).
    pub fn handle_line(&mut self, line: &String) -> (r: Result<bool, IoEvent>)
        ensures
            final(self).sender() == old(self).sender(),
            r == Ok::<bool, IoEvent>(false) <==> is_blank(line@),
            r == Ok::<bool, IoEvent>(false) ==> final(self).sent() == old(self).sent(),
            r == Ok::<bool, IoEvent>(true) ==> final(self).sent() == old(self).sent().push(
                event_of(line@),
            ),
            r matches Err(ev) ==> ev@ == event_of(line@) && final(self).sent() == old(self).sent(),
    {
        match Self::event_for_line(line) {
            None => Ok(false),
            Some(ev) => {
                match send_event(self, ev) {
                    Ok(()) => Ok(true),
                    Err(back) => Err(back),
                }
            },
        }
    }
}

} // verus!
