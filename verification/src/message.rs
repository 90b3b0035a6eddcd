//! Ingestion of a message dump: the events of a reader are folded into the
//! message in flight, and each finished message is appended to the model.

use crate::append::{append_entries, appended};
use crate::date::{parse_datestamp, spec_parse_datestamp, AppendError};
use crate::model::{ChainView, Datestamp, MarkovChain};
use crate::tokenize::texts;
use vstd::prelude::*;
use vstd::string::StringExecFns;

verus! {

/// One event of a reader of message dumps.
#[derive(Debug, PartialEq)]
pub enum MessageEvent {
    /// A message begins, at the given depth of nesting; depth 0 is a message
    /// of the conversation itself.
    Start(u32),
    /// The author's full name.
    FullNameExtracted(String),
    /// The author's short name.
    ShortNameExtracted(String),
    /// The timestamp, as text.
    DateExtracted(String),
    /// A piece of the body.
    BodyPartExtracted(String),
    /// Anything else.
    Other,
}

/// The message in flight: what the events since the last boundary gave.
#[derive(Debug)]
pub struct ExtractedMessage {
    pub names: Vec<String>,
    pub datestamp: Datestamp,
    pub body: String,
}

/// What a message in flight holds.
pub struct MessageView {
    pub names: Seq<Seq<char>>,
    pub datestamp: Datestamp,
    pub body: Seq<char>,
}

impl MessageView {
    /// The message before any event: no names, no body, the zero datestamp.
    pub open spec fn empty() -> MessageView {
        MessageView {
            names: Seq::empty(),
            datestamp: Datestamp { year: 0, day: 0 },
            body: Seq::empty(),
        }
    }
}

impl View for ExtractedMessage {
    type V = MessageView;

    open spec fn view(&self) -> MessageView {
        MessageView { names: texts(self.names@), datestamp: self.datestamp, body: self.body@ }
    }
}

impl Default for ExtractedMessage {
    fn default() -> (message: ExtractedMessage)
        ensures
            message@ == MessageView::empty(),
    {
        let message = ExtractedMessage {
            names: Vec::new(),
            datestamp: Datestamp { year: 0, day: 0 },
            body: String::new(),
        };
        assert(message@.names =~= Seq::empty());
        message
    }
}

/// The model after a message was flushed into it: a message with a body is
/// ingested under its names and date, with punctuation marking the terminal
/// records; a message without a body leaves the model as it is.
pub open spec fn flushed(chain: ChainView, message: MessageView) -> ChainView {
    if message.body.len() > 0 {
        appended(chain, message.body, message.names, message.datestamp, true)
    } else {
        chain
    }
}

/// The model and the message in flight.
pub struct DumpState {
    pub chain: ChainView,
    pub message: MessageView,
}

/// The state after one event. A boundary at depth 0 flushes the message in
/// flight and starts an empty one; names, date and body parts are added to
/// the message in flight; a date that cannot be read is an error; any other
/// event changes nothing.
pub open spec fn absorbed(state: DumpState, event: MessageEvent) -> Result<
    DumpState,
    AppendError,
> {
    let message = state.message;
    match event {
        MessageEvent::Start(depth) => if depth == 0 {
            Ok(
                DumpState {
                    chain: flushed(state.chain, message),
                    message: MessageView::empty(),
                },
            )
        } else {
            Ok(state)
        },
        MessageEvent::FullNameExtracted(name) => Ok(
            DumpState {
                chain: state.chain,
                message: MessageView { names: message.names.push(name@), ..message },
            },
        ),
        MessageEvent::ShortNameExtracted(name) => Ok(
            DumpState {
                chain: state.chain,
                message: MessageView { names: message.names.push(name@), ..message },
            },
        ),
        MessageEvent::DateExtracted(date) => match spec_parse_datestamp(date@) {
            Ok(datestamp) => Ok(
                DumpState { chain: state.chain, message: MessageView { datestamp, ..message } },
            ),
            Err(error) => Err(error),
        },
        MessageEvent::BodyPartExtracted(part) => Ok(
            DumpState {
                chain: state.chain,
                message: MessageView { body: message.body + part@, ..message },
            },
        ),
        MessageEvent::Other => Ok(state),
    }
}

/// The state that a sequence of events leads to from `state`, and the error
/// of the first event that fails, if one does: the events before that one
/// take effect, it and those after it do not.
pub open spec fn dump_progress(state: DumpState, events: Seq<MessageEvent>) -> (
    DumpState,
    Option<AppendError>,
)
    decreases events.len(),
{
    if events.len() == 0 {
        (state, None)
    } else {
        let (reached, failure) = dump_progress(state, events.drop_last());
        if failure.is_some() {
            (reached, failure)
        } else {
            match absorbed(reached, events.last()) {
                Ok(next) => (next, None),
                Err(error) => (reached, Some(error)),
            }
        }
    }
}

/// The model after a dump was ingested, and the outcome: where every event
/// succeeds, the message in flight at the end is flushed too; where one
/// fails, the model is as the events before it left it.
pub open spec fn dump_appended(chain: ChainView, events: Seq<MessageEvent>) -> (
    ChainView,
    Result<(), AppendError>,
) {
    let (reached, failure) = dump_progress(
        DumpState { chain, message: MessageView::empty() },
        events,
    );
    match failure {
        None => (flushed(reached.chain, reached.message), Ok(())),
        Some(error) => (reached.chain, Err(error)),
    }
}

/// Appends a finished message to the model, its names picking the source.
pub fn append_message(chain: &mut MarkovChain, message: ExtractedMessage)
    requires
        old(chain)@.distinct(),
    ensures
        final(chain)@ == appended(
            old(chain)@,
            message@.body,
            message@.names,
            message@.datestamp,
            true,
        ),
        final(chain)@.distinct(),
{
    append_entries(chain, message.body.as_str(), message.names, message.datestamp, true);
}

/// Handles one event: returns the message in flight after it, having flushed
/// the previous message into the model at a boundary.
pub fn absorb_event(
    chain: &mut MarkovChain,
    message: ExtractedMessage,
    event: MessageEvent,
) -> (r: Result<ExtractedMessage, AppendError>)
    requires
        old(chain)@.distinct(),
    ensures
        final(chain)@.distinct(),
        match absorbed(DumpState { chain: old(chain)@, message: message@ }, event) {
            Ok(state) => r.is_ok() && r.unwrap()@ == state.message && final(chain)@
                == state.chain,
            Err(error) => r == Err::<ExtractedMessage, AppendError>(error) && final(chain)@ == old(
                chain,
            )@,
        },
{
    let mut message = message;
    match event {
        MessageEvent::Start(depth) => {
            if depth == 0 {
                if !message.body.as_str().is_empty() {
                    append_message(chain, message);
                }
                Ok(ExtractedMessage::default())
            } else {
                Ok(message)
            }
        },
        MessageEvent::FullNameExtracted(full_name) => {
            let ghost before = texts(message.names@);
            message.names.push(full_name);
            assert(texts(message.names@) =~= before.push(full_name@));
            Ok(message)
        },
        MessageEvent::ShortNameExtracted(short_name) => {
            let ghost before = texts(message.names@);
            message.names.push(short_name);
            assert(texts(message.names@) =~= before.push(short_name@));
            Ok(message)
        },
        MessageEvent::DateExtracted(date) => {
            match parse_datestamp(date.as_str()) {
                Ok(datestamp) => {
                    message.datestamp = datestamp;
                    Ok(message)
                },
                Err(error) => Err(error),
            }
        },
        MessageEvent::BodyPartExtracted(body) => {
            message.body.append(body.as_str());
            Ok(message)
        },
        MessageEvent::Other => Ok(message),
    }
}

} // verus!
