//! The interfaces between the core and the collaborators around it: the
//! events they produce, and the capabilities they offer.
use vstd::prelude::*;
use std::sync::mpsc::Sender;

verus! {

pub type ConnectionID = usize;

pub type WindowID = usize;

pub type Command = String;

/// Something that happened: user input, text from a server, a connection
/// opening or closing.
#[derive(Debug)]
pub enum Event {
    UserCommand { cmd: Command },
    /// A line typed into a window (the UI does not know which connection a
    /// window maps to).
    UserInput { line: String, which: WindowID },
    ServerText { line: String, which: ConnectionID },
    ConnectionStart { which: ConnectionID },
    ConnectionEnd { which: ConnectionID, reason: String },
}

#[verifier::external_type_specification]
#[verifier::external_body]
#[verifier::reject_recursive_types(T)]
pub struct ExSender<T>(Sender<T>);

/// A producer of events, moved to and run on a thread of its own (hence
/// `Send`).
pub trait EventSource: Send {
    fn run(&mut self, channel: Sender<Event>);
}

/// Manages the sources of events, and hands their events out in order.
pub trait EventManager {
    fn start_source(&mut self, src: Box<dyn EventSource>);

    fn next_event(&mut self) -> Result<Event, String>;
}

/// The user interface: windows that text can be pushed to, commands, and a
/// source of the events the user produces.
pub trait UserInterface {
    /// Push a line to the named window; a window is made by its first push.
    fn push_to_window(&mut self, window: String, line: String) -> Result<(), ()>;

    fn register_command(&mut self, c: Command);

    /// The source of the events that the user produces.
    type Listener: EventSource;

    fn listener(&mut self) -> Self::Listener;
}

/// Connections to remote servers. An address is a string whose form the
/// implementation decides.
pub trait ConnectionInterface {
    fn start_connection(&mut self, address: String) -> Result<ConnectionID, String>;

    fn stop_connection(&mut self, which: ConnectionID) -> Result<(), ()>;

    fn write_to_connection(&mut self, which: ConnectionID, what: String) -> Result<(), ()>;

    /// The source of the events that the connections produce.
    type Listener: EventSource;

    fn listener(&mut self) -> Self::Listener;
}

} // verus!
