//! Application: keys, events and commands.

use crate::bytes::big_endian;
use crate::join_code::{
    base64_bytes, join_bytes_are_node_and_code, join_text, parse_join_code, parsed, undecodable,
    JoinCodeError,
};
use crate::key::{is_public_key, public_key_named, NodeId};
use crate::proto::ProtocolState;
use crate::text::{
    decimal, decimal_is_read_back, hex, is_plain_word, number_error, number_in, parse_number,
    pieces, put_together, split, texts, to_decimal, to_hex, two_words, NumberError, Separator,
};
use vstd::prelude::*;

verus! {

/// What is on the screen.
#[derive(Debug, Clone, Copy, PartialEq, Eq, Structural)]
pub enum AppScreen {
    Group,
    Library,
    Help,
}

impl Default for AppScreen {
    fn default() -> (screen: Self)
        ensures
            screen == AppScreen::Group,
    {
        AppScreen::Group
    }
}

/// What keys mean.
#[derive(Debug, Clone, Copy, PartialEq, Eq, Structural)]
pub enum AppMode {
    Default,
    Command,
}

impl Default for AppMode {
    fn default() -> (mode: Self)
        ensures
            mode == AppMode::Default,
    {
        AppMode::Default
    }
}

/// Application events.
#[derive(Debug)]
pub enum AppEvent {
    Log(String),
    Exit,
    CommandMode,
    ExitMode,
    Screen(AppScreen),
    Playback(Control),
    Navigate(Navigation),
    PollProtocolState(ProtocolState),
}

/// What keys do to playback.
#[derive(Debug, Clone, Copy, PartialEq, Eq, Structural)]
pub enum Control {
    /// Pause, or play on.
    Pause,
    Stop,
    SeekBackward,
    SeekForward,
}

/// What keys do to the tree of files.
#[derive(Debug, Clone, Copy, PartialEq, Eq, Structural)]
pub enum Navigation {
    Up,
    Down,
    PageUp,
    PageDown,
    First,
    Last,
    /// Open or close what is selected.
    Toggle,
}

/// A key, as far as it means something.
#[derive(Debug, Clone, Copy, PartialEq, Eq, Structural)]
pub enum KeyCode {
    Char(char),
    Esc,
    Left,
    Right,
    Up,
    Down,
    PageUp,
    PageDown,
    Home,
    End,
    Other,
}

/// What is held with a key.
#[derive(Debug, Clone, Copy, PartialEq, Eq, Structural)]
pub enum Held {
    /// The control key alone.
    Control,
    /// The shift key alone.
    Shift,
    /// Nothing, or anything else.
    Other,
}

/// What a key does.
#[derive(Debug)]
pub enum KeyAction {
    /// Send the event.
    Send(AppEvent),
    /// Hand the key to the command prompt.
    Prompt,
    /// Nothing.
    Ignore,
}

/// What a key that navigates does: it works on the library screen.
pub open spec fn navigation(screen: AppScreen, to: Navigation) -> KeyAction {
    if screen == AppScreen::Library {
        KeyAction::Send(AppEvent::Navigate(to))
    } else {
        KeyAction::Ignore
    }
}

/// What a key does in a mode and on a screen.
pub open spec fn key_action(
    mode: AppMode,
    screen: AppScreen,
    code: KeyCode,
    held: Held,
) -> KeyAction {
    match mode {
        AppMode::Command => KeyAction::Prompt,
        AppMode::Default => match code {
            KeyCode::Esc => KeyAction::Send(AppEvent::Exit),
            KeyCode::Char(c) => if c == ':' || c == '/' {
                KeyAction::Send(AppEvent::CommandMode)
            } else if c == '1' {
                KeyAction::Send(AppEvent::Screen(AppScreen::Group))
            } else if c == '2' {
                KeyAction::Send(AppEvent::Screen(AppScreen::Library))
            } else if c == '?' {
                KeyAction::Send(AppEvent::Screen(AppScreen::Help))
            } else if c == 'q' || (held == Held::Control && (c == 'c' || c == 'C')) {
                KeyAction::Send(AppEvent::Exit)
            } else if c == 'p' {
                KeyAction::Send(AppEvent::Playback(Control::Pause))
            } else if c == 's' {
                KeyAction::Send(AppEvent::Playback(Control::Stop))
            } else if c == ' ' {
                navigation(screen, Navigation::Toggle)
            } else {
                KeyAction::Ignore
            },
            KeyCode::Left => if held == Held::Shift {
                KeyAction::Send(AppEvent::Playback(Control::SeekBackward))
            } else {
                KeyAction::Ignore
            },
            KeyCode::Right => if held == Held::Shift {
                KeyAction::Send(AppEvent::Playback(Control::SeekForward))
            } else {
                KeyAction::Ignore
            },
            KeyCode::Up => navigation(screen, Navigation::Up),
            KeyCode::Down => navigation(screen, Navigation::Down),
            KeyCode::PageUp => navigation(screen, Navigation::PageUp),
            KeyCode::PageDown => navigation(screen, Navigation::PageDown),
            KeyCode::Home => navigation(screen, Navigation::First),
            KeyCode::End => navigation(screen, Navigation::Last),
            KeyCode::Other => KeyAction::Ignore,
        },
    }
}

/// How the command prompt is left.
#[derive(Debug, Clone, Copy, PartialEq, Eq, Structural)]
pub enum PromptStatus {
    Pending,
    Aborted,
    Done,
}

/// What to do after a key was handed to the command prompt.
#[derive(Debug, Clone, Copy, PartialEq, Eq, Structural)]
pub struct PromptStep {
    /// Run the command.
    pub run: bool,
    /// Send [`AppEvent::ExitMode`].
    pub exit: bool,
}

/// Decides what to do after a key was handed to the command prompt.
pub fn after_prompt(status: PromptStatus) -> (step: PromptStep)
    ensures
        step.run == (status is Done),
        step.exit == !(status is Pending),
{
    match status {
        PromptStatus::Pending => PromptStep { run: false, exit: false },
        PromptStatus::Aborted => PromptStep { run: false, exit: true },
        PromptStatus::Done => PromptStep { run: true, exit: true },
    }
}

/// What an event does outside the state of the application.
#[derive(Debug, Clone, Copy, PartialEq, Eq, Structural)]
pub enum Effect {
    Nothing,
    /// Focus the command prompt.
    FocusPrompt,
    /// Clear the command prompt.
    ResetPrompt,
    /// Tell the audio thread.
    Playback(Control),
    /// Move in the tree of files.
    Navigate(Navigation),
}

/// State of the application.
#[derive(Debug)]
pub struct App {
    pub running: bool,
    pub mode: AppMode,
    pub screen: AppScreen,
    pub messages: Vec<String>,
    pub protocol_state: ProtocolState,
}

impl App {
    /// The application when it starts.
    pub fn new() -> (app: Self)
        ensures
            app.running,
            app.mode == AppMode::Default,
            app.screen == AppScreen::Group,
            app.messages@.len() == 0,
            app.protocol_state.peers@.len() == 0,
            app.protocol_state.group is None,
    {
        App {
            running: true,
            mode: AppMode::default(),
            screen: AppScreen::default(),
            messages: Vec::new(),
            protocol_state: ProtocolState::default(),
        }
    }

    /// What a key that navigates does.
    fn navigate(&self, to: Navigation) -> (action: KeyAction)
        ensures
            action == navigation(self.screen, to),
    {
        if self.screen == AppScreen::Library {
            KeyAction::Send(AppEvent::Navigate(to))
        } else {
            KeyAction::Ignore
        }
    }

    /// Decides what a key does.
    pub fn handle_key_events(&self, code: KeyCode, held: Held) -> (action: KeyAction)
        ensures
            action == key_action(self.mode, self.screen, code, held),
    {
        match self.mode {
            AppMode::Command => KeyAction::Prompt,
            AppMode::Default => match code {
                KeyCode::Esc => KeyAction::Send(AppEvent::Exit),
                KeyCode::Char(c) => if c == ':' || c == '/' {
                    KeyAction::Send(AppEvent::CommandMode)
                } else if c == '1' {
                    KeyAction::Send(AppEvent::Screen(AppScreen::Group))
                } else if c == '2' {
                    KeyAction::Send(AppEvent::Screen(AppScreen::Library))
                } else if c == '?' {
                    KeyAction::Send(AppEvent::Screen(AppScreen::Help))
                } else if c == 'q' || (held == Held::Control && (c == 'c' || c == 'C')) {
                    KeyAction::Send(AppEvent::Exit)
                } else if c == 'p' {
                    KeyAction::Send(AppEvent::Playback(Control::Pause))
                } else if c == 's' {
                    KeyAction::Send(AppEvent::Playback(Control::Stop))
                } else if c == ' ' {
                    self.navigate(Navigation::Toggle)
                } else {
                    KeyAction::Ignore
                },
                KeyCode::Left => if held == Held::Shift {
                    KeyAction::Send(AppEvent::Playback(Control::SeekBackward))
                } else {
                    KeyAction::Ignore
                },
                KeyCode::Right => if held == Held::Shift {
                    KeyAction::Send(AppEvent::Playback(Control::SeekForward))
                } else {
                    KeyAction::Ignore
                },
                KeyCode::Up => self.navigate(Navigation::Up),
                KeyCode::Down => self.navigate(Navigation::Down),
                KeyCode::PageUp => self.navigate(Navigation::PageUp),
                KeyCode::PageDown => self.navigate(Navigation::PageDown),
                KeyCode::Home => self.navigate(Navigation::First),
                KeyCode::End => self.navigate(Navigation::Last),
                KeyCode::Other => KeyAction::Ignore,
            },
        }
    }

    /// The application after an event.
    pub open spec fn after(before: Self, event: AppEvent, after: Self) -> bool {
        &&& after.running == (before.running && !(event is Exit))
        &&& after.mode == (match event {
            AppEvent::CommandMode => AppMode::Command,
            AppEvent::ExitMode => AppMode::Default,
            _ => before.mode,
        })
        &&& after.screen == (match event {
            AppEvent::Screen(screen) => screen,
            _ => before.screen,
        })
        &&& after.messages@ == (match event {
            AppEvent::Log(message) => before.messages@.push(message),
            _ => before.messages@,
        })
        &&& after.protocol_state == (match event {
            AppEvent::PollProtocolState(state) => state,
            _ => before.protocol_state,
        })
    }

    /// Handles an event, and tells what else it does.
    pub fn handle_app_events(&mut self, event: AppEvent) -> (effect: Effect)
        ensures
            Self::after(*old(self), event, *final(self)),
            effect == (match event {
                AppEvent::CommandMode => Effect::FocusPrompt,
                AppEvent::ExitMode => Effect::ResetPrompt,
                AppEvent::Playback(control) => Effect::Playback(control),
                AppEvent::Navigate(navigation) => Effect::Navigate(navigation),
                _ => Effect::Nothing,
            }),
            effect is FocusPrompt <==> event is CommandMode,
            effect is ResetPrompt <==> event is ExitMode,
            effect is Playback <==> event is Playback,
            effect is Navigate <==> event is Navigate,
    {
        match event {
            AppEvent::Log(message) => {
                self.messages.push(message);
                Effect::Nothing
            },
            AppEvent::Exit => {
                self.exit();
                Effect::Nothing
            },
            AppEvent::CommandMode => {
                self.mode = AppMode::Command;
                Effect::FocusPrompt
            },
            AppEvent::ExitMode => {
                self.mode = AppMode::Default;
                Effect::ResetPrompt
            },
            AppEvent::Screen(screen) => {
                self.screen = screen;
                Effect::Nothing
            },
            AppEvent::Playback(control) => Effect::Playback(control),
            AppEvent::Navigate(navigation) => Effect::Navigate(navigation),
            AppEvent::PollProtocolState(state) => {
                self.protocol_state = state;
                Effect::Nothing
            },
        }
    }

    /// Reads a command. A join code is read back, behind either of the words
    /// for joining.
    pub fn handle_command(command: &str) -> (read: Result<Command, CommandError>)
        ensures
            understood(pieces(command@, Separator::White), read),
            forall|node_id: NodeId, code: u64|
                is_public_key(node_id.bytes@) && asks_to_join(
                    pieces(command@, Separator::White),
                    #[trigger] join_text(node_id, code),
                ) ==> read == Ok::<_, CommandError>(Command::Join { node_id, code }),
            forall|node_id: NodeId, code: u64|
                is_public_key(node_id.bytes@) && is_plain_word(join_text(node_id, code)) && (
                command@ == "j "@ + #[trigger] join_text(node_id, code) || command@ == "join "@
                    + join_text(node_id, code)) ==> read == Ok::<_, CommandError>(
                    Command::Join { node_id, code },
                ),
    {
        let words = split(command, Separator::White);
        let read = read_words(&words);
        proof {
            let found = pieces(command@, Separator::White);
            assert forall|node_id: NodeId, code: u64|
                is_public_key(node_id.bytes@) && asks_to_join(
                    found,
                    #[trigger] join_text(node_id, code),
                ) implies read == Ok::<_, CommandError>(Command::Join { node_id, code }) by {
                assert(texts(words@)[0] == words@[0]@);
                assert(texts(words@)[1] == words@[1]@);
            }
            assert forall|node_id: NodeId, code: u64|
                is_public_key(node_id.bytes@) && is_plain_word(join_text(node_id, code)) && (
                command@ == "j "@ + #[trigger] join_text(node_id, code) || command@ == "join "@
                    + join_text(node_id, code)) implies read == Ok::<_, CommandError>(
                Command::Join { node_id, code },
            ) by {
                let text = join_text(node_id, code);
                reveal_strlit("j");
                reveal_strlit("j ");
                reveal_strlit("join");
                reveal_strlit("join ");
                assert("j "@ =~= "j"@.push(' '));
                assert("join "@ =~= "join"@.push(' '));
                if command@ == "j "@ + text {
                    two_words("j"@, text);
                } else {
                    two_words("join"@, text);
                }
                assert(asks_to_join(found, text));
            }
        }
        read
    }

    /// Exit the app.
    fn exit(&mut self)
        ensures
            *final(self) == (App { running: false, ..*old(self) }),
    {
        self.running = false;
    }
}

/// A command.
#[derive(Debug, Clone, Copy, PartialEq, Eq)]
pub enum Command {
    Quit,
    CreateGroup,
    Join { node_id: NodeId, code: u64 },
    Remove(NodeId),
    Debug,
    Download(u64),
}

/// Why a command is not understood.
#[derive(Debug, PartialEq, Eq)]
pub enum CommandError {
    /// There is no command.
    Empty,
    /// There is not one argument.
    Arguments,
    /// The argument is no join code.
    JoinCode(JoinCodeError),
    /// The argument is no node identifier, for the given reason.
    NodeId(String),
    /// The argument is no file hash.
    FileHash(NumberError),
    /// There is no such command.
    Unknown,
}

/// What commands there are.
#[derive(Debug, Clone, Copy, PartialEq, Eq, Structural)]
pub enum Verb {
    Quit,
    CreateGroup,
    Join,
    Remove,
    Debug,
    Download,
    Unknown,
}

/// The command that a word stands for.
pub open spec fn verb_of(word: Seq<char>) -> Verb {
    if word == "q"@ {
        Verb::Quit
    } else if word == "cg"@ {
        Verb::CreateGroup
    } else if word == "j"@ || word == "join"@ {
        Verb::Join
    } else if word == "r"@ || word == "remove"@ {
        Verb::Remove
    } else if word == "d"@ {
        Verb::Debug
    } else if word == "p"@ {
        Verb::Download
    } else {
        Verb::Unknown
    }
}

/// The command that a word stands for.
fn read_verb(word: &String) -> (verb: Verb)
    ensures
        verb == verb_of(word@),
{
    if *word == "q".to_string() {
        Verb::Quit
    } else if *word == "cg".to_string() {
        Verb::CreateGroup
    } else if *word == "j".to_string() || *word == "join".to_string() {
        Verb::Join
    } else if *word == "r".to_string() || *word == "remove".to_string() {
        Verb::Remove
    } else if *word == "d".to_string() {
        Verb::Debug
    } else if *word == "p".to_string() {
        Verb::Download
    } else {
        Verb::Unknown
    }
}

/// Whether words are understood as a command.
pub open spec fn understood(
    words: Seq<Seq<char>>,
    command: Result<Command, CommandError>,
) -> bool {
    if words.len() == 0 {
        command == Err::<Command, _>(CommandError::Empty)
    } else {
        match verb_of(words[0]) {
            Verb::Quit => command == Ok::<_, CommandError>(Command::Quit),
            Verb::CreateGroup => command == Ok::<_, CommandError>(Command::CreateGroup),
            Verb::Debug => command == Ok::<_, CommandError>(Command::Debug),
            Verb::Unknown => command == Err::<Command, _>(CommandError::Unknown),
            Verb::Join => if words.len() != 2 {
                command == Err::<Command, _>(CommandError::Arguments)
            } else {
                match base64_bytes(words[1]) {
                    Err(why) => command matches Err(CommandError::JoinCode(e)) && undecodable(
                        Err(e),
                        why,
                    ),
                    Ok(bytes) => match command {
                        Ok(Command::Join { node_id, code }) => parsed(bytes, Ok((node_id, code))),
                        Err(CommandError::JoinCode(e)) => parsed(bytes, Err(e)),
                        _ => false,
                    },
                }
            },
            Verb::Remove => if words.len() != 2 {
                command == Err::<Command, _>(CommandError::Arguments)
            } else {
                match public_key_named(words[1]) {
                    Err(why) => command matches Err(CommandError::NodeId(cause)) && cause@ == why,
                    Ok(bytes) => command matches Ok(Command::Remove(node_id)) && node_id.bytes@
                        == bytes,
                }
            },
            Verb::Download => if words.len() != 2 {
                command == Err::<Command, _>(CommandError::Arguments)
            } else {
                match number_in(words[1]) {
                    None => command == Err::<Command, _>(
                        CommandError::FileHash(number_error(words[1])),
                    ),
                    Some(hash) => command == Ok::<_, CommandError>(Command::Download(hash)),
                }
            },
        }
    }
}

/// Whether words ask to join with a join code.
pub open spec fn asks_to_join(words: Seq<Seq<char>>, code: Seq<char>) -> bool {
    words == seq!["j"@, code] || words == seq!["join"@, code]
}

/// Reads the words of a command. The join code of a node is read back.
pub fn read_words(words: &Vec<String>) -> (read: Result<Command, CommandError>)
    ensures
        understood(texts(words@), read),
        forall|node_id: NodeId, code: u64|
            is_public_key(node_id.bytes@) && words@.len() == 2 && (words@[0]@ == "j"@
                || words@[0]@ == "join"@) && words@[1]@ == #[trigger] join_text(
                node_id,
                code,
            ) ==> read == Ok::<
                _,
                CommandError,
            >(Command::Join { node_id, code }),
{
    if words.len() == 0 {
        return Err(CommandError::Empty);
    }
    proof {
        assert(texts(words@)[0] == words@[0]@);
        reveal_strlit("q");
        reveal_strlit("cg");
        reveal_strlit("j");
        reveal_strlit("join");
        assert("q"@[0] != "j"@[0]);
        assert("cg"@.len() != "j"@.len());
        assert("q"@.len() != "join"@.len());
        assert("cg"@.len() != "join"@.len());
    }
    match read_verb(&words[0]) {
        Verb::Quit => Ok(Command::Quit),
        Verb::CreateGroup => Ok(Command::CreateGroup),
        Verb::Debug => Ok(Command::Debug),
        Verb::Unknown => Err(CommandError::Unknown),
        Verb::Join => {
            if words.len() != 2 {
                return Err(CommandError::Arguments);
            }
            assert(texts(words@)[1] == words@[1]@);
            match parse_join_code(words[1].as_str()) {
                Ok((node_id, code)) => Ok(Command::Join { node_id, code }),
                Err(e) => Err(CommandError::JoinCode(e)),
            }
        },
        Verb::Remove => {
            if words.len() != 2 {
                return Err(CommandError::Arguments);
            }
            assert(texts(words@)[1] == words@[1]@);
            match NodeId::parse(words[1].as_str()) {
                Ok(node_id) => Ok(Command::Remove(node_id)),
                Err(cause) => Err(CommandError::NodeId(cause)),
            }
        },
        Verb::Download => {
            if words.len() != 2 {
                return Err(CommandError::Arguments);
            }
            assert(texts(words@)[1] == words@[1]@);
            match parse_number(words[1].as_str()) {
                Ok(hash) => Ok(Command::Download(hash)),
                Err(e) => Err(CommandError::FileHash(e)),
            }
        },
    }
}

impl CommandError {
    /// What to tell of a command that is not understood.
    pub open spec fn text(self, command: Seq<char>) -> Seq<char> {
        match self {
            CommandError::Empty => "no command"@,
            CommandError::Arguments => "expected 1 argument"@,
            CommandError::JoinCode(e) => e.text(),
            CommandError::NodeId(cause) => "failed to parse node id: "@ + cause@,
            CommandError::FileHash(e) => "failed to parse file hash: "@ + e.text(),
            CommandError::Unknown => "unknown command: "@ + command,
        }
    }

    /// What to tell of a command that is not understood.
    pub fn message(&self, command: &str) -> (message: String)
        ensures
            message@ == self.text(command@),
    {
        match self {
            CommandError::Empty => "no command".to_string(),
            CommandError::Arguments => "expected 1 argument".to_string(),
            CommandError::JoinCode(e) => e.message(),
            CommandError::NodeId(cause) => put_together(
                "failed to parse node id: ",
                cause.as_str(),
            ),
            CommandError::FileHash(e) => put_together(
                "failed to parse file hash: ",
                e.message().as_str(),
            ),
            CommandError::Unknown => put_together("unknown command: ", command),
        }
    }
}

impl Command {
    /// What to log when a command starts.
    pub open spec fn text(self) -> Option<Seq<char>> {
        match self {
            Command::Quit => None,
            Command::CreateGroup => Some("creating group"@),
            Command::Join { node_id, code } => Some(
                "joining "@ + hex(node_id.bytes@) + " with code "@ + decimal(code as nat),
            ),
            Command::Remove(node_id) => Some("removing "@ + hex(node_id.bytes@)),
            Command::Debug => None,
            Command::Download(hash) => Some("attempting to download "@ + decimal(hash as nat)),
        }
    }

    /// What to log when a command starts.
    pub fn announcement(&self) -> (announcement: Option<String>)
        ensures
            announcement is Some <==> self.text() is Some,
            announcement matches Some(shown) ==> Some(shown@) == self.text(),
    {
        match self {
            Command::Quit => None,
            Command::CreateGroup => Some("creating group".to_string()),
            Command::Join { node_id, code } => {
                let name = to_hex(node_id.bytes.as_slice());
                let number = to_decimal(*code);
                let start = put_together("joining ", name.as_str());
                let middle = put_together(start.as_str(), " with code ");
                Some(put_together(middle.as_str(), number.as_str()))
            },
            Command::Remove(node_id) => {
                let name = to_hex(node_id.bytes.as_slice());
                Some(put_together("removing ", name.as_str()))
            },
            Command::Debug => None,
            Command::Download(hash) => {
                let number = to_decimal(*hash);
                Some(put_together("attempting to download ", number.as_str()))
            },
        }
    }
}

/// The key that a tab shows brings up its screen, on every screen.
pub proof fn tab_keys_bring_up_screens(screen: AppScreen, held: Held)
    ensures
        key_action(AppMode::Default, screen, KeyCode::Char('1'), held) == KeyAction::Send(
            AppEvent::Screen(AppScreen::Group),
        ),
        key_action(AppMode::Default, screen, KeyCode::Char('2'), held) == KeyAction::Send(
            AppEvent::Screen(AppScreen::Library),
        ),
        key_action(AppMode::Default, screen, KeyCode::Char('?'), held) == KeyAction::Send(
            AppEvent::Screen(AppScreen::Help),
        ),
{
}

/// While a command is typed, every key goes to the command prompt.
pub proof fn typing_sends_nothing(screen: AppScreen, code: KeyCode, held: Held)
    ensures
        key_action(AppMode::Command, screen, code, held) is Prompt,
{
}

/// The words for commands: each stands for one command, and no other word for
/// any.
pub proof fn words_stand_for_commands(word: Seq<char>)
    ensures
        verb_of(word) is Quit <==> word == "q"@,
        verb_of(word) is CreateGroup <==> word == "cg"@,
        verb_of(word) is Join <==> word == "j"@ || word == "join"@,
        verb_of(word) is Remove <==> word == "r"@ || word == "remove"@,
        verb_of(word) is Debug <==> word == "d"@,
        verb_of(word) is Download <==> word == "p"@,
{
    reveal_strlit("q");
    reveal_strlit("cg");
    reveal_strlit("j");
    reveal_strlit("join");
    reveal_strlit("r");
    reveal_strlit("remove");
    reveal_strlit("d");
    reveal_strlit("p");
    assert("q"@[0] == 'q' && "q"@.len() == 1);
    assert("cg"@[0] == 'c' && "cg"@.len() == 2);
    assert("j"@[0] == 'j' && "j"@.len() == 1);
    assert("join"@[0] == 'j' && "join"@.len() == 4);
    assert("r"@[0] == 'r' && "r"@.len() == 1);
    assert("remove"@[0] == 'r' && "remove"@.len() == 6);
    assert("d"@[0] == 'd' && "d"@.len() == 1);
    assert("p"@[0] == 'p' && "p"@.len() == 1);
}

/// Commands without an argument are read from their word, whatever follows it.
/// Commands with an argument want exactly one. No word is no command.
pub proof fn commands_are_read_from_their_words(
    words: Seq<Seq<char>>,
    read: Result<Command, CommandError>,
)
    requires
        understood(words, read),
    ensures
        words.len() == 0 ==> read == Err::<Command, _>(CommandError::Empty),
        words.len() > 0 && words[0] == "q"@ ==> read == Ok::<_, CommandError>(Command::Quit),
        words.len() > 0 && words[0] == "cg"@ ==> read == Ok::<_, CommandError>(
            Command::CreateGroup,
        ),
        words.len() > 0 && words[0] == "d"@ ==> read == Ok::<_, CommandError>(Command::Debug),
        words.len() > 0 && words.len() != 2 && (words[0] == "j"@ || words[0] == "join"@ || words[0]
            == "r"@ || words[0] == "remove"@ || words[0] == "p"@) ==> read == Err::<Command, _>(
            CommandError::Arguments,
        ),
        words.len() > 0 && words[0] != "q"@ && words[0] != "cg"@ && words[0] != "d"@ && words[0]
            != "j"@ && words[0] != "join"@ && words[0] != "r"@ && words[0] != "remove"@ && words[0]
            != "p"@ ==> read == Err::<Command, _>(CommandError::Unknown),
{
    if words.len() > 0 {
        words_stand_for_commands(words[0]);
    }
}

/// A file is asked for by its number: every number is read back from its
/// digits, and what is no number is refused, with the reason.
pub proof fn files_are_asked_for_by_number(
    words: Seq<Seq<char>>,
    read: Result<Command, CommandError>,
    hash: u64,
)
    requires
        understood(words, read),
        words.len() == 2,
        words[0] == "p"@,
    ensures
        words[1] == decimal(hash as nat) ==> read == Ok::<_, CommandError>(Command::Download(hash)),
        number_in(words[1]) == Some(hash) ==> read == Ok::<_, CommandError>(
            Command::Download(hash),
        ),
        number_in(words[1]) is None ==> read == Err::<Command, _>(
            CommandError::FileHash(number_error(words[1])),
        ),
{
    words_stand_for_commands(words[0]);
    decimal_is_read_back(hash);
}

/// A member is removed by its name: the node that the name reads as, or the
/// reason why it reads as none.
pub proof fn members_are_removed_by_name(
    words: Seq<Seq<char>>,
    read: Result<Command, CommandError>,
)
    requires
        understood(words, read),
        words.len() == 2,
        words[0] == "r"@ || words[0] == "remove"@,
    ensures
        public_key_named(words[1]) matches Ok(bytes) ==> read is Ok && read->Ok_0 is Remove
            && read->Ok_0->Remove_0.bytes@ == bytes,
        public_key_named(words[1]) matches Err(why) ==> read is Err && read->Err_0 is NodeId
            && read->Err_0->NodeId_0@ == why,
{
    words_stand_for_commands(words[0]);
}

/// A group is joined by a join code: the node and the code that its bytes hold.
pub proof fn groups_are_joined_by_code(
    words: Seq<Seq<char>>,
    read: Result<Command, CommandError>,
    bytes: Seq<u8>,
)
    requires
        understood(words, read),
        words.len() == 2,
        words[0] == "j"@ || words[0] == "join"@,
        base64_bytes(words[1]) == Ok::<Seq<u8>, Seq<char>>(bytes),
    ensures
        read is Ok <==> bytes.len() == 40 && is_public_key(bytes.take(32)),
        read is Ok ==> read->Ok_0 is Join && read->Ok_0->node_id.bytes@ == bytes.take(32)
            && read->Ok_0->code == big_endian(bytes.skip(32)),
{
    words_stand_for_commands(words[0]);
    match read {
        Ok(Command::Join { node_id, code }) => {
            join_bytes_are_node_and_code(bytes, Ok((node_id, code)));
        },
        Err(CommandError::JoinCode(e)) => {
            join_bytes_are_node_and_code(bytes, Err(e));
        },
        _ => {},
    }
}

/// What is told of a command that is not understood names the cause.
pub proof fn command_errors_tell_their_cause(
    command: Seq<char>,
    cause: String,
    number: NumberError,
    code: JoinCodeError,
)
    ensures
        CommandError::NodeId(cause).text(command) == "failed to parse node id: "@ + cause@,
        CommandError::FileHash(number).text(command) == "failed to parse file hash: "@
            + number.text(),
        CommandError::JoinCode(code).text(command) == code.text(),
        CommandError::Unknown.text(command) == "unknown command: "@ + command,
{
}

/// What is told of a command that starts names the node, the code and the file
/// that it is about.
pub proof fn announcements_name_what_they_are_about(node_id: NodeId, code: u64, hash: u64)
    ensures
        (Command::Join { node_id, code }).text() == Some(
            "joining "@ + hex(node_id.bytes@) + " with code "@ + decimal(code as nat),
        ),
        Command::Remove(node_id).text() == Some("removing "@ + hex(node_id.bytes@)),
        Command::Download(hash).text() == Some("attempting to download "@ + decimal(hash as nat)),
        Command::CreateGroup.text() == Some("creating group"@),
        Command::Quit.text() is None,
        Command::Debug.text() is None,
{
}

/// Which keys end the program, open the prompt, and change the screen: these,
/// on every screen, and no others.
pub proof fn keys_for_the_program(screen: AppScreen, code: KeyCode, held: Held)
    ensures
        ({
            let action = key_action(AppMode::Default, screen, code, held);
            &&& action is Send && action->Send_0 is Exit <==> code == KeyCode::Esc || code
                == KeyCode::Char('q') || held == Held::Control && (code == KeyCode::Char('c')
                || code == KeyCode::Char('C'))
            &&& action is Send && action->Send_0 is CommandMode <==> code == KeyCode::Char(':')
                || code == KeyCode::Char('/')
            &&& action is Send && action->Send_0 == AppEvent::Screen(AppScreen::Group) <==> code
                == KeyCode::Char('1')
            &&& action is Send && action->Send_0 == AppEvent::Screen(AppScreen::Library) <==> code
                == KeyCode::Char('2')
            &&& action is Send && action->Send_0 == AppEvent::Screen(AppScreen::Help) <==> code
                == KeyCode::Char('?')
            &&& !(action is Prompt)
        }),
{
}

/// Which keys control playback: these, on every screen, and no others.
pub proof fn keys_for_playback(screen: AppScreen, code: KeyCode, held: Held)
    ensures
        ({
            let action = key_action(AppMode::Default, screen, code, held);
            &&& action is Send && action->Send_0 == AppEvent::Playback(Control::Pause) <==> code
                == KeyCode::Char('p')
            &&& action is Send && action->Send_0 == AppEvent::Playback(Control::Stop) <==> code
                == KeyCode::Char('s')
            &&& action is Send && action->Send_0 == AppEvent::Playback(Control::SeekBackward)
                <==> code == KeyCode::Left && held == Held::Shift
            &&& action is Send && action->Send_0 == AppEvent::Playback(Control::SeekForward)
                <==> code == KeyCode::Right && held == Held::Shift
        }),
{
}

/// Which keys move in the tree of files: these, on the library screen, whatever
/// is held, and no others anywhere.
pub proof fn keys_for_the_library(screen: AppScreen, code: KeyCode, held: Held)
    ensures
        ({
            let action = key_action(AppMode::Default, screen, code, held);
            let sends = action is Send && action->Send_0 is Navigate;
            let to = action->Send_0->Navigate_0;
            &&& sends <==> screen == AppScreen::Library && (code == KeyCode::Up || code
                == KeyCode::Down || code == KeyCode::PageUp || code == KeyCode::PageDown || code
                == KeyCode::Home || code == KeyCode::End || code == KeyCode::Char(' '))
            &&& sends && code == KeyCode::Up ==> to == Navigation::Up
            &&& sends && code == KeyCode::Down ==> to == Navigation::Down
            &&& sends && code == KeyCode::PageUp ==> to == Navigation::PageUp
            &&& sends && code == KeyCode::PageDown ==> to == Navigation::PageDown
            &&& sends && code == KeyCode::Home ==> to == Navigation::First
            &&& sends && code == KeyCode::End ==> to == Navigation::Last
            &&& sends && code == KeyCode::Char(' ') ==> to == Navigation::Toggle
        }),
{
}

/// Events change what they are about, and nothing else: a log message comes
/// behind those that are there, the mode, the screen and the state are those
/// of the last event about them, and only an exit ends the program.
pub proof fn events_change_what_they_are_about(before: App, event: AppEvent, after: App)
    requires
        App::after(before, event, after),
    ensures
        event is Exit ==> !after.running,
        !(event is Exit) ==> after.running == before.running,
        event matches AppEvent::Log(message) ==> after.messages@ == before.messages@.push(message),
        !(event is Log) ==> after.messages@ == before.messages@,
        event is CommandMode ==> after.mode == AppMode::Command,
        event is ExitMode ==> after.mode == AppMode::Default,
        !(event is CommandMode) && !(event is ExitMode) ==> after.mode == before.mode,
        event matches AppEvent::Screen(screen) ==> after.screen == screen,
        !(event is Screen) ==> after.screen == before.screen,
        event matches AppEvent::PollProtocolState(state) ==> after.protocol_state == state,
        !(event is PollProtocolState) ==> after.protocol_state == before.protocol_state,
{
}

} // verus!
