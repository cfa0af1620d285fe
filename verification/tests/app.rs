use aster::app::{
    after_prompt, read_words, App, AppEvent, AppMode, AppScreen, Command, CommandError, Control,
    Effect, Held, KeyAction, KeyCode, Navigation, PromptStatus,
};
use aster::audio::{PauseAction, Player, SeekAction};
use aster::join_code::{make_join_code, JoinCodeError};
use aster::key::{NodeId, SecretKey};
use aster::profile::{parse_args, profile_path, Profile};
use aster::proto::ProtocolState;
use aster::text::NumberError;

fn id(n: u8) -> NodeId {
    SecretKey::from_bytes(&[n; 32]).public()
}

fn event_on(mode: AppMode, screen: AppScreen, code: KeyCode, held: Held) -> String {
    let mut app = App::new();
    app.mode = mode;
    app.screen = screen;
    match app.handle_key_events(code, held) {
        KeyAction::Send(event) => format!("{event:?}"),
        KeyAction::Prompt => "prompt".to_string(),
        KeyAction::Ignore => "ignore".to_string(),
    }
}

const SCREENS: [AppScreen; 3] = [AppScreen::Group, AppScreen::Library, AppScreen::Help];

#[test]
fn keys_do_what_the_mode_says() {
    for screen in SCREENS {
        let default = |code, held| event_on(AppMode::Default, screen, code, held);
        assert_eq!(default(KeyCode::Char(':'), Held::Other), "CommandMode");
        assert_eq!(default(KeyCode::Char('/'), Held::Other), "CommandMode");
        assert_eq!(default(KeyCode::Char('q'), Held::Other), "Exit");
        assert_eq!(default(KeyCode::Esc, Held::Other), "Exit");
        assert_eq!(default(KeyCode::Char('c'), Held::Control), "Exit");
        assert_eq!(default(KeyCode::Char('C'), Held::Control), "Exit");
        assert_eq!(default(KeyCode::Char('c'), Held::Other), "ignore");
        assert_eq!(default(KeyCode::Char('c'), Held::Shift), "ignore");
        assert_eq!(default(KeyCode::Char('x'), Held::Control), "ignore");
        assert_eq!(default(KeyCode::Other, Held::Other), "ignore");
    }
}

#[test]
fn tab_keys_show_screens() {
    for screen in SCREENS {
        let default = |code, held| event_on(AppMode::Default, screen, code, held);
        assert_eq!(default(KeyCode::Char('1'), Held::Other), "Screen(Group)");
        assert_eq!(default(KeyCode::Char('2'), Held::Other), "Screen(Library)");
        assert_eq!(default(KeyCode::Char('?'), Held::Other), "Screen(Help)");
        assert_eq!(default(KeyCode::Char('?'), Held::Shift), "Screen(Help)");
    }
}

#[test]
fn playback_keys_work_on_every_screen() {
    for screen in SCREENS {
        let default = |code, held| event_on(AppMode::Default, screen, code, held);
        assert_eq!(default(KeyCode::Char('p'), Held::Other), "Playback(Pause)");
        assert_eq!(default(KeyCode::Char('s'), Held::Other), "Playback(Stop)");
        assert_eq!(default(KeyCode::Left, Held::Shift), "Playback(SeekBackward)");
        assert_eq!(default(KeyCode::Right, Held::Shift), "Playback(SeekForward)");
        assert_eq!(default(KeyCode::Left, Held::Other), "ignore");
        assert_eq!(default(KeyCode::Right, Held::Control), "ignore");
    }
}

#[test]
fn navigation_keys_work_in_the_library() {
    let keys = [
        (KeyCode::Up, "Navigate(Up)"),
        (KeyCode::Down, "Navigate(Down)"),
        (KeyCode::PageUp, "Navigate(PageUp)"),
        (KeyCode::PageDown, "Navigate(PageDown)"),
        (KeyCode::Home, "Navigate(First)"),
        (KeyCode::End, "Navigate(Last)"),
        (KeyCode::Char(' '), "Navigate(Toggle)"),
    ];
    for (code, event) in keys {
        let default = |screen| event_on(AppMode::Default, screen, code, Held::Other);
        assert_eq!(default(AppScreen::Library), event);
        assert_eq!(default(AppScreen::Group), "ignore");
        assert_eq!(default(AppScreen::Help), "ignore");
    }
}

#[test]
fn typing_goes_to_the_prompt() {
    for screen in SCREENS {
        for code in [KeyCode::Char('q'), KeyCode::Char('?'), KeyCode::Esc, KeyCode::Up] {
            assert_eq!(event_on(AppMode::Command, screen, code, Held::Other), "prompt");
        }
    }
}

#[test]
fn effects_are_told() {
    let mut app = App::new();
    for control in [
        Control::Pause,
        Control::Stop,
        Control::SeekBackward,
        Control::SeekForward,
    ] {
        assert_eq!(
            app.handle_app_events(AppEvent::Playback(control)),
            Effect::Playback(control)
        );
    }
    assert_eq!(
        app.handle_app_events(AppEvent::Navigate(Navigation::Last)),
        Effect::Navigate(Navigation::Last)
    );
    assert!(app.running);
    assert_eq!(app.mode, AppMode::Default);
}

#[test]
fn prompt_is_left_when_done_or_aborted() {
    let step = after_prompt(PromptStatus::Pending);
    assert!(!step.run && !step.exit);
    let step = after_prompt(PromptStatus::Aborted);
    assert!(!step.run && step.exit);
    let step = after_prompt(PromptStatus::Done);
    assert!(step.run && step.exit);
}

#[test]
fn app_events_change_the_state() {
    let mut app = App::new();
    assert!(app.running);
    assert_eq!(app.mode, AppMode::default());
    assert_eq!(app.screen, AppScreen::default());
    assert_eq!(app.handle_app_events(AppEvent::CommandMode), Effect::FocusPrompt);
    assert_eq!(app.mode, AppMode::Command);
    assert_eq!(app.handle_app_events(AppEvent::ExitMode), Effect::ResetPrompt);
    assert_eq!(app.mode, AppMode::Default);
    assert_eq!(
        app.handle_app_events(AppEvent::Screen(AppScreen::Library)),
        Effect::Nothing
    );
    assert_eq!(app.screen, AppScreen::Library);
    app.handle_app_events(AppEvent::Log("one".to_string()));
    app.handle_app_events(AppEvent::Log("two".to_string()));
    assert_eq!(app.messages, vec!["one", "two"]);
    app.handle_app_events(AppEvent::PollProtocolState(ProtocolState {
        peers: vec![id(1)],
        group: None,
    }));
    assert_eq!(app.protocol_state.peers, vec![id(1)]);
    assert!(app.running);
    app.handle_app_events(AppEvent::Exit);
    assert!(!app.running);
}

#[test]
fn commands_are_read() {
    assert_eq!(App::handle_command("q"), Ok(Command::Quit));
    assert_eq!(App::handle_command("  cg  "), Ok(Command::CreateGroup));
    assert_eq!(App::handle_command("d"), Ok(Command::Debug));
    assert_eq!(App::handle_command("p\t42"), Ok(Command::Download(42)));
    assert_eq!(App::handle_command("p +7"), Ok(Command::Download(7)));
    assert_eq!(App::handle_command("q and more"), Ok(Command::Quit));
    let name = iroh_base::PublicKey::from_bytes(&id(3).bytes).unwrap().to_string();
    assert_eq!(App::handle_command(&format!("r {name}")), Ok(Command::Remove(id(3))));
    assert_eq!(App::handle_command(&format!("remove {name}")), Ok(Command::Remove(id(3))));
    let code = make_join_code(id(3), 99);
    let join = Command::Join { node_id: id(3), code: 99 };
    assert_eq!(App::handle_command(&format!("j {code}")), Ok(join));
    assert_eq!(App::handle_command(&format!("join {code}")), Ok(join));
    assert_eq!(App::handle_command(&format!(" join\t{code} ")), Ok(join));
    assert_eq!(read_words(&vec!["j".to_string(), code.clone()]), Ok(join));
    assert_eq!(read_words(&vec!["join".to_string(), code]), Ok(join));
}

#[test]
fn commands_that_are_none_are_refused() {
    assert_eq!(App::handle_command(""), Err(CommandError::Empty));
    assert_eq!(App::handle_command(" \t\u{a0}\u{3000}"), Err(CommandError::Empty));
    assert_eq!(App::handle_command("x"), Err(CommandError::Unknown));
    assert_eq!(
        App::handle_command("join code"),
        Err(CommandError::JoinCode(JoinCodeError::WrongLength))
    );
    assert_eq!(App::handle_command("join"), Err(CommandError::Arguments));
    assert_eq!(App::handle_command("joins code"), Err(CommandError::Unknown));
    assert_eq!(App::handle_command("j"), Err(CommandError::Arguments));
    assert_eq!(App::handle_command("j a b"), Err(CommandError::Arguments));
    assert_eq!(App::handle_command("r"), Err(CommandError::Arguments));
    assert_eq!(App::handle_command("p"), Err(CommandError::Arguments));
    assert!(matches!(App::handle_command("r xyz"), Err(CommandError::NodeId(_))));
    assert_eq!(
        App::handle_command("p xyz"),
        Err(CommandError::FileHash(NumberError::InvalidDigit))
    );
    assert_eq!(
        App::handle_command("p -1"),
        Err(CommandError::FileHash(NumberError::InvalidDigit))
    );
    assert_eq!(
        App::handle_command("p 18446744073709551616"),
        Err(CommandError::FileHash(NumberError::TooLarge))
    );
    assert_eq!(
        App::handle_command("j !"),
        Err(CommandError::JoinCode(JoinCodeError::Undecodable(
            "Invalid symbol 33, offset 0.".to_string()
        )))
    );
    assert_eq!(
        App::handle_command("j AAAA"),
        Err(CommandError::JoinCode(JoinCodeError::WrongLength))
    );
}

#[test]
fn join_codes_are_one_plain_word() {
    for n in 1..20 {
        let code = make_join_code(id(n), u64::from(n) * 0x0123_4567_89ab_cdef % 0xffff_ffff);
        assert!(!code.is_empty());
        assert!(code.chars().all(|c| c.is_ascii_alphanumeric() || c == '+' || c == '/'));
    }
}

#[test]
fn command_errors_are_told() {
    assert_eq!(CommandError::Empty.message(""), "no command");
    assert_eq!(CommandError::Arguments.message("j"), "expected 1 argument");
    assert_eq!(
        CommandError::JoinCode(JoinCodeError::WrongLength).message("j AAAA"),
        "wrong length for join code"
    );
    assert_eq!(
        CommandError::NodeId("invalid length".to_string()).message("r x"),
        "failed to parse node id: invalid length"
    );
    assert_eq!(
        CommandError::FileHash(NumberError::Empty).message("p x"),
        "failed to parse file hash: cannot parse integer from empty string"
    );
    assert_eq!(CommandError::Unknown.message("x y"), "unknown command: x y");
}

#[test]
fn commands_are_refused_with_their_cause() {
    let told = |command: &str| App::handle_command(command).unwrap_err().message(command);
    assert_eq!(
        told("j !"),
        "failed to decode join code: Invalid symbol 33, offset 0."
    );
    assert_eq!(told("join AAAA"), "wrong length for join code");
    assert_eq!(
        told("p x"),
        "failed to parse file hash: invalid digit found in string"
    );
    assert_eq!(
        told("p 18446744073709551616"),
        "failed to parse file hash: number too large to fit in target type"
    );
    for name in ["xyz", "01", &"z".repeat(64)] {
        let outside = name.parse::<iroh_base::PublicKey>().unwrap_err();
        let expected = anyhow::Error::new(outside).context("failed to parse node id");
        assert_eq!(told(&format!("r {name}")), format!("{expected:#}"));
    }
}

#[test]
fn commands_are_announced() {
    let name = iroh_base::PublicKey::from_bytes(&id(3).bytes).unwrap().to_string();
    assert_eq!(Command::Quit.announcement(), None);
    assert_eq!(Command::Debug.announcement(), None);
    assert_eq!(Command::CreateGroup.announcement().unwrap(), "creating group");
    assert_eq!(
        Command::Join { node_id: id(3), code: 99 }.announcement().unwrap(),
        format!("joining {name} with code 99")
    );
    assert_eq!(
        Command::Remove(id(3)).announcement().unwrap(),
        format!("removing {name}")
    );
    assert_eq!(
        Command::Download(5).announcement().unwrap(),
        "attempting to download 5"
    );
}

#[test]
fn arguments_name_a_profile() {
    assert_eq!(parse_args(&vec![]), Ok(None));
    assert_eq!(parse_args(&vec!["bob".to_string()]), Ok(Some("bob".to_string())));
    assert!(parse_args(&vec!["a".to_string(), "b".to_string()]).is_err());
}

#[test]
fn profiles_have_files() {
    assert_eq!(profile_path("bob"), "./data/bob/profile.json");
    let named = Profile::new(Some("bob".to_string()));
    assert_eq!(
        named.save_paths(),
        Some(("./data/bob".to_string(), "./data/bob/profile.json".to_string()))
    );
    assert_ne!(profile_path("bob"), profile_path("alice"));
    assert!(Profile::new(None).save_paths().is_none());
    assert!(named.library_roots.is_empty());
    assert!(named.group.is_none());
}

#[test]
fn profile_is_loaded_or_new() {
    let known = Profile::new(Some("bob".to_string()));
    let id = known.secret_key.public();
    let loaded = Profile::loaded_or_new(Some(known), "alice");
    assert_eq!(loaded.name.as_deref(), Some("bob"));
    assert_eq!(loaded.secret_key.public(), id);
    let new = Profile::loaded_or_new(None, "alice");
    assert_eq!(new.name.as_deref(), Some("alice"));
    assert_ne!(new.secret_key.public(), id);
}

#[test]
fn player_follows_commands() {
    let mut player = Player::new();
    assert!(player.track().is_none());
    assert!(!player.stop());
    assert_eq!(player.pause(false), PauseAction::Nothing);
    assert_eq!(player.seek(true, false), SeekAction::Nothing);

    player.load("song".to_string(), id(1), Some(1000));
    let track = player.track().unwrap();
    assert_eq!(track.label, "song");
    assert_eq!(track.peer, id(1));
    assert_eq!(track.duration, Some(1000));
    assert_eq!(player.duration(), Some(1000));
    assert_eq!(player.pause(false), PauseAction::Pause);
    assert_eq!(player.pause(true), PauseAction::Play);
    assert_eq!(player.seek(true, true), SeekAction::ToStart);
    assert_eq!(player.seek(false, false), SeekAction::ToPosition);
    assert!(player.track().is_some());
    assert_eq!(player.seek(false, true), SeekAction::Stop);
    assert!(player.track().is_none());

    player.load("other".to_string(), id(2), None);
    assert!(player.stop());
    assert!(player.track().is_none());
}
