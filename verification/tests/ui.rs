use aster::app::AppScreen;
use aster::key::{NodeId, SecretKey};
use aster::library::{build_tree, library_screen, TreeNode};
use aster::proto::{ProtocolGroupState, ProtocolState};
use aster::sort::{is_text_before, sort_texts};
use aster::text::{
    join, parse_number, put_together, repeat, split, to_decimal, to_hex, NumberError, Separator,
};
use aster::ui::{
    audio_instructions, audio_line, help_lines, instructions, layout, library_instructions,
    progress_line, shorten_id, status_lines, tab_titles, HomeRelay, Position, Row, Span, Style,
};

fn id(n: u8) -> NodeId {
    SecretKey::from_bytes(&[n; 32]).public()
}

fn outside_name(node: NodeId) -> String {
    iroh_base::PublicKey::from_bytes(&node.bytes).unwrap().to_string()
}

fn plain(line: &[Span]) -> String {
    line.iter().map(|span| span.text.as_str()).collect()
}

fn styles(line: &[Span]) -> Vec<Style> {
    line.iter().map(|span| span.style).collect()
}

fn strings(list: &[&str]) -> Vec<String> {
    list.iter().map(|s| s.to_string()).collect()
}

#[test]
fn text_is_split() {
    assert_eq!(
        split("  a bc\t\nd ", Separator::White),
        "  a bc\t\nd ".split_whitespace().collect::<Vec<_>>()
    );
    assert_eq!(split("a\u{2003}b\u{85}c", Separator::White), vec!["a", "b", "c"]);
    assert_eq!(split("/a//b/", Separator::Slash), vec!["a", "b"]);
    assert_eq!(split("a b", Separator::Slash), vec!["a b"]);
    assert!(split("", Separator::White).is_empty());
    assert!(split("//", Separator::Slash).is_empty());
}

#[test]
fn numbers_are_read_and_written() {
    for n in [0, 9, 10, 42, 12345, u64::MAX] {
        assert_eq!(to_decimal(n), n.to_string());
        assert_eq!(parse_number(&n.to_string()), Ok(n));
    }
    for text in [
        "",
        "+",
        "-",
        "-1",
        "1 ",
        " 1",
        "1_000",
        "a",
        "18446744073709551616",
        "+18446744073709551616",
        "18446744073709551615x",
        "18446744073709551616x",
        "1844674407370955161x6",
        "99999999999999999999999",
        "++1",
        "0x1",
        "\u{661}",
    ] {
        let told = text.parse::<u64>().unwrap_err().to_string();
        assert_eq!(parse_number(text).unwrap_err().message(), told);
    }
    assert_eq!(parse_number(""), Err(NumberError::Empty));
    assert_eq!(parse_number("-1"), Err(NumberError::InvalidDigit));
    assert_eq!(parse_number("18446744073709551616"), Err(NumberError::TooLarge));
    for text in ["+5", "007", "00000000000000000000000001"] {
        assert_eq!(parse_number(text), Ok(text.parse::<u64>().unwrap()));
    }
}

#[test]
fn bytes_are_written_in_hexadecimal() {
    assert_eq!(to_hex(&[0, 1, 0xab, 0xff]), "0001abff");
    assert_eq!(to_hex(&id(1).bytes), outside_name(id(1)));
    assert_eq!(to_hex(&[]), "");
}

#[test]
fn texts_are_put_together() {
    assert_eq!(put_together("a", "b"), "ab");
    assert_eq!(join(&strings(&["a", "b", "c"]), ", "), "a, b, c");
    assert_eq!(join(&strings(&["a"]), ", "), "a");
    assert_eq!(join(&vec![], ", "), "");
    assert_eq!(repeat('━', 3), "━━━");
    assert_eq!(repeat('x', 0), "");
}

#[test]
fn texts_are_sorted() {
    let words = ["b", "", "ab", "a", "b", "é", "z", "abc"];
    let mut expected = strings(&words);
    expected.sort();
    assert_eq!(sort_texts(strings(&words)), expected);
    assert!(is_text_before("a", "ab"));
    assert!(is_text_before("ab", "b"));
    assert!(!is_text_before("a", "a"));
    assert!(!is_text_before("b", "ab"));
}

#[test]
fn identifiers_are_shortened() {
    let mut expected = outside_name(id(1));
    expected.truncate(6);
    expected.push_str("..");
    assert_eq!(shorten_id(id(1)), expected);
}

#[test]
fn screen_is_laid_out() {
    let rows = layout(false, false);
    assert_eq!(rows.rows, vec![Row::Lines(1), Row::Rest]);
    assert_eq!((rows.audio, rows.command), (None, None));
    let rows = layout(true, false);
    assert_eq!(rows.rows, vec![Row::Lines(1), Row::Rest, Row::Lines(4)]);
    assert_eq!((rows.audio, rows.command), (Some(2), None));
    let rows = layout(false, true);
    assert_eq!(rows.rows, vec![Row::Lines(1), Row::Rest, Row::Lines(3)]);
    assert_eq!((rows.audio, rows.command), (None, Some(2)));
    let rows = layout(true, true);
    assert_eq!(
        rows.rows,
        vec![Row::Lines(1), Row::Rest, Row::Lines(4), Row::Lines(3)]
    );
    assert_eq!((rows.audio, rows.command), (Some(2), Some(3)));
}

#[test]
fn selected_tab_is_marked() {
    let titles: Vec<String> = tab_titles(AppScreen::Library).iter().map(|t| plain(t)).collect();
    assert_eq!(titles, vec!["<1> Group", "[2] Library", "<?> Help"]);
    let titles: Vec<String> = tab_titles(AppScreen::Help).iter().map(|t| plain(t)).collect();
    assert_eq!(titles, vec!["<1> Group", "<2> Library", "[?] Help"]);
    assert_eq!(
        styles(&tab_titles(AppScreen::Group)[0]),
        vec![Style::BlueBold, Style::BlueBold, Style::BlueBold, Style::Plain]
    );
}

#[test]
fn status_is_shown() {
    let state = ProtocolState { peers: vec![id(2), id(1)], group: None };
    let lines = status_lines(&Some("bob".to_string()), id(1), &HomeRelay::Pending, &state);
    let shown: Vec<String> = lines.iter().map(|l| plain(l)).collect();
    assert_eq!(
        shown,
        vec![
            "Profile: bob".to_string(),
            format!("Node ID: {}", outside_name(id(1))),
            "Home Relay: ...".to_string(),
            String::new(),
            format!("Connected Peers: {}, {}", shorten_id(id(2)), shorten_id(id(1))),
        ]
    );
    assert_eq!(styles(&lines[0]), vec![Style::Plain, Style::Yellow]);
}

#[test]
fn group_is_shown_with_sorted_members() {
    let mut expected = vec![shorten_id(id(1)), shorten_id(id(2)), shorten_id(id(3))];
    expected.sort();
    let state = ProtocolState {
        peers: vec![],
        group: Some(ProtocolGroupState {
            join_code: "code".to_string(),
            id: 42,
            members: vec![id(1), id(2), id(3)],
        }),
    };
    let relay = HomeRelay::At("relay".to_string());
    let lines = status_lines(&None, id(1), &relay, &state);
    let shown: Vec<String> = lines.iter().map(|l| plain(l)).collect();
    assert_eq!(shown.len(), 10);
    assert_eq!(shown[0], "Profile: None");
    assert_eq!(shown[2], "Home Relay: relay");
    assert_eq!(shown[4], "Connected Peers: ");
    assert_eq!(shown[6], "Group ID: 42");
    assert_eq!(shown[7], format!("Group Members: {}", expected.join(", ")));
    assert_eq!(shown[9], "Join Code: code");
    assert_eq!(HomeRelay::Missing.shown(), "None");
}

#[test]
fn playback_is_shown() {
    let at = |minutes, seconds| Position { minutes, seconds };
    let line = audio_line(false, at(1, 5), at(12, 34), "song", id(1), id(1));
    assert_eq!(plain(&line), " ⏵ 1:05 / 12:34 song (local library)");
    let line = audio_line(true, at(0, 0), at(0, 59), "song", id(2), id(1));
    assert_eq!(
        plain(&line),
        format!(" ⏸ 0:00 / 0:59 song (streaming from {})", shorten_id(id(2)))
    );
    assert_eq!(line[1].style, Style::Blue);
    assert_eq!(line[9].style, Style::Green);
}

#[test]
fn progress_is_shown() {
    let line = progress_line(16, 3).unwrap();
    assert_eq!(plain(&line), " ┣━━━━━━━━━━┫");
    assert_eq!(line[2].text, "━━━");
    assert_eq!(line[3].text, "━━━━━━━");
    assert_eq!(line[4].style, Style::White);
    let line = progress_line(16, 99).unwrap();
    assert_eq!(line[2].text.chars().count(), 10);
    assert_eq!(line[3].text, "");
    assert_eq!(line[4].style, Style::Blue);
    assert!(progress_line(5, 0).is_none());
    assert_eq!(plain(&progress_line(6, 0).unwrap()), " ┣┫");
}

#[test]
fn instructions_are_shown() {
    assert_eq!(plain(&instructions()), " Command <:> Quit <q> ");
    assert_eq!(plain(&audio_instructions()), " Pause <p> Stop <s> Seek <shift + ←/→>");
    assert_eq!(plain(&library_instructions()), " Navigate <↑ ↓ space>");
}

#[test]
fn help_is_shown() {
    let shown: Vec<String> = help_lines().iter().map(|l| plain(l)).collect();
    assert_eq!(
        shown,
        vec![
            "Navigation",
            " - <1> and <2> to change screens.",
            " - <:> to open the command prompt.",
            " - <q> or <ctrl + c> to quit.",
            "",
            "Group Management",
            " - `:cg` to create a group.",
            " - `:join <join code>` to join a group.",
            "",
            "Library Screen",
            " - <↑> <↓> <PgUp> <PgDn> <Home> <End> <space> to navigate.",
            "",
            "Playback",
            " - <p> to pause.",
            " - <s> to stop.",
            " - <shift + ←> <shift + →> to seek.",
        ]
    );
}

fn outline(nodes: &[TreeNode], depth: usize, out: &mut Vec<String>) {
    for node in nodes {
        out.push(format!(
            "{}{} [{}]{}",
            "  ".repeat(depth),
            node.label,
            node.path,
            if node.is_leaf { " leaf" } else { "" }
        ));
        outline(&node.children, depth + 1, out);
    }
}

fn files(root: &str, list: &[&str]) -> (String, Vec<String>) {
    (root.to_string(), strings(list))
}

#[test]
fn files_make_a_tree() {
    let roots = vec![
        files("/music", &["a/x.mp3", "/a//y.mp3", "z.mp3", "a/x.mp3"]),
        files("more", &["z.mp3"]),
    ];
    let mut shown = vec![];
    outline(&build_tree(&roots), 0, &mut shown);
    assert_eq!(
        shown,
        vec![
            "/music [/music]",
            "  a [/music/a]",
            "    x.mp3 [/music/a/x.mp3] leaf",
            "    y.mp3 [/music/a/y.mp3] leaf",
            "  z.mp3 [/music/z.mp3] leaf",
            "more [more]",
            "  z.mp3 [more/z.mp3] leaf",
        ]
    );
}

#[test]
fn odd_paths_make_trees_too() {
    let mut shown = vec![];
    outline(&build_tree(&vec![files("", &["a/b"])]), 0, &mut shown);
    assert_eq!(shown, vec![" []", "  a [a]", "    b [a/b] leaf"]);
    shown.clear();
    outline(&build_tree(&vec![files("r", &["", "a", "a/b"])]), 0, &mut shown);
    assert_eq!(shown, vec!["r [r] leaf", "  a [r/a] leaf", "    b [r/a/b] leaf"]);
    assert!(build_tree(&vec![files("r", &[])]).is_empty());
}

#[test]
fn library_shows_local_files_first() {
    let remote = vec![(id(2), vec![files("r", &["b"])]), (id(3), vec![])];
    let shown = library_screen(id(1), &vec![files("l", &["a"])], &remote);
    assert_eq!(shown.len(), 3);
    assert_eq!(shown[0].label, "Local Files");
    assert_eq!(shown[0].node_id, id(1));
    assert_eq!(shown[0].children[0].children[0].path, "l/a");
    assert_eq!(shown[1].label, format!("Remote Files on {}", outside_name(id(2))));
    assert_eq!(shown[1].node_id, id(2));
    assert_eq!(shown[1].children[0].path, "r");
    assert!(shown[2].children.is_empty());
}
