//! What the terminal shows.

use crate::app::AppScreen;
use crate::key::NodeId;
use crate::proto::{ProtocolGroupState, ProtocolState};
use crate::sort::{is_sorted_of, sort_texts, text_before};
use crate::text::{
    decimal, hex, hex_len, hex_prefix, join, joined, put_together, repeat, texts, to_decimal,
    to_hex,
};
use vstd::prelude::*;

verus! {

/// How a piece of text looks.
#[derive(Debug, Clone, Copy, PartialEq, Eq, Structural)]
pub enum Style {
    Plain,
    Bold,
    Blue,
    BlueBold,
    Yellow,
    Green,
    White,
}

/// A piece of text that looks the same all over.
#[derive(Debug)]
pub struct Span {
    pub text: String,
    pub style: Style,
}

/// A line as a value of the model.
pub type Line = Seq<(Seq<char>, Style)>;

/// The value of a line.
pub open spec fn line_of(spans: Seq<Span>) -> Line {
    spans.map_values(|s: Span| (s.text@, s.style))
}

/// The values of lines.
pub open spec fn lines_of(lines: Seq<Vec<Span>>) -> Seq<Line> {
    lines.map_values(|l: Vec<Span>| line_of(l@))
}

/// Makes a line of pieces.
fn line(pieces: &[(&str, Style)]) -> (spans: Vec<Span>)
    ensures
        line_of(spans@) == pieces@.map_values(|p: (&str, Style)| (p.0@, p.1)),
{
    let mut spans: Vec<Span> = Vec::new();
    let mut i: usize = 0;
    while i < pieces.len()
        invariant
            i <= pieces@.len(),
            spans@.len() == i,
            forall|j: int|
                0 <= j < i ==> (#[trigger] spans@[j]).text@ == pieces@[j].0@ && spans@[j].style
                    == pieces@[j].1,
        decreases pieces@.len() - i,
    {
        spans.push(Span { text: pieces[i].0.to_string(), style: pieces[i].1 });
        i = i + 1;
    }
    assert(line_of(spans@) =~= pieces@.map_values(|p: (&str, Style)| (p.0@, p.1)));
    spans
}

/// A row of the layout.
#[derive(Debug, Clone, Copy, PartialEq, Eq, Structural)]
pub enum Row {
    /// So many lines.
    Lines(u16),
    /// What is left.
    Rest,
}

/// The rows of the screen, and which of them are for what. The header is the
/// first row, and the screen proper the second.
#[derive(Debug)]
pub struct Rows {
    pub rows: Vec<Row>,
    pub audio: Option<usize>,
    pub command: Option<usize>,
}

/// Lays out the screen: a header, the screen proper, and rows for playback and
/// for the command prompt where they are shown.
pub fn layout(show_audio: bool, show_command: bool) -> (layout: Rows)
    ensures
        layout.rows@ == seq![Row::Lines(1), Row::Rest] + (if show_audio {
            seq![Row::Lines(4)]
        } else {
            Seq::empty()
        }) + (if show_command {
            seq![Row::Lines(3)]
        } else {
            Seq::empty()
        }),
        layout.audio == if show_audio {
            Some(2usize)
        } else {
            None
        },
        layout.command == if show_command {
            Some((layout.rows@.len() - 1) as usize)
        } else {
            None
        },
        layout.rows@[0] == Row::Lines(1),
        layout.rows@[1] == Row::Rest,
        layout.audio is Some <==> show_audio,
        layout.audio matches Some(at) ==> at < layout.rows@.len() && layout.rows@[at as int]
            == Row::Lines(4),
        layout.command is Some <==> show_command,
        layout.command matches Some(at) ==> at < layout.rows@.len() && layout.rows@[at as int]
            == Row::Lines(3),
        show_audio && show_command ==> layout.rows@.len() == 4,
        show_audio != show_command ==> layout.rows@.len() == 3,
        !show_audio && !show_command ==> layout.rows@.len() == 2,
{
    let mut rows: Vec<Row> = Vec::new();
    rows.push(Row::Lines(1));
    rows.push(Row::Rest);
    let audio = if show_audio {
        let at = rows.len();
        rows.push(Row::Lines(4));
        Some(at)
    } else {
        None
    };
    let command = if show_command {
        let at = rows.len();
        rows.push(Row::Lines(3));
        Some(at)
    } else {
        None
    };
    assert(rows@ =~= seq![Row::Lines(1), Row::Rest] + (if show_audio {
        seq![Row::Lines(4)]
    } else {
        Seq::empty()
    }) + (if show_command {
        seq![Row::Lines(3)]
    } else {
        Seq::empty()
    }));
    Rows { rows, audio, command }
}

/// The title of a tab: its key in square brackets where it is selected, else
/// in angle brackets, and its name.
pub open spec fn tab_of(selected: bool, key: Seq<char>, name: Seq<char>) -> Line {
    seq![
        (
            if selected {
                "["@
            } else {
                "<"@
            },
            Style::BlueBold,
        ),
        (key, Style::BlueBold),
        (
            if selected {
                "] "@
            } else {
                "> "@
            },
            Style::BlueBold,
        ),
        (name, Style::Plain),
    ]
}

/// The title of a tab.
fn tab(selected: bool, key: &str, name: &str) -> (title: Vec<Span>)
    ensures
        line_of(title@) == tab_of(selected, key@, name@),
{
    let open = if selected { "[" } else { "<" };
    let close = if selected { "] " } else { "> " };
    let title = line(
        &[
            (open, Style::BlueBold),
            (key, Style::BlueBold),
            (close, Style::BlueBold),
            (name, Style::Plain),
        ],
    );
    assert(line_of(title@) =~= tab_of(selected, key@, name@));
    title
}

/// The titles of the tabs.
pub fn tab_titles(screen: AppScreen) -> (titles: Vec<Vec<Span>>)
    ensures
        lines_of(titles@) == seq![
            tab_of(screen is Group, "1"@, "Group"@),
            tab_of(screen is Library, "2"@, "Library"@),
            tab_of(screen is Help, "?"@, "Help"@),
        ],
{
    let mut titles: Vec<Vec<Span>> = Vec::new();
    titles.push(tab(screen == AppScreen::Group, "1", "Group"));
    titles.push(tab(screen == AppScreen::Library, "2", "Library"));
    titles.push(tab(screen == AppScreen::Help, "?", "Help"));
    assert(lines_of(titles@) =~= seq![
        tab_of(screen is Group, "1"@, "Group"@),
        tab_of(screen is Library, "2"@, "Library"@),
        tab_of(screen is Help, "?"@, "Help"@),
    ]);
    titles
}

/// A short form of a node identifier: six digits, and two dots.
pub open spec fn short_id(node_id: NodeId) -> Seq<char> {
    hex(node_id.bytes@).take(6) + ".."@
}

/// A short form of a node identifier.
pub fn shorten_id(node_id: NodeId) -> (short: String)
    ensures
        short@ == short_id(node_id),
{
    let head = [node_id.bytes[0], node_id.bytes[1], node_id.bytes[2]];
    let digits = to_hex(head.as_slice());
    proof {
        hex_prefix(node_id.bytes@, 3);
        assert(head@ =~= node_id.bytes@.take(3));
    }
    put_together(digits.as_str(), "..")
}

/// The short forms of node identifiers.
pub open spec fn short_ids(nodes: Seq<NodeId>) -> Seq<Seq<char>> {
    nodes.map_values(|n: NodeId| short_id(n))
}

/// The short forms of node identifiers.
fn shorten_all(nodes: &Vec<NodeId>) -> (list: Vec<String>)
    ensures
        texts(list@) == short_ids(nodes@),
{
    let mut list: Vec<String> = Vec::new();
    let mut i: usize = 0;
    while i < nodes.len()
        invariant
            i <= nodes@.len(),
            list@.len() == i,
            forall|j: int| 0 <= j < i ==> (#[trigger] list@[j])@ == short_id(nodes@[j]),
        decreases nodes@.len() - i,
    {
        list.push(shorten_id(nodes[i]));
        i = i + 1;
    }
    assert(texts(list@) =~= short_ids(nodes@));
    list
}

/// What is known of the relay of a node.
#[derive(Debug)]
pub enum HomeRelay {
    /// Nothing yet.
    Pending,
    /// There is none.
    Missing,
    /// Its address.
    At(String),
}

impl HomeRelay {
    /// How it is shown.
    pub open spec fn text(self) -> Seq<char> {
        match self {
            HomeRelay::Pending => "..."@,
            HomeRelay::Missing => "None"@,
            HomeRelay::At(address) => address@,
        }
    }

    /// How it is shown.
    pub fn shown(&self) -> (text: String)
        ensures
            text@ == self.text(),
    {
        match self {
            HomeRelay::Pending => "...".to_string(),
            HomeRelay::Missing => "None".to_string(),
            HomeRelay::At(address) => address.clone(),
        }
    }
}

/// A line with a label and a value.
pub open spec fn labelled(label: Seq<char>, value: Seq<char>) -> Line {
    seq![(label, Style::Plain), (value, Style::Yellow)]
}

/// A line with nothing on it.
pub open spec fn blank() -> Line {
    seq![(""@, Style::Plain)]
}

/// The lines of the status that do not depend on the group.
pub open spec fn node_lines(
    profile: Seq<char>,
    node_id: NodeId,
    home_relay: Seq<char>,
    peers: Seq<NodeId>,
) -> Seq<Line> {
    seq![
        labelled("Profile: "@, profile),
        labelled("Node ID: "@, hex(node_id.bytes@)),
        labelled("Home Relay: "@, home_relay),
        blank(),
        labelled("Connected Peers: "@, joined(short_ids(peers), ", "@)),
    ]
}

/// The lines of the status that show the group, with its members in order.
pub open spec fn group_lines(group: ProtocolGroupState, members: Seq<Seq<char>>) -> Seq<Line> {
    seq![
        blank(),
        labelled("Group ID: "@, decimal(group.id as nat)),
        labelled("Group Members: "@, joined(members, ", "@)),
        blank(),
        labelled("Join Code: "@, group.join_code@),
    ]
}

/// Whether lines are the status of a node.
pub open spec fn status_of(
    lines: Seq<Line>,
    profile: Seq<char>,
    node_id: NodeId,
    home_relay: Seq<char>,
    state: ProtocolState,
) -> bool {
    let first = node_lines(profile, node_id, home_relay, state.peers@);
    match state.group {
        None => lines == first,
        Some(group) => exists|members: Seq<Seq<char>>| #[trigger]
            is_sorted_of(members, short_ids(group.members@)) && lines == first + group_lines(
                group,
                members,
            ),
    }
}

/// The lines of the status.
pub fn status_lines(
    profile_name: &Option<String>,
    node_id: NodeId,
    home_relay: &HomeRelay,
    state: &ProtocolState,
) -> (lines: Vec<Vec<Span>>)
    ensures
        status_of(
            lines_of(lines@),
            (match *profile_name {
                Some(name) => name@,
                None => "None"@,
            }),
            node_id,
            home_relay.text(),
            *state,
        ),
{
    let profile = match profile_name {
        Some(name) => name.clone(),
        None => "None".to_string(),
    };
    let id = to_hex(node_id.bytes.as_slice());
    let relay = home_relay.shown();
    let short_peers = shorten_all(&state.peers);
    let peers = join(&short_peers, ", ");
    let mut lines: Vec<Vec<Span>> = Vec::new();
    lines.push(label_line("Profile: ", &profile));
    lines.push(label_line("Node ID: ", &id));
    lines.push(label_line("Home Relay: ", &relay));
    lines.push(blank_line());
    lines.push(label_line("Connected Peers: ", &peers));
    let ghost first = node_lines(profile@, node_id, home_relay.text(), state.peers@);
    assert(lines_of(lines@) =~= first);
    match &state.group {
        None => {},
        Some(group) => {
            let sorted = sort_texts(shorten_all(&group.members));
            let members = join(&sorted, ", ");
            let number = to_decimal(group.id);
            lines.push(blank_line());
            lines.push(label_line("Group ID: ", &number));
            lines.push(label_line("Group Members: ", &members));
            lines.push(blank_line());
            lines.push(label_line("Join Code: ", &group.join_code));
            proof {
                assert(is_sorted_of(texts(sorted@), short_ids(group.members@)));
                assert(lines_of(lines@) =~= first + group_lines(*group, texts(sorted@)));
            }
        },
    }
    lines
}

/// A line with a label and a value.
fn label_line(label: &str, value: &String) -> (spans: Vec<Span>)
    ensures
        line_of(spans@) == labelled(label@, value@),
{
    let spans = line(&[(label, Style::Plain), (value.as_str(), Style::Yellow)]);
    assert(line_of(spans@) =~= labelled(label@, value@));
    spans
}

/// A line with nothing on it.
fn blank_line() -> (spans: Vec<Span>)
    ensures
        line_of(spans@) == blank(),
{
    let spans = line(&[("", Style::Plain)]);
    assert(line_of(spans@) =~= blank());
    spans
}

/// Minutes and seconds: the minutes, a colon, and the seconds in at least two
/// digits.
pub open spec fn clock_text(minutes: u64, seconds: u64) -> Seq<char> {
    decimal(minutes as nat) + ":"@ + (if seconds < 10 {
        "0"@ + decimal(seconds as nat)
    } else {
        decimal(seconds as nat)
    })
}

/// Minutes and seconds.
fn show_clock(minutes: u64, seconds: u64) -> (text: String)
    ensures
        text@ == clock_text(minutes, seconds),
{
    let mut text = to_decimal(minutes);
    text.append(":");
    if seconds < 10 {
        text.append("0");
    }
    let digits = to_decimal(seconds);
    text.append(digits.as_str());
    assert(text@ =~= clock_text(minutes, seconds));
    text
}

/// A position in a track, in whole minutes and seconds.
#[derive(Debug, Clone, Copy, PartialEq, Eq, Structural)]
pub struct Position {
    pub minutes: u64,
    pub seconds: u64,
}

/// Where a track comes from.
pub open spec fn source_text(peer: NodeId, my_id: NodeId) -> Seq<char> {
    if peer == my_id {
        "local library"@
    } else {
        "streaming from "@ + short_id(peer)
    }
}

/// The line that tells what is playing.
pub open spec fn playing_line(
    paused: bool,
    elapsed: Position,
    duration: Position,
    label: Seq<char>,
    source: Seq<char>,
) -> Line {
    seq![
        (" "@, Style::Plain),
        (
            if paused {
                "⏸"@
            } else {
                "⏵"@
            },
            Style::Blue,
        ),
        (" "@, Style::Plain),
        (clock_text(elapsed.minutes, elapsed.seconds), Style::Plain),
        (" / "@, Style::Green),
        (clock_text(duration.minutes, duration.seconds), Style::Plain),
        (" "@, Style::Plain),
        (label, Style::Plain),
        (" ("@, Style::Green),
        (source, Style::Green),
        (")"@, Style::Green),
    ]
}

/// The line that tells what is playing.
pub fn audio_line(
    paused: bool,
    elapsed: Position,
    duration: Position,
    label: &str,
    peer: NodeId,
    my_id: NodeId,
) -> (spans: Vec<Span>)
    ensures
        line_of(spans@) == playing_line(
            paused,
            elapsed,
            duration,
            label@,
            source_text(peer, my_id),
        ),
{
    let icon = if paused { "⏸" } else { "⏵" };
    let elapsed_text = show_clock(elapsed.minutes, elapsed.seconds);
    let duration_text = show_clock(duration.minutes, duration.seconds);
    let source = if peer == my_id {
        "local library".to_string()
    } else {
        let short = shorten_id(peer);
        put_together("streaming from ", short.as_str())
    };
    let spans = line(
        &[
            (" ", Style::Plain),
            (icon, Style::Blue),
            (" ", Style::Plain),
            (elapsed_text.as_str(), Style::Plain),
            (" / ", Style::Green),
            (duration_text.as_str(), Style::Plain),
            (" ", Style::Plain),
            (label, Style::Plain),
            (" (", Style::Green),
            (source.as_str(), Style::Green),
            (")", Style::Green),
        ],
    );
    assert(line_of(spans@) =~= playing_line(
        paused,
        elapsed,
        duration,
        label@,
        source_text(peer, my_id),
    ));
    spans
}

/// The bar that tells how far a track has got: `width` marks, `filled` of them
/// (at most all) blue.
pub open spec fn bar(width: nat, filled: nat) -> Line {
    let left = if filled < width {
        filled
    } else {
        width
    };
    seq![
        (" "@, Style::Plain),
        ("┣"@, Style::Blue),
        (Seq::new(left, |i: int| '━'), Style::Blue),
        (Seq::new((width - left) as nat, |i: int| '━'), Style::White),
        (
            "┫"@,
            if left == width {
                Style::Blue
            } else {
                Style::White
            },
        ),
    ]
}

/// The bar that tells how far a track has got, in an area of the given width,
/// or nothing where the area is too narrow for its frame.
pub fn progress_line(area_width: u16, filled: usize) -> (spans: Option<Vec<Span>>)
    ensures
        spans is Some <==> area_width >= 6,
        spans matches Some(shown) ==> line_of(shown@) == bar(
            (area_width - 6) as nat,
            filled as nat,
        ),
{
    if area_width < 6 {
        return None;
    }
    let width: usize = area_width as usize - 6;
    let left: usize = if filled < width { filled } else { width };
    let done = repeat('━', left);
    let rest = repeat('━', width - left);
    let cap = if left == width { Style::Blue } else { Style::White };
    let spans = line(
        &[
            (" ", Style::Plain),
            ("┣", Style::Blue),
            (done.as_str(), Style::Blue),
            (rest.as_str(), Style::White),
            ("┫", cap),
        ],
    );
    assert(line_of(spans@) =~= bar((area_width - 6) as nat, filled as nat));
    Some(spans)
}

/// The bar is always as wide as its area, but for its frame.
pub proof fn bar_fills_width(width: nat, filled: nat)
    ensures
        bar(width, filled)[2].0.len() + bar(width, filled)[3].0.len() == width,
        bar(width, filled)[4].1 == Style::Blue <==> filled >= width,
{
}

/// What keys do on every screen.
pub fn instructions() -> (spans: Vec<Span>)
    ensures
        line_of(spans@) == seq![
            (" Command "@, Style::Plain),
            ("<:>"@, Style::BlueBold),
            (" Quit "@, Style::Plain),
            ("<q> "@, Style::BlueBold),
        ],
{
    let spans = line(
        &[
            (" Command ", Style::Plain),
            ("<:>", Style::BlueBold),
            (" Quit ", Style::Plain),
            ("<q> ", Style::BlueBold),
        ],
    );
    assert(line_of(spans@) =~= seq![
        (" Command "@, Style::Plain),
        ("<:>"@, Style::BlueBold),
        (" Quit "@, Style::Plain),
        ("<q> "@, Style::BlueBold),
    ]);
    spans
}

/// What keys do to playback.
pub fn audio_instructions() -> (spans: Vec<Span>)
    ensures
        line_of(spans@) == seq![
            (" Pause "@, Style::Plain),
            ("<p>"@, Style::BlueBold),
            (" Stop "@, Style::Plain),
            ("<s>"@, Style::BlueBold),
            (" Seek "@, Style::Plain),
            ("<shift + ←/→>"@, Style::BlueBold),
        ],
{
    let spans = line(
        &[
            (" Pause ", Style::Plain),
            ("<p>", Style::BlueBold),
            (" Stop ", Style::Plain),
            ("<s>", Style::BlueBold),
            (" Seek ", Style::Plain),
            ("<shift + ←/→>", Style::BlueBold),
        ],
    );
    assert(line_of(spans@) =~= seq![
        (" Pause "@, Style::Plain),
        ("<p>"@, Style::BlueBold),
        (" Stop "@, Style::Plain),
        ("<s>"@, Style::BlueBold),
        (" Seek "@, Style::Plain),
        ("<shift + ←/→>"@, Style::BlueBold),
    ]);
    spans
}

/// What keys do on the library screen.
pub fn library_instructions() -> (spans: Vec<Span>)
    ensures
        line_of(spans@) == seq![
            (" Navigate "@, Style::Plain),
            ("<↑ ↓ space>"@, Style::BlueBold),
        ],
{
    let spans = line(&[(" Navigate ", Style::Plain), ("<↑ ↓ space>", Style::BlueBold)]);
    assert(line_of(spans@) =~= seq![
        (" Navigate "@, Style::Plain),
        ("<↑ ↓ space>"@, Style::BlueBold),
    ]);
    spans
}

/// A line of help: a heading.
pub open spec fn heading(text: Seq<char>) -> Line {
    seq![(text, Style::Bold)]
}

/// A line of help: a key or command, and what it is for.
pub open spec fn help_item(key: Seq<char>, use_of: Seq<char>) -> Line {
    seq![(" - "@, Style::Plain), (key, Style::Blue), (use_of, Style::Plain)]
}

/// A line of help: two keys, and what they are for.
pub open spec fn help_pair(
    a: Seq<char>,
    between: Seq<char>,
    b: Seq<char>,
    use_of: Seq<char>,
) -> Line {
    seq![
        (" - "@, Style::Plain),
        (a, Style::Blue),
        (between, Style::Plain),
        (b, Style::Blue),
        (use_of, Style::Plain),
    ]
}

/// The help.
pub open spec fn help() -> Seq<Line> {
    seq![
        heading("Navigation"@),
        help_pair("<1>"@, " and "@, "<2>"@, " to change screens."@),
        help_item("<:>"@, " to open the command prompt."@),
        help_pair("<q>"@, " or "@, "<ctrl + c>"@, " to quit."@),
        blank(),
        heading("Group Management"@),
        help_item("`:cg`"@, " to create a group."@),
        help_item("`:join <join code>`"@, " to join a group."@),
        blank(),
        heading("Library Screen"@),
        help_item("<↑> <↓> <PgUp> <PgDn> <Home> <End> <space>"@, " to navigate."@),
        blank(),
        heading("Playback"@),
        help_item("<p>"@, " to pause."@),
        help_item("<s>"@, " to stop."@),
        help_item("<shift + ←> <shift + →>"@, " to seek."@),
    ]
}

/// The lines of the help screen.
pub fn help_lines() -> (lines: Vec<Vec<Span>>)
    ensures
        lines_of(lines@) == help(),
{
    let mut lines: Vec<Vec<Span>> = Vec::new();
    lines.push(heading_line("Navigation"));
    lines.push(pair_line("<1>", " and ", "<2>", " to change screens."));
    lines.push(item_line("<:>", " to open the command prompt."));
    lines.push(pair_line("<q>", " or ", "<ctrl + c>", " to quit."));
    lines.push(blank_line());
    lines.push(heading_line("Group Management"));
    lines.push(item_line("`:cg`", " to create a group."));
    lines.push(item_line("`:join <join code>`", " to join a group."));
    lines.push(blank_line());
    lines.push(heading_line("Library Screen"));
    lines.push(item_line("<↑> <↓> <PgUp> <PgDn> <Home> <End> <space>", " to navigate."));
    lines.push(blank_line());
    lines.push(heading_line("Playback"));
    lines.push(item_line("<p>", " to pause."));
    lines.push(item_line("<s>", " to stop."));
    lines.push(item_line("<shift + ←> <shift + →>", " to seek."));
    assert(lines_of(lines@) =~= help());
    lines
}

fn heading_line(text: &str) -> (spans: Vec<Span>)
    ensures
        line_of(spans@) == heading(text@),
{
    let spans = line(&[(text, Style::Bold)]);
    assert(line_of(spans@) =~= heading(text@));
    spans
}

fn item_line(key: &str, use_of: &str) -> (spans: Vec<Span>)
    ensures
        line_of(spans@) == help_item(key@, use_of@),
{
    let spans = line(&[(" - ", Style::Plain), (key, Style::Blue), (use_of, Style::Plain)]);
    assert(line_of(spans@) =~= help_item(key@, use_of@));
    spans
}

fn pair_line(a: &str, between: &str, b: &str, use_of: &str) -> (spans: Vec<Span>)
    ensures
        line_of(spans@) == help_pair(a@, between@, b@, use_of@),
{
    let spans = line(
        &[
            (" - ", Style::Plain),
            (a, Style::Blue),
            (between, Style::Plain),
            (b, Style::Blue),
            (use_of, Style::Plain),
        ],
    );
    assert(line_of(spans@) =~= help_pair(a@, between@, b@, use_of@));
    spans
}

/// The values of lines are those of their pieces, in order.
pub proof fn lines_of_items(spans: Seq<Span>, lines: Seq<Vec<Span>>)
    ensures
        line_of(spans).len() == spans.len(),
        forall|i: int|
            0 <= i < spans.len() ==> #[trigger] line_of(spans)[i] == (
                spans[i].text@,
                spans[i].style,
            ),
        lines_of(lines).len() == lines.len(),
        forall|i: int| 0 <= i < lines.len() ==> #[trigger] lines_of(lines)[i] == line_of(lines[i]@),
{
}

/// The status starts with five lines, with or without a group: the profile, the
/// node, its relay, nothing, and the short forms of all connected peers, in
/// order and with commas between them.
pub proof fn status_starts_with_the_node(
    lines: Seq<Line>,
    profile: Seq<char>,
    node_id: NodeId,
    home_relay: Seq<char>,
    state: ProtocolState,
)
    requires
        status_of(lines, profile, node_id, home_relay, state),
    ensures
        lines.len() >= 5,
        lines[0] == seq![("Profile: "@, Style::Plain), (profile, Style::Yellow)],
        lines[1] == seq![("Node ID: "@, Style::Plain), (hex(node_id.bytes@), Style::Yellow)],
        lines[2] == seq![("Home Relay: "@, Style::Plain), (home_relay, Style::Yellow)],
        lines[3] == seq![(""@, Style::Plain)],
        lines[4].len() == 2,
        lines[4][0] == ("Connected Peers: "@, Style::Plain),
        lines[4][1].1 == Style::Yellow,
        lines[4][1].0 == joined(
            Seq::new(state.peers@.len(), |i: int| hex(state.peers@[i].bytes@).take(6) + ".."@),
            ", "@,
        ),
{
    assert(short_ids(state.peers@) =~= Seq::new(
        state.peers@.len(),
        |i: int| hex(state.peers@[i].bytes@).take(6) + ".."@,
    ));
}

/// Two nodes with the same profile, identifier, relay and peers show the same
/// first five lines, whatever their groups.
pub proof fn status_of_peers_does_not_depend_on_the_group(
    a: Seq<Line>,
    b: Seq<Line>,
    profile: Seq<char>,
    node_id: NodeId,
    home_relay: Seq<char>,
    state_a: ProtocolState,
    state_b: ProtocolState,
)
    requires
        status_of(a, profile, node_id, home_relay, state_a),
        status_of(b, profile, node_id, home_relay, state_b),
        state_a.peers@ == state_b.peers@,
    ensures
        a.take(5) == b.take(5),
{
    let first = node_lines(profile, node_id, home_relay, state_a.peers@);
    assert(a.take(5) =~= first);
    assert(b.take(5) =~= first);
}

/// Where there is a group, five more lines show its number, the short forms of
/// all its members, in alphabetical order, and its join code. Where there is
/// none, nothing more is shown.
pub proof fn status_goes_on_with_the_group(
    lines: Seq<Line>,
    profile: Seq<char>,
    node_id: NodeId,
    home_relay: Seq<char>,
    state: ProtocolState,
)
    requires
        status_of(lines, profile, node_id, home_relay, state),
    ensures
        state.group is None ==> lines.len() == 5,
        state.group matches Some(group) ==> {
            &&& lines.len() == 10
            &&& lines[5] == seq![(""@, Style::Plain)]
            &&& lines[6] == seq![
                ("Group ID: "@, Style::Plain),
                (decimal(group.id as nat), Style::Yellow),
            ]
            &&& lines[7].len() == 2
            &&& lines[7][0] == ("Group Members: "@, Style::Plain)
            &&& lines[7][1].1 == Style::Yellow
            &&& exists|members: Seq<Seq<char>>|
                {
                    &&& lines[7][1].0 == #[trigger] joined(members, ", "@)
                    &&& members.to_multiset() == Seq::new(
                        group.members@.len(),
                        |i: int| hex(group.members@[i].bytes@).take(6) + ".."@,
                    ).to_multiset()
                    &&& forall|i: int, j: int|
                        0 <= i < j < members.len() ==> !text_before(
                            #[trigger] members[j],
                            #[trigger] members[i],
                        )
                }
            &&& lines[8] == seq![(""@, Style::Plain)]
            &&& lines[9] == seq![
                ("Join Code: "@, Style::Plain),
                (group.join_code@, Style::Yellow),
            ]
        },
{
    if let Some(group) = state.group {
        let members = choose|members: Seq<Seq<char>>| #[trigger]
            is_sorted_of(members, short_ids(group.members@)) && lines == node_lines(
                profile,
                node_id,
                home_relay,
                state.peers@,
            ) + group_lines(group, members);
        assert(short_ids(group.members@) =~= Seq::new(
            group.members@.len(),
            |i: int| hex(group.members@[i].bytes@).take(6) + ".."@,
        ));
        assert(lines[7][1].0 == joined(members, ", "@));
    }
}

/// The short form of a node is the first six digits of its identifier and two
/// dots. Nodes that differ in their first three bytes have different ones.
pub proof fn short_ids_are_six_digits(a: NodeId, b: NodeId)
    ensures
        short_id(a) == hex(a.bytes@).take(6) + ".."@,
        short_id(a).take(6) == hex(a.bytes@.take(3)),
        a.bytes@.take(3) == b.bytes@.take(3) ==> short_id(a) == short_id(b),
{
    hex_prefix(a.bytes@, 3);
    hex_prefix(b.bytes@, 3);
    hex_len(a.bytes@);
    assert(short_id(a).take(6) =~= hex(a.bytes@).take(6));
}

/// The title of a tab is its key and its name; the key stands in square
/// brackets where the tab is selected, and else in angle brackets.
pub proof fn tabs_show_key_and_name(selected: bool, key: Seq<char>, name: Seq<char>)
    ensures
        tab_of(selected, key, name).len() == 4,
        tab_of(selected, key, name)[1] == (key, Style::BlueBold),
        tab_of(selected, key, name)[3] == (name, Style::Plain),
        tab_of(true, key, name)[0].0 == "["@ && tab_of(true, key, name)[2].0 == "] "@,
        tab_of(false, key, name)[0].0 == "<"@ && tab_of(false, key, name)[2].0 == "> "@,
        tab_of(selected, key, name)[0].1 == Style::BlueBold,
        tab_of(selected, key, name)[2].1 == Style::BlueBold,
{
}

/// A time is shown as its minutes, a colon, and its seconds, with a zero before
/// a single digit.
pub proof fn times_show_minutes_and_seconds(minutes: u64, seconds: u64)
    ensures
        seconds < 10 ==> clock_text(minutes, seconds) == decimal(minutes as nat) + ":"@ + "0"@
            + decimal(seconds as nat),
        seconds >= 10 ==> clock_text(minutes, seconds) == decimal(minutes as nat) + ":"@ + decimal(
            seconds as nat,
        ),
{
    assert(clock_text(minutes, seconds) =~= if seconds < 10 {
        decimal(minutes as nat) + ":"@ + "0"@ + decimal(seconds as nat)
    } else {
        decimal(minutes as nat) + ":"@ + decimal(seconds as nat)
    });
}

/// A track of the node itself is from the local library; any other one is
/// streamed, and shows the short form of its peer.
pub proof fn tracks_show_where_they_come_from(peer: NodeId, my_id: NodeId)
    ensures
        source_text(my_id, my_id) == "local library"@,
        peer != my_id ==> source_text(peer, my_id) == "streaming from "@ + (hex(peer.bytes@).take(
            6,
        ) + ".."@),
{
}

/// What is playing shows whether it is paused, how far it is and how long, what
/// it is called, and where it comes from.
pub proof fn playing_shows_the_track(
    paused: bool,
    elapsed: Position,
    duration: Position,
    label: Seq<char>,
    source: Seq<char>,
)
    ensures
        ({
            let line = playing_line(paused, elapsed, duration, label, source);
            &&& line.len() == 11
            &&& line[1] == (
                if paused {
                    "⏸"@
                } else {
                    "⏵"@
                },
                Style::Blue,
            )
            &&& line[3].0 == clock_text(elapsed.minutes, elapsed.seconds)
            &&& line[4].0 == " / "@
            &&& line[5].0 == clock_text(duration.minutes, duration.seconds)
            &&& line[7].0 == label
            &&& line[8].0 == " ("@ && line[9].0 == source && line[10].0 == ")"@
            &&& line[0].0 == " "@ && line[2].0 == " "@ && line[6].0 == " "@
            &&& line[4].1 == Style::Green && line[8].1 == Style::Green
            &&& line[9].1 == Style::Green && line[10].1 == Style::Green
            &&& line[3].1 == Style::Plain && line[5].1 == Style::Plain
            &&& line[7].1 == Style::Plain
        }),
{
}

/// The bar has as many marks in blue as are filled, at most all, and the rest in
/// white, between its two ends.
pub proof fn bar_shows_how_far(width: nat, filled: nat)
    ensures
        ({
            let line = bar(width, filled);
            &&& line.len() == 5
            &&& filled <= width ==> line[2].0.len() == filled
            &&& filled >= width ==> line[2].0.len() == width
            &&& line[2].1 == Style::Blue && line[3].1 == Style::White
            &&& forall|i: int| 0 <= i < line[2].0.len() ==> #[trigger] line[2].0[i] == '━'
            &&& forall|i: int| 0 <= i < line[3].0.len() ==> #[trigger] line[3].0[i] == '━'
            &&& line[1] == ("┣"@, Style::Blue) && line[4].0 == "┫"@
            &&& line[4].1 == if filled < width {
                Style::White
            } else {
                Style::Blue
            }
        }),
{
}

/// What is known of the relay of a node is shown as it is.
pub proof fn relays_are_shown(address: String)
    ensures
        HomeRelay::At(address).text() == address@,
        HomeRelay::Pending.text() == "..."@,
        HomeRelay::Missing.text() == "None"@,
{
}

} // verus!
