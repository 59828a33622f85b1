//! The cluster inspector: what it keeps of the cluster, what it makes of
//! replies and keys, and how it words what it shows.

use crate::clock::{Duration, Timestamp};
use crate::control::{ControlReply, Reply};
use crate::node::{Node, NodeInfo, NodeState};
use crate::text;
use crate::text::decimal_text;
use vstd::prelude::*;

verus! {

/// The socket that is asked, unless another is named.
pub const DEFAULT_SOCKET: &'static str = "/var/run/hivebus/hivebus.sock";

/// Whether it is time to ask again.
pub fn refresh_due(since_query: Duration) -> (r: bool)
    ensures
        r == (since_query.nanos >= 1_000_000_000),
{
    since_query.nanos >= 1_000_000_000
}

// ---------------------------------------------------------------------------
// Replies
// ---------------------------------------------------------------------------

/// What a reply to the question for all nodes comes to.
#[derive(Debug)]
pub enum NodesReply {
    /// The nodes.
    Nodes(Vec<NodeInfo>),
    /// An error, in this wording.
    Refused(String),
    /// A reply to some other question.
    Unexpected(ControlReply),
}

/// Reads a reply to the question for all nodes.
pub fn nodes_reply(reply: ControlReply) -> (r: NodesReply)
    ensures
        match (reply.deep_view(), r) {
            (Reply::Nodes(nodes), NodesReply::Nodes(found)) => found.deep_view() == nodes,
            (Reply::Error { message }, NodesReply::Refused(text)) => text@
                == "hivebus GetNodes error: "@ + message,
            (Reply::Nodes(_), _) => false,
            (Reply::Error { .. }, _) => false,
            (other, NodesReply::Unexpected(same)) => same.deep_view() == other,
            _ => false,
        },
{
    match reply {
        ControlReply::Nodes(nodes) => NodesReply::Nodes(nodes),
        ControlReply::Error { message } => {
            let mut s = "hivebus GetNodes error: ".to_owned();
            s.append(message.as_str());
            NodesReply::Refused(s)
        },
        other => NodesReply::Unexpected(other),
    }
}

/// Reads a reply to the question for the master: its number, if there is one.
pub fn master_reply(reply: ControlReply) -> (r: Option<u16>)
    ensures
        r == match reply.deep_view() {
            Reply::Master(Some(n)) => Some(n.node_id),
            _ => None,
        },
{
    match reply {
        ControlReply::Master(Some(n)) => Some(n.node_id),
        _ => None,
    }
}

// ---------------------------------------------------------------------------
// State
// ---------------------------------------------------------------------------

/// What the inspector shows.
#[derive(Debug)]
pub struct App {
    pub nodes: Vec<NodeInfo>,
    pub master_id: Option<u16>,
    /// Why the last query failed.
    pub error: Option<String>,
    /// The row that is selected.
    pub selected: Option<usize>,
    pub socket_path: String,
}

/// The mathematical form of an [`App`].
#[verifier::ext_equal]
pub struct Screen {
    pub nodes: Seq<Node>,
    pub master_id: Option<u16>,
    pub error: Option<Seq<char>>,
    pub selected: Option<usize>,
    pub socket_path: Seq<char>,
}

impl DeepView for App {
    type V = Screen;

    open spec fn deep_view(&self) -> Screen {
        Screen {
            nodes: self.nodes.deep_view(),
            master_id: self.master_id,
            error: self.error.deep_view(),
            selected: self.selected,
            socket_path: self.socket_path@,
        }
    }
}

/// The selection when there are `len` rows: the first row if none was selected,
/// the last if the one that was is gone. Without rows it stays.
pub open spec fn kept_selection(selected: Option<usize>, len: nat) -> Option<usize> {
    if len == 0 {
        selected
    } else {
        match selected {
            Some(i) => if i >= len {
                Some((len - 1) as usize)
            } else {
                Some(i)
            },
            None => Some(0),
        }
    }
}

/// The row above, if there is one.
pub open spec fn row_above(selected: Option<usize>) -> Option<usize> {
    match selected {
        Some(i) => if i > 0 {
            Some((i - 1) as usize)
        } else {
            selected
        },
        None => selected,
    }
}

/// The row below, if there is one. Without a selection it is the second.
pub open spec fn row_below(selected: Option<usize>, len: nat) -> Option<usize> {
    let i = match selected {
        Some(i) => i,
        None => 0,
    };
    if i + 1 < len {
        Some((i + 1) as usize)
    } else {
        selected
    }
}

/// Whether the selection is a row.
pub open spec fn selection_is_row(s: Screen) -> bool {
    s.nodes.len() > 0 ==> (s.selected matches Some(i) ==> i < s.nodes.len())
}

impl App {
    pub fn new(socket_path: String) -> (r: App)
        ensures
            r.deep_view() == (Screen {
                nodes: seq![],
                master_id: None,
                error: Some("connecting…"@),
                selected: None,
                socket_path: socket_path@,
            }),
    {
        let r = App {
            nodes: Vec::new(),
            master_id: None,
            error: Some("connecting…".to_owned()),
            selected: None,
            socket_path,
        };
        assert(r.nodes.deep_view() =~= Seq::<Node>::empty());
        r
    }

    /// Takes in the outcome of a query: nodes and master, or why it failed.
    pub fn refresh(&mut self, outcome: Result<(Vec<NodeInfo>, Option<u16>), String>)
        ensures
            match outcome {
                Ok((nodes, master_id)) => final(self).deep_view() == (Screen {
                    nodes: nodes.deep_view(),
                    master_id,
                    error: None,
                    selected: kept_selection(old(self).selected, nodes@.len()),
                    socket_path: old(self).socket_path@,
                }) && selection_is_row(final(self).deep_view()),
                Err(message) => final(self).deep_view() == (Screen {
                    error: Some(message@),
                    ..old(self).deep_view()
                }),
            },
    {
        match outcome {
            Ok((nodes, master_id)) => {
                if let Some(sel) = self.selected {
                    if nodes.len() > 0 && sel >= nodes.len() {
                        self.selected = Some(nodes.len() - 1);
                    }
                } else if nodes.len() > 0 {
                    self.selected = Some(0);
                }
                self.nodes = nodes;
                self.master_id = master_id;
                self.error = None;
            },
            Err(message) => {
                self.error = Some(message);
            },
        }
    }

    /// Takes over the selection as the table widget left it.
    pub fn select(&mut self, selected: Option<usize>)
        ensures
            final(self).deep_view() == (Screen { selected, ..old(self).deep_view() }),
    {
        self.selected = selected;
    }

    pub fn scroll_up(&mut self)
        ensures
            final(self).deep_view() == (Screen {
                selected: row_above(old(self).selected),
                ..old(self).deep_view()
            }),
            selection_is_row(old(self).deep_view()) ==> selection_is_row(final(self).deep_view()),
    {
        let sel: usize = match self.selected {
            Some(i) => i,
            None => 0,
        };
        if sel > 0 {
            self.selected = Some(sel - 1);
        }
    }

    pub fn scroll_down(&mut self)
        ensures
            final(self).deep_view() == (Screen {
                selected: row_below(old(self).selected, old(self).nodes@.len()),
                ..old(self).deep_view()
            }),
            selection_is_row(old(self).deep_view()) ==> selection_is_row(final(self).deep_view()),
    {
        let len: usize = self.nodes.len();
        if len == 0 {
            return ;
        }
        let sel: usize = match self.selected {
            Some(i) => i,
            None => 0,
        };
        if sel < len - 1 {
            self.selected = Some(sel + 1);
        }
    }
}

// ---------------------------------------------------------------------------
// Keys
// ---------------------------------------------------------------------------

/// A key.
#[derive(Debug, Clone, Copy, PartialEq, Eq, Structural)]
pub enum Key {
    /// A character; `control` says whether the control key was held, and no
    /// other modifier.
    Char { c: char, control: bool },
    Up,
    Down,
    Other,
}

/// What a key asks for.
#[derive(Debug, Clone, Copy, PartialEq, Eq, Structural)]
pub enum Command {
    Quit,
    Refresh,
    ScrollUp,
    ScrollDown,
    Nothing,
}

/// What a key asks for: `q` and control-c quit, `r` refreshes, the arrows
/// select.
pub open spec fn meaning(key: Key) -> Command {
    match key {
        Key::Char { c, control } => if c == 'q' || (c == 'c' && control) {
            Command::Quit
        } else if c == 'r' {
            Command::Refresh
        } else {
            Command::Nothing
        },
        Key::Up => Command::ScrollUp,
        Key::Down => Command::ScrollDown,
        Key::Other => Command::Nothing,
    }
}

/// What is shown after a key.
pub open spec fn after_key(s: Screen, key: Key) -> Screen {
    match meaning(key) {
        Command::ScrollUp => Screen { selected: row_above(s.selected), ..s },
        Command::ScrollDown => Screen { selected: row_below(s.selected, s.nodes.len()), ..s },
        _ => s,
    }
}

impl App {
    /// Takes in a key: scrolls if it asks for that, and says what it asks for.
    /// To quit and to refresh is left to the caller.
    pub fn key(&mut self, key: Key) -> (r: Command)
        ensures
            r == meaning(key),
            final(self).deep_view() == after_key(old(self).deep_view(), key),
            selection_is_row(old(self).deep_view()) ==> selection_is_row(final(self).deep_view()),
    {
        let command = command_for(key);
        match command {
            Command::ScrollUp => self.scroll_up(),
            Command::ScrollDown => self.scroll_down(),
            Command::Quit | Command::Refresh | Command::Nothing => {},
        }
        command
    }
}

/// What a key asks for.
pub fn command_for(key: Key) -> (r: Command)
    ensures
        r == meaning(key),
{
    match key {
        Key::Char { c, control } => {
            if c == 'q' || (c == 'c' && control) {
                Command::Quit
            } else if c == 'r' {
                Command::Refresh
            } else {
                Command::Nothing
            }
        },
        Key::Up => Command::ScrollUp,
        Key::Down => Command::ScrollDown,
        Key::Other => Command::Nothing,
    }
}

// ---------------------------------------------------------------------------
// Wording
// ---------------------------------------------------------------------------

/// A span of so many seconds: seconds below a minute, else minutes and seconds.
pub open spec fn span_words(secs: nat) -> Seq<char> {
    if secs < 60 {
        text::decimal(secs) + "s"@
    } else {
        text::decimal(secs / 60) + "m"@ + text::decimal(secs % 60) + "s"@
    }
}

/// A span of so many seconds in words.
pub fn span_text(secs: u128) -> (r: String)
    ensures
        r@ == span_words(secs as nat),
{
    if secs < 60 {
        let mut s = decimal_text(secs);
        s.append("s");
        s
    } else {
        let mut s = decimal_text(secs / 60);
        s.append("m");
        s.append(decimal_text(secs % 60).as_str());
        s.append("s");
        s
    }
}

/// How long ago the last query was, in words.
pub fn age_text(secs: u128) -> (r: String)
    ensures
        r@ == span_words(secs as nat) + " ago"@,
{
    let mut s = span_text(secs);
    s.append(" ago");
    s
}

/// How long before `now` a node was last seen, in words; a question mark if it
/// was seen after.
pub fn last_seen_text(last_seen: Timestamp, now: Timestamp) -> (r: String)
    ensures
        r@ == match now.spec_since(last_seen) {
            Some(age) => span_words(age / 1_000_000_000),
            None => "?"@,
        },
{
    match now.since(last_seen) {
        Some(age) => span_text(age.as_secs()),
        None => "?".to_owned(),
    }
}

/// How many of the nodes are alive.
pub open spec fn alive_in(nodes: Seq<Node>) -> nat
    decreases nodes.len(),
{
    if nodes.len() == 0 {
        0
    } else {
        alive_in(nodes.drop_last()) + (if nodes.last().state == NodeState::Alive {
            1nat
        } else {
            0nat
        })
    }
}

/// How many of the nodes are alive.
pub fn alive_count(nodes: &Vec<NodeInfo>) -> (r: usize)
    ensures
        r == alive_in(nodes.deep_view()),
        r <= nodes@.len(),
{
    let ghost all = nodes.deep_view();
    let mut count: usize = 0;
    let mut i: usize = 0;
    assert(all.take(0) =~= seq![]);
    while i < nodes.len()
        invariant
            i <= nodes@.len(),
            all == nodes.deep_view(),
            count <= i,
            count == alive_in(all.take(i as int)),
        decreases nodes@.len() - i,
    {
        proof {
            let next = all.take(i + 1);
            assert(next.drop_last() =~= all.take(i as int));
            assert(next.last() == nodes@[i as int].deep_view());
        }
        if nodes[i].state == NodeState::Alive {
            count += 1;
        }
        i += 1;
    }
    assert(all.take(all.len() as int) =~= all);
    count
}

/// The line about alive nodes.
pub fn nodes_text(nodes: &Vec<NodeInfo>) -> (r: String)
    ensures
        r@ == "   nodes: "@ + text::decimal(alive_in(nodes.deep_view())) + "/"@ + text::decimal(
            nodes@.len(),
        ) + " alive"@,
{
    let mut s = "   nodes: ".to_owned();
    s.append(decimal_text(alive_count(nodes) as u128).as_str());
    s.append("/");
    s.append(decimal_text(nodes.len() as u128).as_str());
    s.append(" alive");
    s
}

/// The first of the nodes that has the number `id`.
pub open spec fn node_with(nodes: Seq<Node>, id: u16) -> Option<Node>
    decreases nodes.len(),
{
    if nodes.len() == 0 {
        None
    } else if nodes[0].node_id == id {
        Some(nodes[0])
    } else {
        node_with(nodes.drop_first(), id)
    }
}

/// The master in words: its host name and number, or a dash if it is not
/// known.
pub open spec fn master_words(nodes: Seq<Node>, master_id: Option<u16>) -> Seq<char> {
    match master_id {
        None => "—"@,
        Some(id) => match node_with(nodes, id) {
            None => "—"@,
            Some(n) => n.hostname + " ("@ + text::decimal(n.node_id as nat) + ")"@,
        },
    }
}

/// The master in words.
pub fn master_label(nodes: &Vec<NodeInfo>, master_id: Option<u16>) -> (r: String)
    ensures
        r@ == master_words(nodes.deep_view(), master_id),
{
    let id: u16 = match master_id {
        None => {
            return "—".to_owned();
        },
        Some(id) => id,
    };
    let ghost all = nodes.deep_view();
    let mut i: usize = 0;
    assert(all.skip(0) =~= all);
    while i < nodes.len()
        invariant
            i <= nodes@.len(),
            all == nodes.deep_view(),
            master_id == Some(id),
            node_with(all, id) == node_with(all.skip(i as int), id),
        decreases nodes@.len() - i,
    {
        assert(all.skip(i as int)[0] == nodes@[i as int].deep_view());
        assert(all.skip(i as int).drop_first() =~= all.skip(i + 1));
        if nodes[i].node_id == id {
            let mut s = nodes[i].hostname.clone();
            s.append(" (");
            s.append(decimal_text(nodes[i].node_id as u128).as_str());
            s.append(")");
            return s;
        }
        i += 1;
    }
    "—".to_owned()
}

/// A state in a word.
pub fn state_text(state: NodeState) -> (r: &'static str)
    ensures
        r@ == match state {
            NodeState::Alive => "Alive"@,
            NodeState::Suspect => "Suspect"@,
            NodeState::Dead => "Dead"@,
        },
{
    match state {
        NodeState::Alive => "Alive",
        NodeState::Suspect => "Suspect",
        NodeState::Dead => "Dead",
    }
}

/// What the header line says.
#[derive(Debug)]
pub struct HeaderLine {
    /// Whether the last query succeeded.
    pub connected: bool,
    pub socket: String,
    pub master: String,
    pub nodes: String,
    pub updated: String,
}

/// Words the header line, so many seconds after the last query.
pub fn header_line(app: &App, age_secs: u128) -> (r: HeaderLine)
    ensures
        r.connected == (app.error is None),
        r.socket@ == "  socket: "@ + app.socket_path@ + "   "@,
        r.master@ == master_words(app.nodes.deep_view(), app.master_id),
        r.nodes@ == "   nodes: "@ + text::decimal(alive_in(app.nodes.deep_view())) + "/"@
            + text::decimal(app.nodes@.len()) + " alive"@,
        r.updated@ == "   updated "@ + (span_words(age_secs as nat) + " ago"@),
{
    let mut socket = "  socket: ".to_owned();
    socket.append(app.socket_path.as_str());
    socket.append("   ");
    let mut updated = "   updated ".to_owned();
    updated.append(age_text(age_secs).as_str());
    HeaderLine {
        connected: app.error.is_none(),
        socket,
        master: master_label(&app.nodes, app.master_id),
        nodes: nodes_text(&app.nodes),
        updated,
    }
}

/// The cells of a node's row: number, host name, address, state, a star for
/// the master, and the last sign of life.
pub open spec fn row_words(n: Node, address: Seq<char>, now: Timestamp) -> Seq<Seq<char>> {
    seq![
        text::decimal(n.node_id as nat),
        n.hostname,
        address,
        match n.state {
            NodeState::Alive => "Alive"@,
            NodeState::Suspect => "Suspect"@,
            NodeState::Dead => "Dead"@,
        },
        if n.is_master {
            "★"@
        } else {
            ""@
        },
        match now.spec_since(n.last_seen) {
            Some(age) => span_words(age / 1_000_000_000),
            None => "?"@,
        },
    ]
}

/// The cells of a node's row, where `address` is its address in words.
pub fn row_cells(n: &NodeInfo, address: &str, now: Timestamp) -> (r: Vec<String>)
    ensures
        r.deep_view() == row_words(n.deep_view(), address@, now),
{
    let star: &str = if n.is_master {
        "★"
    } else {
        ""
    };
    let mut cells: Vec<String> = Vec::new();
    cells.push(decimal_text(n.node_id as u128));
    cells.push(n.hostname.clone());
    cells.push(address.to_owned());
    cells.push(state_text(n.state).to_owned());
    cells.push(star.to_owned());
    cells.push(last_seen_text(n.last_seen, now));
    assert(cells.deep_view() =~= row_words(n.deep_view(), address@, now));
    cells
}

/// The margin on either side of something that is to take `percent` of the
/// whole, in percent.
pub fn centered_margin(percent: u16) -> (r: u16)
    requires
        percent <= 100,
    ensures
        r == (100 - percent) / 2,
{
    (100 - percent) / 2
}

// ---------------------------------------------------------------------------
// What the screen shows
// ---------------------------------------------------------------------------

/// With rows to show, one of them is selected after a refresh: the row that was
/// selected or, if that is gone, the one nearest to it; the first, if none was.
/// Without rows the selection stays.
pub proof fn nearest_row_is_selected(selected: Option<usize>, len: nat, other: int)
    requires
        len <= usize::MAX,
        0 <= other < len || len == 0,
    ensures
        len == 0 ==> kept_selection(selected, len) == selected,
        len > 0 ==> (kept_selection(selected, len) matches Some(row) && row < len && match selected {
            Some(i) => i - row <= i - other || i < len && row == i,
            None => row <= other,
        }),
{
}

/// The arrows go from row to row: down to the next, if there is one, and up to
/// the one before, if there is one. Where down has gone on, up goes back.
pub proof fn arrows_go_by_one(selected: Option<usize>, len: nat)
    requires
        len <= usize::MAX,
    ensures
        ({
            let at = match selected {
                Some(i) => i as int,
                None => 0,
            };
            &&& at + 1 < len ==> (row_below(selected, len) matches Some(j) && j == at + 1)
            &&& at + 1 >= len ==> row_below(selected, len) == selected
            &&& at > 0 ==> (row_above(selected) matches Some(j) && j == at - 1)
            &&& at == 0 ==> row_above(selected) == selected
            &&& selected is Some && at + 1 < len ==> row_above(row_below(selected, len))
                == selected
        }),
{
}

/// What the keys do: `q`, with or without control, and control-c quit, `r`
/// refreshes, the arrows move the selection, and any other key does nothing.
/// No key changes anything on the screen but the selection.
pub proof fn keys_do_their_work(s: Screen, c: char, control: bool)
    ensures
        ({
            let key = Key::Char { c, control };
            &&& meaning(key) == Command::Quit <==> c == 'q' || c == 'c' && control
            &&& meaning(key) == Command::Refresh <==> c == 'r'
            &&& c != 'q' && c != 'r' && !(c == 'c' && control) ==> meaning(key)
                == Command::Nothing
            &&& after_key(s, key) == s
        }),
        meaning(Key::Up) == Command::ScrollUp,
        meaning(Key::Down) == Command::ScrollDown,
        meaning(Key::Other) == Command::Nothing,
        after_key(s, Key::Other) == s,
        after_key(s, Key::Up) == (Screen { selected: row_above(s.selected), ..s }),
        after_key(s, Key::Down) == (Screen { selected: row_below(s.selected, s.nodes.len()), ..s }),
{
}

/// The alive nodes are counted one by one: an alive node counts, another does
/// not, and those of two lists add up.
pub proof fn alive_nodes_add_up(a: Seq<Node>, n: Node, b: Seq<Node>)
    ensures
        alive_in(seq![]) == 0,
        alive_in(a + seq![n] + b) == alive_in(a) + (if n.state == NodeState::Alive {
            1nat
        } else {
            0nat
        }) + alive_in(b),
    decreases b.len(),
{
    let all = a + seq![n] + b;
    if b.len() == 0 {
        assert(all.drop_last() =~= a);
        assert(all.last() == n);
    } else {
        alive_nodes_add_up(a, n, b.drop_last());
        assert(all.drop_last() =~= a + seq![n] + b.drop_last());
        assert(all.last() == b.last());
    }
}

/// The master is named by the first node with its number: that node's host name
/// and the number. If no node has it, or no master is known, it is a dash.
pub proof fn master_is_named(nodes: Seq<Node>, id: u16, i: int)
    requires
        0 <= i <= nodes.len(),
        forall|j: int| 0 <= j < i ==> (#[trigger] nodes[j]).node_id != id,
        i < nodes.len() ==> nodes[i].node_id == id,
    ensures
        master_words(nodes, None) == "—"@,
        i == nodes.len() ==> master_words(nodes, Some(id)) == "—"@,
        i < nodes.len() ==> master_words(nodes, Some(id)) == nodes[i].hostname + " ("@
            + text::decimal(id as nat) + ")"@,
    decreases nodes.len(),
{
    if i > 0 {
        let rest = nodes.drop_first();
        assert(nodes[0].node_id != id);
        assert forall|j: int| 0 <= j < i - 1 implies (#[trigger] rest[j]).node_id != id by {
            assert(rest[j] == nodes[j + 1]);
        }
        master_is_named(rest, id, i - 1);
    }
}

/// A span is worded by its minutes and the seconds beyond them, the minutes only
/// if there are any.
pub proof fn span_has_minutes_and_seconds(minutes: nat, seconds: nat)
    requires
        seconds < 60,
    ensures
        span_words(60 * minutes + seconds) == (if minutes == 0 {
            text::decimal(seconds) + "s"@
        } else {
            text::decimal(minutes) + "m"@ + text::decimal(seconds) + "s"@
        }),
{
}

/// The row of a node shows, from left to right, its number, its host name, the
/// address, its state, a star if it is the master, and how long ago it was last
/// seen, in whole seconds.
pub proof fn row_shows_the_node(n: Node, address: Seq<char>, now: Timestamp)
    ensures
        ({
            let cells = row_words(n, address, now);
            let age = now.secs * 1_000_000_000 + now.nanos - n.last_seen.secs * 1_000_000_000
                - n.last_seen.nanos;
            &&& cells.len() == 6
            &&& cells[0] == text::decimal(n.node_id as nat)
            &&& cells[1] == n.hostname
            &&& cells[2] == address
            &&& n.state == NodeState::Alive ==> cells[3] == "Alive"@
            &&& n.state == NodeState::Suspect ==> cells[3] == "Suspect"@
            &&& n.state == NodeState::Dead ==> cells[3] == "Dead"@
            &&& cells[4] == (if n.is_master {
                "★"@
            } else {
                ""@
            })
            &&& age >= 0 ==> cells[5] == span_words((age / 1_000_000_000) as nat)
            &&& age < 0 ==> cells[5] == "?"@
        }),
{
}

} // verus!
