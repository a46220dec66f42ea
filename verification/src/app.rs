//! The launcher itself: its state, the search over the applications, and
//! the decisions it takes on every message (what the state becomes and what
//! the windows are asked to do). Drawing and the windowing calls are left to
//! the program around this library.
use vstd::prelude::*;
use vstd::string::{StrSliceExecFns, StringExecFns};
use crate::config::{edges_of, margins_of, AnchorEdges, WindowConfig};
use crate::daemon::DaemonCommand;
use crate::data::{views, App, AppView};
use crate::text::{
    ascii_lowercase, chars_of, contains, find_in, is_ascii_text,
    lemma_first_match_contains, lowercase_of, matches_at, sub_string, to_lowercase,
};

verus! {

// ── run mode ────────────────────────────────────────────────────────────────

/// How the program runs.
#[derive(Clone, Copy, Debug, PartialEq, Eq, Structural)]
pub enum RunMode {
    /// One-shot window: show immediately, exit on close.
    Normal,
    /// Background daemon: wait for `--show` signals over a socket.
    Daemon,
}

/// The run mode in force: the one chosen at start-up, `Normal` if none was.
pub fn run_mode(chosen: Option<RunMode>) -> (r: RunMode)
    ensures
        r == (match chosen {
            Some(m) => m,
            None => RunMode::Normal,
        }),
{
    match chosen {
        Some(m) => m,
        None => RunMode::Normal,
    }
}

/// The layer-shell namespace of the launcher's windows.
pub fn namespace() -> (r: String)
    ensures
        r@ == "Launcher"@,
{
    String::from_str("Launcher")
}

// ── state ───────────────────────────────────────────────────────────────────

/// The launcher's state.
pub struct Launcher {
    /// What has been typed into the search field.
    pub query: String,
    /// Every application, in the order shown.
    pub all_apps: Vec<App>,
    /// The launcher's window is shown.
    pub visible: bool,
    /// The position of the highlighted result.
    pub selected: usize,
}

/// What a [`Launcher`] holds.
pub struct LauncherView {
    pub query: Seq<char>,
    pub apps: Seq<AppView>,
    pub visible: bool,
    pub selected: int,
}

impl View for Launcher {
    type V = LauncherView;

    open spec fn view(&self) -> LauncherView {
        LauncherView {
            query: self.query@,
            apps: views(self.all_apps@),
            visible: self.visible,
            selected: self.selected as int,
        }
    }
}

// ── search ──────────────────────────────────────────────────────────────────

/// An application is a result for `query`: the query is empty, or occurs
/// in the application's name, both taken in lower case.
pub open spec fn app_matches(query: Seq<char>, name: Seq<char>) -> bool {
    query.len() == 0 || contains(lowercase_of(name), lowercase_of(query))
}

/// The applications of `apps` that are results for `query`, in order.
pub open spec fn matching(apps: Seq<AppView>, query: Seq<char>) -> Seq<AppView>
    decreases apps.len(),
{
    if apps.len() == 0 {
        apps
    } else {
        let m = matching(apps.drop_last(), query);
        if app_matches(query, apps.last().name) {
            m.push(apps.last())
        } else {
            m
        }
    }
}

/// The results that a state shows.
pub open spec fn results(s: LauncherView) -> Seq<AppView> {
    matching(s.apps, s.query)
}

/// The views of a list of borrowed applications.
pub open spec fn ref_views(apps: Seq<&App>) -> Seq<AppView> {
    apps.map_values(|a: &App| a@)
}

/// The height in pixels of the window: 80 for the search bar alone, and
/// 55 more for each result, 400 at most.
pub open spec fn height_for(query: Seq<char>, count: nat) -> u32 {
    if query.len() == 0 || count == 0 {
        80
    } else if 80 + 55 * count >= 400 {
        400
    } else {
        (80 + 55 * count) as u32
    }
}

/// The window height for a state.
pub open spec fn height_of(s: LauncherView) -> u32 {
    height_for(s.query, results(s).len())
}

/// The position of the result that is highlighted, and that Enter starts.
pub open spec fn highlighted(s: LauncherView) -> int {
    if s.selected < results(s).len() - 1 {
        s.selected
    } else {
        results(s).len() - 1
    }
}

impl Launcher {
    /// The applications that match the query, in order; all of them when
    /// the query is empty.
    pub fn filtered(&self) -> (r: Vec<&App>)
        ensures
            ref_views(r@) == results(self@),
            self.query@.len() > 0 && is_ascii_text(self.query@) ==> lowercase_of(self.query@)
                == ascii_lowercase(self.query@),
            forall|i: int|
                0 <= i < self.all_apps.len() && self.query@.len() > 0 && is_ascii_text(
                    (#[trigger] self.all_apps@[i]).name@,
                ) ==> lowercase_of(self.all_apps@[i].name@) == ascii_lowercase(
                    self.all_apps@[i].name@,
                ),
    {
        let ghost apps = views(self.all_apps@);
        let mut r: Vec<&App> = Vec::new();
        let empty = self.query.as_str().unicode_len() == 0;
        let q = if empty {
            Vec::new()
        } else {
            let lower = to_lowercase(self.query.as_str());
            chars_of(lower.as_str())
        };
        let mut i: usize = 0;
        proof {
            assert(apps.take(0) =~= Seq::<AppView>::empty());
            assert(ref_views(r@) =~= Seq::<AppView>::empty());
        }
        while i < self.all_apps.len()
            invariant
                apps == views(self.all_apps@),
                i <= self.all_apps.len(),
                empty == (self.query@.len() == 0),
                !empty ==> q@ == lowercase_of(self.query@),
                !empty && is_ascii_text(self.query@) ==> q@ == ascii_lowercase(self.query@),
                forall|j: int|
                    0 <= j < i && !empty && is_ascii_text((#[trigger] self.all_apps@[j]).name@)
                        ==> lowercase_of(self.all_apps@[j].name@) == ascii_lowercase(
                        self.all_apps@[j].name@,
                    ),
                ref_views(r@) == matching(apps.take(i as int), self.query@),
            decreases self.all_apps.len() - i,
        {
            let app = &self.all_apps[i];
            let keep = if empty {
                true
            } else {
                let lower = to_lowercase(app.name.as_str());
                let name = chars_of(lower.as_str());
                let found = find_in(&name, 0, name.len(), &q);
                proof {
                    assert(name@.subrange(0, name@.len() as int) =~= name@);
                    lemma_first_match_contains(name@, q@);
                }
                found.is_some()
            };
            let ghost before = r@;
            proof {
                assert(apps.take(i + 1).drop_last() =~= apps.take(i as int));
                assert(apps.take(i + 1).last() == app@);
            }
            if keep {
                r.push(app);
                proof {
                    assert(ref_views(r@) =~= ref_views(before).push(app@));
                }
            }
            i = i + 1;
        }
        proof {
            assert(apps.take(i as int) =~= apps);
        }
        r
    }
}

/// The height in pixels that the window takes for the state of `launcher`.
pub fn compute_height(launcher: &Launcher) -> (r: u32)
    ensures
        r == height_of(launcher@),
{
    if launcher.query.as_str().unicode_len() == 0 {
        return 80;
    }
    let count = launcher.filtered().len();
    if count == 0 {
        80
    } else if count >= 6 {
        400
    } else {
        80 + 55 * (count as u32)
    }
}

// ── messages and what they lead to ─────────────────────────────────────────

/// A keyboard or window event, as far as the launcher tells them apart.
pub enum InputEvent {
    Escape,
    Tab,
    Enter,
    Backspace,
    /// A key that types text.
    Character(String),
    /// Any other event.
    Other,
}

/// What the launcher is told.
pub enum Message {
    /// The search field now holds this text.
    QueryChanged(String),
    /// A keyboard or window event.
    IcedEvent(InputEvent),
    /// Start this command line (a result was clicked).
    Launch(String),
    /// Close the launcher.
    Close,
    /// Show the launcher.
    Show,
    /// Read the configuration and the applications again.
    Reload,
}

/// How the launcher closes in a run mode.
#[derive(Clone, Copy, Debug, PartialEq, Eq, Structural)]
pub enum Closing {
    /// End the program (normal mode).
    Exit,
    /// Shrink every window to 1x1 and stop taking the keyboard (daemon mode).
    Hide,
}

/// What the program around the launcher is to do after a message.
pub enum Action {
    Nothing,
    /// Show every window at the configured width and this height.
    Show(u32),
    /// Resize every window to the configured width and this height.
    Resize(u32),
    /// Close the launcher.
    Close(Closing),
    /// Start this command line with `sh -c`, then close the launcher.
    LaunchAndClose(String, Closing),
    /// Read the configuration and the applications again, then hand the
    /// applications to [`Launcher::finish_reload`].
    Reload,
}

/// An input event, as text.
pub enum InputEventView {
    Escape,
    Tab,
    Enter,
    Backspace,
    Character(Seq<char>),
    Other,
}

/// A message, as text.
pub enum MessageView {
    QueryChanged(Seq<char>),
    IcedEvent(InputEventView),
    Launch(Seq<char>),
    Close,
    Show,
    Reload,
}

/// An action, as text.
pub enum ActionView {
    Nothing,
    Show(u32),
    Resize(u32),
    Close(Closing),
    LaunchAndClose(Seq<char>, Closing),
    Reload,
}

impl View for InputEvent {
    type V = InputEventView;

    open spec fn view(&self) -> InputEventView {
        match self {
            InputEvent::Escape => InputEventView::Escape,
            InputEvent::Tab => InputEventView::Tab,
            InputEvent::Enter => InputEventView::Enter,
            InputEvent::Backspace => InputEventView::Backspace,
            InputEvent::Character(c) => InputEventView::Character(c@),
            InputEvent::Other => InputEventView::Other,
        }
    }
}

impl View for Message {
    type V = MessageView;

    open spec fn view(&self) -> MessageView {
        match self {
            Message::QueryChanged(q) => MessageView::QueryChanged(q@),
            Message::IcedEvent(e) => MessageView::IcedEvent(e@),
            Message::Launch(c) => MessageView::Launch(c@),
            Message::Close => MessageView::Close,
            Message::Show => MessageView::Show,
            Message::Reload => MessageView::Reload,
        }
    }
}

impl View for Action {
    type V = ActionView;

    open spec fn view(&self) -> ActionView {
        match self {
            Action::Nothing => ActionView::Nothing,
            Action::Show(h) => ActionView::Show(*h),
            Action::Resize(h) => ActionView::Resize(*h),
            Action::Close(c) => ActionView::Close(*c),
            Action::LaunchAndClose(cmd, c) => ActionView::LaunchAndClose(cmd@, *c),
            Action::Reload => ActionView::Reload,
        }
    }
}

/// How the launcher closes in a run mode: the program ends in normal mode,
/// the windows hide in daemon mode.
pub open spec fn closing_for(mode: RunMode) -> Closing {
    match mode {
        RunMode::Normal => Closing::Exit,
        RunMode::Daemon => Closing::Hide,
    }
}

/// The state after closing: empty query, first result highlighted, hidden.
pub open spec fn closed(s: LauncherView) -> LauncherView {
    LauncherView { query: Seq::<char>::empty(), selected: 0, visible: false, ..s }
}

/// The state with a new query, the first result highlighted.
pub open spec fn with_query(s: LauncherView, q: Seq<char>) -> LauncherView {
    LauncherView { query: q, selected: 0, ..s }
}

/// What the launcher does on a message: the next state and the action.
pub open spec fn transition(s: LauncherView, mode: RunMode, m: MessageView) -> (
    LauncherView,
    ActionView,
) {
    match m {
        MessageView::Show => {
            let t = LauncherView { query: Seq::<char>::empty(), selected: 0, visible: true, ..s };
            (t, ActionView::Show(height_of(t)))
        },
        MessageView::IcedEvent(InputEventView::Escape) => (
            closed(s),
            ActionView::Close(closing_for(mode)),
        ),
        MessageView::IcedEvent(InputEventView::Tab) => {
            let count = results(s).len();
            if count > 0 {
                (LauncherView { selected: (s.selected + 1) % (count as int), ..s }, ActionView::Nothing)
            } else {
                (s, ActionView::Nothing)
            }
        },
        MessageView::IcedEvent(InputEventView::Enter) => {
            if results(s).len() == 0 {
                (s, ActionView::Nothing)
            } else {
                (
                    closed(s),
                    ActionView::LaunchAndClose(results(s)[highlighted(s)].command, closing_for(mode)),
                )
            }
        },
        MessageView::IcedEvent(InputEventView::Character(c)) => {
            let t = with_query(s, s.query + c);
            (t, ActionView::Resize(height_of(t)))
        },
        MessageView::IcedEvent(InputEventView::Backspace) => {
            let q = if s.query.len() > 0 {
                s.query.drop_last()
            } else {
                s.query
            };
            let t = with_query(s, q);
            (t, ActionView::Resize(height_of(t)))
        },
        MessageView::IcedEvent(InputEventView::Other) => (s, ActionView::Nothing),
        MessageView::QueryChanged(q) => {
            let t = with_query(s, q);
            (t, ActionView::Resize(height_of(t)))
        },
        MessageView::Launch(cmd) => (closed(s), ActionView::LaunchAndClose(cmd, closing_for(mode))),
        MessageView::Close => (closed(s), ActionView::Close(closing_for(mode))),
        MessageView::Reload => (s, ActionView::Reload),
    }
}

fn closing(mode: RunMode) -> (r: Closing)
    ensures
        r == closing_for(mode),
{
    match mode {
        RunMode::Normal => Closing::Exit,
        RunMode::Daemon => Closing::Hide,
    }
}

fn do_close(launcher: &mut Launcher, mode: RunMode) -> (r: Closing)
    ensures
        final(launcher)@ == closed(old(launcher)@),
        r == closing_for(mode),
{
    launcher.query = String::new();
    launcher.selected = 0;
    launcher.visible = false;
    closing(mode)
}

/// Handles a message: changes the state as [`transition`] says and returns
/// what the windows are to do.
pub fn update(launcher: &mut Launcher, mode: RunMode, message: Message) -> (r: Action)
    ensures
        (final(launcher)@, r@) == transition(old(launcher)@, mode, message@),
{
    match message {
        Message::Show => {
            launcher.query = String::new();
            launcher.selected = 0;
            launcher.visible = true;
            let height = compute_height(launcher);
            Action::Show(height)
        },
        Message::IcedEvent(InputEvent::Escape) => Action::Close(do_close(launcher, mode)),
        Message::IcedEvent(InputEvent::Tab) => {
            let count = launcher.filtered().len();
            if count > 0 {
                launcher.selected = (launcher.selected % count + 1) % count;
                proof {
                    let s = old(launcher)@.selected;
                    let c = count as int;
                    assert((s % c + 1) % c == (s + 1) % c) by (nonlinear_arith)
                        requires
                            c > 0,
                            s >= 0,
                    ;
                }
            }
            Action::Nothing
        },
        Message::IcedEvent(InputEvent::Enter) => {
            let results = launcher.filtered();
            if results.len() == 0 {
                return Action::Nothing;
            }
            let last = results.len() - 1;
            let idx = if launcher.selected < last {
                launcher.selected
            } else {
                last
            };
            let command = results[idx].command.clone();
            proof {
                assert(ref_views(results@)[idx as int] == results@[idx as int]@);
            }
            let how = do_close(launcher, mode);
            Action::LaunchAndClose(command, how)
        },
        Message::IcedEvent(InputEvent::Character(c)) => {
            launcher.query.append(c.as_str());
            launcher.selected = 0;
            let height = compute_height(launcher);
            Action::Resize(height)
        },
        Message::IcedEvent(InputEvent::Backspace) => {
            let n = launcher.query.as_str().unicode_len();
            if n > 0 {
                let shorter = sub_string(launcher.query.as_str(), 0, n - 1);
                launcher.query = shorter;
            }
            launcher.selected = 0;
            let height = compute_height(launcher);
            Action::Resize(height)
        },
        Message::IcedEvent(InputEvent::Other) => Action::Nothing,
        Message::QueryChanged(q) => {
            launcher.query = q;
            launcher.selected = 0;
            let height = compute_height(launcher);
            Action::Resize(height)
        },
        Message::Launch(command) => {
            let how = do_close(launcher, mode);
            Action::LaunchAndClose(command, how)
        },
        Message::Close => Action::Close(do_close(launcher, mode)),
        Message::Reload => Action::Reload,
    }
}

impl Launcher {
    /// Ends a reload: the applications read again replace the old ones.
    pub fn finish_reload(&mut self, apps: Vec<App>)
        ensures
            final(self)@ == (LauncherView { apps: views(apps@), ..old(self)@ }),
    {
        self.all_apps = apps;
    }
}

/// The message that a command sent to the daemon stands for.
pub fn command_message(command: DaemonCommand) -> (r: Message)
    ensures
        r@ == (match command {
            DaemonCommand::Show => MessageView::Show,
            DaemonCommand::Reload => MessageView::Reload,
        }),
{
    match command {
        DaemonCommand::Show => Message::Show,
        DaemonCommand::Reload => Message::Reload,
    }
}

// ── start-up ────────────────────────────────────────────────────────────────

/// What the program does once the launcher is made.
#[derive(Clone, Copy, Debug, PartialEq, Eq, Structural)]
pub enum Startup {
    /// Send [`Message::Show`] at once (normal mode).
    ShowNow,
    /// Start listening on the daemon's socket (daemon mode).
    ListenForCommands,
}

/// A launcher holding `all_apps`, hidden, with an empty query.
pub fn new(mode: RunMode, all_apps: Vec<App>) -> (r: (Launcher, Startup))
    ensures
        r.0@ == (LauncherView {
            query: Seq::<char>::empty(),
            apps: views(all_apps@),
            visible: false,
            selected: 0,
        }),
        r.1 == (match mode {
            RunMode::Normal => Startup::ShowNow,
            RunMode::Daemon => Startup::ListenForCommands,
        }),
{
    let startup = match mode {
        RunMode::Daemon => Startup::ListenForCommands,
        RunMode::Normal => Startup::ShowNow,
    };
    let state = Launcher { query: String::new(), all_apps, visible: false, selected: 0 };
    (state, startup)
}

// ── what the windows are asked to do ────────────────────────────────────────

/// Whether a window takes the keyboard.
#[derive(Clone, Copy, Debug, PartialEq, Eq, Structural)]
pub enum Keyboard {
    NoFocus,
    Exclusive,
}

/// A request to one layer-shell window; each request goes to every window
/// that the launcher has seen.
#[derive(Clone, Copy, Debug)]
pub enum LayerRequest {
    AnchorSizeChange { anchor: AnchorEdges, size: (u32, u32) },
    MarginChange((i32, i32, i32, i32)),
    KeyboardInteractivityChange(Keyboard),
}

/// Hiding: shrink to 1x1 and let go of the keyboard.
pub fn all_ids_hide(window: &WindowConfig) -> (r: Vec<LayerRequest>)
    ensures
        r@ == seq![
            LayerRequest::AnchorSizeChange { anchor: edges_of(window.anchor), size: (1u32, 1u32) },
            LayerRequest::KeyboardInteractivityChange(Keyboard::NoFocus),
        ],
{
    let anchor = window.anchor.to_anchor();
    let r = vec![
        LayerRequest::AnchorSizeChange { anchor, size: (1, 1) },
        LayerRequest::KeyboardInteractivityChange(Keyboard::NoFocus),
    ];
    proof {
        assert(r@ =~= seq![
            LayerRequest::AnchorSizeChange { anchor: edges_of(window.anchor), size: (1u32, 1u32) },
            LayerRequest::KeyboardInteractivityChange(Keyboard::NoFocus),
        ]);
    }
    r
}

/// Showing: the configured width and `height`, the configured margins, and
/// the keyboard taken.
pub fn all_ids_show(window: &WindowConfig, height: u32) -> (r: Vec<LayerRequest>)
    ensures
        r@ == seq![
            LayerRequest::AnchorSizeChange {
                anchor: edges_of(window.anchor),
                size: (window.width, height),
            },
            LayerRequest::MarginChange(margins_of(window.anchor, window.margin)),
            LayerRequest::KeyboardInteractivityChange(Keyboard::Exclusive),
        ],
{
    let anchor = window.anchor.to_anchor();
    let margin = window.anchor.to_margin(window.margin);
    let r = vec![
        LayerRequest::AnchorSizeChange { anchor, size: (window.width, height) },
        LayerRequest::MarginChange(margin),
        LayerRequest::KeyboardInteractivityChange(Keyboard::Exclusive),
    ];
    proof {
        assert(r@ =~= seq![
            LayerRequest::AnchorSizeChange {
                anchor: edges_of(window.anchor),
                size: (window.width, height),
            },
            LayerRequest::MarginChange(margins_of(window.anchor, window.margin)),
            LayerRequest::KeyboardInteractivityChange(Keyboard::Exclusive),
        ]);
    }
    r
}

/// Resizing: the configured width and `height`.
pub fn all_ids_resize(window: &WindowConfig, height: u32) -> (r: Vec<LayerRequest>)
    ensures
        r@ == seq![
            LayerRequest::AnchorSizeChange {
                anchor: edges_of(window.anchor),
                size: (window.width, height),
            },
        ],
{
    let anchor = window.anchor.to_anchor();
    let r = vec![LayerRequest::AnchorSizeChange { anchor, size: (window.width, height) }];
    proof {
        assert(r@ =~= seq![
            LayerRequest::AnchorSizeChange {
                anchor: edges_of(window.anchor),
                size: (window.width, height),
            },
        ]);
    }
    r
}

// ── what is drawn ───────────────────────────────────────────────────────────

/// What the launcher's window shows.
pub enum Screen<'a> {
    /// Nothing: the window is a 1x1 stub.
    Hidden,
    /// The search field alone.
    Search,
    /// The search field and the results, the one at the position given
    /// highlighted.
    Results(Vec<&'a App>, usize),
}

impl Launcher {
    /// What the window shows: nothing when hidden; the results under the
    /// search field when there is a query and it has results, with the
    /// result that Enter would start highlighted; the search field alone
    /// otherwise.
    pub fn screen(&self) -> (r: Screen<'_>)
        ensures
            match r {
                Screen::Hidden => !self.visible,
                Screen::Search => self.visible && (self.query@.len() == 0 || results(self@).len()
                    == 0),
                Screen::Results(items, selected) => {
                    &&& self.visible
                    &&& self.query@.len() > 0
                    &&& results(self@).len() > 0
                    &&& ref_views(items@) == results(self@)
                    &&& selected == highlighted(self@)
                },
            },
    {
        if !self.visible {
            return Screen::Hidden;
        }
        if self.query.as_str().unicode_len() == 0 {
            return Screen::Search;
        }
        let results = self.filtered();
        if results.len() == 0 {
            return Screen::Search;
        }
        let last = results.len() - 1;
        let selected = if self.selected < last {
            self.selected
        } else {
            last
        };
        Screen::Results(results, selected)
    }
}

// ── laws ────────────────────────────────────────────────────────────────────

/// With an empty query every application is a result, in order.
pub proof fn lemma_empty_query_lists_all(apps: Seq<AppView>)
    ensures
        matching(apps, Seq::<char>::empty()) == apps,
    decreases apps.len(),
{
    if apps.len() > 0 {
        lemma_empty_query_lists_all(apps.drop_last());
        assert(apps.drop_last().push(apps.last()) =~= apps);
    }
}

/// Every result matches the query and is one of the applications; every
/// application that matches is a result.
pub proof fn lemma_results_are_the_matches(apps: Seq<AppView>, query: Seq<char>)
    ensures
        forall|i: int|
            0 <= i < matching(apps, query).len() ==> app_matches(
                query,
                (#[trigger] matching(apps, query)[i]).name,
            ) && apps.contains(matching(apps, query)[i]),
        forall|a: AppView| apps.contains(a) && app_matches(query, a.name) ==> matching(
            apps,
            query,
        ).contains(a),
    decreases apps.len(),
{
    if apps.len() > 0 {
        let rest = apps.drop_last();
        lemma_results_are_the_matches(rest, query);
        let m = matching(rest, query);
        let r = matching(apps, query);
        assert forall|i: int| 0 <= i < r.len() implies app_matches(query, (#[trigger] r[i]).name)
            && apps.contains(r[i]) by {
            if i < m.len() {
                assert(r[i] == m[i]);
                let w = choose|w: int| 0 <= w < rest.len() && rest[w] == m[i];
                assert(apps[w] == r[i]);
            } else {
                assert(apps[apps.len() - 1] == r[i]);
            }
        }
        assert forall|a: AppView| apps.contains(a) && app_matches(query, a.name) implies r.contains(
            a,
        ) by {
            let w = choose|w: int| 0 <= w < apps.len() && apps[w] == a;
            if w < rest.len() {
                assert(rest[w] == a);
                assert(rest.contains(a));
                assert(m.contains(a));
                let k = choose|k: int| 0 <= k < m.len() && m[k] == a;
                assert(r[k] == a);
            } else {
                assert(r[r.len() - 1] == a);
            }
        }
    }
}

/// The window is never lower than the search bar (80) nor higher than 400.
pub proof fn lemma_height_bounds(query: Seq<char>, count: nat)
    ensures
        80 <= height_for(query, count) <= 400,
{
}

/// The window grows by 55 pixels for each result, from 135 for one result,
/// up to 400; with no query or no result it is the search bar's 80.
pub proof fn lemma_height_per_result(query: Seq<char>, count: nat)
    ensures
        height_for(query, 0) == 80,
        height_for(Seq::<char>::empty(), count) == 80,
        query.len() > 0 ==> height_for(query, 1) == 135,
        query.len() > 0 && count >= 1 ==> height_for(query, count + 1) == (if height_for(
            query,
            count,
        ) + 55 >= 400 {
            400
        } else {
            height_for(query, count) + 55
        }),
{
}

/// Showing opens the launcher afresh: empty query, first result
/// highlighted, window shown with the search bar's height.
pub proof fn lemma_show_opens(s: LauncherView, mode: RunMode)
    ensures
        transition(s, mode, MessageView::Show).0 == (LauncherView {
            query: Seq::<char>::empty(),
            selected: 0,
            visible: true,
            ..s
        }),
        transition(s, mode, MessageView::Show).1 == ActionView::Show(80),
{
}

/// Escape, Close, clicking a result, and Enter on a result all close the
/// launcher: the query is emptied, the first result highlighted, the window
/// hidden, the applications kept; the program ends in normal mode and the
/// windows hide in daemon mode.
pub proof fn lemma_closing_messages(s: LauncherView, mode: RunMode, command: Seq<char>)
    ensures
        transition(s, mode, MessageView::IcedEvent(InputEventView::Escape)) == (
            closed(s),
            ActionView::Close(closing_for(mode)),
        ),
        transition(s, mode, MessageView::Close) == (closed(s), ActionView::Close(closing_for(mode))),
        transition(s, mode, MessageView::Launch(command)) == (
            closed(s),
            ActionView::LaunchAndClose(command, closing_for(mode)),
        ),
        results(s).len() > 0 ==> transition(s, mode, MessageView::IcedEvent(InputEventView::Enter))
            == (
            closed(s),
            ActionView::LaunchAndClose(results(s)[highlighted(s)].command, closing_for(mode)),
        ),
        closed(s).query.len() == 0 && closed(s).selected == 0 && !closed(s).visible
            && closed(s).apps == s.apps,
        (mode == RunMode::Normal) == (closing_for(mode) == Closing::Exit),
{
}

/// The result that Enter starts is one of the results: the highlighted one.
pub proof fn lemma_highlighted_in_range(s: LauncherView)
    requires
        s.selected >= 0,
        results(s).len() > 0,
    ensures
        0 <= highlighted(s) < results(s).len(),
{
}

/// Tab moves the highlight to the next result, wrapping around after the
/// last, and leaves the results as they are.
pub proof fn lemma_tab_cycles(s: LauncherView, mode: RunMode)
    requires
        s.selected >= 0,
    ensures
        ({
            let (t, a) = transition(s, mode, MessageView::IcedEvent(InputEventView::Tab));
            &&& a == ActionView::Nothing
            &&& results(t) == results(s)
            &&& results(s).len() > 0 ==> 0 <= t.selected < results(s).len()
            &&& results(s).len() > 0 && s.selected + 1 < results(s).len() ==> t.selected
                == s.selected + 1
            &&& results(s).len() > 0 && s.selected + 1 == results(s).len() ==> t.selected == 0
        }),
{
    let c = results(s).len() as int;
    if c > 0 {
        let x = s.selected + 1;
        assert(0 <= x % c < c) by (nonlinear_arith)
            requires
                c > 0,
                x >= 0,
        ;
        if x < c {
            assert(x % c == x) by (nonlinear_arith)
                requires
                    0 <= x < c,
            ;
        }
        if x == c {
            assert(x % c == 0) by (nonlinear_arith)
                requires
                    x == c,
                    c > 0,
            ;
        }
    }
}

/// Backspace takes back a typed character: typing one character and then
/// Backspace gives back the query, with the first result highlighted.
pub proof fn lemma_backspace_undoes_typing(s: LauncherView, mode: RunMode, c: char)
    ensures
        ({
            let t = transition(s, mode, MessageView::IcedEvent(InputEventView::Character(seq![c]))).0;
            let u = transition(t, mode, MessageView::IcedEvent(InputEventView::Backspace)).0;
            u == with_query(s, s.query)
        }),
{
    let t = transition(s, mode, MessageView::IcedEvent(InputEventView::Character(seq![c]))).0;
    assert(t.query.drop_last() =~= s.query);
}

/// Any change of the query highlights the first result and asks the
/// windows for the height that the new results take.
pub proof fn lemma_query_change_resizes(s: LauncherView, mode: RunMode, q: Seq<char>)
    ensures
        transition(s, mode, MessageView::QueryChanged(q)) == (
            with_query(s, q),
            ActionView::Resize(height_of(with_query(s, q))),
        ),
{
}

/// A reload touches nothing until the applications come back, and then
/// replaces only them.
pub proof fn lemma_reload_keeps_state(s: LauncherView, mode: RunMode)
    ensures
        transition(s, mode, MessageView::Reload) == (s, ActionView::Reload),
{
}

/// Enter starts the result at the highlight's position, `selected`, when
/// that is a result; after a stale highlight past the end, the last result.
/// Right after any change of the query that is the first result.
pub proof fn lemma_enter_starts_the_selected_result(s: LauncherView, mode: RunMode, q: Seq<char>)
    requires
        0 <= s.selected,
    ensures
        0 <= s.selected < results(s).len() ==> highlighted(s) == s.selected && transition(
            s,
            mode,
            MessageView::IcedEvent(InputEventView::Enter),
        ) == (
            closed(s),
            ActionView::LaunchAndClose(results(s)[s.selected].command, closing_for(mode)),
        ),
        results(s).len() > 0 && s.selected >= results(s).len() ==> highlighted(s) == results(
            s,
        ).len() - 1,
        results(with_query(s, q)).len() > 0 ==> highlighted(with_query(s, q)) == 0
            && transition(with_query(s, q), mode, MessageView::IcedEvent(InputEventView::Enter))
            == (
            closed(with_query(s, q)),
            ActionView::LaunchAndClose(results(with_query(s, q))[0].command, closing_for(mode)),
        ),
{
}

/// A key that has nothing to act on changes nothing: Enter and Tab when
/// there is no result, and any key the launcher does not handle.
pub proof fn lemma_idle_keys_change_nothing(s: LauncherView, mode: RunMode)
    ensures
        results(s).len() == 0 ==> transition(s, mode, MessageView::IcedEvent(InputEventView::Enter))
            == (s, ActionView::Nothing),
        results(s).len() == 0 ==> transition(s, mode, MessageView::IcedEvent(InputEventView::Tab))
            == (s, ActionView::Nothing),
        transition(s, mode, MessageView::IcedEvent(InputEventView::Other)) == (
            s,
            ActionView::Nothing,
        ),
{
}

/// The search ignores case: two non-empty queries with the same lower case
/// find the same applications.
pub proof fn lemma_search_ignores_case(q1: Seq<char>, q2: Seq<char>, name: Seq<char>)
    requires
        q1.len() > 0,
        q2.len() > 0,
        lowercase_of(q1) == lowercase_of(q2),
    ensures
        app_matches(q1, name) == app_matches(q2, name),
{
}

/// Typing an application's name finds it: a name matches itself as a
/// query, and every application with that name is among the results.
pub proof fn lemma_name_finds_itself(apps: Seq<AppView>, name: Seq<char>)
    ensures
        app_matches(name, name),
        forall|a: AppView| apps.contains(a) && a.name == name ==> matching(apps, name).contains(a),
{
    let l = lowercase_of(name);
    assert(l.subrange(0, l.len() as int) =~= l);
    assert(matches_at(l, l, 0));
    lemma_results_are_the_matches(apps, name);
}

/// ASCII lower case of two texts put together is the two lower cases put
/// together.
pub proof fn lemma_ascii_lowercase_concat(a: Seq<char>, b: Seq<char>)
    ensures
        ascii_lowercase(a + b) == ascii_lowercase(a) + ascii_lowercase(b),
        is_ascii_text(a) && is_ascii_text(b) ==> is_ascii_text(a + b),
{
    assert(ascii_lowercase(a + b) =~= ascii_lowercase(a) + ascii_lowercase(b));
    if is_ascii_text(a) && is_ascii_text(b) {
        assert forall|i: int| 0 <= i < (a + b).len() implies ((a + b)[i] as u32) < 0x80 by {
            if i < a.len() {
                assert((a + b)[i] == a[i]);
            } else {
                assert((a + b)[i] == b[i - a.len()]);
            }
        }
    }
}

/// A query is found anywhere in a name, not only at its start: an ASCII
/// name that holds the query somewhere is a result for it. The premises on
/// `lowercase_of` are what `to_lowercase` states of every ASCII text.
pub proof fn lemma_query_found_anywhere_in_name(x: Seq<char>, q: Seq<char>, y: Seq<char>)
    requires
        is_ascii_text(x),
        is_ascii_text(q),
        is_ascii_text(y),
        q.len() > 0,
        lowercase_of(q) == ascii_lowercase(q),
        lowercase_of(x + q + y) == ascii_lowercase(x + q + y),
    ensures
        app_matches(q, x + q + y),
{
    lemma_ascii_lowercase_concat(x, q);
    lemma_ascii_lowercase_concat(x + q, y);
    let t = ascii_lowercase(x) + ascii_lowercase(q) + ascii_lowercase(y);
    let at = ascii_lowercase(x).len() as int;
    assert(t.subrange(at, at + ascii_lowercase(q).len()) =~= ascii_lowercase(q));
    assert(matches_at(t, ascii_lowercase(q), at));
}

/// Text that holds `p + s` holds `p`.
proof fn lemma_contains_prefix(t: Seq<char>, p: Seq<char>, s: Seq<char>)
    requires
        contains(t, p + s),
    ensures
        contains(t, p),
{
    let i = choose|i: int| matches_at(t, p + s, i);
    assert(t.subrange(i, i + p.len()) =~= (p + s).subrange(0, p.len() as int));
    assert((p + s).subrange(0, p.len() as int) =~= p);
    assert(matches_at(t, p, i));
}

/// Filtering by a query that keeps no more than another one does keeps the
/// other query's results, in their order, and no more of them.
proof fn lemma_matching_narrows(apps: Seq<AppView>, q1: Seq<char>, q2: Seq<char>)
    requires
        forall|name: Seq<char>| app_matches(q2, name) ==> app_matches(q1, name),
    ensures
        matching(apps, q2) == matching(matching(apps, q1), q2),
        matching(apps, q2).len() <= matching(apps, q1).len(),
    decreases apps.len(),
{
    if apps.len() > 0 {
        let rest = apps.drop_last();
        let l = apps.last();
        lemma_matching_narrows(rest, q1, q2);
        let m1 = matching(rest, q1);
        if app_matches(q1, l.name) {
            assert(m1.push(l).drop_last() =~= m1);
            assert(m1.push(l).last() == l);
        }
    }
}

/// Typing more ASCII text after an ASCII query only narrows the search: the
/// results for `q + s` are the results for `q` that still match, in the same
/// order, so there are no more of them. The premises on `lowercase_of` are
/// what `filtered` and `to_lowercase` state of every ASCII query they lower.
pub proof fn lemma_longer_ascii_query_narrows(apps: Seq<AppView>, q: Seq<char>, s: Seq<char>)
    requires
        is_ascii_text(q),
        is_ascii_text(s),
        q.len() > 0 ==> lowercase_of(q) == ascii_lowercase(q),
        (q + s).len() > 0 ==> lowercase_of(q + s) == ascii_lowercase(q + s),
    ensures
        matching(apps, q + s) == matching(matching(apps, q), q + s),
        matching(apps, q + s).len() <= matching(apps, q).len(),
{
    lemma_ascii_lowercase_concat(q, s);
    assert forall|name: Seq<char>| app_matches(q + s, name) implies app_matches(q, name) by {
        if q.len() > 0 {
            lemma_contains_prefix(lowercase_of(name), ascii_lowercase(q), ascii_lowercase(s));
        }
    }
    lemma_matching_narrows(apps, q, q + s);
}

} // verus!
