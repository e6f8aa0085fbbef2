//! What is shown on the user's Discord profile: when it is sent, and how a lost connection is
//! taken up again.

use vstd::prelude::*;

use crate::shells;
use crate::text;

verus! {

/// What the user is doing, as picked in the settings.
#[derive(Clone, Copy, Debug, PartialEq, Eq, Structural)]
pub enum DiscordPresenceActivity {
    Editing,
    Cooking,
}

/// What an activity is called.
pub open spec fn label(activity: DiscordPresenceActivity) -> Seq<char> {
    match activity {
        DiscordPresenceActivity::Editing => "Editing in Nermal"@,
        DiscordPresenceActivity::Cooking => "Cooking in Nermal"@,
    }
}

/// What an activity is called.
pub fn activity_label(activity: DiscordPresenceActivity) -> (r: &'static str)
    ensures
        r@ == label(activity),
{
    match activity {
        DiscordPresenceActivity::Editing => "Editing in Nermal",
        DiscordPresenceActivity::Cooking => "Cooking in Nermal",
    }
}

/// What the thread that speaks to Discord is told.
#[derive(Debug)]
pub enum Command {
    Show { activity: DiscordPresenceActivity, file_name: Option<String> },
    Disable,
}

/// What a command stands for.
pub enum Order {
    Show { activity: DiscordPresenceActivity, file_name: Option<Seq<char>> },
    Disable,
}

impl View for Command {
    type V = Order;

    open spec fn view(&self) -> Order {
        match self {
            Command::Show { activity, file_name } => Order::Show {
                activity: *activity,
                file_name: shells::shown(*file_name),
            },
            Command::Disable => Order::Disable,
        }
    }
}

/// What was asked for last, and whether the thread was ever started.
#[derive(Debug)]
pub struct Presence {
    last: Option<(bool, DiscordPresenceActivity, Option<String>)>,
    started: bool,
}

/// What can be asked for: whether anything is shown, and what.
pub struct Wish {
    pub enabled: bool,
    pub activity: DiscordPresenceActivity,
    pub file_name: Option<Seq<char>>,
}

/// The state of the presence.
pub struct Shown {
    pub last: Option<Wish>,
    pub started: bool,
}

impl View for Presence {
    type V = Shown;

    closed spec fn view(&self) -> Shown {
        Shown {
            last: match self.last {
                Some((enabled, activity, file_name)) => Some(
                    Wish { enabled, activity, file_name: shells::shown(file_name) },
                ),
                None => None,
            },
            started: self.started,
        }
    }
}

/// What the thread is told when something is asked for. The same thing again costs nothing, and to
/// show nothing where nothing was ever shown starts no thread.
pub open spec fn told(state: Shown, wish: Wish) -> Option<Order> {
    if state.last == Some(wish) {
        None
    } else if wish.enabled {
        Some(Order::Show { activity: wish.activity, file_name: wish.file_name })
    } else if state.started {
        Some(Order::Disable)
    } else {
        None
    }
}

/// The state once something was asked for.
pub open spec fn asked(state: Shown, wish: Wish) -> Shown {
    if state.last == Some(wish) {
        state
    } else {
        Shown { last: Some(wish), started: state.started || wish.enabled }
    }
}

impl Presence {
    /// Nothing was asked for yet.
    pub fn new() -> (r: Self)
        ensures
            r@ == (Shown { last: None, started: false }),
    {
        Presence { last: None, started: false }
    }

    /// Whether this was asked for last.
    fn is_last(
        &self,
        enabled: bool,
        activity: DiscordPresenceActivity,
        file_name: &Option<String>,
    ) -> (r: bool)
        ensures
            r == (self@.last == Some(
                Wish { enabled, activity, file_name: shells::shown(*file_name) },
            )),
    {
        match &self.last {
            Some((e, a, f)) => *e == enabled && *a == activity && match (f, file_name) {
                (Some(x), Some(y)) => text::same_text(x.as_str(), y.as_str()),
                (None, None) => true,
                _ => false,
            },
            None => false,
        }
    }
}

/// Says what the user is doing; gives what the thread is to be told, if anything. It can be called
/// for every frame: most calls change nothing.
pub fn sync(
    state: &mut Presence,
    enabled: bool,
    activity: DiscordPresenceActivity,
    file_name: Option<String>,
) -> (r: Option<Command>)
    ensures
        ({
            let wish = Wish { enabled, activity, file_name: shells::shown(file_name) };
            &&& final(state)@ == asked(old(state)@, wish)
            &&& r is Some <==> told(old(state)@, wish) is Some
            &&& r matches Some(command) ==> told(old(state)@, wish) == Some(command@)
        }),
{
    if state.is_last(enabled, activity, &file_name) {
        return None;
    }
    let copy: Option<String> = match &file_name {
        Some(name) => Some(name.clone()),
        None => None,
    };
    state.last = Some((enabled, activity, copy));
    if enabled {
        state.started = true;
        Some(Command::Show { activity, file_name })
    } else if state.started {
        Some(Command::Disable)
    } else {
        None
    }
}

/// Asking for the same thing again tells the thread nothing.
pub proof fn law_the_same_wish_is_told_once(state: Shown, wish: Wish)
    ensures
        told(asked(state, wish), wish) is None,
{
}

/// To turn off what was never on does not start the thread.
pub proof fn law_turning_off_starts_nothing(state: Shown, wish: Wish)
    requires
        !wish.enabled,
        !state.started,
    ensures
        told(state, wish) is None,
        !asked(state, wish).started,
{
}

/// What the thread is waiting for.
#[derive(Clone, Copy, Debug, PartialEq, Eq, Structural)]
pub enum Stage {
    /// The next command.
    Idle,
    /// A connection, the first one for a command or a second one.
    Connecting { again: bool },
    /// An update to be sent, for the first time or again.
    Sending { again: bool },
    /// What is shown to be taken away.
    Clearing,
    /// The connection to be closed.
    Closing,
}

/// What the thread does next.
#[derive(Clone, Copy, Debug, PartialEq, Eq, Structural)]
pub enum Action {
    /// Wait for the next command.
    Wait,
    /// Connect to Discord, in place of a connection there may be.
    Connect,
    /// Send the update.
    Send,
    /// Take away what is shown.
    Clear,
    /// Close the connection, which is given up.
    Close,
}

/// The connection of the thread.
#[derive(Clone, Copy, Debug, PartialEq, Eq, Structural)]
pub struct Session {
    pub connected: bool,
    pub stage: Stage,
}

/// The session once a command has come.
pub open spec fn ordered(connected: bool, show: bool) -> Session {
    if show {
        Session {
            connected,
            stage: if connected {
                Stage::Sending { again: false }
            } else {
                Stage::Connecting { again: false }
            },
        }
    } else {
        Session {
            connected,
            stage: if connected {
                Stage::Clearing
            } else {
                Stage::Idle
            },
        }
    }
}

/// The session once the action was taken, given whether it succeeded. A connection that Discord has
/// dropped shows when something is sent: then it is made anew, once, before the update is given up.
pub open spec fn answered(session: Session, ok: bool) -> Session {
    match session.stage {
        Stage::Idle => session,
        Stage::Connecting { again } => if ok {
            Session { connected: true, stage: Stage::Sending { again } }
        } else {
            Session { connected: false, stage: Stage::Idle }
        },
        Stage::Sending { again } => if ok || again {
            Session { stage: Stage::Idle, ..session }
        } else {
            Session { stage: Stage::Connecting { again: true }, ..session }
        },
        Stage::Clearing => Session { stage: Stage::Closing, ..session },
        Stage::Closing => Session { connected: false, stage: Stage::Idle },
    }
}

/// What is to be done in a stage.
pub open spec fn due(stage: Stage) -> Action {
    match stage {
        Stage::Idle => Action::Wait,
        Stage::Connecting { .. } => Action::Connect,
        Stage::Sending { .. } => Action::Send,
        Stage::Clearing => Action::Clear,
        Stage::Closing => Action::Close,
    }
}

impl Session {
    /// No connection, and no command yet.
    pub fn new() -> (r: Self)
        ensures
            r == (Session { connected: false, stage: Stage::Idle }),
    {
        Session { connected: false, stage: Stage::Idle }
    }

    /// What is to be done now.
    pub fn action(&self) -> (r: Action)
        ensures
            r == due(self.stage),
    {
        match self.stage {
            Stage::Idle => Action::Wait,
            Stage::Connecting { again: _ } => Action::Connect,
            Stage::Sending { again: _ } => Action::Send,
            Stage::Clearing => Action::Clear,
            Stage::Closing => Action::Close,
        }
    }

    /// Takes a command: to show something, or to show nothing any more.
    pub fn begin(&mut self, show: bool)
        requires
            old(self).stage == Stage::Idle,
        ensures
            *final(self) == ordered(old(self).connected, show),
    {
        self.stage = if show {
            if self.connected {
                Stage::Sending { again: false }
            } else {
                Stage::Connecting { again: false }
            }
        } else if self.connected {
            Stage::Clearing
        } else {
            Stage::Idle
        };
    }

    /// Takes whether the action succeeded.
    pub fn answer(&mut self, ok: bool)
        ensures
            *final(self) == answered(*old(self), ok),
    {
        match self.stage {
            Stage::Idle => {},
            Stage::Connecting { again } => {
                self.connected = ok;
                self.stage = if ok {
                    Stage::Sending { again }
                } else {
                    Stage::Idle
                };
            },
            Stage::Sending { again } => {
                self.stage = if ok || again {
                    Stage::Idle
                } else {
                    Stage::Connecting { again: true }
                };
            },
            Stage::Clearing => {
                self.stage = Stage::Closing;
            },
            Stage::Closing => {
                self.connected = false;
                self.stage = Stage::Idle;
            },
        }
    }
}

/// The session once `n` actions were taken, given whether each succeeded.
pub open spec fn after(session: Session, answers: Seq<bool>) -> Session
    decreases answers.len(),
{
    if answers.len() == 0 {
        session
    } else {
        answered(after(session, answers.drop_last()), answers.last())
    }
}

/// A connection that Discord has dropped is made anew, and what was to be shown is sent once more;
/// after that the update is given up, whatever comes of it.
pub proof fn law_a_dropped_connection_is_made_anew_once(ok: bool)
    ensures
        due(ordered(true, true).stage) == Action::Send,
        due(after(ordered(true, true), seq![false]).stage) == Action::Connect,
        due(after(ordered(true, true), seq![false, true]).stage) == Action::Send,
        after(ordered(true, true), seq![false, true, ok]) == (Session {
            connected: true,
            stage: Stage::Idle,
        }),
        after(ordered(true, true), seq![false, false]) == (Session {
            connected: false,
            stage: Stage::Idle,
        }),
{
    reveal_with_fuel(after, 4);
    assert(seq![false].drop_last() =~= Seq::<bool>::empty());
    assert(seq![false, true].drop_last() =~= seq![false]);
    assert(seq![false, false].drop_last() =~= seq![false]);
    assert(seq![false, true, ok].drop_last() =~= seq![false, true]);
}

/// Every command is over after four actions at most, whatever Discord answers.
pub proof fn law_a_command_is_over_after_four_actions(
    connected: bool,
    show: bool,
    a: bool,
    b: bool,
    c: bool,
    d: bool,
)
    ensures
        after(ordered(connected, show), seq![a, b, c, d]).stage == Stage::Idle,
{
    reveal_with_fuel(after, 5);
    let all = seq![a, b, c, d];
    assert(all.drop_last() =~= seq![a, b, c]);
    assert(all.drop_last().drop_last() =~= seq![a, b]);
    assert(all.drop_last().drop_last().drop_last() =~= seq![a]);
    assert(all.drop_last().drop_last().drop_last().drop_last() =~= Seq::<bool>::empty());
}

/// A session that could not connect tries again with the next command that shows something.
pub proof fn law_a_failure_is_tried_again()
    ensures
        after(ordered(false, true), seq![false]) == (Session {
            connected: false,
            stage: Stage::Idle,
        }),
        due(ordered(false, true).stage) == Action::Connect,
{
    reveal_with_fuel(after, 2);
    assert(seq![false].drop_last() =~= Seq::<bool>::empty());
}

/// A wish that differs from the last one is told as it is: what to show, or that nothing is to be
/// shown any more where something may be.
pub proof fn law_a_new_wish_is_told(state: Shown, wish: Wish)
    requires
        state.last != Some(wish),
    ensures
        wish.enabled ==> told(state, wish) == Some(
            Order::Show { activity: wish.activity, file_name: wish.file_name },
        ),
        !wish.enabled && state.started ==> told(state, wish) == Some(Order::Disable),
        !wish.enabled && !state.started ==> told(state, wish) is None,
        asked(state, wish).last == Some(wish),
        asked(state, wish).started <==> state.started || wish.enabled,
        label(DiscordPresenceActivity::Editing) == "Editing in Nermal"@,
        label(DiscordPresenceActivity::Cooking) == "Cooking in Nermal"@,
{
}

/// To show something, a connection is made where there is none, and then it is sent; to show nothing,
/// what is shown is taken away and the connection closed, whatever comes of either.
pub proof fn law_nothing_is_shown_without_a_connection(connected: bool, a: bool, b: bool)
    ensures
        ({
            let show = ordered(connected, true);
            let hide = ordered(connected, false);
            &&& connected ==> due(show.stage) == Action::Send
            &&& !connected ==> due(show.stage) == Action::Connect
            &&& !connected ==> due(answered(show, true).stage) == Action::Send
            &&& !connected ==> answered(answered(show, true), true) == (Session {
                connected: true,
                stage: Stage::Idle,
            })
            &&& connected ==> answered(show, true) == (Session {
                connected: true,
                stage: Stage::Idle,
            })
            &&& connected ==> due(hide.stage) == Action::Clear
            &&& connected ==> due(answered(hide, a).stage) == Action::Close
            &&& connected ==> answered(answered(hide, a), b) == (Session {
                connected: false,
                stage: Stage::Idle,
            })
            &&& !connected ==> due(hide.stage) == Action::Wait
        }),
{
}

} // verus!
