//! The menus of the shell and of the icon beside the clock.

use crate::places;
use crate::text;
use vstd::prelude::*;

verus! {

/// The number of the first command in a context menu.
pub const CONTEXT_MENU_ID_FIRST: i32 = 1;

/// The place of a command among those of the shell; none where it is not one of them.
pub fn context_menu_command_offset(command: i32) -> (r: Option<usize>)
    ensures
        r == (if command >= CONTEXT_MENU_ID_FIRST {
            Some((command - CONTEXT_MENU_ID_FIRST) as usize)
        } else {
            None
        }),
{
    if command >= CONTEXT_MENU_ID_FIRST {
        Some((command - CONTEXT_MENU_ID_FIRST) as usize)
    } else {
        None
    }
}

/// What the choice of a user in a context menu comes to.
#[derive(Clone, Copy, Debug, PartialEq, Eq, Structural)]
pub enum MenuChoice {
    Nothing,
    Command(usize),
    Invalid,
}

/// What the choice of a user in a context menu comes to.
pub fn context_menu_choice(command: i32) -> (r: MenuChoice)
    ensures
        r == (if command == 0 {
            MenuChoice::Nothing
        } else if command >= CONTEXT_MENU_ID_FIRST {
            MenuChoice::Command((command - CONTEXT_MENU_ID_FIRST) as usize)
        } else {
            MenuChoice::Invalid
        }),
        r == MenuChoice::Nothing <==> command == 0,
        r matches MenuChoice::Command(offset) ==> offset + 1 == command,
        r == MenuChoice::Invalid <==> command < 0,
{
    if command == 0 {
        return MenuChoice::Nothing;
    }
    match context_menu_command_offset(command) {
        Some(offset) => MenuChoice::Command(offset),
        None => MenuChoice::Invalid,
    }
}

/// Whether to wait for the window of a command: where it is not known, or shows
/// properties.
pub fn should_wait_for_context_menu_command(command_verb: &Option<String>) -> (r: bool)
    ensures
        r == (match command_verb {
            Some(verb) => text::same_ignoring_ascii_case(verb@, "properties"@),
            None => true,
        }),
{
    match command_verb {
        Some(verb) => {
            let own = text::chars_of(verb.as_str());
            let wanted = text::chars_of("properties");
            text::equal_ignoring_ascii_case(own.as_slice(), wanted.as_slice())
        },
        None => true,
    }
}

/// Whether to go on waiting for a window: while it is seen, and for a while where none
/// has been seen yet.
pub fn should_wait_for_shell_window(
    observed_window: bool,
    visible_window: bool,
    inside_appearance_grace: bool,
) -> (r: bool)
    ensures
        r == (visible_window || !observed_window && inside_appearance_grace),
{
    visible_window || (!observed_window && inside_appearance_grace)
}

/// How waiting for the windows of the shell goes on.
#[derive(Clone, Copy, Debug, PartialEq, Eq, Structural)]
pub enum WaitStep {
    Wait,
    Finished,
    TimedOut,
}

/// Waiting for the windows of the shell.
#[derive(Clone, Copy, Debug, PartialEq, Eq, Structural)]
pub struct ShellWindowWait {
    pub observed_window: bool,
}

impl ShellWindowWait {
    /// How waiting goes on when a window is seen or not. Once a window was seen, it ends
    /// as soon as none is.
    pub fn next(&mut self, visible_window: bool, inside_appearance_grace: bool, is_overdue: bool) -> (r:
        WaitStep)
        ensures
            final(self).observed_window == (old(self).observed_window || visible_window),
            r == (if !visible_window && (old(self).observed_window || !inside_appearance_grace) {
                WaitStep::Finished
            } else if is_overdue {
                WaitStep::TimedOut
            } else {
                WaitStep::Wait
            }),
            visible_window ==> r != WaitStep::Finished,
            r == WaitStep::Wait ==> !is_overdue,
            r == WaitStep::Finished && !old(self).observed_window ==> !inside_appearance_grace,
    {
        self.observed_window = self.observed_window || visible_window;
        if !should_wait_for_shell_window(
            self.observed_window,
            visible_window,
            inside_appearance_grace,
        ) {
            WaitStep::Finished
        } else if is_overdue {
            WaitStep::TimedOut
        } else {
            WaitStep::Wait
        }
    }
}

/// What the icon beside the clock is asked for.
#[derive(Clone, Copy, Debug, PartialEq, Eq, Structural)]
pub enum TrayCommand {
    ShowHide,
    Config,
    Quit,
    Nothing,
}

/// The numbers of the commands of the icon beside the clock.
#[derive(Clone, Copy, Debug, PartialEq, Eq, Structural)]
pub struct TrayCommandIds {
    pub show_hide: usize,
    pub config: usize,
    pub quit: usize,
}

/// What the icon beside the clock is asked for by a number.
pub fn tray_menu_command(command: usize, ids: &TrayCommandIds) -> (r: TrayCommand)
    ensures
        r == (if command == ids.show_hide {
            TrayCommand::ShowHide
        } else if command == ids.config {
            TrayCommand::Config
        } else if command == ids.quit {
            TrayCommand::Quit
        } else {
            TrayCommand::Nothing
        }),
{
    if command == ids.show_hide {
        TrayCommand::ShowHide
    } else if command == ids.config {
        TrayCommand::Config
    } else if command == ids.quit {
        TrayCommand::Quit
    } else {
        TrayCommand::Nothing
    }
}

/// Whether a window belongs to this program: its program is the same file, whatever the
/// case of its letters.
pub fn is_same_program(own: &Option<String>, other: &Option<String>) -> (r: bool)
    ensures
        r == (match (own, other) {
            (Some(a), Some(b)) => text::same_ignoring_ascii_case(a@, b@),
            _ => false,
        }),
{
    match (own, other) {
        (Some(a), Some(b)) => {
            let x = text::chars_of(a.as_str());
            let y = text::chars_of(b.as_str());
            text::equal_ignoring_ascii_case(x.as_slice(), y.as_slice())
        },
        _ => false,
    }
}

/// The numbers below a count, in their order.
pub open spec fn numbers_below(indices: Seq<usize>, count: usize, n: int) -> Seq<usize>
    decreases n,
{
    if n <= 0 {
        Seq::empty()
    } else if indices[n - 1] < count {
        numbers_below(indices, count, n - 1).push(indices[n - 1])
    } else {
        numbers_below(indices, count, n - 1)
    }
}

/// The rows to select again in a list with a number of rows; the first gets the focus.
pub fn rows_to_select(indices: &[usize], count: usize) -> (r: Vec<usize>)
    ensures
        r@ == numbers_below(indices@, count, indices@.len() as int),
{
    let mut out: Vec<usize> = Vec::new();
    let mut i: usize = 0;
    while i < indices.len()
        invariant
            i <= indices.len(),
            out@ == numbers_below(indices@, count, i as int),
        decreases indices.len() - i,
    {
        if indices[i] < count {
            out.push(indices[i]);
        }
        i += 1;
    }
    out
}

/// The rows that are selected again are those that are still there, in their order.
pub proof fn lemma_rows_still_there(indices: Seq<usize>, count: usize, n: int)
    requires
        0 <= n <= indices.len(),
    ensures
        ({
            let wanted = |p: int| indices[p] < count;
            exists|from: Seq<int>| #[trigger]
                places::picks_all(from, n, wanted) && numbers_below(indices, count, n) == Seq::new(
                    from.len(),
                    |i: int| indices[from[i]],
                )
        }),
    decreases n,
{
    let wanted = |p: int| indices[p] < count;
    if n > 0 {
        lemma_rows_still_there(indices, count, n - 1);
        let from = choose|from: Seq<int>| #[trigger]
            places::picks_all(from, n - 1, wanted) && numbers_below(indices, count, n - 1)
                == Seq::new(from.len(), |i: int| indices[from[i]]);
        places::lemma_pick_one_more(from, n - 1, wanted);
        let next = if wanted(n - 1) {
            from.push(n - 1)
        } else {
            from
        };
        assert(places::picks_all(next, n, wanted));
        assert(numbers_below(indices, count, n) =~= Seq::new(
            next.len(),
            |i: int| indices[next[i]],
        ));
    } else {
        let from = Seq::<int>::empty();
        assert(places::picks_all(from, n, wanted));
        assert(numbers_below(indices, count, n) =~= Seq::new(
            from.len(),
            |i: int| indices[from[i]],
        ));
    }
}

} // verus!
