//! The decisions of the interactive front ends: which tab the terminal
//! interface shows after a key press, and what a menu choice asks for.
use vstd::prelude::*;

use crate::clock::trunc_div;
use vstd::arithmetic::div_mod::{lemma_mod_self_0, lemma_small_mod};

verus! {

/// The tabs of the terminal interface, in order.
pub const TAB_COUNT: usize = 4;

/// A key press, as far as the terminal interface tells keys apart.
#[derive(Copy, Clone, Debug, PartialEq, Eq, Structural)]
pub enum TuiKey {
    Char(char),
    Right,
    Left,
    Other,
}

/// What the terminal interface does after a key press.
#[derive(Copy, Clone, Debug, PartialEq, Eq, Structural)]
pub enum TuiAction {
    /// Draw the tab with this index.
    Show(usize),
    /// Leave the interface.
    Quit,
}

/// The next state of the terminal interface: `q` quits; the right arrow
/// moves to the next tab and the left arrow to the previous one, both
/// wrapping around; any other key keeps the tab.
pub open spec fn tui_step(selected: int, tab_count: int, key: TuiKey) -> TuiAction {
    match key {
        TuiKey::Char(c) => if c == 'q' {
            TuiAction::Quit
        } else {
            TuiAction::Show(selected as usize)
        },
        TuiKey::Right => TuiAction::Show(((selected + 1) % tab_count) as usize),
        TuiKey::Left => TuiAction::Show(
            if selected > 0 {
                (selected - 1) as usize
            } else {
                (tab_count - 1) as usize
            },
        ),
        TuiKey::Other => TuiAction::Show(selected as usize),
    }
}

/// The terminal interface's answer to a key press.
pub fn tui_next(selected: usize, tab_count: usize, key: TuiKey) -> (a: TuiAction)
    requires
        selected < tab_count,
    ensures
        a == tui_step(selected as int, tab_count as int, key),
{
    match key {
        TuiKey::Char(c) => if c == 'q' {
            TuiAction::Quit
        } else {
            TuiAction::Show(selected)
        },
        TuiKey::Right => TuiAction::Show((selected + 1) % tab_count),
        TuiKey::Left => TuiAction::Show(
            if selected > 0 {
                selected - 1
            } else {
                tab_count - 1
            },
        ),
        TuiKey::Other => TuiAction::Show(selected),
    }
}

/// Moving one tab right and then one tab left comes back to the tab one
/// started from, and so does moving left and then right.
pub proof fn lemma_tui_left_undoes_right(selected: usize, tab_count: usize)
    requires
        0 <= selected < tab_count,
    ensures
        tui_step(selected as int, tab_count as int, TuiKey::Right) matches TuiAction::Show(t) && tui_step(
            t as int,
            tab_count as int,
            TuiKey::Left,
        ) == TuiAction::Show(selected),
        tui_step(selected as int, tab_count as int, TuiKey::Left) matches TuiAction::Show(t) && tui_step(
            t as int,
            tab_count as int,
            TuiKey::Right,
        ) == TuiAction::Show(selected),
{
    if selected + 1 < tab_count {
        lemma_small_mod((selected + 1) as nat, tab_count as nat);
    } else {
        lemma_mod_self_0(tab_count as int);
    }
    lemma_small_mod(selected as nat, tab_count as nat);
}

/// The tab moves: the right arrow shows the next tab and, from the last,
/// the first; the left arrow shows the previous tab and, from the first,
/// the last; `q` quits, and any other key keeps the tab shown.
pub proof fn lemma_tui_moves(selected: usize, tab_count: usize, c: char)
    requires
        0 <= selected < tab_count,
    ensures
        selected + 1 < tab_count ==> tui_step(selected as int, tab_count as int, TuiKey::Right)
            == TuiAction::Show((selected + 1) as usize),
        selected + 1 == tab_count ==> tui_step(selected as int, tab_count as int, TuiKey::Right)
            == TuiAction::Show(0),
        selected > 0 ==> tui_step(selected as int, tab_count as int, TuiKey::Left) == TuiAction::Show(
            (selected - 1) as usize,
        ),
        selected == 0 ==> tui_step(selected as int, tab_count as int, TuiKey::Left)
            == TuiAction::Show((tab_count - 1) as usize),
        tui_step(selected as int, tab_count as int, TuiKey::Char('q')) == TuiAction::Quit,
        c != 'q' ==> tui_step(selected as int, tab_count as int, TuiKey::Char(c)) == TuiAction::Show(
            selected,
        ),
        tui_step(selected as int, tab_count as int, TuiKey::Other) == TuiAction::Show(selected),
{
    if selected + 1 < tab_count {
        lemma_small_mod((selected + 1) as nat, tab_count as nat);
    } else {
        lemma_mod_self_0(tab_count as int);
    }
}

/// What a choice of the interactive menu asks for.
#[derive(Copy, Clone, Debug, PartialEq, Eq, Structural)]
pub enum MenuAction {
    Status,
    Branches,
    /// The given number of recent commits.
    Log(usize),
    Stats,
    Tui,
    Exit,
}

/// The menu's choices, in order.
pub const MENU_ITEMS: usize = 6;

/// The action of the menu choice at `selection`; the log shows 10 commits.
pub fn menu_action(selection: usize) -> (a: MenuAction)
    requires
        selection < MENU_ITEMS,
    ensures
        a == if selection == 0 {
            MenuAction::Status
        } else if selection == 1 {
            MenuAction::Branches
        } else if selection == 2 {
            MenuAction::Log(10)
        } else if selection == 3 {
            MenuAction::Stats
        } else if selection == 4 {
            MenuAction::Tui
        } else {
            MenuAction::Exit
        },
{
    if selection == 0 {
        MenuAction::Status
    } else if selection == 1 {
        MenuAction::Branches
    } else if selection == 2 {
        MenuAction::Log(10)
    } else if selection == 3 {
        MenuAction::Stats
    } else if selection == 4 {
        MenuAction::Tui
    } else {
        MenuAction::Exit
    }
}

/// Whole days from the first commit to `now`.
pub fn repository_age_days(now: i64, first_commit: i64) -> (d: i64)
    requires
        i64::MIN <= now - first_commit <= i64::MAX,
    ensures
        d == trunc_div(now - first_commit, 86_400),
{
    (now - first_commit) / 86_400
}

} // verus!
