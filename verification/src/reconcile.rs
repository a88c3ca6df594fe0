use vstd::prelude::*;

use crate::model::Window;
use crate::model::Workspace;
use crate::model::opt_str;
use crate::model::win_ids_unique;
use crate::model::ws_ids_unique;

verus! {

/// One change event from the compositor, as the reconciler models it.
///
/// The vocabulary is closed: every event kind the compositor can send that
/// carries no state of interest (keyboard layouts and the like) maps to
/// `Ignored`.
#[allow(inconsistent_fields)]
pub enum Event {
    /// The whole workspace collection is replaced verbatim.
    WorkspacesReplaced { workspaces: Vec<Workspace> },
    /// The workspace with `id` became the shown one on its output; with
    /// `focused` it also became the single globally focused workspace.
    WorkspaceActivated { id: u64, focused: bool },
    /// The active window on workspace `workspace_id` changed.
    WorkspaceActiveWindowChanged { workspace_id: u64, active_window_id: Option<u64> },
    /// The whole window collection is replaced verbatim.
    WindowsReplaced { windows: Vec<Window> },
    /// A window was opened, or an existing one changed; insert or replace by id.
    WindowOpenedOrChanged { window: Window },
    /// The window with `id` was closed.
    WindowClosed { id: u64 },
    /// Focus moved to the window with the given id, or to no window.
    WindowFocusChanged { id: Option<u64> },
    /// Any event kind the model deliberately does not track.
    Ignored,
}

/// A reference to state that the event source's contract guarantees to exist.
/// Encountering one of these is fatal: the caller is expected to stop rather
/// than display a corrupted mirror.
#[derive(Debug, Clone, Copy, PartialEq, Eq, Structural)]
pub enum IntegrityError {
    /// An activation event named a workspace id absent from the model.
    ActivatedWorkspaceMissing { workspace_id: u64 },
    /// During projection, a non-floating window referenced a workspace id
    /// that no placed (output-bearing) workspace carries.
    WindowWorkspaceMissing { window_id: u64, workspace_id: u64 },
}

/// The mathematical model of the flat state: the two collections as sequences.
#[verifier::ext_equal]
pub struct StateView {
    pub workspaces: Seq<Workspace>,
    pub windows: Seq<Window>,
}

impl StateView {
    /// Identifiers in the flat model are unique: what the compositor promises
    /// of its collections, and what the projector relies on.
    pub open spec fn wf(self) -> bool {
        ws_ids_unique(self.workspaces) && win_ids_unique(self.windows)
    }
}

/// Whether `p` holds of some element of `s`.
pub open spec fn has_match<A>(s: Seq<A>, p: spec_fn(A) -> bool) -> bool {
    exists|k: int| 0 <= k < s.len() && p(s[k])
}

/// Whether `k` is the first index of `s` whose element satisfies `p`.
pub open spec fn is_first_match<A>(s: Seq<A>, p: spec_fn(A) -> bool, k: int) -> bool {
    &&& 0 <= k < s.len()
    &&& p(s[k])
    &&& forall|j: int| 0 <= j < k ==> !p(s[j])
}

/// The first index of `s` whose element satisfies `p` (meaningful only when
/// `has_match(s, p)`).
pub open spec fn first_match<A>(s: Seq<A>, p: spec_fn(A) -> bool) -> int
    decreases s.len(),
{
    if s.len() == 0 {
        0
    } else if p(s[0]) {
        0
    } else {
        1 + first_match(s.drop_first(), p)
    }
}

pub proof fn lemma_first_match<A>(s: Seq<A>, p: spec_fn(A) -> bool)
    requires
        has_match(s, p),
    ensures
        is_first_match(s, p, first_match(s, p)),
    decreases s.len(),
{
    if p(s[0]) {
    } else {
        let t = s.drop_first();
        let k = choose|k: int| 0 <= k < s.len() && p(s[k]);
        assert(t[k - 1] == s[k]);
        lemma_first_match(t, p);
        let f = first_match(t, p);
        assert(s[1 + f] == t[f]);
        assert forall|j: int| 0 <= j < 1 + f implies !p(s[j]) by {
            if j > 0 {
                assert(s[j] == t[j - 1]);
            }
        }
    }
}

pub proof fn lemma_first_match_unique<A>(s: Seq<A>, p: spec_fn(A) -> bool, k1: int, k2: int)
    requires
        is_first_match(s, p, k1),
        is_first_match(s, p, k2),
    ensures
        k1 == k2,
{
}

/// The predicate "this workspace carries id `id`".
pub open spec fn ws_has_id(id: u64) -> spec_fn(Workspace) -> bool {
    |w: Workspace| w.id == id
}

/// The predicate "this window carries id `id`".
pub open spec fn win_has_id(id: u64) -> spec_fn(Window) -> bool {
    |w: Window| w.id == id
}

/// The predicate "this window does not carry id `id`" (what a close keeps).
pub open spec fn win_keeps(id: u64) -> spec_fn(Window) -> bool {
    |w: Window| w.id != id
}

pub open spec fn has_ws_id(wss: Seq<Workspace>, id: u64) -> bool {
    has_match(wss, ws_has_id(id))
}

pub open spec fn first_ws_idx(wss: Seq<Workspace>, id: u64) -> int {
    first_match(wss, ws_has_id(id))
}

pub open spec fn has_win_id(wins: Seq<Window>, id: u64) -> bool {
    has_match(wins, win_has_id(id))
}

pub open spec fn first_win_idx(wins: Seq<Window>, id: u64) -> int {
    first_match(wins, win_has_id(id))
}

/// Every workspace with its global focus flag cleared.
pub open spec fn ws_all_unfocused(wss: Seq<Workspace>) -> Seq<Workspace> {
    Seq::new(wss.len(), |i: int| Workspace { is_focused: false, ..wss[i] })
}

/// Every window with its global focus flag cleared.
pub open spec fn win_all_unfocused(wins: Seq<Window>) -> Seq<Window> {
    Seq::new(wins.len(), |i: int| Window { is_focused: false, ..wins[i] })
}

/// The workspace collection after an activation of the workspace with `id`
/// (meaningful only when that id is present). The focused flags are first
/// cleared everywhere when the activation also focuses; the first workspace
/// with `id` becomes active (and focused as requested); and when it sits on a
/// known output, every other workspace on that output loses its active flag.
pub open spec fn spec_activate(wss: Seq<Workspace>, id: u64, focused: bool) -> Seq<Workspace>
    recommends
        has_ws_id(wss, id),
{
    let k = first_ws_idx(wss, id);
    let base = if focused {
        ws_all_unfocused(wss)
    } else {
        wss
    };
    let out = opt_str(wss[k].output);
    Seq::new(
        wss.len(),
        |i: int|
            if i == k {
                Workspace { is_active: true, is_focused: focused, ..base[k] }
            } else if out is Some && base[i].id != id && opt_str(base[i].output) == out {
                Workspace { is_active: false, ..base[i] }
            } else {
                base[i]
            },
    )
}

/// The workspace collection after the active window on workspace
/// `workspace_id` changed; a miss is a benign race and changes nothing.
pub open spec fn spec_set_active_window(
    wss: Seq<Workspace>,
    workspace_id: u64,
    active_window_id: Option<u64>,
) -> Seq<Workspace> {
    if has_ws_id(wss, workspace_id) {
        let k = first_ws_idx(wss, workspace_id);
        wss.update(k, Workspace { active_window_id: active_window_id, ..wss[k] })
    } else {
        wss
    }
}

/// The window collection after an upsert of `w`: when `w` is focused every
/// other focus flag is cleared first; then the first window with `w.id` is
/// replaced wholesale by `w`, or `w` is appended when its id is new.
pub open spec fn spec_upsert(wins: Seq<Window>, w: Window) -> Seq<Window> {
    let base = if w.is_focused {
        win_all_unfocused(wins)
    } else {
        wins
    };
    if has_win_id(wins, w.id) {
        base.update(first_win_idx(wins, w.id), w)
    } else {
        base.push(w)
    }
}

/// The window collection after the window with `id` closed; a miss changes
/// nothing.
pub open spec fn spec_close(wins: Seq<Window>, id: u64) -> Seq<Window> {
    wins.filter(win_keeps(id))
}

/// The window collection after a focus change: every focus flag is cleared,
/// then the first window with the given id (if any, and if present) becomes
/// focused.
pub open spec fn spec_focus(wins: Seq<Window>, id: Option<u64>) -> Seq<Window> {
    let cleared = win_all_unfocused(wins);
    match id {
        Some(target) => if has_win_id(wins, target) {
            let k = first_win_idx(wins, target);
            cleared.update(k, Window { is_focused: true, ..cleared[k] })
        } else {
            cleared
        },
        None => cleared,
    }
}

/// The fatal outcome `apply` reports for `e` on state `s`, if any: only an
/// activation that names an absent workspace id is fatal.
pub open spec fn apply_failure(s: StateView, e: Event) -> Option<IntegrityError> {
    match e {
        Event::WorkspaceActivated { id, focused } => if has_ws_id(s.workspaces, id) {
            None
        } else {
            Some(IntegrityError::ActivatedWorkspaceMissing { workspace_id: id })
        },
        _ => None,
    }
}

/// The state after `e` is applied to `s`. On the fatal outcome the state is
/// left as it was (the caller is expected to stop).
pub open spec fn spec_apply(s: StateView, e: Event) -> StateView {
    match e {
        Event::WorkspacesReplaced { workspaces } => StateView { workspaces: workspaces@, ..s },
        Event::WorkspaceActivated { id, focused } => if has_ws_id(s.workspaces, id) {
            StateView { workspaces: spec_activate(s.workspaces, id, focused), ..s }
        } else {
            s
        },
        Event::WorkspaceActiveWindowChanged { workspace_id, active_window_id } => StateView {
            workspaces: spec_set_active_window(s.workspaces, workspace_id, active_window_id),
            ..s
        },
        Event::WindowsReplaced { windows } => StateView { windows: windows@, ..s },
        Event::WindowOpenedOrChanged { window } => StateView {
            windows: spec_upsert(s.windows, window),
            ..s
        },
        Event::WindowClosed { id } => StateView { windows: spec_close(s.windows, id), ..s },
        Event::WindowFocusChanged { id } => StateView { windows: spec_focus(s.windows, id), ..s },
        Event::Ignored => s,
    }
}

/// The flat canonical state: the reconciler owns it and `apply` mutates it.
pub struct State {
    pub workspaces: Vec<Workspace>,
    pub windows: Vec<Window>,
}

impl View for State {
    type V = StateView;

    open spec fn view(&self) -> StateView {
        StateView { workspaces: self.workspaces@, windows: self.windows@ }
    }
}

/// Finds the first workspace with the given id, as the events address
/// workspaces by id.
#[verifier::loop_isolation(false)]
fn find_ws_index(wss: &Vec<Workspace>, id: u64) -> (r: Option<usize>)
    ensures
        match r {
            Some(k) => is_first_match(wss@, ws_has_id(id), k as int),
            None => !has_ws_id(wss@, id),
        },
{
    let mut k: usize = 0;
    while k < wss.len()
        invariant
            k <= wss@.len(),
            forall|j: int| 0 <= j < k ==> wss@[j].id != id,
        decreases wss@.len() - k,
    {
        if wss[k].id == id {
            return Some(k);
        }
        k += 1;
    }
    None
}

/// Finds the first window with the given id.
#[verifier::loop_isolation(false)]
fn find_win_index(wins: &Vec<Window>, id: u64) -> (r: Option<usize>)
    ensures
        match r {
            Some(k) => is_first_match(wins@, win_has_id(id), k as int),
            None => !has_win_id(wins@, id),
        },
{
    let mut k: usize = 0;
    while k < wins.len()
        invariant
            k <= wins@.len(),
            forall|j: int| 0 <= j < k ==> wins@[j].id != id,
        decreases wins@.len() - k,
    {
        if wins[k].id == id {
            return Some(k);
        }
        k += 1;
    }
    None
}

/// Copies an optional string; the copy carries the same characters and, by
/// the standard library's contract, is equal to the original.
fn clone_opt_string(s: &Option<String>) -> (r: Option<String>)
    ensures
        r == *s,
{
    match s {
        Some(x) => Some(x.clone()),
        None => None,
    }
}

/// Whether two optional output names denote the same output.
fn same_output(a: &Option<String>, b: &Option<String>) -> (r: bool)
    ensures
        r == (opt_str(*a) == opt_str(*b)),
{
    match (a, b) {
        (Some(x), Some(y)) => x.eq(y),
        (None, None) => true,
        _ => false,
    }
}

proof fn lemma_filter_push<A>(s: Seq<A>, x: A, pred: spec_fn(A) -> bool)
    ensures
        s.push(x).filter(pred) == if pred(x) {
            s.filter(pred).push(x)
        } else {
            s.filter(pred)
        },
{
    reveal(Seq::filter);
    assert(s.push(x).drop_last() =~= s);
}

impl State {
    /// The empty mirror: no workspaces, no windows.
    pub fn new() -> (s: State)
        ensures
            s@.workspaces.len() == 0,
            s@.windows.len() == 0,
    {
        State { workspaces: Vec::new(), windows: Vec::new() }
    }

    /// Replaces the workspace collection verbatim.
    pub fn replace_workspaces(&mut self, workspaces: Vec<Workspace>)
        ensures
            final(self)@.workspaces == workspaces@,
            final(self)@.windows == old(self)@.windows,
    {
        self.workspaces = workspaces;
    }

    /// Replaces the window collection verbatim.
    pub fn replace_windows(&mut self, windows: Vec<Window>)
        ensures
            final(self)@.windows == windows@,
            final(self)@.workspaces == old(self)@.workspaces,
    {
        self.windows = windows;
    }

    /// Marks the workspace with `id` active (and focused when `focused`),
    /// clearing the flags that the two exclusivity rules reserve for it. An
    /// absent id is a broken source contract: the state is left untouched and
    /// the fatal error is returned.
    #[verifier::loop_isolation(false)]
    pub fn activate_workspace(&mut self, id: u64, focused: bool) -> (r: Result<(), IntegrityError>)
        ensures
            has_ws_id(old(self)@.workspaces, id) ==> r == Ok::<(), IntegrityError>(())
                && final(self)@.workspaces == spec_activate(old(self)@.workspaces, id, focused),
            !has_ws_id(old(self)@.workspaces, id) ==> r == Err::<(), IntegrityError>(
                IntegrityError::ActivatedWorkspaceMissing { workspace_id: id },
            ) && final(self)@.workspaces == old(self)@.workspaces,
            final(self)@.windows == old(self)@.windows,
    {
        let ghost orig = self.workspaces@;
        let k = match find_ws_index(&self.workspaces, id) {
            Some(k) => k,
            None => {
                return Err(IntegrityError::ActivatedWorkspaceMissing { workspace_id: id });
            },
        };
        proof {
            assert(ws_has_id(id)(orig[k as int]));
            lemma_first_match(orig, ws_has_id(id));
            lemma_first_match_unique(orig, ws_has_id(id), k as int, first_ws_idx(orig, id));
        }
        if focused {
            let mut i: usize = 0;
            while i < self.workspaces.len()
                invariant
                    self.windows@ == old(self)@.windows,
                    i <= self.workspaces@.len(),
                    self.workspaces@.len() == orig.len(),
                    forall|j: int|
                        0 <= j < i ==> self.workspaces@[j] == (Workspace {
                            is_focused: false,
                            ..orig[j]
                        }),
                    forall|j: int| i <= j < orig.len() ==> self.workspaces@[j] == orig[j],
                decreases orig.len() - i,
            {
                self.workspaces[i].is_focused = false;
                i += 1;
            }
            proof {
                assert(self.workspaces@ =~= ws_all_unfocused(orig));
            }
        }
        let ghost base = if focused {
            ws_all_unfocused(orig)
        } else {
            orig
        };
        self.workspaces[k].is_active = true;
        self.workspaces[k].is_focused = focused;
        let ghost target = Workspace { is_active: true, is_focused: focused, ..base[k as int] };
        proof {
            assert(self.workspaces@ =~= base.update(k as int, target));
        }
        let out = clone_opt_string(&self.workspaces[k].output);
        let ghost result = spec_activate(orig, id, focused);
        if out.is_some() {
            let mut i: usize = 0;
            while i < self.workspaces.len()
                invariant
                    self.windows@ == old(self)@.windows,
                    i <= self.workspaces@.len(),
                    self.workspaces@.len() == orig.len(),
                    k < orig.len(),
                    out == base[k as int].output,
                    result == spec_activate(orig, id, focused),
                    is_first_match(orig, ws_has_id(id), k as int),
                    out is Some,
                    target == (Workspace { is_active: true, is_focused: focused, ..base[k as int] }),
                    base == if focused {
                        ws_all_unfocused(orig)
                    } else {
                        orig
                    },
                    forall|j: int| 0 <= j < i ==> self.workspaces@[j] == result[j],
                    forall|j: int|
                        i <= j < orig.len() ==> self.workspaces@[j] == if j == k as int {
                            target
                        } else {
                            base[j]
                        },
                decreases orig.len() - i,
            {
                proof {
                    assert(opt_str(base[k as int].output) == opt_str(orig[k as int].output));
                }
                if self.workspaces[i].id != id && same_output(&self.workspaces[i].output, &out) {
                    self.workspaces[i].is_active = false;
                }
                i += 1;
            }
            proof {
                assert(self.workspaces@ =~= result);
            }
        } else {
            proof {
                assert(opt_str(base[k as int].output) == opt_str(orig[k as int].output));
                assert(self.workspaces@ =~= result);
            }
        }
        Ok(())
    }

    /// Records the active window of the workspace with `workspace_id`; an
    /// absent id is a benign race and changes nothing.
    pub fn set_workspace_active_window(&mut self, workspace_id: u64, active_window_id: Option<u64>)
        ensures
            final(self)@.workspaces == spec_set_active_window(
                old(self)@.workspaces,
                workspace_id,
                active_window_id,
            ),
            final(self)@.windows == old(self)@.windows,
    {
        let ghost orig = self.workspaces@;
        match find_ws_index(&self.workspaces, workspace_id) {
            Some(k) => {
                proof {
                    assert(ws_has_id(workspace_id)(orig[k as int]));
                    lemma_first_match(orig, ws_has_id(workspace_id));
                    lemma_first_match_unique(
                        orig,
                        ws_has_id(workspace_id),
                        k as int,
                        first_ws_idx(orig, workspace_id),
                    );
                }
                self.workspaces[k].active_window_id = active_window_id;
                proof {
                    assert(self.workspaces@ =~= spec_set_active_window(
                        orig,
                        workspace_id,
                        active_window_id,
                    ));
                }
            },
            None => {},
        }
    }

    /// Inserts `window` or replaces the window that shares its id, clearing
    /// every other focus flag first when `window` claims the focus.
    #[verifier::loop_isolation(false)]
    pub fn upsert_window(&mut self, window: Window)
        ensures
            final(self)@.windows == spec_upsert(old(self)@.windows, window),
            final(self)@.workspaces == old(self)@.workspaces,
    {
        let ghost orig = self.windows@;
        if window.is_focused {
            let mut i: usize = 0;
            while i < self.windows.len()
                invariant
                    self.workspaces@ == old(self)@.workspaces,
                    i <= self.windows@.len(),
                    self.windows@.len() == orig.len(),
                    forall|j: int|
                        0 <= j < i ==> self.windows@[j] == (Window { is_focused: false, ..orig[j] }),
                    forall|j: int| i <= j < orig.len() ==> self.windows@[j] == orig[j],
                decreases orig.len() - i,
            {
                self.windows[i].is_focused = false;
                i += 1;
            }
            proof {
                assert(self.windows@ =~= win_all_unfocused(orig));
            }
        }
        proof {
            assert(forall|j: int| 0 <= j < orig.len() ==> self.windows@[j].id == orig[j].id);
        }
        match find_win_index(&self.windows, window.id) {
            Some(k) => {
                proof {
                    assert(win_has_id(window.id)(orig[k as int]));
                    lemma_first_match(orig, win_has_id(window.id));
                    lemma_first_match_unique(
                        orig,
                        win_has_id(window.id),
                        k as int,
                        first_win_idx(orig, window.id),
                    );
                }
                self.windows[k] = window;
                proof {
                    assert(self.windows@ =~= spec_upsert(orig, window));
                }
            },
            None => {
                proof {
                    assert(!has_win_id(orig, window.id));
                }
                self.windows.push(window);
                proof {
                    assert(self.windows@ =~= spec_upsert(orig, window));
                }
            },
        }
    }

    /// Removes the window with `id`; an absent id is a benign race and
    /// changes nothing.
    #[verifier::loop_isolation(false)]
    pub fn close_window(&mut self, id: u64)
        ensures
            final(self)@.windows == spec_close(old(self)@.windows, id),
            final(self)@.workspaces == old(self)@.workspaces,
    {
        let ghost orig = self.windows@;
        let ghost mut j: int = 0;
        let mut i: usize = 0;
        proof {
            assert(orig.subrange(0, 0).filter(win_keeps(id)) =~= Seq::<Window>::empty()) by {
                reveal(Seq::filter);
                assert(orig.subrange(0, 0) =~= Seq::<Window>::empty());
            }
            assert(self.windows@ =~= orig.subrange(0, 0).filter(win_keeps(id)) + orig.subrange(
                0,
                orig.len() as int,
            ));
        }
        while i < self.windows.len()
            invariant
                self.workspaces@ == old(self)@.workspaces,
                0 <= j <= orig.len(),
                i as int == orig.subrange(0, j).filter(win_keeps(id)).len(),
                self.windows@ == orig.subrange(0, j).filter(win_keeps(id)) + orig.subrange(
                    j,
                    orig.len() as int,
                ),
            decreases orig.len() - j,
        {
            let ghost kept = orig.subrange(0, j).filter(win_keeps(id));
            proof {
                kept.lemma_filter_len(win_keeps(id));
                assert(self.windows@[i as int] == orig[j]);
                assert(orig.subrange(0, j + 1) =~= orig.subrange(0, j).push(orig[j]));
                lemma_filter_push(orig.subrange(0, j), orig[j], win_keeps(id));
            }
            if self.windows[i].id == id {
                let _ = self.windows.remove(i);
                proof {
                    assert(self.windows@ =~= orig.subrange(0, j + 1).filter(win_keeps(id))
                        + orig.subrange(j + 1, orig.len() as int));
                }
            } else {
                i += 1;
                proof {
                    assert(self.windows@ =~= orig.subrange(0, j + 1).filter(win_keeps(id))
                        + orig.subrange(j + 1, orig.len() as int));
                }
            }
            proof {
                j = j + 1;
            }
        }
        proof {
            assert(orig.subrange(0, orig.len() as int) =~= orig);
            assert(orig.subrange(j, orig.len() as int).len() == 0);
            assert(self.windows@ =~= spec_close(orig, id));
        }
    }

    /// Clears every focus flag, then focuses the window named by `id` when
    /// one is named and present; a miss is a benign race.
    #[verifier::loop_isolation(false)]
    pub fn focus_window(&mut self, id: Option<u64>)
        ensures
            final(self)@.windows == spec_focus(old(self)@.windows, id),
            final(self)@.workspaces == old(self)@.workspaces,
    {
        let ghost orig = self.windows@;
        let mut i: usize = 0;
        while i < self.windows.len()
            invariant
                self.workspaces@ == old(self)@.workspaces,
                i <= self.windows@.len(),
                self.windows@.len() == orig.len(),
                forall|j: int|
                    0 <= j < i ==> self.windows@[j] == (Window { is_focused: false, ..orig[j] }),
                forall|j: int| i <= j < orig.len() ==> self.windows@[j] == orig[j],
            decreases orig.len() - i,
        {
            self.windows[i].is_focused = false;
            i += 1;
        }
        proof {
            assert(self.windows@ =~= win_all_unfocused(orig));
            assert(forall|j: int| 0 <= j < orig.len() ==> self.windows@[j].id == orig[j].id);
        }
        if let Some(target) = id {
            if let Some(k) = find_win_index(&self.windows, target) {
                proof {
                    assert(win_has_id(target)(orig[k as int]));
                    lemma_first_match(orig, win_has_id(target));
                    lemma_first_match_unique(
                        orig,
                        win_has_id(target),
                        k as int,
                        first_win_idx(orig, target),
                    );
                }
                self.windows[k].is_focused = true;
                proof {
                    assert(self.windows@ =~= spec_focus(orig, id));
                }
            } else {
                proof {
                    assert(!has_win_id(orig, target));
                    assert(self.windows@ =~= spec_focus(orig, id));
                }
            }
        } else {
            proof {
                assert(self.windows@ =~= spec_focus(orig, id));
            }
        }
    }

    /// Applies one event to the flat model, restoring the documented
    /// invariants, and reports the one fatal condition: an activation that
    /// names an unknown workspace. On that outcome the state is untouched so
    /// that the caller can stop with an intact mirror.
    pub fn apply(&mut self, e: Event) -> (r: Result<(), IntegrityError>)
        ensures
            final(self)@ == spec_apply(old(self)@, e),
            r == match apply_failure(old(self)@, e) {
                None => Ok::<(), IntegrityError>(()),
                Some(failure) => Err::<(), IntegrityError>(failure),
            },
    {
        let ghost pre = self@;
        let r = match e {
            Event::WorkspacesReplaced { workspaces } => {
                self.replace_workspaces(workspaces);
                Ok(())
            },
            Event::WorkspaceActivated { id, focused } => self.activate_workspace(id, focused),
            Event::WorkspaceActiveWindowChanged { workspace_id, active_window_id } => {
                self.set_workspace_active_window(workspace_id, active_window_id);
                Ok(())
            },
            Event::WindowsReplaced { windows } => {
                self.replace_windows(windows);
                Ok(())
            },
            Event::WindowOpenedOrChanged { window } => {
                self.upsert_window(window);
                Ok(())
            },
            Event::WindowClosed { id } => {
                self.close_window(id);
                Ok(())
            },
            Event::WindowFocusChanged { id } => {
                self.focus_window(id);
                Ok(())
            },
            Event::Ignored => Ok(()),
        };
        proof {
            assert(self@ =~= spec_apply(pre, e));
        }
        r
    }
}

} // verus!
