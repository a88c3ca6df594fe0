use vstd::prelude::*;

verus! {

/// One compositor workspace, as mirrored in the flat model.
pub struct Workspace {
    /// Unique, stable identifier of the workspace.
    pub id: u64,
    /// Ordinal position of the workspace on its output (not globally unique).
    pub idx: u8,
    /// Optional display name.
    pub name: Option<String>,
    /// Name of the output the workspace is placed on, if known.
    pub output: Option<String>,
    /// Whether this is the workspace currently shown on its output.
    pub is_active: bool,
    /// Whether this is the one globally focused workspace.
    pub is_focused: bool,
    /// Identifier of the currently active window on this workspace, if any.
    pub active_window_id: Option<u64>,
}

/// One managed window, as mirrored in the flat model.
pub struct Window {
    /// Unique, stable identifier of the window.
    pub id: u64,
    /// Optional window title.
    pub title: Option<String>,
    /// Identifier of the workspace this window belongs to, if any.
    pub workspace_id: Option<u64>,
    /// Whether this is the one globally focused window.
    pub is_focused: bool,
    /// Whether the window floats (floating windows are never projected).
    pub is_floating: bool,
}

/// The contents of an optional string, compared by characters rather than by
/// allocation identity.
pub open spec fn opt_str(s: Option<String>) -> Option<Seq<char>> {
    match s {
        Some(n) => Some(n@),
        None => None,
    }
}

/// At most one workspace in the sequence is globally focused.
pub open spec fn ws_focus_unique(wss: Seq<Workspace>) -> bool {
    forall|i: int, j: int|
        0 <= i < wss.len() && 0 <= j < wss.len() && wss[i].is_focused && wss[j].is_focused ==> i
            == j
}

/// At most one window in the sequence is globally focused.
pub open spec fn win_focus_unique(wins: Seq<Window>) -> bool {
    forall|i: int, j: int|
        0 <= i < wins.len() && 0 <= j < wins.len() && wins[i].is_focused && wins[j].is_focused
            ==> i == j
}

/// For every known output, at most one workspace placed on it is active.
pub open spec fn active_unique_per_output(wss: Seq<Workspace>) -> bool {
    forall|i: int, j: int|
        0 <= i < wss.len() && 0 <= j < wss.len() && wss[i].is_active && wss[j].is_active
            && wss[i].output is Some && opt_str(wss[i].output) == opt_str(wss[j].output) ==> i == j
}

/// Workspace identifiers occur at most once.
pub open spec fn ws_ids_unique(wss: Seq<Workspace>) -> bool {
    forall|i: int, j: int| 0 <= i < j < wss.len() ==> wss[i].id != wss[j].id
}

/// Window identifiers occur at most once.
pub open spec fn win_ids_unique(wins: Seq<Window>) -> bool {
    forall|i: int, j: int| 0 <= i < j < wins.len() ==> wins[i].id != wins[j].id
}

} // verus!
