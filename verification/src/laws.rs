use vstd::prelude::*;

use crate::model::Window;
use crate::model::Workspace;
use crate::model::active_unique_per_output;
use crate::model::opt_str;
use crate::model::win_focus_unique;
use crate::model::win_ids_unique;
use crate::model::ws_focus_unique;
use crate::model::ws_ids_unique;
use crate::reconcile::Event;
use crate::reconcile::StateView;
use crate::reconcile::first_win_idx;
use crate::reconcile::first_ws_idx;
use crate::reconcile::has_win_id;
use crate::reconcile::has_ws_id;
use crate::reconcile::lemma_first_match;
use crate::reconcile::spec_apply;
use crate::reconcile::spec_upsert;
use crate::reconcile::win_has_id;
use crate::reconcile::ws_has_id;
use crate::order::lex_lt;
use crate::order::lemma_lex_lt_asymmetric;
use crate::order::lemma_strictly_sorted_same_members;
use crate::project::OutputEntry;
use crate::project::WindowSummary;
use crate::project::WorkspaceSummary;
use crate::project::entry_has_ws_id;
use crate::project::entry_wss_match;
use crate::project::name_bytes;
use crate::project::output_placed;
use crate::project::summary_has_win_id;
use crate::project::summary_wins_match;
use crate::project::tree_has_output;
use crate::project::tree_wins_match;
use crate::project::tree_wss_match;
use crate::project::win_summary_from;
use crate::project::ws_summary_from;
use vstd::utf8::encode_utf8;

verus! {

/// What the event source's contract promises of a replacement payload: it is
/// authoritative, so it satisfies on its own the invariants the model keeps
/// (one global focus, one active workspace per output, unique identifiers).
pub open spec fn event_payload_consistent(e: Event) -> bool {
    match e {
        Event::WorkspacesReplaced { workspaces } => ws_focus_unique(workspaces@)
            && active_unique_per_output(workspaces@) && ws_ids_unique(workspaces@),
        Event::WindowsReplaced { windows } => win_focus_unique(windows@) && win_ids_unique(
            windows@,
        ),
        _ => true,
    }
}

/// An element of a filtered sequence is an element of the original.
proof fn lemma_filter_elem_of<A>(s: Seq<A>, p: spec_fn(A) -> bool, i: int)
    requires
        0 <= i < s.filter(p).len(),
    ensures
        exists|j: int| 0 <= j < s.len() && s[j] == s.filter(p)[i],
    decreases s.len(),
{
    reveal(Seq::filter);
    if s.len() > 0 {
        let rest = s.drop_last();
        if p(s.last()) && i == s.filter(p).len() - 1 {
            assert(s[s.len() - 1] == s.filter(p)[i]);
        } else {
            lemma_filter_elem_of(rest, p, i);
            let j = choose|j: int| 0 <= j < rest.len() && rest[j] == rest.filter(p)[i];
            assert(s[j] == rest.filter(p)[i]);
        }
    }
}

/// Closing a window cannot duplicate a focus: filtering keeps at most one
/// focused window.
proof fn lemma_filter_keeps_focus_unique(wins: Seq<Window>, p: spec_fn(Window) -> bool)
    requires
        win_focus_unique(wins),
    ensures
        win_focus_unique(wins.filter(p)),
    decreases wins.len(),
{
    reveal(Seq::filter);
    if wins.len() > 0 {
        let rest = wins.drop_last();
        assert(win_focus_unique(rest));
        lemma_filter_keeps_focus_unique(rest, p);
        if p(wins.last()) && wins.last().is_focused {
            assert forall|i: int| 0 <= i < rest.filter(p).len() implies !rest.filter(
                p,
            )[i].is_focused by {
                lemma_filter_elem_of(rest, p, i);
            }
        }
    }
}

/// Filtering keeps window identifiers unique.
proof fn lemma_filter_keeps_ids_unique(wins: Seq<Window>, p: spec_fn(Window) -> bool)
    requires
        win_ids_unique(wins),
    ensures
        win_ids_unique(wins.filter(p)),
    decreases wins.len(),
{
    reveal(Seq::filter);
    if wins.len() > 0 {
        let rest = wins.drop_last();
        assert(win_ids_unique(rest));
        lemma_filter_keeps_ids_unique(rest, p);
        if p(wins.last()) {
            assert forall|i: int| 0 <= i < rest.filter(p).len() implies rest.filter(p)[i].id
                != wins.last().id by {
                lemma_filter_elem_of(rest, p, i);
            }
        }
    }
}

/// After any apply, at most one workspace and at most one window is globally
/// focused. Starting from the empty model (where both hold vacuously), this
/// carries the two focus invariants along every event sequence whose
/// replacement payloads are themselves consistent.
pub proof fn lemma_apply_keeps_single_focus(s: StateView, e: Event)
    requires
        ws_focus_unique(s.workspaces),
        win_focus_unique(s.windows),
        event_payload_consistent(e),
    ensures
        ws_focus_unique(spec_apply(s, e).workspaces),
        win_focus_unique(spec_apply(s, e).windows),
{
    match e {
        Event::WorkspaceActivated { id, focused } => {
            if has_ws_id(s.workspaces, id) {
                lemma_first_match(s.workspaces, ws_has_id(id));
                let k = first_ws_idx(s.workspaces, id);
                let result = spec_apply(s, e).workspaces;
                assert forall|i: int|
                    0 <= i < result.len() && i != k implies !(#[trigger] result[i].is_focused
                    && focused) && (result[i].is_focused ==> s.workspaces[i].is_focused) by {};
            }
        },
        Event::WorkspaceActiveWindowChanged { workspace_id, active_window_id } => {
            if has_ws_id(s.workspaces, workspace_id) {
                lemma_first_match(s.workspaces, ws_has_id(workspace_id));
            }
        },
        Event::WindowOpenedOrChanged { window } => {
            if has_win_id(s.windows, window.id) {
                lemma_first_match(s.windows, win_has_id(window.id));
            }
        },
        Event::WindowClosed { id } => {
            lemma_filter_keeps_focus_unique(s.windows, crate::reconcile::win_keeps(id));
        },
        Event::WindowFocusChanged { id } => {
            if id matches Some(target) && has_win_id(s.windows, target) {
                lemma_first_match(s.windows, win_has_id(id->0));
            }
        },
        _ => {},
    }
}

/// After any apply, every output still shows at most one active workspace.
pub proof fn lemma_apply_keeps_single_active_per_output(s: StateView, e: Event)
    requires
        active_unique_per_output(s.workspaces),
        ws_ids_unique(s.workspaces),
        event_payload_consistent(e),
    ensures
        active_unique_per_output(spec_apply(s, e).workspaces),
{
    match e {
        Event::WorkspaceActivated { id, focused } => {
            if has_ws_id(s.workspaces, id) {
                lemma_first_match(s.workspaces, ws_has_id(id));
                let k = first_ws_idx(s.workspaces, id);
                let result = spec_apply(s, e).workspaces;
                let out = opt_str(s.workspaces[k].output);
                assert forall|i: int|
                    0 <= i < result.len() implies #[trigger] result[i].output
                    == s.workspaces[i].output by {};
                assert forall|i: int|
                    0 <= i < result.len() && i != k && out is Some && opt_str(s.workspaces[i].output)
                        == out implies !(#[trigger] result[i].is_active) by {
                    assert(s.workspaces[i].id != id);
                };
                assert forall|i: int|
                    0 <= i < result.len() && i != k && #[trigger] result[i].is_active
                        implies s.workspaces[i].is_active by {};
                assert forall|i: int, j: int|
                    0 <= i < result.len() && 0 <= j < result.len() && result[i].is_active
                        && result[j].is_active && result[i].output is Some && opt_str(
                        result[i].output,
                    ) == opt_str(result[j].output) implies i == j by {
                    if i != j {
                        if i == k {
                            assert(opt_str(s.workspaces[j].output) == out);
                            assert(!result[j].is_active);
                        } else if j == k {
                            assert(opt_str(s.workspaces[i].output) == out);
                            assert(!result[i].is_active);
                        } else {
                            if out is Some && opt_str(s.workspaces[i].output) == out {
                                assert(!result[i].is_active);
                            }
                        }
                    }
                }
            }
        },
        Event::WorkspaceActiveWindowChanged { workspace_id, active_window_id } => {
            if has_ws_id(s.workspaces, workspace_id) {
                lemma_first_match(s.workspaces, ws_has_id(workspace_id));
            }
        },
        _ => {},
    }
}

/// Identifiers stay unique across every apply: the projector's input
/// assumption holds along every event sequence whose replacement payloads
/// carry unique identifiers.
pub proof fn lemma_apply_keeps_ids_unique(s: StateView, e: Event)
    requires
        ws_ids_unique(s.workspaces),
        win_ids_unique(s.windows),
        event_payload_consistent(e),
    ensures
        ws_ids_unique(spec_apply(s, e).workspaces),
        win_ids_unique(spec_apply(s, e).windows),
{
    match e {
        Event::WorkspaceActivated { id, focused } => {
            if has_ws_id(s.workspaces, id) {
                lemma_first_match(s.workspaces, ws_has_id(id));
                let result = spec_apply(s, e).workspaces;
                assert forall|i: int|
                    0 <= i < result.len() implies #[trigger] result[i].id
                    == s.workspaces[i].id by {};
            }
        },
        Event::WorkspaceActiveWindowChanged { workspace_id, active_window_id } => {
            if has_ws_id(s.workspaces, workspace_id) {
                lemma_first_match(s.workspaces, ws_has_id(workspace_id));
            }
        },
        Event::WindowOpenedOrChanged { window } => {
            if has_win_id(s.windows, window.id) {
                lemma_first_match(s.windows, win_has_id(window.id));
            }
        },
        Event::WindowClosed { id } => {
            lemma_filter_keeps_ids_unique(s.windows, crate::reconcile::win_keeps(id));
        },
        Event::WindowFocusChanged { id } => {
            if id matches Some(target) && has_win_id(s.windows, target) {
                lemma_first_match(s.windows, win_has_id(id->0));
            }
        },
        _ => {},
    }
}

/// Replacing a collection is idempotent: applying the same replacement event
/// twice leaves the same flat model as applying it once.
pub proof fn lemma_replacement_idempotent(s: StateView, e: Event)
    requires
        e is WorkspacesReplaced || e is WindowsReplaced,
    ensures
        spec_apply(spec_apply(s, e), e) == spec_apply(s, e),
{
    assert(spec_apply(spec_apply(s, e), e) =~= spec_apply(s, e));
}

/// An upsert whose id is already present replaces in place: the collection
/// keeps its length, the slot of the old window now holds the incoming value,
/// and no other slot carries that id.
pub proof fn lemma_upsert_keeps_identity(wins: Seq<Window>, w: Window)
    requires
        win_ids_unique(wins),
        has_win_id(wins, w.id),
    ensures
        spec_upsert(wins, w).len() == wins.len(),
        spec_upsert(wins, w)[first_win_idx(wins, w.id)] == w,
        forall|j: int|
            0 <= j < wins.len() && j != first_win_idx(wins, w.id) ==> spec_upsert(wins, w)[j].id
                != w.id,
{
    lemma_first_match(wins, win_has_id(w.id));
}

/// Two window summaries show the same window: id, focus and title characters.
pub open spec fn same_window_summary(x1: WindowSummary, x2: WindowSummary) -> bool {
    x1.id == x2.id && x1.is_focused == x2.is_focused && opt_str(x1.title) == opt_str(x2.title)
}

/// Two workspace summaries show the same workspace with the same windows.
pub open spec fn same_workspace_summary(s1: WorkspaceSummary, s2: WorkspaceSummary) -> bool {
    &&& s1.id == s2.id
    &&& s1.index == s2.index
    &&& opt_str(s1.name) == opt_str(s2.name)
    &&& s1.is_active == s2.is_active
    &&& s1.windows@.len() == s2.windows@.len()
    &&& forall|c: int|
        0 <= c < s1.windows@.len() && c < s2.windows@.len() ==> same_window_summary(
            #[trigger] s1.windows@[c],
            #[trigger] s2.windows@[c],
        )
}

/// Two trees show the same outputs, workspaces and windows in the same order:
/// everything a serialization of either would contain.
pub open spec fn same_tree(t1: Seq<OutputEntry>, t2: Seq<OutputEntry>) -> bool {
    &&& t1.len() == t2.len()
    &&& forall|i: int|
        0 <= i < t1.len() && i < t2.len() ==> (#[trigger] t1[i]).name@ == (#[trigger] t2[i]).name@
            && t1[i].workspaces@.len() == t2[i].workspaces@.len()
    &&& forall|i: int, a: int|
        0 <= i < t1.len() && i < t2.len() && 0 <= a < t1[i].workspaces@.len() && a
            < t2[i].workspaces@.len() ==> same_workspace_summary(
            #[trigger] t1[i].workspaces@[a],
            #[trigger] t2[i].workspaces@[a],
        )
}

/// Two faithful trees name the same outputs in the same order.
#[verifier::rlimit(60)]
#[verifier::spinoff_prover]
proof fn lemma_same_output_names(
    wss: Seq<Workspace>,
    t1: Seq<OutputEntry>,
    t2: Seq<OutputEntry>,
)
    requires
        tree_wss_match(wss, wss.len() as int, t1),
        tree_wss_match(wss, wss.len() as int, t2),
    ensures
        t1.len() == t2.len(),
        forall|i: int| 0 <= i < t1.len() ==> (#[trigger] t1[i]).name@ == t2[i].name@,
{
    reveal(tree_wss_match);
    let n = wss.len() as int;
    let keys1 = Seq::new(t1.len(), |i: int| name_bytes(t1[i].name));
    let keys2 = Seq::new(t2.len(), |i: int| name_bytes(t2[i].name));
    let lt = |a: Seq<u8>, b: Seq<u8>| lex_lt(a, b);
    assert forall|x: Seq<u8>, y: Seq<u8>| #[trigger] lt(x, y) implies !lt(y, x) by {
        lemma_lex_lt_asymmetric(x, y);
    }
    assert forall|x: Seq<u8>| keys1.contains(x) implies keys2.contains(x) by {
        let i = choose|i: int| 0 <= i < keys1.len() && keys1[i] == x;
        assert(output_placed(wss, n, t1[i].name@));
        reveal(output_placed);
        let k = choose|k: int| 0 <= k < n && opt_str((#[trigger] wss[k]).output) == Some(t1[i].name@);
        assert(tree_has_output(t2, opt_str(wss[k].output)->0));
        reveal(tree_has_output);
        let j = choose|j: int| 0 <= j < t2.len() && (#[trigger] t2[j]).name@ == opt_str(wss[k].output)->0;
        assert(t2[j].name@ == t1[i].name@);
        assert(keys2[j] == x);
    }
    assert forall|x: Seq<u8>| keys2.contains(x) implies keys1.contains(x) by {
        let i = choose|i: int| 0 <= i < keys2.len() && keys2[i] == x;
        assert(output_placed(wss, n, t2[i].name@));
        reveal(output_placed);
        let k = choose|k: int| 0 <= k < n && opt_str((#[trigger] wss[k]).output) == Some(t2[i].name@);
        assert(tree_has_output(t1, opt_str(wss[k].output)->0));
        reveal(tree_has_output);
        let j = choose|j: int| 0 <= j < t1.len() && (#[trigger] t1[j]).name@ == opt_str(wss[k].output)->0;
        assert(t1[j].name@ == t2[i].name@);
        assert(keys1[j] == x);
    }
    assert forall|i: int, j: int| 0 <= i < j < keys1.len() implies #[trigger] lt(keys1[i], keys1[j]) by {}
    assert forall|i: int, j: int| 0 <= i < j < keys2.len() implies #[trigger] lt(keys2[i], keys2[j]) by {}
    lemma_strictly_sorted_same_members(keys1, keys2, lt);
    assert forall|i: int| 0 <= i < t1.len() implies (#[trigger] t1[i]).name@ == t2[i].name@ by {
        assert(keys1[i] == keys2[i]);
        assert(encode_utf8(t1[i].name@) == encode_utf8(t2[i].name@));
        vstd::utf8::encode_utf8_decode_utf8(t1[i].name@);
        vstd::utf8::encode_utf8_decode_utf8(t2[i].name@);
    }
}

/// Two faithful entries for the same output hold the same summaries (windows
/// aside) in the same order.
#[verifier::rlimit(60)]
#[verifier::spinoff_prover]
proof fn lemma_same_entry_summaries(wss: Seq<Workspace>, e1: OutputEntry, e2: OutputEntry)
    requires
        ws_ids_unique(wss),
        entry_wss_match(wss, wss.len() as int, e1),
        entry_wss_match(wss, wss.len() as int, e2),
        e1.name@ == e2.name@,
    ensures
        e1.workspaces@.len() == e2.workspaces@.len(),
        forall|a: int|
            0 <= a < e1.workspaces@.len() ==> (#[trigger] e1.workspaces@[a]).id
                == e2.workspaces@[a].id && e1.workspaces@[a].index == e2.workspaces@[a].index
                && opt_str(e1.workspaces@[a].name) == opt_str(e2.workspaces@[a].name)
                && e1.workspaces@[a].is_active == e2.workspaces@[a].is_active,
{
    reveal(entry_wss_match);
    reveal(ws_summary_from);
    reveal(entry_has_ws_id);
    let n = wss.len() as int;
    let ids1 = Seq::new(e1.workspaces@.len(), |a: int| e1.workspaces@[a].id);
    let ids2 = Seq::new(e2.workspaces@.len(), |a: int| e2.workspaces@[a].id);
    let lt = |x: u64, y: u64| x < y;
    assert forall|x: u64| ids1.contains(x) implies ids2.contains(x) by {
        let a = choose|a: int| 0 <= a < ids1.len() && ids1[a] == x;
        assert(ws_summary_from(wss, n, e1.name@, e1.workspaces@[a]));
        let k = choose|k: int|
            0 <= k < n && (#[trigger] wss[k]).id == e1.workspaces@[a].id && opt_str(wss[k].output)
                == Some(e1.name@) && e1.workspaces@[a].index == wss[k].idx && opt_str(
                e1.workspaces@[a].name,
            ) == opt_str(wss[k].name) && e1.workspaces@[a].is_active == wss[k].is_active;
        assert(opt_str(wss[k].output) == Some(e2.name@));
        assert(entry_has_ws_id(e2, wss[k].id));
        let b = choose|b: int|
            0 <= b < e2.workspaces@.len() && (#[trigger] e2.workspaces@[b]).id == wss[k].id;
        assert(ids2[b] == x);
    }
    assert forall|x: u64| ids2.contains(x) implies ids1.contains(x) by {
        let a = choose|a: int| 0 <= a < ids2.len() && ids2[a] == x;
        assert(ws_summary_from(wss, n, e2.name@, e2.workspaces@[a]));
        let k = choose|k: int|
            0 <= k < n && (#[trigger] wss[k]).id == e2.workspaces@[a].id && opt_str(wss[k].output)
                == Some(e2.name@) && e2.workspaces@[a].index == wss[k].idx && opt_str(
                e2.workspaces@[a].name,
            ) == opt_str(wss[k].name) && e2.workspaces@[a].is_active == wss[k].is_active;
        assert(opt_str(wss[k].output) == Some(e1.name@));
        assert(entry_has_ws_id(e1, wss[k].id));
        let b = choose|b: int|
            0 <= b < e1.workspaces@.len() && (#[trigger] e1.workspaces@[b]).id == wss[k].id;
        assert(ids1[b] == x);
    }
    assert forall|i: int, j: int| 0 <= i < j < ids1.len() implies #[trigger] lt(ids1[i], ids1[j]) by {}
    assert forall|i: int, j: int| 0 <= i < j < ids2.len() implies #[trigger] lt(ids2[i], ids2[j]) by {}
    assert forall|x: u64, y: u64| #[trigger] lt(x, y) implies !lt(y, x) by {}
    lemma_strictly_sorted_same_members(ids1, ids2, lt);
    assert forall|a: int|
        0 <= a < e1.workspaces@.len() implies (#[trigger] e1.workspaces@[a]).id
            == e2.workspaces@[a].id && e1.workspaces@[a].index == e2.workspaces@[a].index
            && opt_str(e1.workspaces@[a].name) == opt_str(e2.workspaces@[a].name)
            && e1.workspaces@[a].is_active == e2.workspaces@[a].is_active by {
        assert(ids1[a] == ids2[a]);
        let s1 = e1.workspaces@[a];
        let s2 = e2.workspaces@[a];
        assert(ws_summary_from(wss, n, e1.name@, s1));
        assert(ws_summary_from(wss, n, e2.name@, s2));
        let k1 = choose|k: int|
            0 <= k < n && (#[trigger] wss[k]).id == s1.id && opt_str(wss[k].output) == Some(
                e1.name@,
            ) && s1.index == wss[k].idx && opt_str(s1.name) == opt_str(wss[k].name) && s1.is_active
                == wss[k].is_active;
        let k2 = choose|k: int|
            0 <= k < n && (#[trigger] wss[k]).id == s2.id && opt_str(wss[k].output) == Some(
                e2.name@,
            ) && s2.index == wss[k].idx && opt_str(s2.name) == opt_str(wss[k].name) && s2.is_active
                == wss[k].is_active;
        assert(k1 == k2);
    }
}

/// Two faithful summaries of the same workspace hold the same windows in the
/// same order.
#[verifier::rlimit(60)]
#[verifier::spinoff_prover]
proof fn lemma_same_summary_windows(wins: Seq<Window>, s1: WorkspaceSummary, s2: WorkspaceSummary)
    requires
        win_ids_unique(wins),
        summary_wins_match(wins, wins.len() as int, s1),
        summary_wins_match(wins, wins.len() as int, s2),
        s1.id == s2.id,
    ensures
        s1.windows@.len() == s2.windows@.len(),
        forall|c: int|
            0 <= c < s1.windows@.len() ==> same_window_summary(
                #[trigger] s1.windows@[c],
                s2.windows@[c],
            ),
{
    reveal(summary_wins_match);
    reveal(win_summary_from);
    reveal(summary_has_win_id);
    let n = wins.len() as int;
    let ids1 = Seq::new(s1.windows@.len(), |c: int| s1.windows@[c].id);
    let ids2 = Seq::new(s2.windows@.len(), |c: int| s2.windows@[c].id);
    let lt = |x: u64, y: u64| x < y;
    assert forall|x: u64| ids1.contains(x) implies ids2.contains(x) by {
        let c = choose|c: int| 0 <= c < ids1.len() && ids1[c] == x;
        assert(win_summary_from(wins, n, s1.id, s1.windows@[c]));
        let m = choose|m: int|
            0 <= m < n && (#[trigger] wins[m]).id == s1.windows@[c].id && !wins[m].is_floating
                && wins[m].workspace_id == Some(s1.id) && s1.windows@[c].is_focused == wins[
                m
            ].is_focused && opt_str(s1.windows@[c].title) == opt_str(wins[m].title);
        assert(summary_has_win_id(s2, wins[m].id));
        let b = choose|b: int|
            0 <= b < s2.windows@.len() && (#[trigger] s2.windows@[b]).id == wins[m].id;
        assert(ids2[b] == x);
    }
    assert forall|x: u64| ids2.contains(x) implies ids1.contains(x) by {
        let c = choose|c: int| 0 <= c < ids2.len() && ids2[c] == x;
        assert(win_summary_from(wins, n, s2.id, s2.windows@[c]));
        let m = choose|m: int|
            0 <= m < n && (#[trigger] wins[m]).id == s2.windows@[c].id && !wins[m].is_floating
                && wins[m].workspace_id == Some(s2.id) && s2.windows@[c].is_focused == wins[
                m
            ].is_focused && opt_str(s2.windows@[c].title) == opt_str(wins[m].title);
        assert(summary_has_win_id(s1, wins[m].id));
        let b = choose|b: int|
            0 <= b < s1.windows@.len() && (#[trigger] s1.windows@[b]).id == wins[m].id;
        assert(ids1[b] == x);
    }
    assert forall|i: int, j: int| 0 <= i < j < ids1.len() implies #[trigger] lt(ids1[i], ids1[j]) by {}
    assert forall|i: int, j: int| 0 <= i < j < ids2.len() implies #[trigger] lt(ids2[i], ids2[j]) by {}
    assert forall|x: u64, y: u64| #[trigger] lt(x, y) implies !lt(y, x) by {}
    lemma_strictly_sorted_same_members(ids1, ids2, lt);
    assert forall|c: int|
        0 <= c < s1.windows@.len() implies same_window_summary(
            #[trigger] s1.windows@[c],
            s2.windows@[c],
        ) by {
        assert(ids1[c] == ids2[c]);
        let x1 = s1.windows@[c];
        let x2 = s2.windows@[c];
        assert(win_summary_from(wins, n, s1.id, x1));
        assert(win_summary_from(wins, n, s2.id, x2));
        let m1 = choose|m: int|
            0 <= m < n && (#[trigger] wins[m]).id == x1.id && !wins[m].is_floating
                && wins[m].workspace_id == Some(s1.id) && x1.is_focused == wins[m].is_focused
                && opt_str(x1.title) == opt_str(wins[m].title);
        let m2 = choose|m: int|
            0 <= m < n && (#[trigger] wins[m]).id == x2.id && !wins[m].is_floating
                && wins[m].workspace_id == Some(s2.id) && x2.is_focused == wins[m].is_focused
                && opt_str(x2.title) == opt_str(wins[m].title);
        assert(m1 == m2);
    }
}

/// Projection is deterministic: any two trees faithful to the same flat model
/// (with its unique identifiers) agree in every output name, every workspace
/// summary and every window summary, in the same order — so repeated
/// projections of an unchanged model serialize identically.
#[verifier::rlimit(60)]
#[verifier::spinoff_prover]
pub proof fn lemma_projection_deterministic(
    wss: Seq<Workspace>,
    wins: Seq<Window>,
    t1: Seq<OutputEntry>,
    t2: Seq<OutputEntry>,
)
    requires
        ws_ids_unique(wss),
        win_ids_unique(wins),
        tree_wss_match(wss, wss.len() as int, t1),
        tree_wins_match(wins, wins.len() as int, t1),
        tree_wss_match(wss, wss.len() as int, t2),
        tree_wins_match(wins, wins.len() as int, t2),
    ensures
        same_tree(t1, t2),
{
    lemma_same_output_names(wss, t1, t2);
    assert forall|i: int|
        0 <= i < t1.len() && i < t2.len() implies (#[trigger] t1[i]).name@ == (
    #[trigger] t2[i]).name@ && t1[i].workspaces@.len() == t2[i].workspaces@.len() by {
        reveal(tree_wss_match);
        lemma_same_entry_summaries(wss, t1[i], t2[i]);
    }
    assert forall|i: int, a: int|
        0 <= i < t1.len() && i < t2.len() && 0 <= a < t1[i].workspaces@.len() && a
            < t2[i].workspaces@.len() implies same_workspace_summary(
        #[trigger] t1[i].workspaces@[a],
        #[trigger] t2[i].workspaces@[a],
    ) by {
        reveal(tree_wss_match);
        lemma_same_entry_summaries(wss, t1[i], t2[i]);
        reveal(tree_wins_match);
        assert(summary_wins_match(wins, wins.len() as int, t1[i].workspaces@[a]));
        assert(summary_wins_match(wins, wins.len() as int, t2[i].workspaces@[a]));
        lemma_same_summary_windows(wins, t1[i].workspaces@[a], t2[i].workspaces@[a]);
    }
}

/// A floating window never appears in a faithful tree: under unique window
/// ids, no window summary anywhere carries its id.
#[verifier::spinoff_prover]
pub proof fn lemma_projection_excludes_floating(
    wins: Seq<Window>,
    t: Seq<OutputEntry>,
    m: int,
)
    requires
        win_ids_unique(wins),
        tree_wins_match(wins, wins.len() as int, t),
        0 <= m < wins.len(),
        wins[m].is_floating,
    ensures
        forall|i: int, a: int, c: int|
            0 <= i < t.len() && 0 <= a < (#[trigger] t[i]).workspaces@.len() && 0 <= c < (
            #[trigger] t[i].workspaces@[a]).windows@.len() ==> (
            #[trigger] t[i].workspaces@[a].windows@[c]).id != wins[m].id,
{
    reveal(tree_wins_match);
    assert forall|i: int, a: int, c: int|
        0 <= i < t.len() && 0 <= a < (#[trigger] t[i]).workspaces@.len() && 0 <= c < (
    #[trigger] t[i].workspaces@[a]).windows@.len() implies (
    #[trigger] t[i].workspaces@[a].windows@[c]).id != wins[m].id by {
        let s = t[i].workspaces@[a];
        assert(summary_wins_match(wins, wins.len() as int, s));
        reveal(summary_wins_match);
        assert(win_summary_from(wins, wins.len() as int, s.id, s.windows@[c]));
        reveal(win_summary_from);
        let m0 = choose|m0: int|
            0 <= m0 < wins.len() && (#[trigger] wins[m0]).id == s.windows@[c].id && !wins[
                m0
            ].is_floating && wins[m0].workspace_id == Some(s.id) && s.windows@[c].is_focused
                == wins[m0].is_focused && opt_str(s.windows@[c].title) == opt_str(wins[m0].title);
        if s.windows@[c].id == wins[m].id {
            assert(m0 != m);
        }
    }
}

} // verus!
