use vstd::prelude::*;

use crate::model::Window;
use crate::model::Workspace;
use crate::model::opt_str;
use crate::model::win_ids_unique;
use crate::model::ws_ids_unique;
use crate::order::lex_lt;
use crate::order::lemma_lex_lt_asymmetric;
use crate::order::lemma_lex_lt_connected;
use crate::order::lemma_lex_lt_transitive;
use crate::order::str_lt;
use crate::reconcile::IntegrityError;
use crate::reconcile::State;
use crate::reconcile::first_match;
use crate::reconcile::has_match;
use crate::reconcile::is_first_match;
use crate::reconcile::lemma_first_match;
use crate::reconcile::lemma_first_match_unique;
use vstd::string::StringSliceAdditionalSpecFns;
use vstd::utf8::encode_utf8;

verus! {

/// One window as the projection shows it.
pub struct WindowSummary {
    pub id: u64,
    pub is_focused: bool,
    pub title: Option<String>,
}

/// One workspace as the projection shows it, with its windows ordered by id.
pub struct WorkspaceSummary {
    pub id: u64,
    pub index: u8,
    pub name: Option<String>,
    pub is_active: bool,
    pub windows: Vec<WindowSummary>,
}

/// One output with its workspaces ordered by id.
pub struct OutputEntry {
    pub name: String,
    pub workspaces: Vec<WorkspaceSummary>,
}

/// The display-ready tree: outputs in byte-lexicographic name order, each with
/// its workspaces in id order, each with its windows in id order.
pub struct ProjectedTree {
    pub outputs: Vec<OutputEntry>,
}

/// The bytes by which an output name is ordered.
pub open spec fn name_bytes(s: String) -> Seq<u8> {
    encode_utf8(s@)
}

/// Entry names are strictly increasing in byte order.
pub open spec fn outputs_sorted(t: Seq<OutputEntry>) -> bool {
    forall|i: int, j: int|
        0 <= i < j < t.len() ==> lex_lt(
            name_bytes(#[trigger] t[i].name),
            name_bytes(#[trigger] t[j].name),
        )
}

/// Workspace summaries are strictly increasing by id.
pub open spec fn ws_sorted(l: Seq<WorkspaceSummary>) -> bool {
    forall|a: int, b: int| 0 <= a < b < l.len() ==> (#[trigger] l[a]).id < (#[trigger] l[b]).id
}

/// Window summaries are strictly increasing by id.
pub open spec fn wins_sorted(l: Seq<WindowSummary>) -> bool {
    forall|a: int, b: int| 0 <= a < b < l.len() ==> (#[trigger] l[a]).id < (#[trigger] l[b]).id
}

/// `s` faithfully summarises one of the first `upto` workspaces, placed on
/// the output named `oname`: its id, index, name and active flag are copied.
#[verifier::opaque]
pub open spec fn ws_summary_from(
    wss: Seq<Workspace>,
    upto: int,
    oname: Seq<char>,
    s: WorkspaceSummary,
) -> bool {
    exists|k: int|
        0 <= k < upto && (#[trigger] wss[k]).id == s.id && opt_str(wss[k].output) == Some(oname)
            && s.index == wss[k].idx && opt_str(s.name) == opt_str(wss[k].name) && s.is_active
            == wss[k].is_active
}

/// The entry holds a summary with the given workspace id.
#[verifier::opaque]
pub open spec fn entry_has_ws_id(entry: OutputEntry, id: u64) -> bool {
    exists|a: int|
        0 <= a < entry.workspaces@.len() && (#[trigger] entry.workspaces@[a]).id == id
}

/// The entry holds exactly the summaries of the first `upto` workspaces that
/// name this output, in strictly ascending id order.
#[verifier::opaque]
pub open spec fn entry_wss_match(wss: Seq<Workspace>, upto: int, entry: OutputEntry) -> bool {
    &&& ws_sorted(entry.workspaces@)
    &&& forall|a: int|
        0 <= a < entry.workspaces@.len() ==> ws_summary_from(
            wss,
            upto,
            entry.name@,
            #[trigger] entry.workspaces@[a],
        )
    &&& forall|k: int|
        0 <= k < upto && opt_str((#[trigger] wss[k]).output) == Some(entry.name@)
            ==> entry_has_ws_id(entry, wss[k].id)
}

/// Some workspace among the first `upto` is placed on the output named `n`.
#[verifier::opaque]
pub open spec fn output_placed(wss: Seq<Workspace>, upto: int, n: Seq<char>) -> bool {
    exists|k: int| 0 <= k < upto && opt_str((#[trigger] wss[k]).output) == Some(n)
}

/// The tree holds an entry for the output named `n`.
#[verifier::opaque]
pub open spec fn tree_has_output(t: Seq<OutputEntry>, n: Seq<char>) -> bool {
    exists|i: int| 0 <= i < t.len() && (#[trigger] t[i]).name@ == n
}

/// The workspace level of the projection: an entry for an output name exists
/// iff one of the first `upto` workspaces is placed on it; entries are sorted
/// and each is correct and complete for its output.
#[verifier::opaque]
pub open spec fn tree_wss_match(wss: Seq<Workspace>, upto: int, t: Seq<OutputEntry>) -> bool {
    &&& outputs_sorted(t)
    &&& forall|i: int| 0 <= i < t.len() ==> entry_wss_match(wss, upto, #[trigger] t[i])
    &&& forall|i: int| 0 <= i < t.len() ==> output_placed(wss, upto, (#[trigger] t[i]).name@)
    &&& forall|k: int|
        0 <= k < upto && (#[trigger] wss[k]).output is Some ==> tree_has_output(
            t,
            opt_str(wss[k].output)->0,
        )
}

/// `x` faithfully summarises one of the first `upto` windows: non-floating,
/// placed on the workspace with id `wsid`; its id, focus and title are copied.
#[verifier::opaque]
pub open spec fn win_summary_from(wins: Seq<Window>, upto: int, wsid: u64, x: WindowSummary) -> bool {
    exists|m: int|
        0 <= m < upto && (#[trigger] wins[m]).id == x.id && !wins[m].is_floating
            && wins[m].workspace_id == Some(wsid) && x.is_focused == wins[m].is_focused && opt_str(
            x.title,
        ) == opt_str(wins[m].title)
}

/// The summary holds a window with the given id.
#[verifier::opaque]
pub open spec fn summary_has_win_id(s: WorkspaceSummary, id: u64) -> bool {
    exists|c: int| 0 <= c < s.windows@.len() && (#[trigger] s.windows@[c]).id == id
}

/// The summary holds exactly the non-floating windows among the first `upto`
/// that reference its workspace, in strictly ascending id order.
#[verifier::opaque]
pub open spec fn summary_wins_match(wins: Seq<Window>, upto: int, s: WorkspaceSummary) -> bool {
    &&& wins_sorted(s.windows@)
    &&& forall|c: int|
        0 <= c < s.windows@.len() ==> win_summary_from(wins, upto, s.id, #[trigger] s.windows@[c])
    &&& forall|m: int|
        0 <= m < upto && !(#[trigger] wins[m]).is_floating && wins[m].workspace_id == Some(s.id)
            ==> summary_has_win_id(s, wins[m].id)
}

/// The window level of the projection, over the first `upto` windows.
#[verifier::opaque]
pub open spec fn tree_wins_match(wins: Seq<Window>, upto: int, t: Seq<OutputEntry>) -> bool {
    forall|i: int, a: int|
        0 <= i < t.len() && 0 <= a < (#[trigger] t[i]).workspaces@.len() ==> summary_wins_match(
            wins,
            upto,
            #[trigger] t[i].workspaces@[a],
        )
}

/// Whether the projection can place `w`: floating windows and windows with no
/// workspace reference need no placement; any other window needs a workspace
/// with its referenced id and a known output.
pub open spec fn win_placeable(wss: Seq<Workspace>, w: Window) -> bool {
    ||| w.is_floating
    ||| w.workspace_id is None
    ||| exists|k: int|
        0 <= k < wss.len() && (#[trigger] wss[k]).id == w.workspace_id->0 && wss[k].output is Some
}

/// The predicate "the projection cannot place this window".
pub open spec fn win_unresolvable(wss: Seq<Workspace>) -> spec_fn(Window) -> bool {
    |w: Window| !win_placeable(wss, w)
}

/// The fatal outcome of projecting, if any: the first window that cannot be
/// placed, reported with the workspace id it references.
pub open spec fn projection_failure(wss: Seq<Workspace>, wins: Seq<Window>) -> Option<
    IntegrityError,
> {
    if has_match(wins, win_unresolvable(wss)) {
        let m = first_match(wins, win_unresolvable(wss));
        Some(
            IntegrityError::WindowWorkspaceMissing {
                window_id: wins[m].id,
                workspace_id: wins[m].workspace_id->0,
            },
        )
    } else {
        None
    }
}

/// No workspace summary in the tree holds a window yet.
pub open spec fn summaries_windows_empty(t: Seq<OutputEntry>) -> bool {
    forall|i: int, a: int|
        0 <= i < t.len() && 0 <= a < (#[trigger] t[i]).workspaces@.len() ==> (
        #[trigger] t[i].workspaces@[a]).windows@.len() == 0
}

/// Names of distinct entries of a sorted tree differ.
proof fn lemma_sorted_names_distinct(t: Seq<OutputEntry>, i: int, j: int)
    requires
        outputs_sorted(t),
        0 <= i < t.len(),
        0 <= j < t.len(),
        i != j,
    ensures
        t[i].name@ != t[j].name@,
{
    if t[i].name@ == t[j].name@ {
        if i < j {
            lemma_lex_lt_asymmetric(name_bytes(t[i].name), name_bytes(t[j].name));
        } else {
            lemma_lex_lt_asymmetric(name_bytes(t[j].name), name_bytes(t[i].name));
        }
    }
}

proof fn lemma_ws_summary_widen(
    wss: Seq<Workspace>,
    upto1: int,
    upto2: int,
    n: Seq<char>,
    s: WorkspaceSummary,
)
    requires
        ws_summary_from(wss, upto1, n, s),
        upto1 <= upto2,
    ensures
        ws_summary_from(wss, upto2, n, s),
{
    reveal(ws_summary_from);
    let k = choose|k: int|
        0 <= k < upto1 && (#[trigger] wss[k]).id == s.id && opt_str(wss[k].output) == Some(n)
            && s.index == wss[k].idx && opt_str(s.name) == opt_str(wss[k].name) && s.is_active
            == wss[k].is_active;
    assert(0 <= k < upto2 && wss[k].id == s.id && opt_str(wss[k].output) == Some(n) && s.index
        == wss[k].idx && opt_str(s.name) == opt_str(wss[k].name) && s.is_active == wss[k].is_active);
}

proof fn lemma_win_summary_widen(
    wins: Seq<Window>,
    upto1: int,
    upto2: int,
    wsid: u64,
    x: WindowSummary,
)
    requires
        win_summary_from(wins, upto1, wsid, x),
        upto1 <= upto2,
    ensures
        win_summary_from(wins, upto2, wsid, x),
{
    reveal(win_summary_from);
    let m = choose|m: int|
        0 <= m < upto1 && (#[trigger] wins[m]).id == x.id && !wins[m].is_floating
            && wins[m].workspace_id == Some(wsid) && x.is_focused == wins[m].is_focused && opt_str(
            x.title,
        ) == opt_str(wins[m].title);
    assert(0 <= m < upto2 && wins[m].id == x.id && !wins[m].is_floating && wins[m].workspace_id
        == Some(wsid) && x.is_focused == wins[m].is_focused && opt_str(x.title) == opt_str(
        wins[m].title,
    ));
}

/// An entry for an output that workspace `wss[k]` is not placed on is
/// untouched by widening to `k + 1`.
#[verifier::spinoff_prover]
proof fn lemma_entry_widen(wss: Seq<Workspace>, k: int, e: OutputEntry)
    requires
        entry_wss_match(wss, k, e),
        0 <= k < wss.len(),
        opt_str(wss[k].output) != Some(e.name@),
    ensures
        entry_wss_match(wss, k + 1, e),
{
    reveal(entry_wss_match);
    assert forall|a: int| 0 <= a < e.workspaces@.len() implies ws_summary_from(
        wss,
        k + 1,
        e.name@,
        #[trigger] e.workspaces@[a],
    ) by {
        lemma_ws_summary_widen(wss, k, k + 1, e.name@, e.workspaces@[a]);
    }
}

/// An entry extended by the summary of workspace `wss[k]` (placed on this very
/// output) is exactly the entry for the first `k + 1` workspaces.
#[verifier::spinoff_prover]
proof fn lemma_entry_extend(
    wss: Seq<Workspace>,
    k: int,
    e_old: OutputEntry,
    e_new: OutputEntry,
    summary: WorkspaceSummary,
)
    requires
        entry_wss_match(wss, k, e_old),
        0 <= k < wss.len(),
        e_new.name == e_old.name,
        opt_str(wss[k].output) == Some(e_old.name@),
        summary.id == wss[k].id,
        summary.index == wss[k].idx,
        opt_str(summary.name) == opt_str(wss[k].name),
        summary.is_active == wss[k].is_active,
        ws_sorted(e_new.workspaces@),
        forall|a: int|
            0 <= a < e_new.workspaces@.len() ==> e_old.workspaces@.contains(
                #[trigger] e_new.workspaces@[a],
            ) || e_new.workspaces@[a] == summary,
        forall|a: int|
            0 <= a < e_old.workspaces@.len() ==> e_new.workspaces@.contains(
                #[trigger] e_old.workspaces@[a],
            ),
        e_new.workspaces@.contains(summary),
    ensures
        entry_wss_match(wss, k + 1, e_new),
{
    reveal(entry_wss_match);
    reveal(entry_has_ws_id);
    assert(ws_summary_from(wss, k + 1, e_new.name@, summary)) by {
        reveal(ws_summary_from);
    }
    assert forall|a: int| 0 <= a < e_new.workspaces@.len() implies ws_summary_from(
        wss,
        k + 1,
        e_new.name@,
        #[trigger] e_new.workspaces@[a],
    ) by {
        if e_new.workspaces@[a] != summary {
            let b = choose|b: int|
                0 <= b < e_old.workspaces@.len() && e_old.workspaces@[b] == e_new.workspaces@[a];
            assert(ws_summary_from(wss, k, e_old.name@, e_old.workspaces@[b]));
            lemma_ws_summary_widen(wss, k, k + 1, e_new.name@, e_new.workspaces@[a]);
        }
    }
    assert forall|k0: int|
        0 <= k0 < k + 1 && opt_str((#[trigger] wss[k0]).output) == Some(
            e_new.name@,
        ) implies entry_has_ws_id(e_new, wss[k0].id) by {
        if k0 == k {
            let c = choose|c: int|
                0 <= c < e_new.workspaces@.len() && e_new.workspaces@[c] == summary;
            assert(e_new.workspaces@[c].id == wss[k].id);
        } else {
            assert(entry_has_ws_id(e_old, wss[k0].id));
            let a = choose|a: int|
                0 <= a < e_old.workspaces@.len() && (#[trigger] e_old.workspaces@[a]).id == wss[
                    k0
                ].id;
            let c = choose|c: int|
                0 <= c < e_new.workspaces@.len() && e_new.workspaces@[c] == e_old.workspaces@[a];
            assert(e_new.workspaces@[c].id == wss[k0].id);
        }
    }
}

/// A fresh empty entry is faithful to the first `k` workspaces when none of
/// them is placed on its output.
proof fn lemma_fresh_entry_match(wss: Seq<Workspace>, k: int, e: OutputEntry)
    requires
        e.workspaces@.len() == 0,
        forall|k0: int| 0 <= k0 < k ==> opt_str((#[trigger] wss[k0]).output) != Some(e.name@),
    ensures
        entry_wss_match(wss, k, e),
{
    reveal(entry_wss_match);
}

/// A workspace with no known output leaves the tree as it stands.
#[verifier::spinoff_prover]
proof fn lemma_tree_skip_unplaced(wss: Seq<Workspace>, k: int, t: Seq<OutputEntry>)
    requires
        tree_wss_match(wss, k, t),
        0 <= k < wss.len(),
        wss[k].output is None,
    ensures
        tree_wss_match(wss, k + 1, t),
{
    reveal(tree_wss_match);
    assert forall|i: int| 0 <= i < t.len() implies entry_wss_match(wss, k + 1, #[trigger] t[i]) by {
        lemma_entry_widen(wss, k, t[i]);
    }
    assert forall|i: int| 0 <= i < t.len() implies output_placed(
        wss,
        k + 1,
        (#[trigger] t[i]).name@,
    ) by {
        reveal(output_placed);
        let k0 = choose|k0: int|
            0 <= k0 < k && opt_str((#[trigger] wss[k0]).output) == Some(t[i].name@);
        assert(0 <= k0 < k + 1 && opt_str(wss[k0].output) == Some(t[i].name@));
    }
}

/// One full placement step: the tree for the first `k` workspaces (`pre`),
/// possibly with a fresh empty entry for `wss[k]`'s output inserted (`mid`),
/// whose entry at `oi` is then extended by `wss[k]`'s summary (`fin`), is the
/// tree for the first `k + 1` workspaces.
#[verifier::rlimit(60)]
#[verifier::spinoff_prover]
proof fn lemma_place_step(
    wss: Seq<Workspace>,
    k: int,
    pre: Seq<OutputEntry>,
    mid: Seq<OutputEntry>,
    fin: Seq<OutputEntry>,
    oi: int,
    summary: WorkspaceSummary,
    found: bool,
)
    requires
        tree_wss_match(wss, k, pre),
        0 <= k < wss.len(),
        0 <= oi < mid.len(),
        opt_str(wss[k].output) == Some(mid[oi].name@),
        found ==> mid == pre,
        !found ==> mid.len() == pre.len() + 1,
        !found ==> (forall|i: int| 0 <= i < oi ==> #[trigger] mid[i] == pre[i]),
        !found ==> (forall|i: int| oi < i < mid.len() ==> #[trigger] mid[i] == pre[i - 1]),
        !found ==> mid[oi].workspaces@.len() == 0,
        !found ==> (forall|i: int| 0 <= i < pre.len() ==> (#[trigger] pre[i]).name@ != mid[oi].name@),
        outputs_sorted(mid),
        fin.len() == mid.len(),
        forall|i: int| 0 <= i < fin.len() && i != oi ==> #[trigger] fin[i] == mid[i],
        fin[oi].name == mid[oi].name,
        summary.id == wss[k].id,
        summary.index == wss[k].idx,
        opt_str(summary.name) == opt_str(wss[k].name),
        summary.is_active == wss[k].is_active,
        ws_sorted(fin[oi].workspaces@),
        forall|a: int|
            0 <= a < fin[oi].workspaces@.len() ==> mid[oi].workspaces@.contains(
                #[trigger] fin[oi].workspaces@[a],
            ) || fin[oi].workspaces@[a] == summary,
        forall|a: int|
            0 <= a < mid[oi].workspaces@.len() ==> fin[oi].workspaces@.contains(
                #[trigger] mid[oi].workspaces@[a],
            ),
        fin[oi].workspaces@.contains(summary),
    ensures
        tree_wss_match(wss, k + 1, fin),
{
    reveal(tree_wss_match);
    assert forall|p: int, q: int|
        0 <= p < q < fin.len() implies lex_lt(
        name_bytes((#[trigger] fin[p]).name),
        name_bytes((#[trigger] fin[q]).name),
    ) by {
        assert(fin[p].name == mid[p].name && fin[q].name == mid[q].name);
    }
    if !found {
        assert forall|k0: int| 0 <= k0 < k implies opt_str((#[trigger] wss[k0]).output) != Some(
            mid[oi].name@,
        ) by {
            if opt_str(wss[k0].output) == Some(mid[oi].name@) {
                assert(tree_has_output(pre, opt_str(wss[k0].output)->0));
                reveal(tree_has_output);
                let p = choose|p: int|
                    0 <= p < pre.len() && (#[trigger] pre[p]).name@ == opt_str(wss[k0].output)->0;
                assert(pre[p].name@ == mid[oi].name@);
            }
        }
    }
    assert forall|i: int| 0 <= i < fin.len() implies entry_wss_match(wss, k + 1, #[trigger] fin[i]) by {
        if i == oi {
            if found {
                assert(entry_wss_match(wss, k, mid[oi]));
            } else {
                lemma_fresh_entry_match(wss, k, mid[oi]);
            }
            lemma_entry_extend(wss, k, mid[oi], fin[oi], summary);
        } else {
            assert(fin[i] == mid[i]);
            if found {
                assert(entry_wss_match(wss, k, fin[i]));
            } else if i < oi {
                assert(mid[i] == pre[i]);
                assert(entry_wss_match(wss, k, fin[i]));
            } else {
                assert(mid[i] == pre[i - 1]);
                assert(entry_wss_match(wss, k, fin[i]));
            }
            lemma_sorted_names_distinct(fin, i, oi);
            assert(fin[oi].name@ == mid[oi].name@);
            lemma_entry_widen(wss, k, fin[i]);
        }
    }
    assert forall|i: int| 0 <= i < fin.len() implies output_placed(
        wss,
        k + 1,
        (#[trigger] fin[i]).name@,
    ) by {
        reveal(output_placed);
        if i == oi {
            assert(0 <= k < k + 1 && opt_str(wss[k].output) == Some(fin[i].name@));
        } else {
            assert(fin[i] == mid[i]);
            let ghost src = if found {
                i
            } else if i < oi {
                i
            } else {
                i - 1
            };
            assert(mid[i] == pre[src]);
            assert(output_placed(wss, k, pre[src].name@));
            let k0 = choose|k0: int|
                0 <= k0 < k && opt_str((#[trigger] wss[k0]).output) == Some(pre[src].name@);
            assert(0 <= k0 < k + 1 && opt_str(wss[k0].output) == Some(fin[i].name@));
        }
    }
    assert forall|k0: int|
        0 <= k0 < k + 1 && (#[trigger] wss[k0]).output is Some implies tree_has_output(
        fin,
        opt_str(wss[k0].output)->0,
    ) by {
        reveal(tree_has_output);
        if k0 == k {
            assert(fin[oi].name@ == opt_str(wss[k0].output)->0);
        } else {
            assert(tree_has_output(pre, opt_str(wss[k0].output)->0));
            let p = choose|p: int|
                0 <= p < pre.len() && (#[trigger] pre[p]).name@ == opt_str(wss[k0].output)->0;
            let ghost q = if found {
                p
            } else if p < oi {
                p
            } else {
                p + 1
            };
            assert(mid[q] == pre[p]);
            assert(fin[q].name@ == mid[q].name@);
        }
    }
}

/// A window that this summary's workspace does not receive leaves the summary
/// untouched by widening to `m + 1`.
#[verifier::spinoff_prover]
proof fn lemma_summary_skip(wins: Seq<Window>, m: int, s: WorkspaceSummary)
    requires
        summary_wins_match(wins, m, s),
        0 <= m < wins.len(),
        wins[m].is_floating || wins[m].workspace_id != Some(s.id),
    ensures
        summary_wins_match(wins, m + 1, s),
{
    reveal(summary_wins_match);
    assert forall|c: int| 0 <= c < s.windows@.len() implies win_summary_from(
        wins,
        m + 1,
        s.id,
        #[trigger] s.windows@[c],
    ) by {
        lemma_win_summary_widen(wins, m, m + 1, s.id, s.windows@[c]);
    }
}

/// A summary extended by the window `wins[m]` it receives is exactly the
/// summary for the first `m + 1` windows.
#[verifier::spinoff_prover]
proof fn lemma_summary_extend(
    wins: Seq<Window>,
    m: int,
    s_old: WorkspaceSummary,
    s_new: WorkspaceSummary,
    x: WindowSummary,
)
    requires
        summary_wins_match(wins, m, s_old),
        0 <= m < wins.len(),
        s_new.id == s_old.id,
        !wins[m].is_floating,
        wins[m].workspace_id == Some(s_old.id),
        x.id == wins[m].id,
        x.is_focused == wins[m].is_focused,
        opt_str(x.title) == opt_str(wins[m].title),
        wins_sorted(s_new.windows@),
        forall|c: int|
            0 <= c < s_new.windows@.len() ==> s_old.windows@.contains(#[trigger] s_new.windows@[c])
                || s_new.windows@[c] == x,
        forall|c: int|
            0 <= c < s_old.windows@.len() ==> s_new.windows@.contains(#[trigger] s_old.windows@[c]),
        s_new.windows@.contains(x),
    ensures
        summary_wins_match(wins, m + 1, s_new),
{
    reveal(summary_wins_match);
    reveal(summary_has_win_id);
    assert(win_summary_from(wins, m + 1, s_new.id, x)) by {
        reveal(win_summary_from);
    }
    assert forall|c: int| 0 <= c < s_new.windows@.len() implies win_summary_from(
        wins,
        m + 1,
        s_new.id,
        #[trigger] s_new.windows@[c],
    ) by {
        if s_new.windows@[c] != x {
            let b = choose|b: int|
                0 <= b < s_old.windows@.len() && s_old.windows@[b] == s_new.windows@[c];
            assert(win_summary_from(wins, m, s_old.id, s_old.windows@[b]));
            lemma_win_summary_widen(wins, m, m + 1, s_new.id, s_new.windows@[c]);
        }
    }
    assert forall|m0: int|
        0 <= m0 < m + 1 && !(#[trigger] wins[m0]).is_floating && wins[m0].workspace_id == Some(
            s_new.id,
        ) implies summary_has_win_id(s_new, wins[m0].id) by {
        if m0 == m {
            let c = choose|c: int| 0 <= c < s_new.windows@.len() && s_new.windows@[c] == x;
            assert(s_new.windows@[c].id == wins[m].id);
        } else {
            assert(summary_has_win_id(s_old, wins[m0].id));
            let a = choose|a: int|
                0 <= a < s_old.windows@.len() && (#[trigger] s_old.windows@[a]).id == wins[m0].id;
            let c = choose|c: int|
                0 <= c < s_new.windows@.len() && s_new.windows@[c] == s_old.windows@[a];
            assert(s_new.windows@[c].id == wins[m0].id);
        }
    }
}

/// A floating window, or one with no workspace reference, leaves the window
/// level of the tree as it stands.
#[verifier::spinoff_prover]
proof fn lemma_tree_wins_skip(wins: Seq<Window>, m: int, t: Seq<OutputEntry>)
    requires
        tree_wins_match(wins, m, t),
        0 <= m < wins.len(),
        wins[m].is_floating || wins[m].workspace_id is None,
    ensures
        tree_wins_match(wins, m + 1, t),
{
    reveal(tree_wins_match);
    assert forall|i: int, a: int|
        0 <= i < t.len() && 0 <= a < (#[trigger] t[i]).workspaces@.len() implies summary_wins_match(
        wins,
        m + 1,
        #[trigger] t[i].workspaces@[a],
    ) by {
        lemma_summary_skip(wins, m, t[i].workspaces@[a]);
    }
}

/// Extending the one summary whose id window `wins[m]` references, while every
/// other summary carries a different id, advances the window level by one.
#[verifier::rlimit(60)]
#[verifier::spinoff_prover]
proof fn lemma_tree_wins_extend(
    wins: Seq<Window>,
    m: int,
    mid: Seq<OutputEntry>,
    fin: Seq<OutputEntry>,
    oi: int,
    wi: int,
    x: WindowSummary,
)
    requires
        tree_wins_match(wins, m, mid),
        0 <= m < wins.len(),
        0 <= oi < mid.len(),
        0 <= wi < mid[oi].workspaces@.len(),
        !wins[m].is_floating,
        wins[m].workspace_id == Some(mid[oi].workspaces@[wi].id),
        forall|i: int, a: int|
            0 <= i < mid.len() && 0 <= a < (#[trigger] mid[i]).workspaces@.len() && !(i == oi && a
                == wi) ==> (#[trigger] mid[i].workspaces@[a]).id != mid[oi].workspaces@[wi].id,
        fin.len() == mid.len(),
        forall|i: int| 0 <= i < fin.len() && i != oi ==> #[trigger] fin[i] == mid[i],
        fin[oi].workspaces@.len() == mid[oi].workspaces@.len(),
        forall|a: int|
            0 <= a < fin[oi].workspaces@.len() && a != wi ==> #[trigger] fin[oi].workspaces@[a]
                == mid[oi].workspaces@[a],
        fin[oi].workspaces@[wi].id == mid[oi].workspaces@[wi].id,
        x.id == wins[m].id,
        x.is_focused == wins[m].is_focused,
        opt_str(x.title) == opt_str(wins[m].title),
        wins_sorted(fin[oi].workspaces@[wi].windows@),
        forall|c: int|
            0 <= c < fin[oi].workspaces@[wi].windows@.len() ==> mid[
                oi
            ].workspaces@[wi].windows@.contains(#[trigger] fin[oi].workspaces@[wi].windows@[c])
                || fin[oi].workspaces@[wi].windows@[c] == x,
        forall|c: int|
            0 <= c < mid[oi].workspaces@[wi].windows@.len() ==> fin[
                oi
            ].workspaces@[wi].windows@.contains(#[trigger] mid[oi].workspaces@[wi].windows@[c]),
        fin[oi].workspaces@[wi].windows@.contains(x),
    ensures
        tree_wins_match(wins, m + 1, fin),
{
    reveal(tree_wins_match);
    assert forall|i: int, a: int|
        0 <= i < fin.len() && 0 <= a < (#[trigger] fin[i]).workspaces@.len() implies summary_wins_match(
        wins,
        m + 1,
        #[trigger] fin[i].workspaces@[a],
    ) by {
        if i == oi && a == wi {
            assert(summary_wins_match(wins, m, mid[oi].workspaces@[wi]));
            lemma_summary_extend(
                wins,
                m,
                mid[oi].workspaces@[wi],
                fin[oi].workspaces@[wi],
                x,
            );
        } else {
            assert(fin[i].workspaces@[a] == mid[i].workspaces@[a]);
            assert(summary_wins_match(wins, m, fin[i].workspaces@[a]));
            assert(fin[i].workspaces@[a].id != mid[oi].workspaces@[wi].id);
            lemma_summary_skip(wins, m, fin[i].workspaces@[a]);
        }
    }
}

/// In a tree faithful to a model with unique workspace ids, summary ids are
/// unique across the whole tree.
#[verifier::spinoff_prover]
proof fn lemma_summary_ids_unique(
    wss: Seq<Workspace>,
    t: Seq<OutputEntry>,
    i1: int,
    a1: int,
    i2: int,
    a2: int,
)
    requires
        ws_ids_unique(wss),
        tree_wss_match(wss, wss.len() as int, t),
        0 <= i1 < t.len(),
        0 <= a1 < t[i1].workspaces@.len(),
        0 <= i2 < t.len(),
        0 <= a2 < t[i2].workspaces@.len(),
        !(i1 == i2 && a1 == a2),
    ensures
        t[i1].workspaces@[a1].id != t[i2].workspaces@[a2].id,
{
    reveal(tree_wss_match);
    reveal(entry_wss_match);
    reveal(ws_summary_from);
    if t[i1].workspaces@[a1].id == t[i2].workspaces@[a2].id {
        let s1 = t[i1].workspaces@[a1];
        let s2 = t[i2].workspaces@[a2];
        assert(ws_summary_from(wss, wss.len() as int, t[i1].name@, s1));
        assert(ws_summary_from(wss, wss.len() as int, t[i2].name@, s2));
        let k1 = choose|k: int|
            0 <= k < wss.len() && (#[trigger] wss[k]).id == s1.id && opt_str(wss[k].output) == Some(
                t[i1].name@,
            ) && s1.index == wss[k].idx && opt_str(s1.name) == opt_str(wss[k].name) && s1.is_active
                == wss[k].is_active;
        let k2 = choose|k: int|
            0 <= k < wss.len() && (#[trigger] wss[k]).id == s2.id && opt_str(wss[k].output) == Some(
                t[i2].name@,
            ) && s2.index == wss[k].idx && opt_str(s2.name) == opt_str(wss[k].name) && s2.is_active
                == wss[k].is_active;
        assert(k1 == k2);
        assert(t[i1].name@ == t[i2].name@);
        if i1 != i2 {
            lemma_sorted_names_distinct(t, i1, i2);
        } else {
            assert(s1.id < s2.id || s2.id < s1.id);
        }
    }
}

/// When no summary anywhere carries the referenced id, the window cannot be
/// placed at all: no workspace with that id has a known output.
#[verifier::spinoff_prover]
proof fn lemma_missing_means_unplaceable(wss: Seq<Workspace>, t: Seq<OutputEntry>, w: Window)
    requires
        tree_wss_match(wss, wss.len() as int, t),
        !w.is_floating,
        w.workspace_id is Some,
        forall|i: int, a: int|
            0 <= i < t.len() && 0 <= a < (#[trigger] t[i]).workspaces@.len() ==> (
            #[trigger] t[i].workspaces@[a]).id != w.workspace_id->0,
    ensures
        !win_placeable(wss, w),
{
    reveal(tree_wss_match);
    if win_placeable(wss, w) {
        let k = choose|k: int|
            0 <= k < wss.len() && (#[trigger] wss[k]).id == w.workspace_id->0 && wss[k].output
                is Some;
        assert(tree_has_output(t, opt_str(wss[k].output)->0));
        reveal(tree_has_output);
        let i = choose|i: int|
            0 <= i < t.len() && (#[trigger] t[i]).name@ == opt_str(wss[k].output)->0;
        assert(entry_wss_match(wss, wss.len() as int, t[i]));
        reveal(entry_wss_match);
        assert(opt_str(wss[k].output) == Some(t[i].name@));
        assert(entry_has_ws_id(t[i], wss[k].id));
        reveal(entry_has_ws_id);
        let a = choose|a: int|
            0 <= a < t[i].workspaces@.len() && (#[trigger] t[i].workspaces@[a]).id == wss[k].id;
        assert(t[i].workspaces@[a].id == w.workspace_id->0);
    }
}

/// A found summary means the window is placeable.
proof fn lemma_found_means_placeable(
    wss: Seq<Workspace>,
    t: Seq<OutputEntry>,
    oi: int,
    wi: int,
    w: Window,
)
    requires
        tree_wss_match(wss, wss.len() as int, t),
        0 <= oi < t.len(),
        0 <= wi < t[oi].workspaces@.len(),
        w.workspace_id == Some(t[oi].workspaces@[wi].id),
    ensures
        win_placeable(wss, w),
{
    reveal(tree_wss_match);
    reveal(entry_wss_match);
    assert(ws_summary_from(wss, wss.len() as int, t[oi].name@, t[oi].workspaces@[wi]));
    reveal(ws_summary_from);
    let k = choose|k: int|
        0 <= k < wss.len() && (#[trigger] wss[k]).id == t[oi].workspaces@[wi].id && opt_str(
            wss[k].output,
        ) == Some(t[oi].name@) && t[oi].workspaces@[wi].index == wss[k].idx && opt_str(
            t[oi].workspaces@[wi].name,
        ) == opt_str(wss[k].name) && t[oi].workspaces@[wi].is_active == wss[k].is_active;
    assert(wss[k].id == w.workspace_id->0 && wss[k].output is Some);
}

/// The empty tree is faithful to no workspaces at all.
proof fn lemma_tree_empty(wss: Seq<Workspace>, t: Seq<OutputEntry>)
    requires
        t.len() == 0,
    ensures
        tree_wss_match(wss, 0, t),
{
    reveal(tree_wss_match);
}

/// A tree whose summaries hold no windows is faithful to no windows at all.
proof fn lemma_tree_wins_initial(wins: Seq<Window>, t: Seq<OutputEntry>)
    requires
        summaries_windows_empty(t),
    ensures
        tree_wins_match(wins, 0, t),
{
    reveal(tree_wins_match);
    assert forall|i: int, a: int|
        0 <= i < t.len() && 0 <= a < (#[trigger] t[i]).workspaces@.len() implies summary_wins_match(
        wins,
        0,
        #[trigger] t[i].workspaces@[a],
    ) by {
        reveal(summary_wins_match);
        assert(t[i].workspaces@[a].windows@.len() == 0);
    }
}

/// Copies an optional string; the copy is equal to the original.
fn clone_opt_string(s: &Option<String>) -> (r: Option<String>)
    ensures
        r == *s,
{
    match s {
        Some(x) => Some(x.clone()),
        None => None,
    }
}

/// Finds the entry for `name`, or inserts a fresh empty one at its sorted
/// place, and returns its index.
#[verifier::loop_isolation(false)]
fn find_or_insert_output(outputs: &mut Vec<OutputEntry>, name: &String) -> (oi: usize)
    requires
        outputs_sorted(old(outputs)@),
    ensures
        outputs_sorted(final(outputs)@),
        (oi as int) < final(outputs)@.len(),
        (oi as int) <= old(outputs)@.len(),
        final(outputs)@[oi as int].name@ == name@,
        (exists|i: int| 0 <= i < old(outputs)@.len() && (#[trigger] old(outputs)@[i]).name@ == name@)
            ==> final(outputs)@ == old(outputs)@,
        !(exists|i: int|
            0 <= i < old(outputs)@.len() && (#[trigger] old(outputs)@[i]).name@ == name@) ==> (
        final(outputs)@ == old(outputs)@.insert(oi as int, final(outputs)@[oi as int])
            && final(outputs)@[oi as int].workspaces@.len() == 0),
{
    let mut j: usize = 0;
    loop
        invariant
            j <= outputs@.len(),
            outputs@ == old(outputs)@,
            forall|t: int|
                0 <= t < j ==> lex_lt(name_bytes((#[trigger] outputs@[t]).name), encode_utf8(name@)),
        decreases outputs@.len() - j,
    {
        if j >= outputs.len() {
            break ;
        }
        if !str_lt(outputs[j].name.as_str(), name.as_str()) {
            if !str_lt(name.as_str(), outputs[j].name.as_str()) {
                proof {
                    lemma_lex_lt_connected(name_bytes(outputs@[j as int].name), encode_utf8(name@));
                    vstd::utf8::encode_utf8_decode_utf8(outputs@[j as int].name@);
                    vstd::utf8::encode_utf8_decode_utf8(name@);
                }
                return j;
            }
            break ;
        }
        j += 1;
    }
    // `name` is new: entries before `j` precede it, entries from `j` on follow it.
    proof {
        assert forall|t: int| j <= t < outputs@.len() implies lex_lt(
            encode_utf8(name@),
            name_bytes(#[trigger] outputs@[t].name),
        ) by {
            if t > j {
                lemma_lex_lt_transitive(
                    encode_utf8(name@),
                    name_bytes(outputs@[j as int].name),
                    name_bytes(outputs@[t].name),
                );
            }
        }
        assert forall|i: int|
            0 <= i < outputs@.len() implies (#[trigger] outputs@[i]).name@ != name@ by {
            if outputs@[i].name@ == name@ {
                if i < j {
                    lemma_lex_lt_asymmetric(name_bytes(outputs@[i].name), encode_utf8(name@));
                } else {
                    lemma_lex_lt_asymmetric(encode_utf8(name@), name_bytes(outputs@[i].name));
                }
            }
        }
    }
    let entry = OutputEntry { name: name.clone(), workspaces: Vec::new() };
    outputs.insert(j, entry);
    proof {
        assert forall|p: int, q: int|
            0 <= p < q < outputs@.len() implies lex_lt(
            name_bytes((#[trigger] outputs@[p]).name),
            name_bytes((#[trigger] outputs@[q]).name),
        ) by {
            if p < j && q > j {
                assert(outputs@[p] == old(outputs)@[p]);
                assert(outputs@[q] == old(outputs)@[q - 1]);
            }
        }
    }
    j
}

/// Inserts a workspace summary with a fresh id at its place in the strict id
/// order.
#[verifier::loop_isolation(false)]
fn insert_ws_sorted(l: &mut Vec<WorkspaceSummary>, s: WorkspaceSummary)
    requires
        ws_sorted(old(l)@),
        forall|a: int| 0 <= a < old(l)@.len() ==> (#[trigger] old(l)@[a]).id != s.id,
    ensures
        ws_sorted(final(l)@),
        final(l)@.len() == old(l)@.len() + 1,
        forall|a: int|
            0 <= a < final(l)@.len() ==> old(l)@.contains(#[trigger] final(l)@[a]) || final(l)@[a]
                == s,
        forall|a: int| 0 <= a < old(l)@.len() ==> final(l)@.contains(#[trigger] old(l)@[a]),
        final(l)@.contains(s),
{
    let mut j: usize = 0;
    loop
        invariant
            j <= l@.len(),
            l@ == old(l)@,
            forall|t: int| 0 <= t < j ==> (#[trigger] l@[t]).id < s.id,
        decreases l@.len() - j,
    {
        if j >= l.len() {
            break ;
        }
        if l[j].id > s.id {
            break ;
        }
        j += 1;
    }
    l.insert(j, s);
    proof {
        assert(l@[j as int] == s);
        assert forall|a: int| 0 <= a < old(l)@.len() implies l@.contains(#[trigger] old(l)@[a]) by {
            if a < j {
                assert(l@[a] == old(l)@[a]);
            } else {
                assert(l@[a + 1] == old(l)@[a]);
            }
        }
        assert forall|a: int|
            0 <= a < l@.len() implies old(l)@.contains(#[trigger] l@[a]) || l@[a] == s by {
            if a < j {
                assert(l@[a] == old(l)@[a]);
            } else if a > j {
                assert(l@[a] == old(l)@[a - 1]);
            }
        }
    }
}

/// Inserts a window summary with a fresh id at its place in the strict id
/// order.
#[verifier::loop_isolation(false)]
fn insert_win_sorted(l: &mut Vec<WindowSummary>, x: WindowSummary)
    requires
        wins_sorted(old(l)@),
        forall|a: int| 0 <= a < old(l)@.len() ==> (#[trigger] old(l)@[a]).id != x.id,
    ensures
        wins_sorted(final(l)@),
        final(l)@.len() == old(l)@.len() + 1,
        forall|a: int|
            0 <= a < final(l)@.len() ==> old(l)@.contains(#[trigger] final(l)@[a]) || final(l)@[a]
                == x,
        forall|a: int| 0 <= a < old(l)@.len() ==> final(l)@.contains(#[trigger] old(l)@[a]),
        final(l)@.contains(x),
{
    let mut j: usize = 0;
    loop
        invariant
            j <= l@.len(),
            l@ == old(l)@,
            forall|t: int| 0 <= t < j ==> (#[trigger] l@[t]).id < x.id,
        decreases l@.len() - j,
    {
        if j >= l.len() {
            break ;
        }
        if l[j].id > x.id {
            break ;
        }
        j += 1;
    }
    l.insert(j, x);
    proof {
        assert(l@[j as int] == x);
        assert forall|a: int| 0 <= a < old(l)@.len() implies l@.contains(#[trigger] old(l)@[a]) by {
            if a < j {
                assert(l@[a] == old(l)@[a]);
            } else {
                assert(l@[a + 1] == old(l)@[a]);
            }
        }
        assert forall|a: int|
            0 <= a < l@.len() implies old(l)@.contains(#[trigger] l@[a]) || l@[a] == x by {
            if a < j {
                assert(l@[a] == old(l)@[a]);
            } else if a > j {
                assert(l@[a] == old(l)@[a - 1]);
            }
        }
    }
}

/// Finds the workspace summary with id `wid` anywhere in the tree.
#[verifier::loop_isolation(false)]
fn find_summary(outputs: &Vec<OutputEntry>, wid: u64) -> (r: Option<(usize, usize)>)
    ensures
        match r {
            Some(pos) => (pos.0 as int) < outputs@.len() && (pos.1 as int)
                < outputs@[pos.0 as int].workspaces@.len()
                && outputs@[pos.0 as int].workspaces@[pos.1 as int].id == wid,
            None => forall|i: int, a: int|
                0 <= i < outputs@.len() && 0 <= a < (#[trigger] outputs@[i]).workspaces@.len()
                    ==> (#[trigger] outputs@[i].workspaces@[a]).id != wid,
        },
{
    let mut i: usize = 0;
    while i < outputs.len()
        invariant
            i <= outputs@.len(),
            forall|p: int, a: int|
                0 <= p < i && 0 <= a < (#[trigger] outputs@[p]).workspaces@.len() ==> (
                #[trigger] outputs@[p].workspaces@[a]).id != wid,
        decreases outputs@.len() - i,
    {
        let entry = &outputs[i];
        let mut a: usize = 0;
        while a < entry.workspaces.len()
            invariant
                a <= entry.workspaces@.len(),
                entry == outputs@[i as int],
                i < outputs@.len(),
                forall|b: int| 0 <= b < a ==> (#[trigger] entry.workspaces@[b]).id != wid,
            decreases entry.workspaces@.len() - a,
        {
            if entry.workspaces[a].id == wid {
                return Some((i, a));
            }
            a += 1;
        }
        i += 1;
    }
    None
}

/// Derives the display-ready tree from the flat model. The result holds an
/// entry for an output name exactly when some workspace is placed on it, that
/// entry exactly one summary (id, index, name, active flag) per such
/// workspace, and each summary exactly the non-floating windows that reference
/// its workspace (id, focus, title) — all three levels in ascending order. The
/// call fails exactly when some non-floating window references a workspace id
/// that no placed workspace carries, reporting the first such window.
#[verifier::rlimit(60)]
#[verifier::loop_isolation(false)]
pub fn project(state: &State) -> (r: Result<ProjectedTree, IntegrityError>)
    requires
        state@.wf(),
    ensures
        match r {
            Ok(t) => projection_failure(state@.workspaces, state@.windows) is None
                && tree_wss_match(state@.workspaces, state@.workspaces.len() as int, t.outputs@)
                && tree_wins_match(state@.windows, state@.windows.len() as int, t.outputs@),
            Err(failure) => projection_failure(state@.workspaces, state@.windows) == Some(failure),
        },
{
    let ghost wss = state@.workspaces;
    let ghost wins = state@.windows;
    let mut outputs: Vec<OutputEntry> = Vec::new();
    proof {
        lemma_tree_empty(wss, outputs@);
    }
    let mut k: usize = 0;
    while k < state.workspaces.len()
        invariant
            k <= wss.len(),
            tree_wss_match(wss, k as int, outputs@),
            summaries_windows_empty(outputs@),
        decreases wss.len() - k,
    {
        let ws = &state.workspaces[k];
        match &ws.output {
            None => {
                proof {
                    lemma_tree_skip_unplaced(wss, k as int, outputs@);
                }
            },
            Some(name) => {
                let ghost pre = outputs@;
                proof {
                    reveal(tree_wss_match);
                    assert(outputs_sorted(pre));
                }
                let oi = find_or_insert_output(&mut outputs, name);
                let ghost found = exists|i0: int|
                    0 <= i0 < pre.len() && (#[trigger] pre[i0]).name@ == name@;
                let ghost mid = outputs@;
                proof {
                    if !found {
                        pre.insert_ensures(oi as int, mid[oi as int]);
                    }
                    assert(summaries_windows_empty(mid)) by {
                        assert forall|i: int, a: int|
                            0 <= i < mid.len() && 0 <= a < (#[trigger] mid[i]).workspaces@.len()
                            implies (#[trigger] mid[i].workspaces@[a]).windows@.len() == 0 by {
                            if found {
                                assert(mid[i] == pre[i]);
                            } else if i < oi as int {
                                assert(mid[i] == pre[i]);
                            } else if i > oi as int {
                                assert(mid[i] == pre[i - 1]);
                            }
                        }
                    }
                }
                let summary = WorkspaceSummary {
                    id: ws.id,
                    index: ws.idx,
                    name: clone_opt_string(&ws.name),
                    is_active: ws.is_active,
                    windows: Vec::new(),
                };
                let mut entry = outputs.remove(oi);
                proof {
                    assert(entry == mid[oi as int]);
                    if found {
                        reveal(tree_wss_match);
                        assert(entry_wss_match(wss, k as int, entry));
                    } else {
                        assert(entry.workspaces@.len() == 0);
                    }
                    lemma_entry_sorted(wss, k as int, entry);
                    lemma_entry_ids_fresh(wss, k as int, entry, ws.id);
                }
                insert_ws_sorted(&mut entry.workspaces, summary);
                outputs.insert(oi, entry);
                proof {
                    let fin = outputs@;
                    assert(fin =~= mid.update(oi as int, fin[oi as int]));
                    assert forall|i: int|
                        0 <= i < fin.len() && i != oi as int implies #[trigger] fin[i]
                        == mid[i] by {}
                    lemma_place_step(
                        wss,
                        k as int,
                        pre,
                        mid,
                        fin,
                        oi as int,
                        summary,
                        found,
                    );
                    assert forall|i: int, a: int|
                        0 <= i < fin.len() && 0 <= a < (#[trigger] fin[i]).workspaces@.len()
                        implies (#[trigger] fin[i].workspaces@[a]).windows@.len() == 0 by {
                        if i == oi as int {
                            if fin[i].workspaces@[a] != summary {
                                assert(mid[oi as int].workspaces@.contains(
                                    fin[i].workspaces@[a],
                                ));
                                let b = choose|b: int|
                                    0 <= b < mid[oi as int].workspaces@.len() && mid[
                                        oi as int
                                    ].workspaces@[b] == fin[i].workspaces@[a];
                            }
                        } else {
                            assert(fin[i] == mid[i]);
                        }
                    }
                }
            },
        }
        k += 1;
    }
    proof {
        lemma_tree_wins_initial(wins, outputs@);
    }
    let mut m: usize = 0;
    while m < state.windows.len()
        invariant
            m <= wins.len(),
            tree_wss_match(wss, wss.len() as int, outputs@),
            tree_wins_match(wins, m as int, outputs@),
            forall|p: int| 0 <= p < m ==> win_placeable(wss, #[trigger] wins[p]),
        decreases wins.len() - m,
    {
        let win = &state.windows[m];
        if win.is_floating {
            proof {
                lemma_tree_wins_skip(wins, m as int, outputs@);
            }
        } else {
            match win.workspace_id {
                None => {
                    proof {
                        lemma_tree_wins_skip(wins, m as int, outputs@);
                    }
                },
                Some(wid) => {
                    match find_summary(&outputs, wid) {
                        None => {
                            proof {
                                lemma_missing_means_unplaceable(wss, outputs@, wins[m as int]);
                                let p = win_unresolvable(wss);
                                assert(p(wins[m as int]));
                                assert(is_first_match(wins, p, m as int));
                                assert(has_match(wins, p));
                                lemma_first_match(wins, p);
                                lemma_first_match_unique(wins, p, m as int, first_match(wins, p));
                            }
                            return Err(
                                IntegrityError::WindowWorkspaceMissing {
                                    window_id: win.id,
                                    workspace_id: wid,
                                },
                            );
                        },
                        Some(pos) => {
                            let (oi, wi) = pos;
                            let x = WindowSummary {
                                id: win.id,
                                is_focused: win.is_focused,
                                title: clone_opt_string(&win.title),
                            };
                            let ghost mid = outputs@;
                            proof {
                                lemma_found_means_placeable(
                                    wss,
                                    mid,
                                    oi as int,
                                    wi as int,
                                    wins[m as int],
                                );
                                assert forall|i: int, a: int|
                                    0 <= i < mid.len() && 0 <= a < (
                                    #[trigger] mid[i]).workspaces@.len() && !(i == oi as int && a
                                    == wi as int) implies (#[trigger] mid[i].workspaces@[a]).id
                                    != wid by {
                                    lemma_summary_ids_unique(
                                        wss,
                                        mid,
                                        i,
                                        a,
                                        oi as int,
                                        wi as int,
                                    );
                                }
                                assert(summary_wins_match(
                                    wins,
                                    m as int,
                                    mid[oi as int].workspaces@[wi as int],
                                )) by {
                                    reveal(tree_wins_match);
                                }
                                lemma_summary_sorted_and_fresh(
                                    wins,
                                    m as int,
                                    mid[oi as int].workspaces@[wi as int],
                                    win.id,
                                );
                            }
                            let mut entry = outputs.remove(oi);
                            let mut summary = entry.workspaces.remove(wi);
                            insert_win_sorted(&mut summary.windows, x);
                            entry.workspaces.insert(wi, summary);
                            outputs.insert(oi, entry);
                            proof {
                                let fin = outputs@;
                                assert(fin =~= mid.update(oi as int, fin[oi as int]));
                                assert forall|i: int|
                                    0 <= i < fin.len() && i != oi as int implies #[trigger] fin[i]
                                    == mid[i] by {}
                                assert(fin[oi as int].workspaces@ =~= mid[
                                    oi as int
                                ].workspaces@.update(
                                    wi as int,
                                    fin[oi as int].workspaces@[wi as int],
                                ));
                                assert forall|a: int|
                                    0 <= a < fin[oi as int].workspaces@.len() && a != wi as int
                                    implies #[trigger] fin[oi as int].workspaces@[a] == mid[
                                    oi as int
                                ].workspaces@[a] by {}
                                lemma_tree_wins_extend(
                                    wins,
                                    m as int,
                                    mid,
                                    fin,
                                    oi as int,
                                    wi as int,
                                    x,
                                );
                                lemma_tree_wss_same_summaries(wss, mid, fin, oi as int, wi as int);
                            }
                        },
                    }
                },
            }
        }
        m += 1;
    }
    proof {
        let p = win_unresolvable(wss);
        assert(!has_match(wins, p)) by {
            if has_match(wins, p) {
                let q = choose|q: int| 0 <= q < wins.len() && p(wins[q]);
                assert(win_placeable(wss, wins[q]));
            }
        }
    }
    Ok(ProjectedTree { outputs })
}

/// Extracts the strict id order of an entry's summaries.
proof fn lemma_entry_sorted(wss: Seq<Workspace>, upto: int, e: OutputEntry)
    requires
        entry_wss_match(wss, upto, e) || e.workspaces@.len() == 0,
    ensures
        ws_sorted(e.workspaces@),
{
    reveal(entry_wss_match);
}

/// A workspace id not summarised yet: the entry's summaries all come from
/// earlier workspaces, whose ids differ from `wss[k]`'s under uniqueness.
#[verifier::spinoff_prover]
proof fn lemma_entry_ids_fresh(wss: Seq<Workspace>, k: int, e: OutputEntry, id: u64)
    requires
        entry_wss_match(wss, k, e) || e.workspaces@.len() == 0,
        ws_ids_unique(wss),
        0 <= k < wss.len(),
        wss[k].id == id,
    ensures
        forall|a: int| 0 <= a < e.workspaces@.len() ==> (#[trigger] e.workspaces@[a]).id != id,
{
    reveal(entry_wss_match);
    reveal(ws_summary_from);
    if e.workspaces@.len() > 0 {
        assert forall|a: int|
            0 <= a < e.workspaces@.len() implies (#[trigger] e.workspaces@[a]).id != id by {
            assert(ws_summary_from(wss, k, e.name@, e.workspaces@[a]));
        }
    }
}

/// Extracts the strict id order of a summary's windows and that the id of
/// window `wins[m]` is not among them.
#[verifier::spinoff_prover]
proof fn lemma_summary_sorted_and_fresh(wins: Seq<Window>, m: int, s: WorkspaceSummary, id: u64)
    requires
        summary_wins_match(wins, m, s),
        win_ids_unique(wins),
        0 <= m < wins.len(),
        wins[m].id == id,
    ensures
        wins_sorted(s.windows@),
        forall|c: int| 0 <= c < s.windows@.len() ==> (#[trigger] s.windows@[c]).id != id,
{
    reveal(summary_wins_match);
    reveal(win_summary_from);
    assert forall|c: int|
        0 <= c < s.windows@.len() implies (#[trigger] s.windows@[c]).id != id by {
        assert(win_summary_from(wins, m, s.id, s.windows@[c]));
    }
}

/// Replacing one summary's window list (same id, same other fields) leaves the
/// workspace level of the tree untouched.
#[verifier::rlimit(60)]
#[verifier::spinoff_prover]
proof fn lemma_tree_wss_same_summaries(
    wss: Seq<Workspace>,
    mid: Seq<OutputEntry>,
    fin: Seq<OutputEntry>,
    oi: int,
    wi: int,
)
    requires
        tree_wss_match(wss, wss.len() as int, mid),
        0 <= oi < mid.len(),
        0 <= wi < mid[oi].workspaces@.len(),
        fin.len() == mid.len(),
        forall|i: int| 0 <= i < fin.len() && i != oi ==> #[trigger] fin[i] == mid[i],
        fin[oi].name == mid[oi].name,
        fin[oi].workspaces@.len() == mid[oi].workspaces@.len(),
        forall|a: int|
            0 <= a < fin[oi].workspaces@.len() && a != wi ==> #[trigger] fin[oi].workspaces@[a]
                == mid[oi].workspaces@[a],
        fin[oi].workspaces@[wi].id == mid[oi].workspaces@[wi].id,
        fin[oi].workspaces@[wi].index == mid[oi].workspaces@[wi].index,
        fin[oi].workspaces@[wi].name == mid[oi].workspaces@[wi].name,
        fin[oi].workspaces@[wi].is_active == mid[oi].workspaces@[wi].is_active,
    ensures
        tree_wss_match(wss, wss.len() as int, fin),
{
    reveal(tree_wss_match);
    let n = wss.len() as int;
    assert forall|p: int, q: int|
        0 <= p < q < fin.len() implies lex_lt(
        name_bytes((#[trigger] fin[p]).name),
        name_bytes((#[trigger] fin[q]).name),
    ) by {
        assert(fin[p].name == mid[p].name && fin[q].name == mid[q].name);
    }
    assert forall|i: int| 0 <= i < fin.len() implies entry_wss_match(wss, n, #[trigger] fin[i]) by {
        if i == oi {
            reveal(entry_wss_match);
            assert(entry_wss_match(wss, n, mid[oi]));
            assert forall|a: int, b: int|
                0 <= a < b < fin[oi].workspaces@.len() implies (
            #[trigger] fin[oi].workspaces@[a]).id < (#[trigger] fin[oi].workspaces@[b]).id by {
                assert(fin[oi].workspaces@[a].id == mid[oi].workspaces@[a].id);
                assert(fin[oi].workspaces@[b].id == mid[oi].workspaces@[b].id);
            }
            assert forall|a: int| 0 <= a < fin[oi].workspaces@.len() implies ws_summary_from(
                wss,
                n,
                fin[oi].name@,
                #[trigger] fin[oi].workspaces@[a],
            ) by {
                assert(ws_summary_from(wss, n, mid[oi].name@, mid[oi].workspaces@[a]));
                if a == wi {
                    reveal(ws_summary_from);
                    let k = choose|k: int|
                        0 <= k < n && (#[trigger] wss[k]).id == mid[oi].workspaces@[wi].id
                            && opt_str(wss[k].output) == Some(mid[oi].name@) && mid[
                            oi
                        ].workspaces@[wi].index == wss[k].idx && opt_str(
                            mid[oi].workspaces@[wi].name,
                        ) == opt_str(wss[k].name) && mid[oi].workspaces@[wi].is_active == wss[
                            k
                        ].is_active;
                    assert(wss[k].id == fin[oi].workspaces@[wi].id && opt_str(wss[k].output)
                        == Some(fin[oi].name@) && fin[oi].workspaces@[wi].index == wss[k].idx
                        && opt_str(fin[oi].workspaces@[wi].name) == opt_str(wss[k].name) && fin[
                        oi
                    ].workspaces@[wi].is_active == wss[k].is_active);
                }
            }
            assert forall|k0: int|
                0 <= k0 < n && opt_str((#[trigger] wss[k0]).output) == Some(
                    fin[oi].name@,
                ) implies entry_has_ws_id(fin[oi], wss[k0].id) by {
                assert(entry_has_ws_id(mid[oi], wss[k0].id));
                reveal(entry_has_ws_id);
                let a = choose|a: int|
                    0 <= a < mid[oi].workspaces@.len() && (#[trigger] mid[oi].workspaces@[a]).id
                        == wss[k0].id;
                assert(fin[oi].workspaces@[a].id == wss[k0].id);
            }
        } else {
            assert(fin[i] == mid[i]);
        }
    }
    assert forall|i: int| 0 <= i < fin.len() implies output_placed(
        wss,
        n,
        (#[trigger] fin[i]).name@,
    ) by {
        assert(fin[i].name@ == mid[i].name@);
        assert(output_placed(wss, n, mid[i].name@));
    }
    assert forall|k0: int|
        0 <= k0 < n && (#[trigger] wss[k0]).output is Some implies tree_has_output(
        fin,
        opt_str(wss[k0].output)->0,
    ) by {
        assert(tree_has_output(mid, opt_str(wss[k0].output)->0));
        reveal(tree_has_output);
        let i = choose|i: int|
            0 <= i < mid.len() && (#[trigger] mid[i]).name@ == opt_str(wss[k0].output)->0;
        assert(fin[i].name@ == mid[i].name@);
    }
}

} // verus!
