//! The planner: the five navigation operations over a workspace set, each
//! yielding an ordered list of actions.

use vstd::prelude::*;
use crate::digits::dec_digits;
use crate::digits::format_number;
use crate::workspace::set_invariant;
use crate::workspace::spec_focused_index;
use crate::workspace::spec_focused_number;
use crate::workspace::spec_predecessors;
use crate::workspace::spec_successors;
use crate::workspace::lemma_pred_of_is_take;
use crate::workspace::lemma_succ_of_is_skip;
use crate::workspace::SwayWorkspace;
use crate::workspace::Workspaces;
use crate::workspace::WorkspaceView;
use vstd::string::StringExecFns;

verus! {

/// One structural action against the live session. Order within a returned
/// action list is significant: later actions assume earlier ones have taken
/// effect.
#[derive(Debug, PartialEq, Eq)]
pub enum Action {
    /// Move input focus to the workspace with this number.
    MoveFocus { workspace_num: i64 },
    /// Move the focused container to the workspace with this number.
    MoveContainer { workspace_num: i64 },
    /// Rename a workspace, carrying the old and new display names verbatim.
    RenameWorkspace { workspace_name: String, new_workspace_name: String },
}

/// The mathematical model of one action.
pub enum ActionView {
    /// Move input focus to the workspace with this number.
    MoveFocus { workspace_num: int },
    /// Move the focused container to the workspace with this number.
    MoveContainer { workspace_num: int },
    /// Rename a workspace from the old display name to the new one.
    RenameWorkspace { workspace_name: Seq<char>, new_workspace_name: Seq<char> },
}

impl View for Action {
    type V = ActionView;

    open spec fn view(&self) -> ActionView {
        match self {
            Action::MoveFocus { workspace_num } => ActionView::MoveFocus {
                workspace_num: *workspace_num as int,
            },
            Action::MoveContainer { workspace_num } => ActionView::MoveContainer {
                workspace_num: *workspace_num as int,
            },
            Action::RenameWorkspace { workspace_name, new_workspace_name } => (
            ActionView::RenameWorkspace {
                workspace_name: workspace_name@,
                new_workspace_name: new_workspace_name@,
            }),
        }
    }
}

impl DeepView for Action {
    type V = ActionView;

    open spec fn deep_view(&self) -> ActionView {
        self.view()
    }
}

/// No two workspaces of the set share a number.
pub open spec fn unique_numbers(s: Seq<WorkspaceView>) -> bool {
    forall|i: int, j: int|
        0 <= i < j < s.len() ==> (#[trigger] s[i]).number != (#[trigger] s[j]).number
}

/// A valid workspace set: what construction guarantees, together with the
/// invariant that workspace numbers are unique across all outputs.
pub open spec fn set_wf(s: Seq<WorkspaceView>) -> bool {
    set_invariant(s) && unique_numbers(s)
}

/// The focused workspace of the set.
pub open spec fn spec_focused(s: Seq<WorkspaceView>) -> WorkspaceView {
    s[spec_focused_index(s)]
}

/// Some workspace of the set has number `m`.
pub open spec fn has_number(s: Seq<WorkspaceView>, m: int) -> bool {
    exists|i: int| 0 <= i < s.len() && (#[trigger] s[i]).number == m
}

/// Some workspace on output `out` has number `m`.
pub open spec fn has_number_on_output(s: Seq<WorkspaceView>, m: int, out: Seq<char>) -> bool {
    exists|i: int| 0 <= i < s.len() && (#[trigger] s[i]).number == m && s[i].output == out
}

/// Some workspace after the focused one lies on the focused output.
pub open spec fn has_next_on_output(s: Seq<WorkspaceView>) -> bool {
    exists|i: int|
        0 <= i < s.len() && (#[trigger] s[i]).number > spec_focused_number(s) && s[i].output
            == spec_focused(s).output
}

/// `m` is the smallest number above the focused one with a workspace on the
/// focused output.
pub open spec fn is_next_on_output(s: Seq<WorkspaceView>, m: int) -> bool {
    &&& m > spec_focused_number(s)
    &&& has_number_on_output(s, m, spec_focused(s).output)
    &&& forall|k: int|
        spec_focused_number(s) < k < m ==> !has_number_on_output(s, k, spec_focused(s).output)
}

/// The smallest number above the focused one with a workspace on the focused
/// output.
pub open spec fn next_on_output_number(s: Seq<WorkspaceView>) -> int {
    choose|m: int| is_next_on_output(s, m)
}

/// `m` is the smallest number above the focused one for which no workspace
/// exists on any output.
pub open spec fn is_first_gap_above(s: Seq<WorkspaceView>, m: int) -> bool {
    &&& m > spec_focused_number(s)
    &&& !has_number(s, m)
    &&& forall|k: int| spec_focused_number(s) < k < m ==> has_number(s, k)
}

/// The smallest number above the focused one for which no workspace exists.
pub open spec fn first_gap_above(s: Seq<WorkspaceView>) -> int {
    choose|m: int| is_first_gap_above(s, m)
}

/// Where focus moves forward while a workspace on the focused output lies
/// ahead: the first missing number, but never past the next workspace on the
/// focused output.
pub open spec fn next_target(s: Seq<WorkspaceView>) -> int {
    if first_gap_above(s) < next_on_output_number(s) {
        first_gap_above(s)
    } else {
        next_on_output_number(s)
    }
}

/// Some workspace before the focused one lies on the focused output.
pub open spec fn has_prev_on_output(s: Seq<WorkspaceView>) -> bool {
    exists|i: int|
        0 <= i < s.len() && (#[trigger] s[i]).number < spec_focused_number(s) && s[i].output
            == spec_focused(s).output
}

/// `m` is the largest number below the focused one with a workspace on the
/// focused output.
pub open spec fn is_prev_on_output(s: Seq<WorkspaceView>, m: int) -> bool {
    &&& m < spec_focused_number(s)
    &&& has_number_on_output(s, m, spec_focused(s).output)
    &&& forall|k: int|
        m < k < spec_focused_number(s) ==> !has_number_on_output(s, k, spec_focused(s).output)
}

/// The largest number below the focused one with a workspace on the focused
/// output.
pub open spec fn prev_on_output_number(s: Seq<WorkspaceView>) -> int {
    choose|m: int| is_prev_on_output(s, m)
}

/// `m` is the largest number below the focused one for which no workspace
/// exists on any output.
pub open spec fn is_last_gap_below(s: Seq<WorkspaceView>, m: int) -> bool {
    &&& m < spec_focused_number(s)
    &&& !has_number(s, m)
    &&& forall|k: int| m < k < spec_focused_number(s) ==> has_number(s, k)
}

/// The largest number below the focused one for which no workspace exists.
pub open spec fn last_gap_below(s: Seq<WorkspaceView>) -> int {
    choose|m: int| is_last_gap_below(s, m)
}

/// Some workspace has a number below the focused one.
pub open spec fn has_predecessor(s: Seq<WorkspaceView>) -> bool {
    exists|i: int| 0 <= i < s.len() && (#[trigger] s[i]).number < spec_focused_number(s)
}

/// `m` is the largest workspace number below the focused one.
pub open spec fn is_max_pred(s: Seq<WorkspaceView>, m: int) -> bool {
    &&& m < spec_focused_number(s)
    &&& has_number(s, m)
    &&& forall|k: int| m < k < spec_focused_number(s) ==> !has_number(s, k)
}

/// The largest workspace number below the focused one.
pub open spec fn max_pred_number(s: Seq<WorkspaceView>) -> int {
    choose|m: int| is_max_pred(s, m)
}

/// Where focus moves backward: onto the nearest same-output workspace or a
/// missing number above it, never below 1 and never onto or past a workspace
/// of a different output; `None` when the set leaves no room below.
pub open spec fn prev_target(s: Seq<WorkspaceView>) -> Option<int> {
    let n = spec_focused_number(s);
    if has_prev_on_output(s) {
        if last_gap_below(s) > prev_on_output_number(s) {
            Some(last_gap_below(s))
        } else {
            Some(prev_on_output_number(s))
        }
    } else {
        let floor = if has_predecessor(s) {
            max_pred_number(s) + 1
        } else {
            1
        };
        let t = if n - 1 > floor {
            n - 1
        } else {
            floor
        };
        if t < n {
            Some(t)
        } else {
            None
        }
    }
}

/// `k` is the length of the maximal run of contiguously numbered workspaces
/// right above the focused one.
pub open spec fn is_shift_run_len(s: Seq<WorkspaceView>, k: int) -> bool {
    &&& k >= 0
    &&& forall|j: int| 1 <= j <= k ==> #[trigger] has_number(s, spec_focused_number(s) + j)
    &&& !has_number(s, spec_focused_number(s) + k + 1)
}

/// The length of the maximal run of contiguously numbered workspaces right
/// above the focused one.
pub open spec fn shift_run_len(s: Seq<WorkspaceView>) -> int {
    choose|k: int| is_shift_run_len(s, k)
}

/// The workspace of the set numbered `m`.
pub open spec fn ws_numbered(s: Seq<WorkspaceView>, m: int) -> WorkspaceView {
    s[choose|i: int| 0 <= i < s.len() && (#[trigger] s[i]).number == m]
}

/// The rename that moves the workspace numbered `m` up by one, preserving
/// the suffix of its display name.
pub open spec fn rename_of(s: Seq<WorkspaceView>, m: int) -> ActionView {
    ActionView::RenameWorkspace {
        workspace_name: ws_numbered(s, m).name,
        new_workspace_name: dec_digits((m + 1) as nat) + ws_numbered(s, m).suffix,
    }
}

/// The renames that shift the contiguous run right above the focused
/// workspace up by one, highest number first.
pub open spec fn shift_renames(s: Seq<WorkspaceView>) -> Seq<ActionView> {
    Seq::new(
        shift_run_len(s) as nat,
        |i: int| rename_of(s, spec_focused_number(s) + shift_run_len(s) - i),
    )
}

/// The plan for moving focus to the next workspace.
pub open spec fn plan_focus_next(s: Seq<WorkspaceView>) -> Seq<ActionView> {
    if has_next_on_output(s) {
        seq![ActionView::MoveFocus { workspace_num: next_target(s) }]
    } else if spec_focused(s).has_windows {
        shift_renames(s) + seq![
            ActionView::MoveFocus { workspace_num: spec_focused_number(s) + 1 },
        ]
    } else {
        Seq::<ActionView>::empty()
    }
}

/// The plan for moving the focused container to the next workspace.
pub open spec fn plan_container_next(s: Seq<WorkspaceView>) -> Seq<ActionView> {
    if !spec_focused(s).has_windows {
        Seq::<ActionView>::empty()
    } else if has_next_on_output(s) {
        seq![
            ActionView::MoveContainer { workspace_num: next_target(s) },
            ActionView::MoveFocus { workspace_num: next_target(s) },
        ]
    } else if spec_focused(s).has_other_container {
        shift_renames(s) + seq![
            ActionView::MoveContainer { workspace_num: spec_focused_number(s) + 1 },
            ActionView::MoveFocus { workspace_num: spec_focused_number(s) + 1 },
        ]
    } else {
        Seq::<ActionView>::empty()
    }
}

/// The plan for moving focus to the previous workspace.
pub open spec fn plan_focus_prev(s: Seq<WorkspaceView>) -> Seq<ActionView> {
    match prev_target(s) {
        Some(t) => seq![ActionView::MoveFocus { workspace_num: t }],
        None => Seq::<ActionView>::empty(),
    }
}

/// The plan for moving the focused container to the previous workspace.
pub open spec fn plan_container_prev(s: Seq<WorkspaceView>) -> Seq<ActionView> {
    if !spec_focused(s).has_windows {
        Seq::<ActionView>::empty()
    } else {
        match prev_target(s) {
            Some(t) => seq![
                ActionView::MoveContainer { workspace_num: t },
                ActionView::MoveFocus { workspace_num: t },
            ],
            None => Seq::<ActionView>::empty(),
        }
    }
}

/// The plan for shifting the successors of the focused workspace.
pub open spec fn plan_shift(s: Seq<WorkspaceView>) -> Seq<ActionView> {
    shift_renames(s)
}

/// A witness pins down the smallest missing number above focus.
pub proof fn lemma_first_gap_above_is(s: Seq<WorkspaceView>, m: int)
    requires
        is_first_gap_above(s, m),
    ensures
        first_gap_above(s) == m,
{
    let m2 = first_gap_above(s);
    assert(is_first_gap_above(s, m2));
    if m < m2 {
        assert(has_number(s, m));
    }
    if m2 < m {
        assert(has_number(s, m2));
    }
}

/// A witness pins down the next workspace number on the focused output.
pub proof fn lemma_next_on_output_is(s: Seq<WorkspaceView>, m: int)
    requires
        is_next_on_output(s, m),
    ensures
        next_on_output_number(s) == m,
{
    let m2 = next_on_output_number(s);
    assert(is_next_on_output(s, m2));
    if m < m2 {
        assert(!has_number_on_output(s, m, spec_focused(s).output));
    }
    if m2 < m {
        assert(!has_number_on_output(s, m2, spec_focused(s).output));
    }
}

/// A witness pins down the previous workspace number on the focused output.
pub proof fn lemma_prev_on_output_is(s: Seq<WorkspaceView>, m: int)
    requires
        is_prev_on_output(s, m),
    ensures
        prev_on_output_number(s) == m,
{
    let m2 = prev_on_output_number(s);
    assert(is_prev_on_output(s, m2));
    if m < m2 {
        assert(!has_number_on_output(s, m, spec_focused(s).output));
    }
    if m2 < m {
        assert(!has_number_on_output(s, m2, spec_focused(s).output));
    }
}

/// A witness pins down the largest missing number below focus.
pub proof fn lemma_last_gap_below_is(s: Seq<WorkspaceView>, m: int)
    requires
        is_last_gap_below(s, m),
    ensures
        last_gap_below(s) == m,
{
    let m2 = last_gap_below(s);
    assert(is_last_gap_below(s, m2));
    if m < m2 {
        assert(has_number(s, m2));
    }
    if m2 < m {
        assert(has_number(s, m));
    }
}

/// A witness pins down the largest workspace number below focus.
pub proof fn lemma_max_pred_is(s: Seq<WorkspaceView>, m: int)
    requires
        is_max_pred(s, m),
    ensures
        max_pred_number(s) == m,
{
    let m2 = max_pred_number(s);
    assert(is_max_pred(s, m2));
    if m < m2 {
        assert(!has_number(s, m2));
    }
    if m2 < m {
        assert(!has_number(s, m));
    }
}

/// A witness pins down the length of the contiguous run above focus.
pub proof fn lemma_shift_run_len_is(s: Seq<WorkspaceView>, k: int)
    requires
        is_shift_run_len(s, k),
    ensures
        shift_run_len(s) == k,
{
    let k2 = shift_run_len(s);
    assert(is_shift_run_len(s, k2));
    if k < k2 {
        assert(has_number(s, spec_focused_number(s) + (k + 1)));
        assert(!has_number(s, spec_focused_number(s) + k + 1));
        assert(false);
    }
    if k2 < k {
        assert(has_number(s, spec_focused_number(s) + (k2 + 1)));
        assert(!has_number(s, spec_focused_number(s) + k2 + 1));
        assert(false);
    }
}

/// In a set with unique numbers, an index pins down the workspace with its
/// number.
pub proof fn lemma_ws_numbered_is(s: Seq<WorkspaceView>, m: int, i: int)
    requires
        unique_numbers(s),
        0 <= i < s.len(),
        s[i].number == m,
    ensures
        ws_numbered(s, m) == s[i],
{
    let j = choose|j: int| 0 <= j < s.len() && (#[trigger] s[j]).number == m;
    assert(0 <= j < s.len() && s[j].number == m);
}

/// In a valid set, the successors of the focused workspace are exactly the
/// members after it.
pub proof fn lemma_successors_structure(s: Seq<WorkspaceView>)
    requires
        set_wf(s),
    ensures
        spec_successors(s) == s.skip(spec_focused_index(s) + 1),
{
    let fi = spec_focused_index(s);
    let n = spec_focused_number(s);
    assert forall|i: int| 0 <= i < s.len() implies ((#[trigger] s[i]).number > n <==> i >= fi
        + 1) by {
        if i > fi {
            assert(s[fi].number <= s[i].number);
            assert(s[fi].number != s[i].number);
        }
        if i < fi {
            assert(s[i].number <= s[fi].number);
            assert(s[i].number != s[fi].number);
        }
    }
    lemma_succ_of_is_skip(s, n, fi + 1);
}

/// In a valid set, the predecessors of the focused workspace are exactly the
/// members before it, reversed.
pub proof fn lemma_predecessors_structure(s: Seq<WorkspaceView>)
    requires
        set_wf(s),
    ensures
        spec_predecessors(s) == s.take(spec_focused_index(s)).reverse(),
{
    let fi = spec_focused_index(s);
    let n = spec_focused_number(s);
    assert forall|i: int| 0 <= i < s.len() implies ((#[trigger] s[i]).number < n <==> i < fi) by {
        if i > fi {
            assert(s[fi].number <= s[i].number);
            assert(s[fi].number != s[i].number);
        }
        if i < fi {
            assert(s[i].number <= s[fi].number);
            assert(s[i].number != s[fi].number);
        }
    }
    lemma_pred_of_is_take(s, n, fi);
}

/// A scan that matched numbers `N+1 .. N+run` among the successors and then
/// stopped pins down both the contiguous run above focus and the first
/// missing number.
pub proof fn lemma_contiguous_run(s: Seq<WorkspaceView>, run: int)
    requires
        set_wf(s),
        0 <= run <= spec_successors(s).len(),
        forall|x: int|
            0 <= x < run ==> (#[trigger] spec_successors(s)[x]).number == spec_focused_number(s)
                + 1 + x,
        run == spec_successors(s).len() || spec_successors(s)[run].number != spec_focused_number(
            s,
        ) + 1 + run,
    ensures
        is_shift_run_len(s, run),
        is_first_gap_above(s, spec_focused_number(s) + run + 1),
{
    let sv = spec_successors(s);
    let fi = spec_focused_index(s);
    let n = spec_focused_number(s);
    lemma_successors_structure(s);
    assert(sv == s.skip(fi + 1));
    assert(sv.len() == s.len() - (fi + 1));
    assert forall|x: int| 0 <= x < sv.len() implies sv[x] == s[fi + 1 + x] by {
        assert(s.skip(fi + 1)[x] == s[fi + 1 + x]);
    }
    assert forall|j: int| 1 <= j <= run implies #[trigger] has_number(
        s,
        spec_focused_number(s) + j,
    ) by {
        assert(sv[j - 1] == s[fi + 1 + (j - 1)]);
        assert(s[fi + j].number == spec_focused_number(s) + j);
    }
    let gap = n + run + 1;
    assert forall|i2: int| 0 <= i2 < s.len() implies (#[trigger] s[i2]).number != gap by {
        if i2 <= fi {
            assert(s[i2].number <= s[fi].number);
        } else {
            let x = i2 - fi - 1;
            assert(sv[x] == s[i2]);
            if x < run {
                assert(sv[x].number == n + 1 + x);
            } else if x == run {
                assert(sv[run].number != n + 1 + run);
            } else {
                assert(sv[run] == s[fi + 1 + run]);
                assert(sv[run].number < sv[x].number);
                if run >= 1 {
                    assert(sv[run - 1].number == n + run);
                    assert(sv[run - 1].number < sv[run].number);
                } else {
                    assert(sv[0].number > n);
                }
            }
        }
    }
    assert(!has_number(s, spec_focused_number(s) + run + 1));
    assert(is_shift_run_len(s, run));
    assert forall|k: int| n < k < gap implies has_number(s, k) by {
        assert(has_number(s, spec_focused_number(s) + (k - n)));
    }
    assert(is_first_gap_above(s, gap));
}

/// The planner over one workspace set. All five operations are total: once
/// the set is constructed they always yield an action list, possibly empty.
/// Workspace numbers are unique across the whole set in any session the
/// snapshot can describe; each operation's contract pins the returned
/// actions for every set with that property.
#[derive(Debug)]
pub struct Workflow {
    workspaces: Workspaces,
}

impl View for Workflow {
    type V = Seq<WorkspaceView>;

    closed spec fn view(&self) -> Seq<WorkspaceView> {
        self.workspaces@
    }
}

impl Workflow {
    /// Wraps a constructed workspace set.
    pub fn new(workspaces: Workspaces) -> (r: Workflow)
        ensures
            r@ == workspaces@,
    {
        Workflow { workspaces }
    }

    fn focused_workspace_number(&self) -> (n: i64)
        ensures
            set_invariant(self@),
            n as int == spec_focused_number(self@),
            0 <= n <= i32::MAX as i64,
    {
        self.workspaces.focused_workspace().workspace_number()
    }

    fn focused_workspace_is_empty(&self) -> (b: bool)
        ensures
            set_invariant(self@),
            b == !spec_focused(self@).has_windows,
    {
        !self.workspaces.focused_workspace().contains_windows()
    }

    /// Renames the maximal run of contiguously numbered workspaces right
    /// above the focused one up by one, highest number first, so that the
    /// number right above the focused workspace becomes free. Renaming the
    /// highest number first keeps the numbers unique at every intermediate
    /// step of the returned list.
    pub fn shift_successors(&self) -> (r: Vec<Action>)
        ensures
            unique_numbers(self@) ==> r.deep_view() == plan_shift(self@),
    {
        let ghost s = self@;
        let n = self.focused_workspace_number();
        let succ = self.workspaces.successors_of_focused();
        let ghost sv = spec_successors(s);
        let ghost fi = spec_focused_index(s);
        let mut run: usize = 0;
        let mut expected: i64 = n + 1;
        while run < succ.len() && succ[run].workspace_number() == expected
            invariant
                run <= succ@.len(),
                succ.deep_view() == sv,
                succ.deep_view().len() == succ@.len(),
                n as int == spec_focused_number(s),
                0 <= n <= i32::MAX as i64,
                expected as int == n as int + 1 + run as int,
                expected <= i32::MAX as i64 + 1,
                forall|x: int| 0 <= x < run ==> (#[trigger] sv[x]).number == n as int + 1 + x,
            decreases succ@.len() - run,
        {
            proof {
                assert(succ[run as int]@ == sv[run as int]);
            }
            run = run + 1;
            expected = expected + 1;
        }
        proof {
            if run < succ.len() {
                assert(succ[run as int]@ == sv[run as int]);
                assert(sv[run as int].number != n as int + 1 + run as int);
            }
            if unique_numbers(s) {
                lemma_contiguous_run(s, run as int);
                lemma_shift_run_len_is(s, run as int);
                lemma_successors_structure(s);
                assert(sv.len() == s.len() - (fi + 1));
                assert forall|x: int| 0 <= x < sv.len() implies sv[x] == s[fi + 1 + x] by {
                    assert(s.skip(fi + 1)[x] == s[fi + 1 + x]);
                }
            }
        }
        let mut r: Vec<Action> = Vec::new();
        let mut i: usize = 0;
        while i < run
            invariant
                i <= run,
                run <= succ@.len(),
                s == self@,
                set_invariant(s),
                fi == spec_focused_index(s),
                sv == spec_successors(s),
                succ.deep_view() == sv,
                succ.deep_view().len() == succ@.len(),
                n as int == spec_focused_number(s),
                0 <= n <= i32::MAX as i64,
                forall|x: int| 0 <= x < run ==> (#[trigger] sv[x]).number == n as int + 1 + x,
                r.deep_view().len() == i as int,
                unique_numbers(s) ==> forall|x: int|
                    0 <= x < i ==> #[trigger] r.deep_view()[x] == rename_of(
                        s,
                        n as int + run as int - x,
                    ),
                unique_numbers(s) ==> (sv == s.skip(fi + 1) && sv.len() == s.len() - (fi + 1)),
            decreases run - i,
        {
            let idx = run - 1 - i;
            let w = &succ[idx];
            let num = w.workspace_number();
            proof {
                assert(succ.deep_view()[idx as int] == succ@[idx as int].deep_view());
                assert(w@ == sv[idx as int]);
                assert(num as int == n as int + run as int - i as int);
            }
            let old_name = w.workspace_name().to_owned();
            let mut new_name = format_number((num + 1) as u64);
            new_name.append(w.workspace_name_without_number());
            let ghost old_dv = r.deep_view();
            r.push(
                Action::RenameWorkspace {
                    workspace_name: old_name,
                    new_workspace_name: new_name,
                },
            );
            proof {
                assert(r.deep_view() =~= old_dv.push(
                    Action::RenameWorkspace {
                        workspace_name: old_name,
                        new_workspace_name: new_name,
                    }@,
                ));
                if unique_numbers(s) {
                    let m = n as int + run as int - i as int;
                    assert(s.skip(fi + 1)[idx as int] == s[fi + 1 + idx]);
                    assert(sv[idx as int] == s[fi + 1 + idx]);
                    lemma_ws_numbered_is(s, m, fi + 1 + idx);
                    assert(new_name@ == dec_digits((m + 1) as nat) + ws_numbered(s, m).suffix);
                    assert(r.deep_view()[i as int] == rename_of(s, m));
                }
            }
            i = i + 1;
        }
        proof {
            if unique_numbers(s) {
                assert(r.deep_view() =~= shift_renames(s));
            }
        }
        r
    }

    /// Looks ahead of the focused workspace: where a workspace on the
    /// focused output lies ahead, the target is the first missing number but
    /// never past that workspace, and nothing needs shifting. Where none
    /// lies ahead, the number right above focus is the target, provided
    /// `extend_output` allows extending the output; shifting is needed
    /// exactly when any successor exists at all.
    fn find_next_workspace(&self, extend_output: bool) -> (r: Option<(i64, bool)>)
        ensures
            set_invariant(self@),
            unique_numbers(self@) ==> match r {
                Some(p) => {
                    if has_next_on_output(self@) {
                        p.0 as int == next_target(self@) && p.1 == false
                    } else {
                        &&& extend_output
                        &&& p.0 as int == spec_focused_number(self@) + 1
                        &&& p.1 == (spec_successors(self@).len() > 0)
                    }
                },
                None => !has_next_on_output(self@) && !extend_output,
            },
    {
        let ghost s = self@;
        let focused = self.workspaces.focused_workspace();
        let n = focused.workspace_number();
        let succ = self.workspaces.successors_of_focused();
        let ghost sv = spec_successors(s);
        let ghost fi = spec_focused_index(s);
        proof {
            if unique_numbers(s) {
                lemma_successors_structure(s);
                assert(sv.len() == s.len() - (fi + 1));
                assert forall|x: int| 0 <= x < sv.len() implies sv[x] == s[fi + 1 + x] by {
                    assert(s.skip(fi + 1)[x] == s[fi + 1 + x]);
                }
            }
        }
        let mut k: usize = 0;
        while k < succ.len() && !focused.on_same_output(&succ[k])
            invariant
                k <= succ@.len(),
                s == self@,
                set_invariant(s),
                fi == spec_focused_index(s),
                sv == spec_successors(s),
                succ.deep_view() == sv,
                succ.deep_view().len() == succ@.len(),
                focused@ == spec_focused(s),
                forall|x: int| 0 <= x < k ==> (#[trigger] sv[x]).output != spec_focused(s).output,
            decreases succ@.len() - k,
        {
            k = k + 1;
        }
        let found = k < succ.len();
        let next_num: i64 = if found {
            succ[k].workspace_number()
        } else {
            0
        };
        proof {
            if found {
                assert(succ.deep_view()[k as int] == succ@[k as int].deep_view());
                assert(next_num as int == sv[k as int].number);
                assert(sv[k as int].output == spec_focused(s).output);
            }
            if unique_numbers(s) {
                if found {
                    assert(sv[k as int] == s[fi + 1 + k]);
                    assert(s[fi].number < s[fi + 1 + k].number);
                    assert(has_number_on_output(
                        s,
                        next_num as int,
                        spec_focused(s).output,
                    ));
                    assert forall|m: int|
                        spec_focused_number(s) < m < next_num as int implies !has_number_on_output(
                        s,
                        m,
                        spec_focused(s).output,
                    ) by {
                        if has_number_on_output(s, m, spec_focused(s).output) {
                            let i2 = choose|i2: int|
                                0 <= i2 < s.len() && (#[trigger] s[i2]).number == m && s[i2].output
                                    == spec_focused(s).output;
                            assert(s[i2].number > s[fi].number);
                            if i2 <= fi {
                                assert(s[i2].number <= s[fi].number);
                            }
                            let x = i2 - fi - 1;
                            assert(sv[x] == s[i2]);
                            if x >= k as int {
                                assert(s[fi + 1 + k].number <= s[i2].number);
                            }
                            assert(sv[x].output != spec_focused(s).output);
                        }
                    }
                    assert(is_next_on_output(s, next_num as int));
                    lemma_next_on_output_is(s, next_num as int);
                    assert(has_next_on_output(s));
                } else {
                    assert forall|i2: int|
                        0 <= i2 < s.len() implies !((#[trigger] s[i2]).number
                        > spec_focused_number(s) && s[i2].output == spec_focused(s).output) by {
                        if i2 > fi {
                            let x = i2 - fi - 1;
                            assert(sv[x] == s[i2]);
                            assert(sv[x].output != spec_focused(s).output);
                        } else {
                            assert(s[i2].number <= s[fi].number);
                        }
                    }
                    assert(!has_next_on_output(s));
                }
            }
        }
        let mut run: usize = 0;
        let mut expected: i64 = n + 1;
        while run < succ.len() && succ[run].workspace_number() == expected
            invariant
                run <= succ@.len(),
                s == self@,
                set_invariant(s),
                fi == spec_focused_index(s),
                sv == spec_successors(s),
                succ.deep_view() == sv,
                succ.deep_view().len() == succ@.len(),
                n as int == spec_focused_number(s),
                0 <= n <= i32::MAX as i64,
                expected as int == n as int + 1 + run as int,
                expected <= i32::MAX as i64 + 1,
                forall|x: int| 0 <= x < run ==> (#[trigger] sv[x]).number == n as int + 1 + x,
            decreases succ@.len() - run,
        {
            proof {
                assert(succ[run as int]@ == sv[run as int]);
            }
            run = run + 1;
            expected = expected + 1;
        }
        proof {
            if run < succ.len() {
                assert(succ[run as int]@ == sv[run as int]);
                assert(sv[run as int].number != n as int + 1 + run as int);
            }
            if unique_numbers(s) {
                lemma_contiguous_run(s, run as int);
                lemma_first_gap_above_is(s, spec_focused_number(s) + run as int + 1);
                assert(first_gap_above(s) == expected as int);
            }
        }
        if found {
            let target = if expected < next_num {
                expected
            } else {
                next_num
            };
            proof {
                if unique_numbers(s) {
                    assert(target as int == next_target(s));
                }
            }
            Some((target, false))
        } else if extend_output {
            Some((n + 1, succ.len() > 0))
        } else {
            None
        }
    }

    /// Moves focus to the next workspace: onto the first missing or next
    /// same-output number ahead, or onto a freshly vacated number right
    /// above a non-empty last workspace; an empty last workspace is never
    /// extended past.
    pub fn move_focus_to_next(&self) -> (r: Vec<Action>)
        ensures
            unique_numbers(self@) ==> r.deep_view() == plan_focus_next(self@),
    {
        let ghost s = self@;
        let extend = self.workspaces.focused_workspace().contains_windows();
        match self.find_next_workspace(extend) {
            Some((num, needs_shift)) => {
                let mut actions: Vec<Action>;
                if needs_shift {
                    actions = self.shift_successors();
                } else {
                    actions = Vec::new();
                    proof {
                        assert(actions.deep_view() =~= Seq::<ActionView>::empty());
                    }
                }
                let ghost pre = actions.deep_view();
                actions.push(Action::MoveFocus { workspace_num: num });
                proof {
                    assert(actions.deep_view() =~= pre.push(
                        ActionView::MoveFocus { workspace_num: num as int },
                    ));
                    if unique_numbers(s) {
                        if has_next_on_output(s) {
                            assert(actions.deep_view() =~= plan_focus_next(s));
                        } else {
                            if !needs_shift {
                                self.lemma_no_successors_empty_shift();
                            }
                            assert(actions.deep_view() =~= plan_focus_next(s));
                        }
                    }
                }
                actions
            },
            None => {
                let actions: Vec<Action> = Vec::new();
                proof {
                    if unique_numbers(s) {
                        assert(actions.deep_view() =~= plan_focus_next(s));
                    }
                }
                actions
            },
        }
    }

    /// Moves the focused container to the next workspace and follows it
    /// with focus. An empty focused workspace yields nothing; moving the
    /// sole window of the last workspace may extend the output, mere focus
    /// movement may not.
    pub fn move_container_to_next(&self) -> (r: Vec<Action>)
        ensures
            unique_numbers(self@) ==> r.deep_view() == plan_container_next(self@),
    {
        let ghost s = self@;
        if self.focused_workspace_is_empty() {
            let actions: Vec<Action> = Vec::new();
            proof {
                if unique_numbers(s) {
                    assert(actions.deep_view() =~= plan_container_next(s));
                }
            }
            return actions;
        }
        let extend = self.workspaces.focused_workspace().contains_not_focused_container();
        match self.find_next_workspace(extend) {
            Some((num, needs_shift)) => {
                let mut actions: Vec<Action>;
                if needs_shift {
                    actions = self.shift_successors();
                } else {
                    actions = Vec::new();
                    proof {
                        assert(actions.deep_view() =~= Seq::<ActionView>::empty());
                    }
                }
                let ghost pre = actions.deep_view();
                actions.push(Action::MoveContainer { workspace_num: num });
                actions.push(Action::MoveFocus { workspace_num: num });
                proof {
                    assert(actions.deep_view() =~= pre.push(
                        ActionView::MoveContainer { workspace_num: num as int },
                    ).push(ActionView::MoveFocus { workspace_num: num as int }));
                    if unique_numbers(s) {
                        if has_next_on_output(s) {
                            assert(actions.deep_view() =~= plan_container_next(s));
                        } else {
                            if !needs_shift {
                                self.lemma_no_successors_empty_shift();
                            }
                            assert(actions.deep_view() =~= plan_container_next(s));
                        }
                    }
                }
                actions
            },
            None => {
                let actions: Vec<Action> = Vec::new();
                proof {
                    if unique_numbers(s) {
                        assert(actions.deep_view() =~= plan_container_next(s));
                    }
                }
                actions
            },
        }
    }

    /// Walks the predecessors on the focused output. The target is the
    /// nearest same-output workspace below focus, or the largest missing
    /// number above it: consecutive missing numbers right below focus are
    /// skipped down to, but never past, an existing same-output workspace.
    fn handle_more_predecessor_workspaces_on_output(
        &self,
        pred: &Vec<SwayWorkspace>,
        prev_num: i64,
        n: i64,
    ) -> (t: i64)
        requires
            set_invariant(self@),
            pred.deep_view() == spec_predecessors(self@),
            n as int == spec_focused_number(self@),
            0 <= n <= i32::MAX as i64,
            0 <= prev_num <= i32::MAX as i64,
            unique_numbers(self@) ==> is_prev_on_output(self@, prev_num as int),
        ensures
            unique_numbers(self@) ==> t as int == (if last_gap_below(self@) > prev_on_output_number(
                self@,
            ) {
                last_gap_below(self@)
            } else {
                prev_on_output_number(self@)
            }),
    {
        let ghost s = self@;
        let ghost pv = spec_predecessors(s);
        let ghost fi = spec_focused_index(s);
        proof {
            if unique_numbers(s) {
                lemma_predecessors_structure(s);
                assert(pv.len() == fi);
                assert forall|x: int| 0 <= x < pv.len() implies pv[x] == s[fi - 1 - x] by {
                    assert(s.take(fi).reverse()[x] == s.take(fi)[fi - 1 - x]);
                    assert(s.take(fi)[fi - 1 - x] == s[fi - 1 - x]);
                }
            }
        }
        let mut run: usize = 0;
        let mut expected: i64 = n - 1;
        while run < pred.len() && pred[run].workspace_number() == expected
            invariant
                run <= pred@.len(),
                s == self@,
                set_invariant(s),
                fi == spec_focused_index(s),
                pv == spec_predecessors(s),
                pred.deep_view() == pv,
                pred.deep_view().len() == pred@.len(),
                n as int == spec_focused_number(s),
                0 <= n <= i32::MAX as i64,
                expected as int == n as int - 1 - run as int,
                expected >= -1,
                forall|x: int| 0 <= x < run ==> (#[trigger] pv[x]).number == n as int - 1 - x,
            decreases pred@.len() - run,
        {
            proof {
                assert(pred[run as int]@ == pv[run as int]);
            }
            run = run + 1;
            expected = expected - 1;
        }
        proof {
            if run < pred.len() {
                assert(pred[run as int]@ == pv[run as int]);
                assert(pv[run as int].number != n as int - 1 - run as int);
            }
            if unique_numbers(s) {
                assert(pv.len() == fi);
                assert forall|x: int| 0 <= x < pv.len() implies pv[x] == s[fi - 1 - x] by {
                    assert(s.take(fi).reverse()[x] == s.take(fi)[fi - 1 - x]);
                    assert(s.take(fi)[fi - 1 - x] == s[fi - 1 - x]);
                }
                let gap = expected as int;
                assert forall|i2: int| 0 <= i2 < s.len() implies (#[trigger] s[i2]).number
                    != gap by {
                    if i2 >= fi {
                        assert(s[fi].number <= s[i2].number);
                    } else {
                        let x = fi - 1 - i2;
                        assert(pv[x] == s[i2]);
                        if x < run as int {
                            assert(pv[x].number == n as int - 1 - x);
                        } else if x == run as int {
                            assert(pv[run as int].number != n as int - 1 - run as int);
                        } else {
                            assert(pv[run as int] == s[fi - 1 - run as int]);
                            assert(pv[x].number < pv[run as int].number);
                            if run as int >= 1 {
                                assert(pv[run as int - 1].number == n as int - run as int);
                                assert(pv[run as int].number < pv[run as int - 1].number);
                            } else {
                                assert(pv[0].number < n as int);
                            }
                        }
                    }
                }
                assert(!has_number(s, gap));
                assert forall|m: int| gap < m < n as int implies has_number(s, m) by {
                    let j = n as int - 1 - m;
                    assert(pv[j] == s[fi - 1 - j]);
                    assert(s[fi - 1 - j].number == m);
                }
                assert(is_last_gap_below(s, gap));
                lemma_last_gap_below_is(s, gap);
                lemma_prev_on_output_is(s, prev_num as int);
            }
        }
        if expected > prev_num {
            expected
        } else {
            prev_num
        }
    }

    /// With no predecessor on the focused output, the target is the number
    /// right below focus, but never below 1 and never onto or past the
    /// nearest workspace of another output; `None` when no room is left.
    fn handle_no_more_predecessor_workspaces_on_output(
        &self,
        pred: &Vec<SwayWorkspace>,
        n: i64,
    ) -> (r: Option<i64>)
        requires
            set_invariant(self@),
            pred.deep_view() == spec_predecessors(self@),
            n as int == spec_focused_number(self@),
            0 <= n <= i32::MAX as i64,
        ensures
            unique_numbers(self@) ==> {
                let floor = if has_predecessor(self@) {
                    max_pred_number(self@) + 1
                } else {
                    1int
                };
                let t0 = if n as int - 1 > floor {
                    n as int - 1
                } else {
                    floor
                };
                match r {
                    Some(v) => t0 < n as int && v as int == t0,
                    None => !(t0 < n as int),
                }
            },
    {
        let ghost s = self@;
        let ghost pv = spec_predecessors(s);
        let ghost fi = spec_focused_index(s);
        proof {
            if unique_numbers(s) {
                lemma_predecessors_structure(s);
                assert(pv.len() == fi);
                assert forall|x: int| 0 <= x < pv.len() implies pv[x] == s[fi - 1 - x] by {
                    assert(s.take(fi).reverse()[x] == s.take(fi)[fi - 1 - x]);
                    assert(s.take(fi)[fi - 1 - x] == s[fi - 1 - x]);
                }
                if pv.len() > 0 {
                    assert(pv[0] == s[fi - 1]);
                    assert(s[fi - 1].number < s[fi].number);
                    assert forall|m: int| pv[0].number < m < n as int implies !has_number(
                        s,
                        m,
                    ) by {
                        if has_number(s, m) {
                            let i2 = choose|i2: int|
                                0 <= i2 < s.len() && (#[trigger] s[i2]).number == m;
                            if i2 < fi {
                                assert(s[i2].number <= s[fi - 1].number);
                            } else {
                                assert(s[fi].number <= s[i2].number);
                            }
                        }
                    }
                    assert(is_max_pred(s, pv[0].number));
                    lemma_max_pred_is(s, pv[0].number);
                    assert(has_predecessor(s));
                } else {
                    assert forall|i2: int| 0 <= i2 < s.len() implies !((#[trigger] s[i2]).number
                        < spec_focused_number(s)) by {
                        assert(fi == 0);
                        assert(s[fi].number <= s[i2].number);
                    }
                    assert(!has_predecessor(s));
                }
            }
        }
        let floor: i64 = if pred.len() > 0 {
            proof {
                assert(pred.deep_view()[0] == pred@[0].deep_view());
            }
            pred[0].workspace_number() + 1
        } else {
            1
        };
        let t = if n - 1 > floor {
            n - 1
        } else {
            floor
        };
        if t < n {
            Some(t)
        } else {
            None
        }
    }

    /// Finds the backward navigation target, or `None` when focus is
    /// already at the navigational floor of its output.
    fn find_previous_workspace(&self) -> (r: Option<i64>)
        ensures
            set_invariant(self@),
            unique_numbers(self@) ==> match r {
                Some(t) => prev_target(self@) == Some(t as int),
                None => prev_target(self@) == None::<int>,
            },
    {
        let ghost s = self@;
        let focused = self.workspaces.focused_workspace();
        let n = focused.workspace_number();
        let pred = self.workspaces.predecessors_of_focused();
        let ghost pv = spec_predecessors(s);
        let ghost fi = spec_focused_index(s);
        proof {
            if unique_numbers(s) {
                lemma_predecessors_structure(s);
                assert(pv.len() == fi);
                assert forall|x: int| 0 <= x < pv.len() implies pv[x] == s[fi - 1 - x] by {
                    assert(s.take(fi).reverse()[x] == s.take(fi)[fi - 1 - x]);
                    assert(s.take(fi)[fi - 1 - x] == s[fi - 1 - x]);
                }
            }
        }
        let mut k: usize = 0;
        while k < pred.len() && !focused.on_same_output(&pred[k])
            invariant
                k <= pred@.len(),
                s == self@,
                set_invariant(s),
                fi == spec_focused_index(s),
                pv == spec_predecessors(s),
                pred.deep_view() == pv,
                pred.deep_view().len() == pred@.len(),
                focused@ == spec_focused(s),
                forall|x: int| 0 <= x < k ==> (#[trigger] pv[x]).output != spec_focused(s).output,
            decreases pred@.len() - k,
        {
            k = k + 1;
        }
        if k < pred.len() {
            let prev_num = pred[k].workspace_number();
            proof {
                assert(pred.deep_view()[k as int] == pred@[k as int].deep_view());
                assert(prev_num as int == pv[k as int].number);
                assert(pv[k as int].output == spec_focused(s).output);
                if unique_numbers(s) {
                    assert(pv[k as int] == s[fi - 1 - k]);
                    assert(s[fi - 1 - k].number < s[fi].number);
                    assert(has_number_on_output(s, prev_num as int, spec_focused(s).output));
                    assert forall|m: int|
                        (prev_num as int) < m < spec_focused_number(s) implies !has_number_on_output(
                        s,
                        m,
                        spec_focused(s).output,
                    ) by {
                        if has_number_on_output(s, m, spec_focused(s).output) {
                            let i2 = choose|i2: int|
                                0 <= i2 < s.len() && (#[trigger] s[i2]).number == m && s[i2].output
                                    == spec_focused(s).output;
                            if i2 >= fi {
                                assert(s[fi].number <= s[i2].number);
                            }
                            let x = fi - 1 - i2;
                            assert(pv[x] == s[i2]);
                            if x >= k as int {
                                assert(s[i2].number <= s[fi - 1 - k].number);
                            }
                            assert(pv[x].output != spec_focused(s).output);
                        }
                    }
                    assert(is_prev_on_output(s, prev_num as int));
                    assert(has_prev_on_output(s));
                }
            }
            let t = self.handle_more_predecessor_workspaces_on_output(&pred, prev_num, n);
            Some(t)
        } else {
            proof {
                if unique_numbers(s) {
                    assert forall|i2: int| 0 <= i2 < s.len() implies !((#[trigger] s[i2]).number
                        < spec_focused_number(s) && s[i2].output == spec_focused(s).output) by {
                        if s[i2].number < spec_focused_number(s) {
                            if i2 >= fi {
                                assert(s[fi].number <= s[i2].number);
                            }
                            let x = fi - 1 - i2;
                            assert(pv[x] == s[i2]);
                            assert(pv[x].output != spec_focused(s).output);
                        }
                    }
                    assert(!has_prev_on_output(s));
                }
            }
            self.handle_no_more_predecessor_workspaces_on_output(&pred, n)
        }
    }

    /// Moves focus to the previous workspace: down to the nearest
    /// same-output workspace or the largest missing number above it, never
    /// below 1 and never onto another output's workspace. Yields nothing
    /// when focus is already at the floor.
    pub fn move_focus_to_prev(&self) -> (r: Vec<Action>)
        ensures
            unique_numbers(self@) ==> r.deep_view() == plan_focus_prev(self@),
    {
        let ghost s = self@;
        match self.find_previous_workspace() {
            Some(num) => {
                let mut actions: Vec<Action> = Vec::new();
                actions.push(Action::MoveFocus { workspace_num: num });
                proof {
                    assert(actions.deep_view() =~= Seq::<ActionView>::empty().push(
                        ActionView::MoveFocus { workspace_num: num as int },
                    ));
                    if unique_numbers(s) {
                        assert(actions.deep_view() =~= plan_focus_prev(s));
                    }
                }
                actions
            },
            None => {
                let actions: Vec<Action> = Vec::new();
                proof {
                    if unique_numbers(s) {
                        assert(actions.deep_view() =~= plan_focus_prev(s));
                    }
                }
                actions
            },
        }
    }

    /// Moves the focused container to the previous workspace and follows it
    /// with focus. An empty focused workspace yields nothing.
    pub fn move_container_to_prev(&self) -> (r: Vec<Action>)
        ensures
            unique_numbers(self@) ==> r.deep_view() == plan_container_prev(self@),
    {
        let ghost s = self@;
        if self.focused_workspace_is_empty() {
            let actions: Vec<Action> = Vec::new();
            proof {
                if unique_numbers(s) {
                    assert(actions.deep_view() =~= plan_container_prev(s));
                }
            }
            return actions;
        }
        match self.find_previous_workspace() {
            Some(num) => {
                let mut actions: Vec<Action> = Vec::new();
                actions.push(Action::MoveContainer { workspace_num: num });
                actions.push(Action::MoveFocus { workspace_num: num });
                proof {
                    assert(actions.deep_view() =~= Seq::<ActionView>::empty().push(
                        ActionView::MoveContainer { workspace_num: num as int },
                    ).push(ActionView::MoveFocus { workspace_num: num as int }));
                    if unique_numbers(s) {
                        assert(actions.deep_view() =~= plan_container_prev(s));
                    }
                }
                actions
            },
            None => {
                let actions: Vec<Action> = Vec::new();
                proof {
                    if unique_numbers(s) {
                        assert(actions.deep_view() =~= plan_container_prev(s));
                    }
                }
                actions
            },
        }
    }

    /// With no successors at all, no renames are needed.
    proof fn lemma_no_successors_empty_shift(&self)
        requires
            set_wf(self@),
            spec_successors(self@).len() == 0,
        ensures
            shift_renames(self@) == Seq::<ActionView>::empty(),
    {
        let s = self@;
        let fi = spec_focused_index(s);
        lemma_successors_structure(s);
        assert(s.skip(fi + 1).len() == s.len() - (fi + 1));
        assert(s.len() == fi + 1);
        assert forall|i2: int| 0 <= i2 < s.len() implies (#[trigger] s[i2]).number
            != spec_focused_number(s) + 1 by {
            assert(s[i2].number <= s[fi].number);
        }
        assert(!has_number(s, spec_focused_number(s) + 0 + 1));
        assert(is_shift_run_len(s, 0));
        lemma_shift_run_len_is(s, 0);
        assert(shift_renames(s) =~= Seq::<ActionView>::empty());
    }
}


/// `m` is the number of the highest-numbered workspace that contains
/// windows.
pub open spec fn is_last_non_empty(s: Seq<WorkspaceView>, m: int) -> bool {
    &&& exists|i: int|
        0 <= i < s.len() && (#[trigger] s[i]).number == m && s[i].has_windows
    &&& forall|j: int| 0 <= j < s.len() && (#[trigger] s[j]).has_windows ==> s[j].number <= m
}

/// The number of the highest-numbered workspace that contains windows.
pub open spec fn last_non_empty_number(s: Seq<WorkspaceView>) -> int {
    choose|m: int| is_last_non_empty(s, m)
}

/// Above any index with windows lies a highest index with windows.
proof fn lemma_max_windows_index(s: Seq<WorkspaceView>, i: int)
    requires
        0 <= i < s.len(),
        s[i].has_windows,
    ensures
        exists|j: int|
            i <= j < s.len() && (#[trigger] s[j]).has_windows && (forall|k: int|
                j < k < s.len() ==> !(#[trigger] s[k]).has_windows),
    decreases s.len() - i,
{
    if exists|k: int| i < k < s.len() && (#[trigger] s[k]).has_windows {
        let k = choose|k: int| i < k < s.len() && (#[trigger] s[k]).has_windows;
        lemma_max_windows_index(s, k);
        let j = choose|j: int|
            k <= j < s.len() && (#[trigger] s[j]).has_windows && (forall|kk: int|
                j < kk < s.len() ==> !(#[trigger] s[kk]).has_windows);
        assert(i <= j < s.len() && s[j].has_windows);
    } else {
        assert(s[i].has_windows && (forall|k: int|
            i < k < s.len() ==> !(#[trigger] s[k]).has_windows));
    }
}

/// When some workspace has windows, the last non-empty number is pinned.
proof fn lemma_last_non_empty(s: Seq<WorkspaceView>, i: int)
    requires
        set_wf(s),
        0 <= i < s.len(),
        s[i].has_windows,
    ensures
        is_last_non_empty(s, last_non_empty_number(s)),
        last_non_empty_number(s) >= s[i].number,
{
    lemma_max_windows_index(s, i);
    let j = choose|j: int|
        i <= j < s.len() && (#[trigger] s[j]).has_windows && (forall|k: int|
            j < k < s.len() ==> !(#[trigger] s[k]).has_windows);
    assert forall|j2: int|
        0 <= j2 < s.len() && (#[trigger] s[j2]).has_windows implies s[j2].number <= s[j].number by {
        if j2 > j {
            assert(!s[j2].has_windows);
        } else if j2 < j {
            assert(s[j2].number <= s[j].number);
        }
    }
    assert(is_last_non_empty(s, s[j].number));
    let m2 = last_non_empty_number(s);
    assert(is_last_non_empty(s, m2));
    let i1 = choose|x: int|
        0 <= x < s.len() && (#[trigger] s[x]).number == s[j].number && s[x].has_windows;
    let i2 = choose|x: int| 0 <= x < s.len() && (#[trigger] s[x]).number == m2 && s[x].has_windows;
    assert(s[i1].number <= m2);
    assert(s[i2].number <= s[j].number);
}

/// In a valid set, the first missing number above focus and the contiguous
/// run above focus are pinned, and they agree.
pub proof fn lemma_gap_and_run_exist(s: Seq<WorkspaceView>)
    requires
        set_wf(s),
    ensures
        is_first_gap_above(s, first_gap_above(s)),
        is_shift_run_len(s, shift_run_len(s)),
        first_gap_above(s) == spec_focused_number(s) + shift_run_len(s) + 1,
        shift_run_len(s) >= 0,
{
    let run = find_contiguous_run(s, 0);
    lemma_contiguous_run(s, run);
    lemma_shift_run_len_is(s, run);
    lemma_first_gap_above_is(s, spec_focused_number(s) + run + 1);
}

/// Walks the successors upward from prefix length `r` to the end of the
/// contiguous run.
proof fn find_contiguous_run(s: Seq<WorkspaceView>, r: int) -> (run: int)
    requires
        set_wf(s),
        0 <= r <= spec_successors(s).len(),
        forall|x: int|
            0 <= x < r ==> (#[trigger] spec_successors(s)[x]).number == spec_focused_number(s) + 1
                + x,
    ensures
        r <= run <= spec_successors(s).len(),
        forall|x: int|
            0 <= x < run ==> (#[trigger] spec_successors(s)[x]).number == spec_focused_number(s)
                + 1 + x,
        run == spec_successors(s).len() || spec_successors(s)[run].number != spec_focused_number(
            s,
        ) + 1 + run,
    decreases spec_successors(s).len() - r,
{
    if r == spec_successors(s).len() {
        r
    } else if spec_successors(s)[r].number != spec_focused_number(s) + 1 + r {
        r
    } else {
        find_contiguous_run(s, r + 1)
    }
}

/// In a valid set, the smallest same-output successor number is pinned to
/// the number of the first successor whenever all workspaces share one
/// output.
proof fn lemma_single_output_next(s: Seq<WorkspaceView>)
    requires
        set_wf(s),
        forall|i: int, j: int|
            0 <= i < s.len() && 0 <= j < s.len() ==> (#[trigger] s[i]).output == (
            #[trigger] s[j]).output,
        has_next_on_output(s),
    ensures
        next_target(s) == spec_focused_number(s) + 1,
{
    let fi = spec_focused_index(s);
    let n = spec_focused_number(s);
    let sv = spec_successors(s);
    lemma_successors_structure(s);
    assert(sv.len() == s.len() - (fi + 1));
    assert forall|x: int| 0 <= x < sv.len() implies sv[x] == s[fi + 1 + x] by {
        assert(s.skip(fi + 1)[x] == s[fi + 1 + x]);
    }
    let w = choose|i: int|
        0 <= i < s.len() && (#[trigger] s[i]).number > spec_focused_number(s) && s[i].output
            == spec_focused(s).output;
    assert(w > fi) by {
        if w <= fi {
            assert(s[w].number <= s[fi].number);
        }
    }
    assert(sv.len() > 0);
    assert(sv[0] == s[fi + 1]);
    assert(s[fi].number < s[fi + 1].number);
    assert forall|k: int| n < k < sv[0].number implies !has_number_on_output(
        s,
        k,
        spec_focused(s).output,
    ) by {
        if has_number_on_output(s, k, spec_focused(s).output) {
            let i2 = choose|i2: int|
                0 <= i2 < s.len() && (#[trigger] s[i2]).number == k && s[i2].output == spec_focused(
                    s,
                ).output;
            if i2 <= fi {
                assert(s[i2].number <= s[fi].number);
            } else {
                assert(s[fi + 1].number <= s[i2].number);
            }
        }
    }
    assert(has_number_on_output(s, sv[0].number, spec_focused(s).output));
    assert(is_next_on_output(s, sv[0].number));
    lemma_next_on_output_is(s, sv[0].number);
    lemma_gap_and_run_exist(s);
    if has_number(s, n + 1) {
        let i2 = choose|i2: int| 0 <= i2 < s.len() && (#[trigger] s[i2]).number == n + 1;
        assert(i2 > fi) by {
            if i2 <= fi {
                assert(s[i2].number <= s[fi].number);
            }
        }
        assert(s[fi + 1].number <= s[i2].number);
        assert(sv[0].number == n + 1);
        assert(first_gap_above(s) > n);
        assert(next_target(s) == n + 1);
    } else {
        assert(is_first_gap_above(s, n + 1));
        lemma_first_gap_above_is(s, n + 1);
        assert(sv[0].number > n);
        assert(next_target(s) == n + 1);
    }
}

/// On a single output, moving focus forward from a workspace with windows
/// always yields a plan ending in a focus move whose target lies at most
/// one past the highest-numbered non-empty workspace, and every number
/// between the focused one and the target belongs to an existing workspace:
/// no missing number below the bound is skipped.
pub proof fn lemma_focus_next_bounded(s: Seq<WorkspaceView>)
    requires
        set_wf(s),
        forall|i: int, j: int|
            0 <= i < s.len() && 0 <= j < s.len() ==> (#[trigger] s[i]).output == (
            #[trigger] s[j]).output,
        spec_focused(s).has_windows,
    ensures
        plan_focus_next(s).len() > 0,
        plan_focus_next(s).last() == (ActionView::MoveFocus {
            workspace_num: spec_focused_number(s) + 1,
        }),
        spec_focused_number(s) + 1 <= last_non_empty_number(s) + 1,
        forall|m: int|
            spec_focused_number(s) < m < spec_focused_number(s) + 1 ==> has_number(s, m),
{
    let n = spec_focused_number(s);
    let fi = spec_focused_index(s);
    lemma_last_non_empty(s, fi);
    if has_next_on_output(s) {
        lemma_single_output_next(s);
        assert(plan_focus_next(s) == seq![ActionView::MoveFocus { workspace_num: n + 1 }]);
    } else {
        assert(plan_focus_next(s) == shift_renames(s) + seq![
            ActionView::MoveFocus { workspace_num: n + 1 },
        ]);
        assert(plan_focus_next(s).last() == (ActionView::MoveFocus { workspace_num: n + 1 }));
    }
}

/// Shifting a set whose successors are exactly a contiguous pair right
/// above focus yields exactly two renames, the higher number first: the
/// workspace numbered two above focus is renamed before the one right above
/// focus, so the numbers stay unique at every intermediate step.
pub proof fn lemma_shift_two_contiguous(s: Seq<WorkspaceView>)
    requires
        set_wf(s),
        has_number(s, spec_focused_number(s) + 1),
        has_number(s, spec_focused_number(s) + 2),
        !has_number(s, spec_focused_number(s) + 3),
    ensures
        plan_shift(s).len() == 2,
        plan_shift(s)[0] == rename_of(s, spec_focused_number(s) + 2),
        plan_shift(s)[1] == rename_of(s, spec_focused_number(s) + 1),
{
    let n = spec_focused_number(s);
    assert forall|j: int| 1 <= j <= 2 implies #[trigger] has_number(
        s,
        spec_focused_number(s) + j,
    ) by {
        if j == 1 {
            assert(has_number(s, spec_focused_number(s) + 1));
        } else {
            assert(has_number(s, spec_focused_number(s) + 2));
        }
    }
    assert(!has_number(s, spec_focused_number(s) + 2 + 1)) by {
        assert(!has_number(s, spec_focused_number(s) + 3));
    }
    assert(is_shift_run_len(s, 2));
    lemma_shift_run_len_is(s, 2);
    assert(plan_shift(s)[0] == rename_of(s, n + 2 - 0));
    assert(plan_shift(s)[1] == rename_of(s, n + 2 - 1));
}

/// Planning backward focus movement has no hidden state: it is a function
/// of the workspace set alone. A first planning that yields no actions
/// leaves the session unchanged, so a second planning over the unchanged
/// set again yields no actions.
pub proof fn lemma_focus_prev_idempotent(s: Seq<WorkspaceView>, s2: Seq<WorkspaceView>)
    requires
        plan_focus_prev(s).len() == 0,
        s2 == s,
    ensures
        plan_focus_prev(s2).len() == 0,
{
}

} // verus!
