//! Workspaces derived from a tree snapshot, and the ordered workspace set.

use vstd::prelude::*;
use crate::digits::digit_prefix_len;
use crate::digits::digits_value;
use crate::digits::is_digit_prefix_len;
use crate::digits::lemma_digit_prefix_exists;
use crate::digits::lemma_digit_prefix_len_is;
use crate::digits::split_leading_number;
use crate::node::deref_seq;
use crate::node::Node;
use crate::node::NodeKind;
use crate::tree_error::TreeError;
use vstd::multiset::Multiset;
use vstd::string::StrSliceExecFns;

verus! {

/// The mathematical model of one derived workspace.
pub struct WorkspaceView {
    /// Full display name as reported.
    pub name: Seq<char>,
    /// Display name with the leading digits stripped (possibly empty).
    pub suffix: Seq<char>,
    /// The number denoted by the leading digits of the name.
    pub number: int,
    /// Name of the owning output.
    pub output: Seq<char>,
    /// The workspace node has at least one regular or floating child.
    pub has_windows: bool,
    /// Some direct regular or floating child is itself not focused.
    pub has_other_container: bool,
    /// The focused node is inside this workspace's subtree.
    pub focused: bool,
}

/// One workspace of the snapshot: an immutable view over one workspace node
/// plus the name of its owning output.
#[derive(Debug)]
pub struct SwayWorkspace {
    workspace_name: String,
    name_suffix: String,
    number: i64,
    output_name: String,
    windows: bool,
    other_container: bool,
    focused: bool,
}

impl View for SwayWorkspace {
    type V = WorkspaceView;

    closed spec fn view(&self) -> WorkspaceView {
        WorkspaceView {
            name: self.workspace_name@,
            suffix: self.name_suffix@,
            number: self.number as int,
            output: self.output_name@,
            has_windows: self.windows,
            has_other_container: self.other_container,
            focused: self.focused,
        }
    }
}

impl DeepView for SwayWorkspace {
    type V = WorkspaceView;

    open spec fn deep_view(&self) -> WorkspaceView {
        self.view()
    }
}

impl Clone for SwayWorkspace {
    fn clone(&self) -> (r: Self)
        ensures
            r == *self,
    {
        proof {
            use_type_invariant(&*self);
        }
        SwayWorkspace {
            workspace_name: self.workspace_name.clone(),
            name_suffix: self.name_suffix.clone(),
            number: self.number,
            output_name: self.output_name.clone(),
            windows: self.windows,
            other_container: self.other_container,
            focused: self.focused,
        }
    }
}

impl SwayWorkspace {
    /// The number is in `i32` range and is what the leading digits of the
    /// name denote, and the suffix is the rest of the name.
    #[verifier::type_invariant]
    spec fn inv(self) -> bool {
        &&& 0 <= self.number as int <= i32::MAX as int
        &&& exists|k: int|
            {
                &&& #[trigger] is_digit_prefix_len(self.workspace_name@, k)
                &&& k >= 1
                &&& self.number as int == digits_value(self.workspace_name@, k)
                &&& self.name_suffix@ == self.workspace_name@.skip(k)
            }
    }
}

/// True iff some direct regular or floating child of `w` is not focused.
pub open spec fn spec_has_other_container(w: Node) -> bool {
    ||| exists|i: int| 0 <= i < w.nodes@.len() && !(#[trigger] w.nodes@[i]).focused
    ||| exists|i: int| 0 <= i < w.floating_nodes@.len() && !(#[trigger] w.floating_nodes@[i]).focused
}

/// True iff the focused node lies in the subtree rooted at `w`.
pub open spec fn spec_subtree_focused(w: Node) -> bool {
    exists|i: int| 0 <= i < w.descendants().len() && (#[trigger] w.descendants()[i]).focused
}

/// What deriving one workspace from its node and owning output yields: the
/// workspace's model, or the first applicable extraction error.
pub open spec fn extract_one(output: Node, w: Node) -> Result<WorkspaceView, TreeError> {
    match w.name {
        None => Err(TreeError::MissingWorkspaceNumber(w.id)),
        Some(nm) => {
            let k = digit_prefix_len(nm@);
            if k == 0 || digits_value(nm@, k) > i32::MAX as int {
                Err(TreeError::MissingWorkspaceNumber(w.id))
            } else {
                match output.name {
                    None => Err(TreeError::MissingOutputName(output.id)),
                    Some(on) => Ok(
                        WorkspaceView {
                            name: nm@,
                            suffix: nm@.skip(k),
                            number: digits_value(nm@, k) as int,
                            output: on@,
                            has_windows: w.nodes@.len() > 0 || w.floating_nodes@.len() > 0,
                            has_other_container: spec_has_other_container(w),
                            focused: spec_subtree_focused(w),
                        },
                    ),
                }
            }
        },
    }
}

fn has_not_focused_direct_child(w: &Node) -> (b: bool)
    ensures
        b == spec_has_other_container(*w),
{
    let mut i: usize = 0;
    while i < w.nodes.len()
        invariant
            i <= w.nodes@.len(),
            forall|x: int| 0 <= x < i ==> (#[trigger] w.nodes@[x]).focused,
        decreases w.nodes@.len() - i,
    {
        if !w.nodes[i].focused {
            return true;
        }
        i = i + 1;
    }
    let mut j: usize = 0;
    while j < w.floating_nodes.len()
        invariant
            j <= w.floating_nodes@.len(),
            forall|x: int| 0 <= x < j ==> (#[trigger] w.floating_nodes@[x]).focused,
        decreases w.floating_nodes@.len() - j,
    {
        if !w.floating_nodes[j].focused {
            return true;
        }
        j = j + 1;
    }
    false
}

impl SwayWorkspace {
    /// Derives one workspace from its node and the node of its owning
    /// output: parses the number from the leading digits of the display
    /// name, takes the output's name, and computes the content predicates.
    pub fn new_from_output_and_workspace_nodes(output: &Node, workspace: &Node) -> (r: Result<
        SwayWorkspace,
        TreeError,
    >)
        ensures
            match (r, extract_one(*output, *workspace)) {
                (Ok(sw), Ok(v)) => sw@ == v,
                (Err(e1), Err(e2)) => e1 == e2,
                _ => false,
            },
    {
        let name = match &workspace.name {
            None => {
                return Err(TreeError::MissingWorkspaceNumber(workspace.id));
            },
            Some(nm) => nm,
        };
        proof {
            lemma_digit_prefix_exists(name@);
        }
        match split_leading_number(name.as_str()) {
            None => {
                proof {
                    let k = digit_prefix_len(name@);
                    assert(is_digit_prefix_len(name@, k));
                }
                Err(TreeError::MissingWorkspaceNumber(workspace.id))
            },
            Some((v, k)) => {
                proof {
                    lemma_digit_prefix_len_is(name@, k as int);
                }
                let output_name = match &output.name {
                    None => {
                        return Err(TreeError::MissingOutputName(output.id));
                    },
                    Some(on) => on.clone(),
                };
                let len = name.as_str().unicode_len();
                let suffix = name.as_str().substring_char(k, len).to_owned();
                proof {
                    assert(suffix@ =~= name@.skip(k as int));
                }
                let windows = workspace.nodes.len() > 0 || workspace.floating_nodes.len() > 0;
                let other_container = has_not_focused_direct_child(workspace);
                let focused = workspace.has_focused_descendant();
                let cloned_name = name.clone();
                proof {
                    let gw = SwayWorkspace {
                        workspace_name: cloned_name,
                        name_suffix: suffix,
                        number: v,
                        output_name: output_name,
                        windows: windows,
                        other_container: other_container,
                        focused: focused,
                    };
                    assert(is_digit_prefix_len(gw.workspace_name@, k as int));
                    assert(v as int == digits_value(gw.workspace_name@, k as int));
                    assert(gw.name_suffix@ == gw.workspace_name@.skip(k as int));
                    assert(gw.inv());
                }
                Ok(
                    SwayWorkspace {
                        workspace_name: cloned_name,
                        name_suffix: suffix,
                        number: v,
                        output_name,
                        windows,
                        other_container,
                        focused,
                    },
                )
            },
        }
    }

    /// The full display name, used verbatim in rename actions.
    pub fn workspace_name(&self) -> (r: &str)
        ensures
            r@ == self@.name,
    {
        self.workspace_name.as_str()
    }

    /// The display name with its leading digits stripped (possibly empty).
    pub fn workspace_name_without_number(&self) -> (r: &str)
        ensures
            r@ == self@.suffix,
    {
        self.name_suffix.as_str()
    }

    /// The number parsed from the leading digits of the display name.
    pub fn workspace_number(&self) -> (r: i64)
        ensures
            r as int == self@.number,
            0 <= r <= i32::MAX as i64,
    {
        proof {
            use_type_invariant(&*self);
        }
        self.number
    }

    /// The name of the owning output.
    pub fn output_name(&self) -> (r: &str)
        ensures
            r@ == self@.output,
    {
        self.output_name.as_str()
    }

    /// True iff the workspace has at least one regular or floating child.
    pub fn contains_windows(&self) -> (r: bool)
        ensures
            r == self@.has_windows,
    {
        self.windows
    }

    /// True iff the focused node lies inside this workspace.
    pub fn is_focused(&self) -> (r: bool)
        ensures
            r == self@.focused,
    {
        self.focused
    }

    /// True iff some direct regular or floating child is not focused, so
    /// there is another container to move focus onto.
    pub fn contains_not_focused_container(&self) -> (r: bool)
        ensures
            r == self@.has_other_container,
    {
        self.other_container
    }

    /// True iff both workspaces belong to the same output.
    pub fn on_same_output(&self, other: &SwayWorkspace) -> (r: bool)
        ensures
            r == (self@.output == other@.output),
    {
        self.output_name.eq(&other.output_name)
    }
}

/// The number of focused workspaces in the sequence.
pub open spec fn focused_total(s: Seq<WorkspaceView>) -> int
    decreases s.len(),
{
    if s.len() == 0 {
        0
    } else {
        focused_total(s.drop_last()) + if s.last().focused {
            1int
        } else {
            0int
        }
    }
}

/// The workspaces are ordered by ascending number.
pub open spec fn sorted_by_number(s: Seq<WorkspaceView>) -> bool {
    forall|i: int, j: int| 0 <= i < j < s.len() ==> #[trigger] s[i].number <= #[trigger] s[j].number
}

/// The index of the focused workspace.
pub open spec fn spec_focused_index(s: Seq<WorkspaceView>) -> int {
    choose|i: int| 0 <= i < s.len() && s[i].focused
}

/// Removing one element removes its contribution to the focused count.
proof fn lemma_focused_total_remove(s: Seq<WorkspaceView>, j: int)
    requires
        0 <= j < s.len(),
    ensures
        focused_total(s) == focused_total(s.remove(j)) + if s[j].focused {
            1int
        } else {
            0int
        },
    decreases s.len(),
{
    if j == s.len() - 1 {
        assert(s.remove(j) =~= s.drop_last());
    } else {
        lemma_focused_total_remove(s.drop_last(), j);
        assert(s.remove(j).drop_last() =~= s.drop_last().remove(j));
        assert(s.remove(j).last() == s.last());
    }
}

/// The focused count is the same for sequences with the same elements.
proof fn lemma_focused_total_multiset(s1: Seq<WorkspaceView>, s2: Seq<WorkspaceView>)
    requires
        s1.to_multiset() == s2.to_multiset(),
    ensures
        focused_total(s1) == focused_total(s2),
    decreases s1.len(),
{
    s1.to_multiset_ensures();
    s2.to_multiset_ensures();
    if s1.len() == 0 {
        assert(s1.to_multiset().len() == 0);
        assert(s2.len() == 0);
    } else {
        let a = s1.last();
        assert(s1.contains(a));
        assert(s2.to_multiset().count(a) > 0);
        assert(s2.contains(a));
        let j = choose|j: int| 0 <= j < s2.len() && s2[j] == a;
        lemma_focused_total_remove(s2, j);
        lemma_focused_total_remove(s1, s1.len() - 1);
        assert(s1.remove(s1.len() - 1) =~= s1.drop_last());
        assert(s1.drop_last().to_multiset() == s1.to_multiset().remove(a));
        assert(s2.remove(j).to_multiset() == s2.to_multiset().remove(a));
        lemma_focused_total_multiset(s1.drop_last(), s2.remove(j));
    }
}

/// A sequence with no focused member has focused count zero.
proof fn lemma_focused_total_none(s: Seq<WorkspaceView>)
    requires
        forall|i: int| 0 <= i < s.len() ==> !(#[trigger] s[i]).focused,
    ensures
        focused_total(s) == 0,
    decreases s.len(),
{
    if s.len() > 0 {
        assert(forall|i: int| 0 <= i < s.len() - 1 ==> s.drop_last()[i] == s[i]);
        lemma_focused_total_none(s.drop_last());
    }
}

/// The focused count is never negative.
proof fn lemma_focused_total_nonneg(s: Seq<WorkspaceView>)
    ensures
        focused_total(s) >= 0,
    decreases s.len(),
{
    if s.len() > 0 {
        lemma_focused_total_nonneg(s.drop_last());
    }
}

/// One focused member makes the focused count at least one.
proof fn lemma_focused_total_one(s: Seq<WorkspaceView>, i: int)
    requires
        0 <= i < s.len(),
        s[i].focused,
    ensures
        focused_total(s) >= 1,
    decreases s.len(),
{
    lemma_focused_total_nonneg(s.drop_last());
    if i == s.len() - 1 {
    } else {
        assert(s.drop_last()[i] == s[i]);
        lemma_focused_total_one(s.drop_last(), i);
    }
}

/// Two distinct focused members make the focused count at least two.
proof fn lemma_focused_total_two(s: Seq<WorkspaceView>, i: int, j: int)
    requires
        0 <= i < j < s.len(),
        s[i].focused,
        s[j].focused,
    ensures
        focused_total(s) >= 2,
    decreases s.len(),
{
    if j == s.len() - 1 {
        assert(s.drop_last()[i] == s[i]);
        lemma_focused_total_one(s.drop_last(), i);
    } else {
        assert(s.drop_last()[i] == s[i]);
        assert(s.drop_last()[j] == s[j]);
        lemma_focused_total_two(s.drop_last(), i, j);
        lemma_focused_total_nonneg(s);
    }
}

/// The ordered workspace set: all workspaces of the snapshot sorted by
/// ascending number, with exactly one focused member.
#[derive(Debug)]
pub struct Workspaces {
    workspaces: Vec<SwayWorkspace>,
    focused: usize,
}

impl View for Workspaces {
    type V = Seq<WorkspaceView>;

    closed spec fn view(&self) -> Seq<WorkspaceView> {
        self.workspaces.deep_view()
    }
}

impl Workspaces {
    /// Sorted by number, and the stored index is the single focused member.
    #[verifier::type_invariant]
    spec fn inv(self) -> bool {
        &&& (self.focused as int) < self.workspaces.deep_view().len()
        &&& self.workspaces.deep_view()[self.focused as int].focused
        &&& forall|i: int|
            0 <= i < self.workspaces.deep_view().len() && (
            #[trigger] self.workspaces.deep_view()[i]).focused ==> i == self.focused as int
        &&& sorted_by_number(self.workspaces.deep_view())
        &&& forall|i: int|
            0 <= i < self.workspaces.deep_view().len() ==> 0 <= (
            #[trigger] self.workspaces.deep_view()[i]).number <= i32::MAX as int
    }
}

#[verifier::rlimit(50)]
fn sort_workspaces(v: Vec<SwayWorkspace>) -> (r: Vec<SwayWorkspace>)
    ensures
        sorted_by_number(r.deep_view()),
        r.deep_view().to_multiset() == v.deep_view().to_multiset(),
        r.deep_view().len() == v.deep_view().len(),
{
    let mut out: Vec<SwayWorkspace> = Vec::new();
    proof {
        assert(out.deep_view() =~= v.deep_view().take(0));
    }
    let mut i: usize = 0;
    while i < v.len()
        invariant
            i <= v@.len(),
            v.deep_view().len() == v@.len(),
            sorted_by_number(out.deep_view()),
            out.deep_view().to_multiset() == v.deep_view().take(i as int).to_multiset(),
            out.deep_view().len() == i,
        decreases v@.len() - i,
    {
        let w = v[i].clone();
        let num = w.workspace_number();
        let mut j: usize = 0;
        while j < out.len() && out[j].workspace_number() <= num
            invariant
                j <= out@.len(),
                out.deep_view().len() == out@.len(),
                forall|x: int| 0 <= x < j ==> (#[trigger] out.deep_view()[x]).number <= num as int,
            decreases out@.len() - j,
        {
            j = j + 1;
        }
        let ghost old_out = out.deep_view();
        let ghost old_vec = out@;
        out.insert(j, w);
        proof {
            assert(out@ == old_vec.insert(j as int, w));
            old_vec.insert_ensures(j as int, w);
            old_out.insert_ensures(j as int, w@);
            assert(out.deep_view() =~= old_out.insert(j as int, w@));
            vstd::seq_lib::to_multiset_insert(old_out, j as int, w@);
            assert(w@ == v.deep_view()[i as int]);
            assert(v.deep_view().take(i as int + 1) =~= v.deep_view().take(i as int).push(
                v.deep_view()[i as int],
            ));
            vstd::seq_lib::to_multiset_build(v.deep_view().take(i as int), w@);
            assert(v.deep_view().take(i as int + 1).to_multiset() == v.deep_view().take(
                i as int,
            ).to_multiset().insert(w@));
            assert(out.deep_view().to_multiset() == v.deep_view().take(
                i as int + 1,
            ).to_multiset());
            assert forall|x1: int, x2: int|
                0 <= x1 < x2 < out.deep_view().len() implies (
            #[trigger] out.deep_view()[x1]).number <= (#[trigger] out.deep_view()[x2]).number by {
                let jj = j as int;
                if x2 < jj {
                } else if x1 == jj {
                    assert(out.deep_view()[x2] == old_out[x2 - 1]);
                    assert(x2 - 1 >= jj);
                    if jj < old_out.len() {
                        assert(old_out[jj].number > num as int);
                        if x2 - 1 > jj {
                            assert(old_out[jj].number <= old_out[x2 - 1].number);
                        }
                    }
                } else if x2 == jj {
                    assert(out.deep_view()[x1] == old_out[x1]);
                } else if x1 < jj && x2 > jj {
                    assert(out.deep_view()[x1] == old_out[x1]);
                    assert(out.deep_view()[x2] == old_out[x2 - 1]);
                    if jj < old_out.len() {
                        assert(old_out[jj].number > num as int);
                    }
                    assert(x1 <= x2 - 1);
                } else {
                    assert(out.deep_view()[x1] == old_out[x1 - 1]);
                    assert(out.deep_view()[x2] == old_out[x2 - 1]);
                }
            }
        }
        i = i + 1;
    }
    proof {
        assert(v.deep_view().take(v@.len() as int) =~= v.deep_view());
    }
    out
}

fn find_focused_workspace(workspaces: &Vec<SwayWorkspace>) -> (r: Option<usize>)
    ensures
        match r {
            Some(i) => (i as int) < workspaces.deep_view().len()
                && workspaces.deep_view()[i as int].focused,
            None => forall|i: int|
                0 <= i < workspaces.deep_view().len() ==> !(
                #[trigger] workspaces.deep_view()[i]).focused,
        },
{
    let mut i: usize = 0;
    while i < workspaces.len()
        invariant
            i <= workspaces@.len(),
            workspaces.deep_view().len() == workspaces@.len(),
            forall|x: int| 0 <= x < i ==> !(#[trigger] workspaces.deep_view()[x]).focused,
        decreases workspaces@.len() - i,
    {
        if workspaces[i].is_focused() {
            return Some(i);
        }
        i = i + 1;
    }
    None
}

impl Workspaces {
    /// Builds the ordered set from the derived workspaces: sorts them by
    /// ascending number and checks that exactly one of them is focused.
    #[verifier::rlimit(50)]
    pub fn new(workspaces: Vec<SwayWorkspace>) -> (r: Result<Workspaces, TreeError>)
        ensures
            match r {
                Ok(ws) => {
                    &&& focused_total(workspaces.deep_view()) == 1
                    &&& sorted_by_number(ws@)
                    &&& ws@.to_multiset() == workspaces.deep_view().to_multiset()
                    &&& ws@.len() == workspaces.deep_view().len()
                },
                Err(e) => {
                    ||| (e == TreeError::NoFocusedWorkspace() && focused_total(
                        workspaces.deep_view(),
                    ) == 0)
                    ||| (e == TreeError::MultipleFocusedWorkspaces() && focused_total(
                        workspaces.deep_view(),
                    ) > 1)
                },
            },
    {
        let ghost input_dv = workspaces.deep_view();
        let mut count: usize = 0;
        let mut i: usize = 0;
        while i < workspaces.len()
            invariant
                i <= workspaces@.len(),
                workspaces.deep_view() == input_dv,
                input_dv.len() == workspaces@.len(),
                count as int == focused_total(input_dv.take(i as int)),
                count <= i,
                forall|x: int|
                    0 <= x < i ==> 0 <= (#[trigger] input_dv[x]).number <= i32::MAX as int,
            decreases workspaces@.len() - i,
        {
            let w = &workspaces[i];
            proof {
                use_type_invariant(&*w);
                assert(input_dv.take(i as int + 1).drop_last() =~= input_dv.take(i as int));
                assert(input_dv.take(i as int + 1).last() == input_dv[i as int]);
                assert(w@ == input_dv[i as int]);
            }
            if w.is_focused() {
                count = count + 1;
            }
            i = i + 1;
        }
        proof {
            assert(input_dv.take(input_dv.len() as int) =~= input_dv);
        }
        if count == 0 {
            return Err(TreeError::NoFocusedWorkspace());
        }
        if count > 1 {
            return Err(TreeError::MultipleFocusedWorkspaces());
        }
        let sorted = sort_workspaces(workspaces);
        proof {
            lemma_focused_total_multiset(input_dv, sorted.deep_view());
        }
        let fi = match find_focused_workspace(&sorted) {
            Some(fi) => fi,
            None => {
                proof {
                    lemma_focused_total_none(sorted.deep_view());
                    assert(false);
                }
                0
            },
        };
        proof {
            let sdv = sorted.deep_view();
            assert forall|i: int| 0 <= i < sdv.len() && (#[trigger] sdv[i]).focused implies i
                == fi as int by {
                if i < fi as int {
                    lemma_focused_total_two(sdv, i, fi as int);
                } else if i > fi as int {
                    lemma_focused_total_two(sdv, fi as int, i);
                }
            }
            input_dv.to_multiset_ensures();
            sdv.to_multiset_ensures();
            assert forall|x: int| 0 <= x < sdv.len() implies 0 <= (#[trigger] sdv[x]).number
                <= i32::MAX as int by {
                assert(sdv.contains(sdv[x]));
                assert(sdv.to_multiset().count(sdv[x]) > 0);
                assert(input_dv.to_multiset().count(sdv[x]) > 0);
                assert(input_dv.contains(sdv[x]));
                let y = choose|y: int| 0 <= y < input_dv.len() && input_dv[y] == sdv[x];
                assert(0 <= input_dv[y].number <= i32::MAX as int);
            }
        }
        Ok(Workspaces { workspaces: sorted, focused: fi })
    }

    /// The focused workspace: the single member that holds input focus.
    pub fn focused_workspace(&self) -> (r: &SwayWorkspace)
        ensures
            set_invariant(self@),
            0 <= spec_focused_index(self@) < self@.len(),
            r@ == self@[spec_focused_index(self@)],
            r@.focused,
    {
        proof {
            use_type_invariant(&*self);
            assert(self@[self.focused as int].focused);
            let ci = spec_focused_index(self@);
            assert(0 <= ci < self@.len() && self@[ci].focused);
            assert(ci == self.focused as int);
        }
        let r = &self.workspaces[self.focused];
        proof {
            assert(r@ == self@[self.focused as int]);
        }
        r
    }
}


/// What every constructed workspace set guarantees of its model: it is not
/// empty, ordered by ascending number, its numbers are in `i32` range, and
/// exactly one member is focused.
pub open spec fn set_invariant(s: Seq<WorkspaceView>) -> bool {
    &&& s.len() > 0
    &&& sorted_by_number(s)
    &&& 0 <= spec_focused_index(s) < s.len()
    &&& s[spec_focused_index(s)].focused
    &&& forall|i: int| 0 <= i < s.len() && (#[trigger] s[i]).focused ==> i == spec_focused_index(s)
    &&& forall|i: int| 0 <= i < s.len() ==> 0 <= (#[trigger] s[i]).number <= i32::MAX as int
}

/// The number of the focused workspace.
pub open spec fn spec_focused_number(s: Seq<WorkspaceView>) -> int {
    s[spec_focused_index(s)].number
}

/// The members of `s` with a number above `n`, in their order in `s`.
pub open spec fn succ_of(s: Seq<WorkspaceView>, n: int) -> Seq<WorkspaceView>
    decreases s.len(),
{
    if s.len() == 0 {
        Seq::<WorkspaceView>::empty()
    } else {
        let rest = succ_of(s.drop_last(), n);
        if s.last().number > n {
            rest.push(s.last())
        } else {
            rest
        }
    }
}

/// The members of `s` with a number below `n`, in their order in `s`.
pub open spec fn pred_of(s: Seq<WorkspaceView>, n: int) -> Seq<WorkspaceView>
    decreases s.len(),
{
    if s.len() == 0 {
        Seq::<WorkspaceView>::empty()
    } else {
        let rest = pred_of(s.drop_last(), n);
        if s.last().number < n {
            rest.push(s.last())
        } else {
            rest
        }
    }
}

/// The successors of the focused workspace, by ascending number.
pub open spec fn spec_successors(s: Seq<WorkspaceView>) -> Seq<WorkspaceView> {
    succ_of(s, spec_focused_number(s))
}

/// The predecessors of the focused workspace, by descending number.
pub open spec fn spec_predecessors(s: Seq<WorkspaceView>) -> Seq<WorkspaceView> {
    pred_of(s, spec_focused_number(s)).reverse()
}

/// When exactly the members from index `b` on are above `n`, the members
/// above `n` are the suffix from `b`.
pub proof fn lemma_succ_of_is_skip(s: Seq<WorkspaceView>, n: int, b: int)
    requires
        0 <= b <= s.len(),
        forall|i: int| 0 <= i < s.len() ==> ((#[trigger] s[i]).number > n <==> i >= b),
    ensures
        succ_of(s, n) == s.skip(b),
    decreases s.len(),
{
    if s.len() == 0 {
        assert(s.skip(b) =~= Seq::<WorkspaceView>::empty());
    } else {
        let t = s.drop_last();
        let bt: int = if b <= s.len() - 1 {
            b
        } else {
            s.len() - 1
        };
        assert forall|i: int| 0 <= i < t.len() implies ((#[trigger] t[i]).number > n <==> i
            >= bt) by {
            assert(t[i] == s[i]);
        }
        lemma_succ_of_is_skip(t, n, bt);
        if s.last().number > n {
            assert(s.len() - 1 >= b);
            assert(succ_of(s, n) == t.skip(b).push(s.last()));
            assert(t.skip(b).push(s.last()) =~= s.skip(b));
        } else {
            assert(b == s.len());
            assert(succ_of(s, n) == t.skip(bt));
            assert(t.skip(bt) =~= Seq::<WorkspaceView>::empty());
            assert(s.skip(b) =~= Seq::<WorkspaceView>::empty());
        }
    }
}

/// When exactly the members before index `b` are below `n`, the members
/// below `n` are the prefix up to `b`.
pub proof fn lemma_pred_of_is_take(s: Seq<WorkspaceView>, n: int, b: int)
    requires
        0 <= b <= s.len(),
        forall|i: int| 0 <= i < s.len() ==> ((#[trigger] s[i]).number < n <==> i < b),
    ensures
        pred_of(s, n) == s.take(b),
    decreases s.len(),
{
    if s.len() == 0 {
        assert(s.take(b) =~= Seq::<WorkspaceView>::empty());
    } else {
        let t = s.drop_last();
        let bt: int = if b <= s.len() - 1 {
            b
        } else {
            s.len() - 1
        };
        assert forall|i: int| 0 <= i < t.len() implies ((#[trigger] t[i]).number < n <==> i
            < bt) by {
            assert(t[i] == s[i]);
        }
        lemma_pred_of_is_take(t, n, bt);
        if s.last().number < n {
            assert(b == s.len());
            assert(pred_of(s, n) == t.take(bt).push(s.last()));
            assert(t.take(bt) =~= t);
            assert(t.push(s.last()) =~= s);
            assert(s.take(b) =~= s);
        } else {
            assert(b <= s.len() - 1);
            assert(pred_of(s, n) == t.take(b));
            assert(t.take(b) =~= s.take(b));
        }
    }
}

impl Workspaces {
    /// The stored focused index is the focused index of the model.
    proof fn focused_index_agrees(&self)
        requires
            self.inv(),
        ensures
            0 <= spec_focused_index(self@) < self@.len(),
            spec_focused_index(self@) == self.focused as int,
            self@[spec_focused_index(self@)].focused,
            spec_focused_number(self@) == self@[self.focused as int].number,
    {
        assert(self@[self.focused as int].focused);
        let ci = spec_focused_index(self@);
        assert(0 <= ci < self@.len() && self@[ci].focused);
    }

    /// All workspaces with a number above the focused one, by ascending
    /// number.
    pub fn successors_of_focused(&self) -> (r: Vec<SwayWorkspace>)
        ensures
            set_invariant(self@),
            r.deep_view() == spec_successors(self@),
    {
        proof {
            use_type_invariant(&*self);
            self.focused_index_agrees();
        }
        let n = self.workspaces[self.focused].workspace_number();
        proof {
            assert(n as int == spec_focused_number(self@));
        }
        let mut r: Vec<SwayWorkspace> = Vec::new();
        proof {
            assert(self@.take(0) =~= Seq::<WorkspaceView>::empty());
            assert(r.deep_view() =~= succ_of(self@.take(0), n as int));
        }
        let mut i: usize = 0;
        while i < self.workspaces.len()
            invariant
                i <= self.workspaces@.len(),
                self@.len() == self.workspaces@.len(),
                n as int == spec_focused_number(self@),
                r.deep_view() == succ_of(self@.take(i as int), n as int),
            decreases self.workspaces@.len() - i,
        {
            let w = &self.workspaces[i];
            proof {
                assert(w@ == self@[i as int]);
                assert(self@.take(i as int + 1).drop_last() =~= self@.take(i as int));
                assert(self@.take(i as int + 1).last() == self@[i as int]);
            }
            if w.workspace_number() > n {
                let ghost old_dv = r.deep_view();
                r.push(w.clone());
                proof {
                    assert(r.deep_view() =~= old_dv.push(w@));
                }
            }
            i = i + 1;
        }
        proof {
            assert(self@.take(self@.len() as int) =~= self@);
        }
        r
    }

    /// The successor of the focused workspace with the smallest number.
    pub fn successor_of_focused(&self) -> (r: Option<SwayWorkspace>)
        ensures
            match r {
                Some(w) => spec_successors(self@).len() > 0 && w@ == spec_successors(self@)[0],
                None => spec_successors(self@).len() == 0,
            },
    {
        let succ = self.successors_of_focused();
        if succ.len() > 0 {
            Some(succ[0].clone())
        } else {
            None
        }
    }

    /// All workspaces with a number below the focused one, by descending
    /// number.
    pub fn predecessors_of_focused(&self) -> (r: Vec<SwayWorkspace>)
        ensures
            set_invariant(self@),
            r.deep_view() == spec_predecessors(self@),
    {
        proof {
            use_type_invariant(&*self);
            self.focused_index_agrees();
        }
        let n = self.workspaces[self.focused].workspace_number();
        proof {
            assert(n as int == spec_focused_number(self@));
        }
        let mut ascending: Vec<SwayWorkspace> = Vec::new();
        proof {
            assert(self@.take(0) =~= Seq::<WorkspaceView>::empty());
            assert(ascending.deep_view() =~= pred_of(self@.take(0), n as int));
        }
        let mut i: usize = 0;
        while i < self.workspaces.len()
            invariant
                i <= self.workspaces@.len(),
                self@.len() == self.workspaces@.len(),
                n as int == spec_focused_number(self@),
                ascending.deep_view() == pred_of(self@.take(i as int), n as int),
            decreases self.workspaces@.len() - i,
        {
            let w = &self.workspaces[i];
            proof {
                assert(w@ == self@[i as int]);
                assert(self@.take(i as int + 1).drop_last() =~= self@.take(i as int));
                assert(self@.take(i as int + 1).last() == self@[i as int]);
            }
            if w.workspace_number() < n {
                let ghost old_dv = ascending.deep_view();
                ascending.push(w.clone());
                proof {
                    assert(ascending.deep_view() =~= old_dv.push(w@));
                }
            }
            i = i + 1;
        }
        proof {
            assert(self@.take(self@.len() as int) =~= self@);
        }
        let mut r: Vec<SwayWorkspace> = Vec::new();
        let mut k: usize = 0;
        while k < ascending.len()
            invariant
                k <= ascending@.len(),
                ascending.deep_view().len() == ascending@.len(),
                r.deep_view().len() == k,
                forall|x: int|
                    0 <= x < k ==> #[trigger] r.deep_view()[x] == ascending.deep_view()[ascending@.len()
                        - 1 - x],
            decreases ascending@.len() - k,
        {
            let w = &ascending[ascending.len() - 1 - k];
            let ghost old_dv = r.deep_view();
            r.push(w.clone());
            proof {
                assert(r.deep_view() =~= old_dv.push(w@));
            }
            k = k + 1;
        }
        proof {
            assert(r.deep_view() =~= ascending.deep_view().reverse());
        }
        r
    }

    /// The predecessor of the focused workspace with the largest number.
    pub fn predecessor_of_focused(&self) -> (r: Option<SwayWorkspace>)
        ensures
            match r {
                Some(w) => spec_predecessors(self@).len() > 0 && w@ == spec_predecessors(self@)[0],
                None => spec_predecessors(self@).len() == 0,
            },
    {
        let pred = self.predecessors_of_focused();
        if pred.len() > 0 {
            Some(pred[0].clone())
        } else {
            None
        }
    }
}


/// The output nodes among the first `i` nodes of `all`, in order.
pub open spec fn output_nodes_upto(all: Seq<Node>, i: int) -> Seq<Node>
    decreases i,
{
    if i <= 0 {
        Seq::<Node>::empty()
    } else {
        output_nodes_upto(all, i - 1) + if all[i - 1].kind == NodeKind::Output {
            seq![all[i - 1]]
        } else {
            Seq::<Node>::empty()
        }
    }
}

/// The output nodes of the tree, in depth-first order.
pub open spec fn output_nodes(t: Node) -> Seq<Node> {
    output_nodes_upto(t.descendants(), t.descendants().len() as int)
}

/// The workspace nodes among the first `i` nodes of `all`, in order, with
/// the scratchpad excluded.
pub open spec fn workspace_nodes_upto(all: Seq<Node>, i: int) -> Seq<Node>
    decreases i,
{
    if i <= 0 {
        Seq::<Node>::empty()
    } else {
        workspace_nodes_upto(all, i - 1) + if all[i - 1].kind == NodeKind::Workspace && !all[i
            - 1].spec_is_scratchpad() {
            seq![all[i - 1]]
        } else {
            Seq::<Node>::empty()
        }
    }
}

/// The workspace nodes of one output's subtree, in depth-first order, with
/// the scratchpad excluded.
pub open spec fn workspace_nodes(o: Node) -> Seq<Node> {
    workspace_nodes_upto(o.descendants(), o.descendants().len() as int)
}

/// What deriving the first `i` workspaces of output `o` yields, in order.
pub open spec fn results_upto(o: Node, ws: Seq<Node>, i: int) -> Seq<
    Result<WorkspaceView, TreeError>,
>
    decreases i,
{
    if i <= 0 {
        Seq::<Result<WorkspaceView, TreeError>>::empty()
    } else {
        results_upto(o, ws, i - 1).push(extract_one(o, ws[i - 1]))
    }
}

/// What deriving every workspace of output `o` yields, in order.
pub open spec fn extract_results_for_output(o: Node) -> Seq<Result<WorkspaceView, TreeError>> {
    results_upto(o, workspace_nodes(o), workspace_nodes(o).len() as int)
}

/// What deriving the workspaces of the first `i` outputs yields, in order.
pub open spec fn results_for_outputs(os: Seq<Node>, i: int) -> Seq<
    Result<WorkspaceView, TreeError>,
>
    decreases i,
{
    if i <= 0 {
        Seq::<Result<WorkspaceView, TreeError>>::empty()
    } else {
        results_for_outputs(os, i - 1) + extract_results_for_output(os[i - 1])
    }
}

/// What deriving every workspace of the tree yields: one result per
/// workspace node, output by output, in depth-first order.
pub open spec fn extract_results(t: Node) -> Seq<Result<WorkspaceView, TreeError>> {
    results_for_outputs(output_nodes(t), output_nodes(t).len() as int)
}

/// The first error among the results, in order.
pub open spec fn first_error(rs: Seq<Result<WorkspaceView, TreeError>>) -> Option<TreeError>
    decreases rs.len(),
{
    if rs.len() == 0 {
        None
    } else {
        match rs[0] {
            Err(e) => Some(e),
            Ok(_) => first_error(rs.drop_first()),
        }
    }
}

/// The successfully derived workspace models, in order.
pub open spec fn ok_models(rs: Seq<Result<WorkspaceView, TreeError>>) -> Seq<WorkspaceView>
    decreases rs.len(),
{
    if rs.len() == 0 {
        Seq::<WorkspaceView>::empty()
    } else {
        match rs[0] {
            Ok(v) => seq![v] + ok_models(rs.drop_first()),
            Err(_) => ok_models(rs.drop_first()),
        }
    }
}

/// The first error of a concatenation comes from the left part when it has
/// one, else from the right part.
proof fn lemma_first_error_add(
    a: Seq<Result<WorkspaceView, TreeError>>,
    b: Seq<Result<WorkspaceView, TreeError>>,
)
    ensures
        first_error(a + b) == (match first_error(a) {
            Some(e) => Some(e),
            None => first_error(b),
        }),
    decreases a.len(),
{
    if a.len() == 0 {
        assert(a + b =~= b);
    } else {
        assert((a + b)[0] == a[0]);
        assert((a + b).drop_first() =~= a.drop_first() + b);
        lemma_first_error_add(a.drop_first(), b);
    }
}

/// The derived models of a concatenation are the two parts' models in order.
proof fn lemma_ok_models_add(
    a: Seq<Result<WorkspaceView, TreeError>>,
    b: Seq<Result<WorkspaceView, TreeError>>,
)
    ensures
        ok_models(a + b) == ok_models(a) + ok_models(b),
    decreases a.len(),
{
    if a.len() == 0 {
        assert(a + b =~= b);
        assert(ok_models(a) + ok_models(b) =~= ok_models(b));
    } else {
        assert((a + b)[0] == a[0]);
        assert((a + b).drop_first() =~= a.drop_first() + b);
        lemma_ok_models_add(a.drop_first(), b);
        match a[0] {
            Ok(v) => {
                assert(ok_models(a + b) =~= ok_models(a) + ok_models(b));
            },
            Err(_) => {
                assert(ok_models(a + b) =~= ok_models(a) + ok_models(b));
            },
        }
    }
}

/// An error among the first outputs stays the first error of the whole.
proof fn lemma_first_error_propagates(os: Seq<Node>, j: int, e: TreeError)
    requires
        0 <= j <= os.len(),
        first_error(results_for_outputs(os, j)) == Some(e),
    ensures
        first_error(results_for_outputs(os, os.len() as int)) == Some(e),
    decreases os.len() - j,
{
    if j < os.len() {
        lemma_first_error_add(results_for_outputs(os, j), extract_results_for_output(os[j]));
        lemma_first_error_propagates(os, j + 1, e);
    }
}

/// An error among the first workspaces of an output stays the first error
/// of that output's results.
proof fn lemma_first_error_upto_propagates(o: Node, ws: Seq<Node>, j: int, e: TreeError)
    requires
        0 <= j <= ws.len(),
        first_error(results_upto(o, ws, j)) == Some(e),
    ensures
        first_error(results_upto(o, ws, ws.len() as int)) == Some(e),
    decreases ws.len() - j,
{
    if j < ws.len() {
        assert(results_upto(o, ws, j + 1) =~= results_upto(o, ws, j) + seq![
            extract_one(o, ws[j]),
        ]);
        lemma_first_error_add(results_upto(o, ws, j), seq![extract_one(o, ws[j])]);
        lemma_first_error_upto_propagates(o, ws, j + 1, e);
    }
}

/// Derives the workspace set of a tree snapshot: for each output node, each
/// workspace node of its subtree (scratchpad excluded) becomes one
/// workspace; the set is then ordered by number and must have exactly one
/// focused member. The first extraction error aborts the derivation.
pub fn get_workspaces_of(tree: &Node) -> (r: Result<Workspaces, TreeError>)
    ensures
        match r {
            Ok(ws) => {
                &&& first_error(extract_results(*tree)) == None::<TreeError>
                &&& focused_total(ok_models(extract_results(*tree))) == 1
                &&& sorted_by_number(ws@)
                &&& ws@.to_multiset() == ok_models(extract_results(*tree)).to_multiset()
                &&& ws@.len() == ok_models(extract_results(*tree)).len()
            },
            Err(e) => {
                ||| first_error(extract_results(*tree)) == Some(e)
                ||| (first_error(extract_results(*tree)) == None::<TreeError> && ((e
                    == TreeError::NoFocusedWorkspace() && focused_total(
                    ok_models(extract_results(*tree)),
                ) == 0) || (e == TreeError::MultipleFocusedWorkspaces() && focused_total(
                    ok_models(extract_results(*tree)),
                ) > 1)))
            },
        },
{
    let ghost t = *tree;
    let all = tree.all_nodes();
    let mut outputs: Vec<&Node> = Vec::new();
    proof {
        assert(deref_seq(outputs@) =~= output_nodes_upto(t.descendants(), 0));
    }
    let mut i: usize = 0;
    while i < all.len()
        invariant
            i <= all@.len(),
            t == *tree,
            deref_seq(all@) == t.descendants(),
            deref_seq(outputs@) == output_nodes_upto(t.descendants(), i as int),
        decreases all@.len() - i,
    {
        proof {
            assert(*all@[i as int] == t.descendants()[i as int]);
        }
        if all[i].is_output() {
            let ghost before = deref_seq(outputs@);
            outputs.push(all[i]);
            proof {
                assert(deref_seq(outputs@) =~= before.push(*all@[i as int]));
                assert(deref_seq(outputs@) =~= output_nodes_upto(t.descendants(), i as int + 1));
            }
        } else {
            proof {
                assert(deref_seq(outputs@) =~= output_nodes_upto(t.descendants(), i as int + 1));
            }
        }
        i = i + 1;
    }
    let ghost os = output_nodes(t);
    proof {
        assert(deref_seq(outputs@) == os);
        assert(os.len() == outputs@.len());
    }
    let mut collected: Vec<SwayWorkspace> = Vec::new();
    proof {
        assert(collected.deep_view() =~= ok_models(results_for_outputs(os, 0)));
    }
    let mut oi: usize = 0;
    while oi < outputs.len()
        invariant
            oi <= outputs@.len(),
            t == *tree,
            os == output_nodes(t),
            deref_seq(outputs@) == os,
            os.len() == outputs@.len(),
            first_error(results_for_outputs(os, oi as int)) == None::<TreeError>,
            collected.deep_view() == ok_models(results_for_outputs(os, oi as int)),
        decreases outputs@.len() - oi,
    {
        let o: &Node = outputs[oi];
        proof {
            assert(*outputs@[oi as int] == os[oi as int]);
        }
        let o_all = o.all_nodes();
        let mut wss: Vec<&Node> = Vec::new();
        proof {
            assert(deref_seq(wss@) =~= workspace_nodes_upto(o.descendants(), 0));
        }
        let mut wj: usize = 0;
        while wj < o_all.len()
            invariant
                wj <= o_all@.len(),
                deref_seq(o_all@) == o.descendants(),
                deref_seq(wss@) == workspace_nodes_upto(o.descendants(), wj as int),
            decreases o_all@.len() - wj,
        {
            proof {
                assert(*o_all@[wj as int] == o.descendants()[wj as int]);
            }
            let cand = o_all[wj];
            if cand.is_workspace() && !cand.is_scratchpad_workspace() {
                let ghost before = deref_seq(wss@);
                wss.push(cand);
                proof {
                    assert(deref_seq(wss@) =~= before.push(*o_all@[wj as int]));
                    assert(deref_seq(wss@) =~= workspace_nodes_upto(
                        o.descendants(),
                        wj as int + 1,
                    ));
                }
            } else {
                proof {
                    assert(deref_seq(wss@) =~= workspace_nodes_upto(
                        o.descendants(),
                        wj as int + 1,
                    ));
                }
            }
            wj = wj + 1;
        }
        let ghost wsns = workspace_nodes(*o);
        let ghost base = results_for_outputs(os, oi as int);
        proof {
            assert(deref_seq(wss@) == wsns);
            assert(wsns.len() == wss@.len());
            assert(results_upto(*o, wsns, 0) =~= Seq::<Result<WorkspaceView, TreeError>>::empty());
            assert(ok_models(results_upto(*o, wsns, 0)) =~= Seq::<WorkspaceView>::empty());
            assert(collected.deep_view() =~= ok_models(base) + ok_models(results_upto(*o, wsns, 0)));
        }
        let mut wi: usize = 0;
        while wi < wss.len()
            invariant
                wi <= wss@.len(),
                t == *tree,
                os == output_nodes(t),
                deref_seq(outputs@) == os,
                os.len() == outputs@.len(),
                oi < outputs@.len(),
                *o == os[oi as int],
                wsns == workspace_nodes(*o),
                deref_seq(wss@) == wsns,
                wsns.len() == wss@.len(),
                base == results_for_outputs(os, oi as int),
                first_error(base) == None::<TreeError>,
                first_error(results_upto(*o, wsns, wi as int)) == None::<TreeError>,
                collected.deep_view() == ok_models(base) + ok_models(
                    results_upto(*o, wsns, wi as int),
                ),
            decreases wss@.len() - wi,
        {
            let w: &Node = wss[wi];
            proof {
                assert(*wss@[wi as int] == wsns[wi as int]);
            }
            let ghost prs = results_upto(*o, wsns, wi as int);
            match SwayWorkspace::new_from_output_and_workspace_nodes(o, w) {
                Ok(sw) => {
                    let ghost before = collected.deep_view();
                    let ghost v = sw@;
                    collected.push(sw);
                    proof {
                        assert(extract_one(*o, wsns[wi as int]) == Ok::<WorkspaceView, TreeError>(
                            v,
                        ));
                        assert(results_upto(*o, wsns, wi as int + 1) =~= prs + seq![
                            extract_one(*o, wsns[wi as int]),
                        ]);
                        lemma_first_error_add(prs, seq![extract_one(*o, wsns[wi as int])]);
                        lemma_ok_models_add(prs, seq![extract_one(*o, wsns[wi as int])]);
                        let single = seq![extract_one(*o, wsns[wi as int])];
                        assert(single.drop_first() =~= Seq::<
                            Result<WorkspaceView, TreeError>,
                        >::empty());
                        assert(first_error(Seq::<Result<WorkspaceView, TreeError>>::empty())
                            == None::<TreeError>);
                        assert(ok_models(Seq::<Result<WorkspaceView, TreeError>>::empty())
                            =~= Seq::<WorkspaceView>::empty());
                        assert(first_error(single) == None::<TreeError>);
                        assert(ok_models(single) =~= seq![v]);
                        assert(collected.deep_view() =~= before.push(v));
                        assert(collected.deep_view() =~= ok_models(base) + ok_models(
                            results_upto(*o, wsns, wi as int + 1),
                        ));
                    }
                },
                Err(e) => {
                    proof {
                        assert(extract_one(*o, wsns[wi as int]) == Err::<WorkspaceView, TreeError>(
                            e,
                        ));
                        assert(results_upto(*o, wsns, wi as int + 1) =~= prs + seq![
                            extract_one(*o, wsns[wi as int]),
                        ]);
                        lemma_first_error_add(prs, seq![extract_one(*o, wsns[wi as int])]);
                        let single = seq![extract_one(*o, wsns[wi as int])];
                        assert(first_error(single) == Some(e));
                        assert(first_error(results_upto(*o, wsns, wi as int + 1)) == Some(e));
                        lemma_first_error_upto_propagates(*o, wsns, wi as int + 1, e);
                        assert(first_error(extract_results_for_output(os[oi as int])) == Some(e));
                        lemma_first_error_add(base, extract_results_for_output(os[oi as int]));
                        assert(first_error(results_for_outputs(os, oi as int + 1)) == Some(e));
                        lemma_first_error_propagates(os, oi as int + 1, e);
                        assert(first_error(extract_results(t)) == Some(e));
                    }
                    return Err(e);
                },
            }
            wi = wi + 1;
        }
        proof {
            assert(results_upto(*o, wsns, wsns.len() as int) == extract_results_for_output(
                os[oi as int],
            ));
            lemma_first_error_add(base, extract_results_for_output(os[oi as int]));
            lemma_ok_models_add(base, extract_results_for_output(os[oi as int]));
            assert(first_error(results_for_outputs(os, oi as int + 1)) == None::<TreeError>);
            assert(collected.deep_view() == ok_models(results_for_outputs(os, oi as int + 1)));
        }
        oi = oi + 1;
    }
    proof {
        assert(results_for_outputs(os, os.len() as int) == extract_results(t));
        assert(first_error(extract_results(t)) == None::<TreeError>);
        assert(collected.deep_view() == ok_models(extract_results(t)));
    }
    Workspaces::new(collected)
}

} // verus!
