//! The call tree of a thread: how its samples spread over the chains of calls.

use vstd::prelude::*;
use vstd::seq_lib::group_to_multiset_ensures;
use vstd::string::*;

use crate::binary64::Binary64;
use crate::binary64::SIGN_BIT;
use crate::order::is_listing;
use crate::order::listing_order;
use crate::order::precedes;
use crate::profile::ResolvedFrame;
use crate::profile::ResolvedSample;
use crate::profile::ResolvedThread;
use crate::profile::sample_stacks;
use crate::profile::stack_names;

verus! {

/// `path` is how `stack` begins: the sample was taken in a call made along `path`.
pub open spec fn runs_along(stack: Seq<Seq<char>>, path: Seq<Seq<char>>) -> bool {
    path.len() <= stack.len() && stack.take(path.len() as int) == path
}

/// The number of samples whose stack begins with `path`.
pub open spec fn total_count(stacks: Seq<Seq<Seq<char>>>, path: Seq<Seq<char>>) -> nat
    decreases stacks.len(),
{
    if stacks.len() == 0 {
        0
    } else {
        total_count(stacks.drop_last(), path) + if runs_along(stacks.last(), path) {
            1nat
        } else {
            0
        }
    }
}

/// The number of samples whose stack is `path` and nothing more.
pub open spec fn self_count(stacks: Seq<Seq<Seq<char>>>, path: Seq<Seq<char>>) -> nat
    decreases stacks.len(),
{
    if stacks.len() == 0 {
        0
    } else {
        self_count(stacks.drop_last(), path) + if stacks.last() == path {
            1nat
        } else {
            0
        }
    }
}

/// Some sample goes from `path` on into a call of `name`, within `max_depth` frames.
pub open spec fn calls(
    stacks: Seq<Seq<Seq<char>>>,
    path: Seq<Seq<char>>,
    name: Seq<char>,
    max_depth: nat,
) -> bool {
    path.len() < max_depth && total_count(stacks, path.push(name)) > 0
}

/// A quantity of a call tree: the number, and how it reads with one decimal.
#[derive(Debug)]
pub struct Measure {
    pub value: Binary64,
    pub text: String,
}

impl Clone for Measure {
    fn clone(&self) -> (copy: Measure)
        ensures
            copy == *self,
    {
        Measure { value: self.value, text: self.text.clone() }
    }
}

/// What numbers of samples amount to in a given thread.
#[derive(Debug)]
pub struct Scale {
    /// The time that as many samples as the index take, in milliseconds.
    pub times: Vec<Measure>,
    /// The share that this time has in the whole profile, in percent.
    pub percents: Vec<Measure>,
}

impl Scale {
    /// The scale goes up to `samples` samples.
    pub open spec fn covers(self, samples: nat) -> bool {
        samples < self.times@.len() && samples < self.percents@.len()
    }
}

/// A node of a call tree, with what its function and the functions called from there took.
#[derive(Debug)]
pub struct CallTreeNode {
    pub function_name: String,
    pub self_time_ms: Measure,
    pub total_time_ms: Measure,
    pub total_percent: Measure,
    pub children: Vec<CallTreeNode>,
}

/// Two trees hold the same.
pub open spec fn same_tree(a: CallTreeNode, b: CallTreeNode) -> bool
    decreases a,
{
    &&& a.function_name == b.function_name
    &&& a.self_time_ms == b.self_time_ms
    &&& a.total_time_ms == b.total_time_ms
    &&& a.total_percent == b.total_percent
    &&& a.children@.len() == b.children@.len()
    &&& forall|i: int|
        #![trigger a.children@[i]]
        #![trigger b.children@[i]]
        0 <= i < a.children@.len() ==> same_tree(a.children@[i], b.children@[i])
}

impl Clone for CallTreeNode {
    fn clone(&self) -> (copy: CallTreeNode)
        ensures
            same_tree(*self, copy),
        decreases *self,
    {
        let mut children: Vec<CallTreeNode> = Vec::new();
        let mut i: usize = 0;
        while i < self.children.len()
            invariant
                i <= self.children@.len(),
                children@.len() == i,
                forall|k: int|
                    #![trigger children@[k]]
                    0 <= k < i ==> same_tree(self.children@[k], children@[k]),
            decreases self.children@.len() - i,
        {
            children.push(self.children[i].clone());
            i = i + 1;
        }
        CallTreeNode {
            function_name: self.function_name.clone(),
            self_time_ms: self.self_time_ms.clone(),
            total_time_ms: self.total_time_ms.clone(),
            total_percent: self.total_percent.clone(),
            children,
        }
    }
}

/// The number of intervals between the samples of a thread, over which its duration spreads.
/// Where there are fewer than two samples there is none; a sample then counts as one millisecond.
pub fn sample_intervals(thread: &ResolvedThread) -> (intervals: Option<usize>)
    ensures
        match intervals {
            Some(n) => thread.samples@.len() >= 2 && n == thread.samples@.len() - 1,
            None => thread.samples@.len() < 2,
        },
{
    if thread.samples.len() >= 2 {
        Some(thread.samples.len() - 1)
    } else {
        None
    }
}

/// The call of `name` from `path` is in the tree: it was sampled, within `max_depth` frames, and
/// its share of the profile reaches `min_percent`.
pub open spec fn kept(
    stacks: Seq<Seq<Seq<char>>>,
    path: Seq<Seq<char>>,
    name: Seq<char>,
    max_depth: nat,
    min_percent: Binary64,
    scale: Scale,
) -> bool {
    &&& calls(stacks, path, name, max_depth)
    &&& scale.percents@[total_count(stacks, path.push(name)) as int].value.at_least(min_percent)
}

/// Wherever the tree below `path` keeps two calls side by side, their times can be compared.
pub open spec fn comparable(
    stacks: Seq<Seq<Seq<char>>>,
    path: Seq<Seq<char>>,
    max_depth: nat,
    min_percent: Binary64,
    scale: Scale,
) -> bool
    decreases max_depth - path.len(),
{
    &&& forall|a: Seq<char>, b: Seq<char>|
        #[trigger]
        kept(stacks, path, a, max_depth, min_percent, scale) && #[trigger] kept(
            stacks,
            path,
            b,
            max_depth,
            min_percent,
            scale,
        ) && a != b ==> !scale.times@[total_count(stacks, path.push(a)) as int].value.not_a_number()
    &&& forall|name: Seq<char>| #[trigger]
        kept(stacks, path, name, max_depth, min_percent, scale) ==> comparable(
            stacks,
            path.push(name),
            max_depth,
            min_percent,
            scale,
        )
}

/// `node` shows what the samples that run along `path` amount to, and its children what the
/// calls made from there do: one child for each call that is kept, longest first.
pub open spec fn shows(
    node: CallTreeNode,
    stacks: Seq<Seq<Seq<char>>>,
    path: Seq<Seq<char>>,
    max_depth: nat,
    min_percent: Binary64,
    scale: Scale,
) -> bool
    decreases node,
{
    &&& node.self_time_ms == scale.times@[self_count(stacks, path) as int]
    &&& node.total_time_ms == scale.times@[total_count(stacks, path) as int]
    &&& node.total_percent == scale.percents@[total_count(stacks, path) as int]
    &&& forall|name: Seq<char>|
        kept(stacks, path, name, max_depth, min_percent, scale) <==> #[trigger] lists(
            node.children@,
            name,
        )
    &&& forall|i: int, j: int|
        #![trigger node.children@[i], node.children@[j]]
        0 <= i < j < node.children@.len() ==> {
            &&& node.children@[i].function_name@ != node.children@[j].function_name@
            &&& node.children@[i].total_time_ms.value.at_least(
                node.children@[j].total_time_ms.value,
            )
        }
    &&& forall|i: int|
        #![trigger node.children@[i]]
        0 <= i < node.children@.len() ==> shows(
            node.children@[i],
            stacks,
            path.push(node.children@[i].function_name@),
            max_depth,
            min_percent,
            scale,
        )
}

/// One of `children` is for the function `name`.
pub open spec fn lists(children: Seq<CallTreeNode>, name: Seq<char>) -> bool {
    exists|i: int| 0 <= i < children.len() && (#[trigger] children[i]).function_name@ == name
}

/// A node of the tree while samples are being counted into it.
struct TreeBuilder {
    name: String,
    self_count: usize,
    total_count: usize,
    children: Vec<TreeBuilder>,
}

/// The node holds the counts of `path` in `stacks`, and its children those of the calls made
/// from there.
spec fn tallies(
    node: TreeBuilder,
    stacks: Seq<Seq<Seq<char>>>,
    path: Seq<Seq<char>>,
    max_depth: nat,
) -> bool
    decreases node,
{
    &&& node.self_count == self_count(stacks, path)
    &&& node.total_count == total_count(stacks, path)
    &&& forall|i: int, j: int|
        #![trigger node.children@[i], node.children@[j]]
        0 <= i < j < node.children@.len() ==> node.children@[i].name@ != node.children@[j].name@
    &&& forall|i: int|
        0 <= i < node.children@.len() ==> calls(
            stacks,
            path,
            (#[trigger] node.children@[i]).name@,
            max_depth,
        )
    &&& forall|name: Seq<char>| #[trigger]
        calls(stacks, path, name, max_depth) ==> has_child(node.children@, name)
    &&& forall|i: int|
        #![trigger node.children@[i]]
        0 <= i < node.children@.len() ==> tallies(
            node.children@[i],
            stacks,
            path.push(node.children@[i].name@),
            max_depth,
        )
}

/// `rows` are the positions, among the first `n` children, of the calls that are kept.
spec fn selects(
    rows: Seq<usize>,
    children: Seq<TreeBuilder>,
    n: nat,
    stacks: Seq<Seq<Seq<char>>>,
    path: Seq<Seq<char>>,
    max_depth: nat,
    min_percent: Binary64,
    scale: Scale,
) -> bool {
    &&& forall|r: int| 0 <= r < rows.len() ==> (#[trigger] rows[r]) < n
    &&& forall|r: int, q: int|
        #![trigger rows[r], rows[q]]
        0 <= r < q < rows.len() ==> rows[r] < rows[q]
    &&& forall|r: int|
        0 <= r < rows.len() ==> kept(
            stacks,
            path,
            children[#[trigger] rows[r] as int].name@,
            max_depth,
            min_percent,
            scale,
        )
    &&& forall|c: int|
        0 <= c < n && kept(
            stacks,
            path,
            (#[trigger] children[c]).name@,
            max_depth,
            min_percent,
            scale,
        ) ==> has_row(rows, c)
}

spec fn has_row(rows: Seq<usize>, c: int) -> bool {
    exists|r: int| 0 <= r < rows.len() && #[trigger] rows[r] == c
}

spec fn has_child(children: Seq<TreeBuilder>, name: Seq<char>) -> bool {
    exists|i: int| 0 <= i < children.len() && (#[trigger] children[i]).name@ == name
}

/// Counting one more stack adds one to the paths that it runs along, and one to its own self count.
proof fn counts_after_push(
    stacks: Seq<Seq<Seq<char>>>,
    stack: Seq<Seq<char>>,
    path: Seq<Seq<char>>,
)
    ensures
        total_count(stacks.push(stack), path) == total_count(stacks, path) + if runs_along(
            stack,
            path,
        ) {
            1nat
        } else {
            0
        },
        self_count(stacks.push(stack), path) == self_count(stacks, path) + if stack == path {
            1nat
        } else {
            0
        },
{
    assert(stacks.push(stack).drop_last() =~= stacks);
}

/// A path is counted at most once per sample, and a call made from it at most as often as it.
proof fn counts_shrink_along_a_path(
    stacks: Seq<Seq<Seq<char>>>,
    path: Seq<Seq<char>>,
    name: Seq<char>,
)
    ensures
        self_count(stacks, path) <= total_count(stacks, path) <= stacks.len(),
        total_count(stacks, path.push(name)) <= total_count(stacks, path),
    decreases stacks.len(),
{
    if stacks.len() > 0 {
        counts_shrink_along_a_path(stacks.drop_last(), path, name);
        let stack = stacks.last();
        if stack == path {
            assert(stack.take(path.len() as int) =~= path);
        }
        if runs_along(stack, path.push(name)) {
            assert(stack.take(path.len() as int) =~= stack.take(path.len() + 1int).drop_last());
            assert(path.push(name).drop_last() =~= path);
        }
    }
}

/// A stack that does not run along `path` leaves the counts below `path` as they are.
proof fn tallies_without(
    node: TreeBuilder,
    stacks: Seq<Seq<Seq<char>>>,
    path: Seq<Seq<char>>,
    max_depth: nat,
    stack: Seq<Seq<char>>,
)
    requires
        tallies(node, stacks, path, max_depth),
        !runs_along(stack, path),
    ensures
        tallies(node, stacks.push(stack), path, max_depth),
    decreases node,
{
    let more = stacks.push(stack);
    counts_after_push(stacks, stack, path);
    assert(stack != path) by {
        assert(path.take(path.len() as int) =~= path);
    }
    assert forall|name: Seq<char>|
        #[trigger] calls(more, path, name, max_depth) == calls(stacks, path, name, max_depth) by {
        no_longer_path(stack, path, name);
        counts_after_push(stacks, stack, path.push(name));
    }
    assert forall|i: int|
        #![trigger node.children@[i]]
        0 <= i < node.children@.len() implies tallies(
        node.children@[i],
        more,
        path.push(node.children@[i].name@),
        max_depth,
    ) by {
        no_longer_path(stack, path, node.children@[i].name@);
        tallies_without(
            node.children@[i],
            stacks,
            path.push(node.children@[i].name@),
            max_depth,
            stack,
        );
    }
}

proof fn no_longer_path(stack: Seq<Seq<char>>, path: Seq<Seq<char>>, name: Seq<char>)
    ensures
        runs_along(stack, path.push(name)) <==> runs_along(stack, path) && path.len() < stack.len()
            && stack[path.len() as int] == name,
{
    if path.len() < stack.len() {
        assert(stack.take(path.len() + 1int) =~= stack.take(path.len() as int).push(
            stack[path.len() as int],
        ));
        assert(path.push(name).drop_last() =~= path);
        assert(path.push(name).last() == name);
        let longer = stack.take(path.len() as int).push(stack[path.len() as int]);
        assert(longer.drop_last() =~= stack.take(path.len() as int));
        assert(longer.last() == stack[path.len() as int]);
    }
}

/// A path on which no sample runs is tallied by an empty node.
proof fn tallies_of_unseen_path(
    node: TreeBuilder,
    stacks: Seq<Seq<Seq<char>>>,
    path: Seq<Seq<char>>,
    max_depth: nat,
)
    requires
        total_count(stacks, path) == 0,
        node.self_count == 0,
        node.total_count == 0,
        node.children@.len() == 0,
    ensures
        tallies(node, stacks, path, max_depth),
{
    counts_shrink_along_a_path(stacks, path, Seq::empty());
    assert forall|name: Seq<char>| !#[trigger] calls(stacks, path, name, max_depth) by {
        counts_shrink_along_a_path(stacks, path, name);
    }
}

/// A sample that ends at a node adds to its own counts alone.
proof fn tallies_after_leaf(
    before: TreeBuilder,
    after: TreeBuilder,
    stacks: Seq<Seq<Seq<char>>>,
    stack: Seq<Seq<char>>,
    max_depth: nat,
)
    requires
        tallies(before, stacks, stack, max_depth),
        after.self_count == before.self_count + 1,
        after.total_count == before.total_count + 1,
        after.children == before.children,
    ensures
        tallies(after, stacks.push(stack), stack, max_depth),
{
    let more = stacks.push(stack);
    counts_after_push(stacks, stack, stack);
    assert(stack.take(stack.len() as int) =~= stack);
    assert forall|name: Seq<char>| #[trigger]
        calls(more, stack, name, max_depth) == calls(stacks, stack, name, max_depth) by {
        counts_after_push(stacks, stack, stack.push(name));
    }
    assert forall|i: int|
        #![trigger after.children@[i]]
        0 <= i < after.children@.len() implies tallies(
        after.children@[i],
        more,
        stack.push(after.children@[i].name@),
        max_depth,
    ) by {
        let child = before.children@[i];
        tallies_without(child, stacks, stack.push(child.name@), max_depth, stack);
    }
}

/// A sample that goes on into a call adds to the node's total, and is counted below in the child
/// for that call, at position `at`.
proof fn tallies_after_call(
    before: TreeBuilder,
    after: TreeBuilder,
    stacks: Seq<Seq<Seq<char>>>,
    stack: Seq<Seq<char>>,
    path: Seq<Seq<char>>,
    max_depth: nat,
    at: int,
)
    requires
        tallies(before, stacks, path, max_depth),
        runs_along(stack, path),
        path.len() < stack.len(),
        path.len() < max_depth,
        after.self_count == before.self_count,
        after.total_count == before.total_count + 1,
        0 <= at < after.children@.len(),
        after.children@.len() == before.children@.len() || (after.children@.len()
            == before.children@.len() + 1 && at == before.children@.len()),
        forall|i: int|
            0 <= i < before.children@.len() && i != at ==> after.children@[i]
                == #[trigger] before.children@[i] && before.children@[i].name@
                != stack[path.len() as int],
        at < before.children@.len() ==> before.children@[at].name@ == stack[path.len() as int],
        after.children@[at].name@ == stack[path.len() as int],
        tallies(
            after.children@[at],
            stacks.push(stack),
            path.push(stack[path.len() as int]),
            max_depth,
        ),
    ensures
        tallies(after, stacks.push(stack), path, max_depth),
{
    let more = stacks.push(stack);
    let called = stack[path.len() as int];
    counts_after_push(stacks, stack, path);
    assert forall|name: Seq<char>| #[trigger]
        calls(more, path, name, max_depth) == (name == called || calls(
            stacks,
            path,
            name,
            max_depth,
        )) by {
        no_longer_path(stack, path, name);
        counts_after_push(stacks, stack, path.push(name));
    }
    assert forall|i: int|
        #![trigger after.children@[i]]
        0 <= i < after.children@.len() implies tallies(
        after.children@[i],
        more,
        path.push(after.children@[i].name@),
        max_depth,
    ) by {
        if i != at {
            let child = before.children@[i];
            no_longer_path(stack, path, child.name@);
            tallies_without(child, stacks, path.push(child.name@), max_depth, stack);
        }
    }
    assert forall|name: Seq<char>| #[trigger] calls(more, path, name, max_depth) implies has_child(
        after.children@,
        name,
    ) by {
        if name == called {
            assert(after.children@[at].name@ == name);
        } else {
            let i = choose|i: int|
                0 <= i < before.children@.len() && (#[trigger] before.children@[i]).name@ == name;
            assert(after.children@[i].name@ == name);
        }
    }
    assert forall|i: int| 0 <= i < after.children@.len() implies calls(
        more,
        path,
        (#[trigger] after.children@[i]).name@,
        max_depth,
    ) by {
        if i != at {
            assert(calls(stacks, path, before.children@[i].name@, max_depth));
        }
    }
    assert forall|i: int, j: int|
        #![trigger after.children@[i], after.children@[j]]
        0 <= i < j < after.children@.len() implies after.children@[i].name@
        != after.children@[j].name@ by {
        if i != at && j != at {
            assert(before.children@[i].name@ != before.children@[j].name@);
        } else if i != at {
            assert(before.children@[i].name@ != called);
        } else {
            assert(before.children@[j].name@ != called);
        }
    }
}

impl TreeBuilder {
    fn new(name: String) -> (node: TreeBuilder)
        ensures
            node.name == name,
            node.self_count == 0,
            node.total_count == 0,
            node.children@.len() == 0,
    {
        TreeBuilder { name, self_count: 0, total_count: 0, children: Vec::new() }
    }

    /// Counts one more sample, which runs along the first `depth` frames of its stack to here.
    fn count_sample(
        &mut self,
        stack: &Vec<ResolvedFrame>,
        depth: usize,
        max_depth: usize,
        Ghost(stacks): Ghost<Seq<Seq<Seq<char>>>>,
    )
        requires
            depth <= stack@.len(),
            depth <= max_depth,
            stacks.len() < usize::MAX,
            tallies(*old(self), stacks, stack_names(stack@).take(depth as int), max_depth as nat),
        ensures
            tallies(
                *final(self),
                stacks.push(stack_names(stack@)),
                stack_names(stack@).take(depth as int),
                max_depth as nat,
            ),
            final(self).name == old(self).name,
        decreases stack@.len() - depth,
    {
        let ghost names = stack_names(stack@);
        let ghost path = names.take(depth as int);
        let ghost more = stacks.push(names);
        let ghost before = *self;
        proof {
            counts_shrink_along_a_path(stacks, path, Seq::empty());
            counts_after_push(stacks, names, path);
            assert(names.take(path.len() as int) =~= path);
        }
        self.total_count = self.total_count + 1;
        if depth == stack.len() {
            self.self_count = self.self_count + 1;
            proof {
                assert(path =~= names);
                tallies_after_leaf(before, *self, stacks, names, max_depth as nat);
            }
            return;
        }
        if depth >= max_depth {
            proof {
                assert(self.children@.len() == 0) by {
                    if self.children@.len() > 0 {
                        assert(calls(stacks, path, before.children@[0].name@, max_depth as nat));
                    }
                }
            }
            return;
        }
        let name = &stack[depth].function_name;
        let mut at: usize = 0;
        while at < self.children.len() && self.children[at].name != *name
            invariant
                at <= self.children@.len(),
                forall|i: int| 0 <= i < at ==> (#[trigger] self.children@[i]).name@ != name@,
            decreases self.children@.len() - at,
        {
            at = at + 1;
        }
        if at == self.children.len() {
            self.children.push(TreeBuilder::new(name.clone()));
            proof {
                assert(!has_child(before.children@, name@));
                assert(!calls(stacks, path, name@, max_depth as nat));
                tallies_of_unseen_path(
                    self.children@[at as int],
                    stacks,
                    path.push(name@),
                    max_depth as nat,
                );
            }
        }
        assert(names.take(depth + 1) =~= path.push(name@));
        self.children[at].count_sample(stack, depth + 1, max_depth, Ghost(stacks));
        proof {
            tallies_after_call(before, *self, stacks, names, path, max_depth as nat, at as int);
        }
    }

    /// The positions of the children whose share reaches `min_percent`.
    fn kept_children(
        &self,
        min_percent: Binary64,
        scale: &Scale,
        Ghost(stacks): Ghost<Seq<Seq<Seq<char>>>>,
        Ghost(path): Ghost<Seq<Seq<char>>>,
        Ghost(max_depth): Ghost<nat>,
    ) -> (rows: Vec<usize>)
        requires
            tallies(*self, stacks, path, max_depth),
            scale.covers(stacks.len()),
        ensures
            selects(
                rows@,
                self.children@,
                self.children@.len(),
                stacks,
                path,
                max_depth,
                min_percent,
                *scale,
            ),
    {
        let mut rows: Vec<usize> = Vec::new();
        let mut i: usize = 0;
        while i < self.children.len()
            invariant
                i <= self.children@.len(),
                tallies(*self, stacks, path, max_depth),
                scale.covers(stacks.len()),
                selects(
                    rows@,
                    self.children@,
                    i as nat,
                    stacks,
                    path,
                    max_depth,
                    min_percent,
                    *scale,
                ),
            decreases self.children@.len() - i,
        {
            let child = &self.children[i];
            let ghost before = rows@;
            proof {
                assert(tallies(*child, stacks, path.push(child.name@), max_depth));
                counts_shrink_along_a_path(stacks, path.push(child.name@), Seq::empty());
            }
            if scale.percents[child.total_count].value.reaches(min_percent) {
                rows.push(i);
                assert(rows@[before.len() as int] == i);
            }
            proof {
                assert forall|c: int| #[trigger] has_row(before, c) implies has_row(rows@, c) by {
                    let at = choose|at: int| 0 <= at < before.len() && #[trigger] before[at] == c;
                    assert(rows@[at] == c);
                }
            }
            i = i + 1;
        }
        rows
    }

    /// Whether the times of the calls that are kept side by side can be compared.
    fn is_comparable(
        &self,
        min_percent: Binary64,
        scale: &Scale,
        Ghost(stacks): Ghost<Seq<Seq<Seq<char>>>>,
        Ghost(path): Ghost<Seq<Seq<char>>>,
        Ghost(max_depth): Ghost<nat>,
    ) -> (answer: bool)
        requires
            tallies(*self, stacks, path, max_depth),
            scale.covers(stacks.len()),
        ensures
            answer == comparable(stacks, path, max_depth, min_percent, *scale),
        decreases *self,
    {
        let rows = self.kept_children(
            min_percent,
            scale,
            Ghost(stacks),
            Ghost(path),
            Ghost(max_depth),
        );
        let mut i: usize = 0;
        while i < rows.len()
            invariant
                i <= rows@.len(),
                tallies(*self, stacks, path, max_depth),
                scale.covers(stacks.len()),
                selects(
                    rows@,
                    self.children@,
                    self.children@.len(),
                    stacks,
                    path,
                    max_depth,
                    min_percent,
                    *scale,
                ),
                forall|r: int|
                    #![trigger rows@[r]]
                    0 <= r < i ==> {
                        let child = self.children@[rows@[r] as int];
                        &&& rows@.len() >= 2 ==> !scale.times@[child.total_count as int]
                            .value.not_a_number()
                        &&& comparable(
                            stacks,
                            path.push(child.name@),
                            max_depth,
                            min_percent,
                            *scale,
                        )
                    },
            decreases rows@.len() - i,
        {
            let child = &self.children[rows[i]];
            proof {
                assert(tallies(*child, stacks, path.push(child.name@), max_depth));
                counts_shrink_along_a_path(stacks, path.push(child.name@), Seq::empty());
                assert(kept(stacks, path, child.name@, max_depth, min_percent, *scale));
            }
            if rows.len() >= 2 && scale.times[child.total_count].value.is_nan() {
                proof {
                    let other: int = if i == 0 {
                        1
                    } else {
                        0
                    };
                    let sibling = self.children@[rows@[other] as int];
                    assert(kept(stacks, path, sibling.name@, max_depth, min_percent, *scale));
                    assert(rows@[other] != rows@[i as int]);
                    assert(sibling.name@ != child.name@);
                }
                return false;
            }
            if !child.is_comparable(
                min_percent,
                scale,
                Ghost(stacks),
                Ghost(path.push(child.name@)),
                Ghost(max_depth),
            ) {
                return false;
            }
            i = i + 1;
        }
        proof {
            assert forall|name: Seq<char>| #[trigger]
                kept(stacks, path, name, max_depth, min_percent, *scale) implies exists|r: int|
                0 <= r < rows@.len() && self.children@[#[trigger] rows@[r] as int].name@
                    == name by {
                assert(has_child(self.children@, name));
                let c = choose|c: int|
                    0 <= c < self.children@.len() && (#[trigger] self.children@[c]).name@ == name;
                assert(has_row(rows@, c));
            }
            assert forall|a: Seq<char>, b: Seq<char>|
                #[trigger] kept(stacks, path, a, max_depth, min_percent, *scale)
                    && #[trigger] kept(stacks, path, b, max_depth, min_percent, *scale) && a
                    != b implies !scale.times@[total_count(
                stacks,
                path.push(a),
            ) as int].value.not_a_number() by {
                let r = choose|r: int|
                    0 <= r < rows@.len() && self.children@[#[trigger] rows@[r] as int].name@ == a;
                let q = choose|q: int|
                    0 <= q < rows@.len() && self.children@[#[trigger] rows@[q] as int].name@ == b;
                assert(r != q);
                let child = self.children@[rows@[r] as int];
                assert(tallies(child, stacks, path.push(child.name@), max_depth));
            }
        }
        true
    }

    /// The finished node, without the calls whose share is below `min_percent`.
    fn into_node(
        &self,
        min_percent: Binary64,
        scale: &Scale,
        Ghost(stacks): Ghost<Seq<Seq<Seq<char>>>>,
        Ghost(path): Ghost<Seq<Seq<char>>>,
        Ghost(max_depth): Ghost<nat>,
    ) -> (node: CallTreeNode)
        requires
            tallies(*self, stacks, path, max_depth),
            scale.covers(stacks.len()),
            comparable(stacks, path, max_depth, min_percent, *scale),
        ensures
            shows(node, stacks, path, max_depth, min_percent, *scale),
            node.function_name == self.name,
        decreases *self,
    {
        proof {
            counts_shrink_along_a_path(stacks, path, Seq::empty());
        }
        let rows = self.kept_children(
            min_percent,
            scale,
            Ghost(stacks),
            Ghost(path),
            Ghost(max_depth),
        );
        let mut keys: Vec<u64> = Vec::new();
        let mut i: usize = 0;
        while i < rows.len()
            invariant
                i <= rows@.len(),
                keys@.len() == i,
                tallies(*self, stacks, path, max_depth),
                scale.covers(stacks.len()),
                forall|r: int|
                    0 <= r < rows@.len() ==> (#[trigger] rows@[r]) < self.children@.len(),
                forall|r: int|
                    0 <= r < i ==> #[trigger] keys@[r]
                        == scale.times@[self.children@[rows@[r] as int].total_count as int]
                        .value.position() + SIGN_BIT,
            decreases rows@.len() - i,
        {
            let child = &self.children[rows[i]];
            proof {
                assert(tallies(*child, stacks, path.push(child.name@), max_depth));
                counts_shrink_along_a_path(stacks, path.push(child.name@), Seq::empty());
            }
            keys.push(scale.times[child.total_count].value.order_key());
            i = i + 1;
        }
        let order = listing_order(&keys);
        let mut children: Vec<CallTreeNode> = Vec::new();
        let mut j: usize = 0;
        while j < order.len()
            invariant
                j <= order@.len(),
                rows@.len() == keys@.len(),
                is_listing(keys@, order@),
                tallies(*self, stacks, path, max_depth),
                scale.covers(stacks.len()),
                comparable(stacks, path, max_depth, min_percent, *scale),
                forall|r: int|
                    0 <= r < rows@.len() ==> (#[trigger] rows@[r]) < self.children@.len(),
                forall|r: int|
                    0 <= r < rows@.len() ==> kept(
                        stacks,
                        path,
                        self.children@[#[trigger] rows@[r] as int].name@,
                        max_depth,
                        min_percent,
                        *scale,
                    ),
                children@.len() == j,
                forall|c: int|
                    #![trigger children@[c]]
                    0 <= c < j ==> {
                        &&& children@[c].function_name
                            == self.children@[rows@[order@[c] as int] as int].name
                        &&& shows(
                            children@[c],
                            stacks,
                            path.push(children@[c].function_name@),
                            max_depth,
                            min_percent,
                            *scale,
                        )
                    },
            decreases order@.len() - j,
        {
            let child = &self.children[rows[order[j]]];
            proof {
                assert(kept(stacks, path, child.name@, max_depth, min_percent, *scale));
                assert(tallies(*child, stacks, path.push(child.name@), max_depth));
            }
            children.push(
                child.into_node(
                    min_percent,
                    scale,
                    Ghost(stacks),
                    Ghost(path.push(child.name@)),
                    Ghost(max_depth),
                ),
            );
            j = j + 1;
        }
        let node = CallTreeNode {
            function_name: self.name.clone(),
            self_time_ms: scale.times[self.self_count].clone(),
            total_time_ms: scale.times[self.total_count].clone(),
            total_percent: scale.percents[self.total_count].clone(),
            children,
        };
        proof {
            assert forall|name: Seq<char>|
                kept(stacks, path, name, max_depth, min_percent, *scale) <==> #[trigger] lists(
                    node.children@,
                    name,
                ) by {
                if kept(stacks, path, name, max_depth, min_percent, *scale) {
                    assert(has_child(self.children@, name));
                    let c = choose|c: int|
                        0 <= c < self.children@.len() && (#[trigger] self.children@[c]).name@
                            == name;
                    assert(has_row(rows@, c));
                    let r = choose|r: int| 0 <= r < rows@.len() && #[trigger] rows@[r] == c;
                    assert(order@.contains(r as usize));
                    let at = choose|at: int| 0 <= at < order@.len() && order@[at] == r as usize;
                    assert(node.children@[at].function_name@ == name);
                }
            }
            assert forall|a: int, b: int|
                #![trigger node.children@[a], node.children@[b]]
                0 <= a < b < node.children@.len() implies {
                &&& node.children@[a].function_name@ != node.children@[b].function_name@
                &&& node.children@[a].total_time_ms.value.at_least(
                    node.children@[b].total_time_ms.value,
                )
            } by {
                let first = self.children@[rows@[order@[a] as int] as int];
                let second = self.children@[rows@[order@[b] as int] as int];
                assert(precedes(keys@, order@[a] as int, order@[b] as int));
                assert(rows@[order@[a] as int] != rows@[order@[b] as int]);
                assert(first.name@ != second.name@);
                assert(tallies(first, stacks, path.push(first.name@), max_depth));
                assert(tallies(second, stacks, path.push(second.name@), max_depth));
                assert(kept(stacks, path, first.name@, max_depth, min_percent, *scale));
                assert(kept(stacks, path, second.name@, max_depth, min_percent, *scale));
                assert(keys@[order@[a] as int] >= keys@[order@[b] as int]);
            }
        }
        node
    }
}

fn count_thread(thread: &ResolvedThread, max_depth: usize) -> (root: TreeBuilder)
    ensures
        root.name@ == "(root)"@,
        tallies(root, sample_stacks(thread.samples@), Seq::empty(), max_depth as nat),
{
    let ghost stacks = sample_stacks(thread.samples@);
    let ghost root_path = Seq::<Seq<char>>::empty();
    let mut root = TreeBuilder::new(String::from_str("(root)"));
    proof {
        tallies_of_unseen_path(root, stacks.take(0), root_path, max_depth as nat);
    }
    let mut i: usize = 0;
    while i < thread.samples.len()
        invariant
            i <= thread.samples@.len(),
            stacks == sample_stacks(thread.samples@),
            root_path == Seq::<Seq<char>>::empty(),
            root.name@ == "(root)"@,
            tallies(root, stacks.take(i as int), root_path, max_depth as nat),
        decreases thread.samples@.len() - i,
    {
        let stack = &thread.samples[i].stack;
        proof {
            assert(stack_names(stack@).take(0) =~= root_path);
            assert(stacks.take(i + 1) =~= stacks.take(i as int).push(stack_names(stack@)));
        }
        root.count_sample(stack, 0, max_depth, Ghost(stacks.take(i as int)));
        i = i + 1;
    }
    assert(stacks.take(i as int) =~= stacks);
    root
}

/// Whether the call tree of a thread can be built: whether the times of the calls that it keeps
/// side by side can be compared.
pub fn call_times_compare(
    thread: &ResolvedThread,
    max_depth: usize,
    min_percent: Binary64,
    scale: &Scale,
) -> (answer: bool)
    requires
        scale.covers(thread.samples@.len()),
    ensures
        answer == comparable(
            sample_stacks(thread.samples@),
            Seq::empty(),
            max_depth as nat,
            min_percent,
            *scale,
        ),
{
    let root = count_thread(thread, max_depth);
    root.is_comparable(
        min_percent,
        scale,
        Ghost(sample_stacks(thread.samples@)),
        Ghost(Seq::empty()),
        Ghost(max_depth as nat),
    )
}

/// The call tree of a thread: calls up to `max_depth` frames deep whose share of the profile
/// reaches `min_percent`.
///
/// A sample counts towards every call that its stack begins with. It counts as time of a function
/// itself only where its stack ends; time spent deeper than `max_depth` is nobody's own.
pub fn build_call_tree(
    thread: &ResolvedThread,
    max_depth: usize,
    min_percent: Binary64,
    scale: &Scale,
) -> (tree: CallTreeNode)
    requires
        scale.covers(thread.samples@.len()),
        comparable(
            sample_stacks(thread.samples@),
            Seq::empty(),
            max_depth as nat,
            min_percent,
            *scale,
        ),
    ensures
        tree.function_name@ == "(root)"@,
        shows(
            tree,
            sample_stacks(thread.samples@),
            Seq::empty(),
            max_depth as nat,
            min_percent,
            *scale,
        ),
{
    let root = count_thread(thread, max_depth);
    root.into_node(
        min_percent,
        scale,
        Ghost(sample_stacks(thread.samples@)),
        Ghost(Seq::empty()),
        Ghost(max_depth as nat),
    )
}

/// Two spaces for each level.
pub open spec fn indentation(depth: nat) -> Seq<char> {
    Seq::new(2 * depth, |i: int| ' ')
}

/// The line of a node `depth` levels below the root.
pub open spec fn rendered_line(node: CallTreeNode, depth: nat) -> Seq<char> {
    indentation(depth) + node.function_name@ + " ["@ + node.total_percent.text@ + "% total, "@
        + node.self_time_ms.text@ + "ms self]\n"@
}

/// The lines of a node and of all below it, down to `max_depth` levels, each node's line before
/// those of its children.
pub open spec fn rendered(node: CallTreeNode, depth: nat, max_depth: nat) -> Seq<char>
    decreases node,
{
    if depth > max_depth {
        Seq::empty()
    } else {
        rendered_line(node, depth) + rendered_forest(node.children@, depth + 1, max_depth)
    }
}

/// The lines of several nodes, one node after the other.
pub open spec fn rendered_forest(nodes: Seq<CallTreeNode>, depth: nat, max_depth: nat) -> Seq<char>
    decreases nodes,
{
    if nodes.len() == 0 {
        Seq::empty()
    } else {
        rendered_forest(nodes.drop_last(), depth, max_depth) + rendered(
            nodes.last(),
            depth,
            max_depth,
        )
    }
}

/// Nodes deeper than `max_depth` have no lines.
proof fn nothing_below(nodes: Seq<CallTreeNode>, depth: nat, max_depth: nat)
    requires
        depth > max_depth,
    ensures
        rendered_forest(nodes, depth, max_depth) == Seq::<char>::empty(),
    decreases nodes.len(),
{
    if nodes.len() > 0 {
        nothing_below(nodes.drop_last(), depth, max_depth);
        assert(rendered(nodes.last(), depth, max_depth) == Seq::<char>::empty());
    }
}

impl CallTreeNode {
    /// The tree as text, down to `max_depth` levels below this node: one line per node, indented
    /// by its depth.
    pub fn render_text(&self, max_depth: usize) -> (text: String)
        ensures
            text@ == rendered(*self, 0, max_depth as nat),
    {
        let mut output = String::new();
        self.render_recursive(&mut output, 0, max_depth);
        assert(output@ =~= rendered(*self, 0, max_depth as nat));
        output
    }

    /// Appends the text of this node and of what is below it to `output`, as it reads `depth`
    /// levels down: the lines are indented by as many levels, and end at `max_depth`.
    pub fn render_recursive(&self, output: &mut String, depth: usize, max_depth: usize)
        ensures
            final(output)@ == old(output)@ + rendered(*self, depth as nat, max_depth as nat),
        decreases *self,
    {
        let ghost before = output@;
        if depth > max_depth {
            assert(output@ =~= before + rendered(*self, depth as nat, max_depth as nat));
            return;
        }
        let mut level: usize = 0;
        while level < depth
            invariant
                level <= depth,
                output@ == before + indentation(level as nat),
            decreases depth - level,
        {
            output.append("  ");
            proof {
                reveal_strlit("  ");
                assert(indentation(level as nat + 1) =~= indentation(level as nat) + "  "@);
            }
            level = level + 1;
        }
        output.append(self.function_name.as_str());
        output.append(" [");
        output.append(self.total_percent.text.as_str());
        output.append("% total, ");
        output.append(self.self_time_ms.text.as_str());
        output.append("ms self]\n");
        assert(output@ =~= before + rendered_line(*self, depth as nat));
        if depth == max_depth {
            proof {
                nothing_below(self.children@, depth as nat + 1, max_depth as nat);
            }
            assert(output@ =~= before + rendered(*self, depth as nat, max_depth as nat));
            return;
        }
        let mut i: usize = 0;
        while i < self.children.len()
            invariant
                i <= self.children@.len(),
                depth < max_depth,
                output@ == before + rendered_line(*self, depth as nat) + rendered_forest(
                    self.children@.take(i as int),
                    depth as nat + 1,
                    max_depth as nat,
                ),
            decreases self.children@.len() - i,
        {
            self.children[i].render_recursive(output, depth + 1, max_depth);
            proof {
                let shown = self.children@.take(i + 1);
                assert(shown.drop_last() =~= self.children@.take(i as int));
                assert(shown.last() == self.children@[i as int]);
                assert(output@ =~= before + rendered_line(*self, depth as nat) + rendered_forest(
                    shown,
                    depth as nat + 1,
                    max_depth as nat,
                ));
            }
            i = i + 1;
        }
        proof {
            assert(self.children@.take(i as int) =~= self.children@);
            assert(output@ =~= before + rendered(*self, depth as nat, max_depth as nat));
        }
    }
}

/// Every sample is below the root.
pub proof fn root_counts_every_sample(stacks: Seq<Seq<Seq<char>>>)
    ensures
        total_count(stacks, Seq::empty()) == stacks.len(),
    decreases stacks.len(),
{
    if stacks.len() > 0 {
        root_counts_every_sample(stacks.drop_last());
        assert(stacks.last().take(0) =~= Seq::<Seq<char>>::empty());
    }
}

/// The samples along the calls of several functions from the same place.
pub open spec fn total_of_calls(
    stacks: Seq<Seq<Seq<char>>>,
    path: Seq<Seq<char>>,
    names: Seq<Seq<char>>,
) -> nat
    decreases names.len(),
{
    if names.len() == 0 {
        0
    } else {
        total_of_calls(stacks, path, names.drop_last()) + total_count(
            stacks,
            path.push(names.last()),
        )
    }
}

/// No sample is lost and none is counted twice: those along a path are those that end there and
/// those that go on into one of the functions called from there.
pub proof fn samples_split_over_calls(
    stacks: Seq<Seq<Seq<char>>>,
    path: Seq<Seq<char>>,
    names: Seq<Seq<char>>,
)
    requires
        names.no_duplicates(),
        forall|name: Seq<char>| #[trigger]
            total_count(stacks, path.push(name)) > 0 ==> names.contains(name),
    ensures
        total_count(stacks, path) == self_count(stacks, path) + total_of_calls(stacks, path, names),
    decreases stacks.len(),
{
    if stacks.len() == 0 {
        no_samples_no_calls(stacks, path, names);
    } else {
        let front = stacks.drop_last();
        let stack = stacks.last();
        assert forall|name: Seq<char>| #[trigger]
            total_count(front, path.push(name)) > 0 implies names.contains(name) by {
            assert(total_count(stacks, path.push(name)) > 0);
        }
        samples_split_over_calls(front, path, names);
        one_more_stack(front, stack, path, names);
        assert(front.push(stack) =~= stacks);
        counts_after_push(front, stack, path);
        if runs_along(stack, path) && stack != path {
            assert(path.len() < stack.len()) by {
                if path.len() == stack.len() {
                    assert(stack.take(path.len() as int) =~= stack);
                }
            }
            let name = stack[path.len() as int];
            no_longer_path(stack, path, name);
            counts_after_push(front, stack, path.push(name));
            assert(total_count(stacks, path.push(name)) > 0);
            assert(names.contains(name));
        }
        if stack == path {
            assert(stack.take(path.len() as int) =~= path);
        }
    }
}

proof fn no_samples_no_calls(
    stacks: Seq<Seq<Seq<char>>>,
    path: Seq<Seq<char>>,
    names: Seq<Seq<char>>,
)
    requires
        stacks.len() == 0,
    ensures
        total_of_calls(stacks, path, names) == 0,
    decreases names.len(),
{
    if names.len() > 0 {
        no_samples_no_calls(stacks, path, names.drop_last());
    }
}

/// One more stack adds one to the calls of `names` where it goes on into one of them.
proof fn one_more_stack(
    stacks: Seq<Seq<Seq<char>>>,
    stack: Seq<Seq<char>>,
    path: Seq<Seq<char>>,
    names: Seq<Seq<char>>,
)
    requires
        names.no_duplicates(),
    ensures
        total_of_calls(stacks.push(stack), path, names) == total_of_calls(stacks, path, names)
            + if runs_along(stack, path) && path.len() < stack.len() && names.contains(
            stack[path.len() as int],
        ) {
            1nat
        } else {
            0
        },
    decreases names.len(),
{
    if names.len() > 0 {
        let front = names.drop_last();
        let last = names.last();
        one_more_stack(stacks, stack, path, front);
        counts_after_push(stacks, stack, path.push(last));
        no_longer_path(stack, path, last);
        if path.len() < stack.len() {
            let called = stack[path.len() as int];
            if front.contains(called) {
                let i = choose|i: int| 0 <= i < front.len() && front[i] == called;
                assert(names[i] == called);
                assert(called != last);
            } else if called == last {
                assert(names[names.len() - 1] == called);
            } else if names.contains(called) {
                let i = choose|i: int| 0 <= i < names.len() && names[i] == called;
                assert(front[i] == called);
            }
        }
    }
}

/// A tree of greater depth, or with a lower threshold, keeps every call that one of less depth
/// or with a higher threshold keeps.
pub proof fn wider_limits_keep_more(
    stacks: Seq<Seq<Seq<char>>>,
    path: Seq<Seq<char>>,
    name: Seq<char>,
    depths: (nat, nat),
    percents: (Binary64, Binary64),
    scale: Scale,
)
    requires
        depths.0 <= depths.1,
        percents.0.at_least(percents.1),
        kept(stacks, path, name, depths.0, percents.0, scale),
    ensures
        kept(stacks, path, name, depths.1, percents.1, scale),
{
}

/// The limits decide which calls a tree shows, not what it shows of them: time that is spent
/// deeper than a tree goes is no function's own.
pub proof fn limits_do_not_move_time(
    a: CallTreeNode,
    b: CallTreeNode,
    stacks: Seq<Seq<Seq<char>>>,
    path: Seq<Seq<char>>,
    depths: (nat, nat),
    percents: (Binary64, Binary64),
    scale: Scale,
)
    requires
        shows(a, stacks, path, depths.0, percents.0, scale),
        shows(b, stacks, path, depths.1, percents.1, scale),
    ensures
        a.self_time_ms == b.self_time_ms,
        a.total_time_ms == b.total_time_ms,
        a.total_percent == b.total_percent,
{
}

/// Where every time of a scale is a number, calls can always be compared.
pub proof fn numbers_are_comparable(
    stacks: Seq<Seq<Seq<char>>>,
    path: Seq<Seq<char>>,
    max_depth: nat,
    min_percent: Binary64,
    scale: Scale,
)
    requires
        scale.covers(stacks.len()),
        forall|n: int|
            0 <= n < scale.times@.len() ==> !(#[trigger] scale.times@[n]).value.not_a_number(),
    ensures
        comparable(stacks, path, max_depth, min_percent, scale),
    decreases max_depth - path.len(),
{
    assert forall|a: Seq<char>| #[trigger]
        kept(stacks, path, a, max_depth, min_percent, scale) implies !scale.times@[total_count(
        stacks,
        path.push(a),
    ) as int].value.not_a_number() by {
        counts_shrink_along_a_path(stacks, path.push(a), Seq::empty());
    }
    assert forall|name: Seq<char>| #[trigger]
        kept(stacks, path, name, max_depth, min_percent, scale) implies comparable(
        stacks,
        path.push(name),
        max_depth,
        min_percent,
        scale,
    ) by {
        numbers_are_comparable(stacks, path.push(name), max_depth, min_percent, scale);
    }
}

/// A tree is shown in full at the depth that it was built for: looking deeper shows no more.
pub proof fn tree_is_shown_in_full(
    tree: CallTreeNode,
    stacks: Seq<Seq<Seq<char>>>,
    max_depth: nat,
    min_percent: Binary64,
    scale: Scale,
    deeper: nat,
)
    requires
        shows(tree, stacks, Seq::empty(), max_depth, min_percent, scale),
        max_depth <= deeper,
    ensures
        rendered(tree, 0, max_depth) == rendered(tree, 0, deeper),
{
    node_is_shown_in_full(tree, stacks, Seq::empty(), max_depth, min_percent, scale, deeper);
}

proof fn node_is_shown_in_full(
    node: CallTreeNode,
    stacks: Seq<Seq<Seq<char>>>,
    path: Seq<Seq<char>>,
    max_depth: nat,
    min_percent: Binary64,
    scale: Scale,
    deeper: nat,
)
    requires
        shows(node, stacks, path, max_depth, min_percent, scale),
        path.len() <= max_depth <= deeper,
    ensures
        rendered(node, path.len(), max_depth) == rendered(node, path.len(), deeper),
    decreases node, 0nat,
{
    if path.len() == max_depth {
        assert(node.children@.len() == 0) by {
            if node.children@.len() > 0 {
                assert(lists(node.children@, node.children@[0].function_name@));
            }
        }
    } else {
        assert(node.children@.take(node.children@.len() as int) =~= node.children@);
        children_are_shown_in_full(
            node,
            stacks,
            path,
            max_depth,
            min_percent,
            scale,
            deeper,
            node.children@.len(),
        );
    }
}

proof fn children_are_shown_in_full(
    node: CallTreeNode,
    stacks: Seq<Seq<Seq<char>>>,
    path: Seq<Seq<char>>,
    max_depth: nat,
    min_percent: Binary64,
    scale: Scale,
    deeper: nat,
    n: nat,
)
    requires
        shows(node, stacks, path, max_depth, min_percent, scale),
        path.len() < max_depth <= deeper,
        n <= node.children@.len(),
    ensures
        rendered_forest(node.children@.take(n as int), path.len() + 1, max_depth)
            == rendered_forest(node.children@.take(n as int), path.len() + 1, deeper),
    decreases node, 0nat, n,
{
    if n > 0 {
        let before = (n - 1) as nat;
        children_are_shown_in_full(
            node,
            stacks,
            path,
            max_depth,
            min_percent,
            scale,
            deeper,
            before,
        );
        let child = node.children@[before as int];
        node_is_shown_in_full(
            child,
            stacks,
            path.push(child.function_name@),
            max_depth,
            min_percent,
            scale,
            deeper,
        );
        assert(node.children@.take(n as int).drop_last() =~= node.children@.take(before as int));
    }
}

/// The share of every node from `node` down is below `min_percent`.
pub open spec fn all_below(node: CallTreeNode, min_percent: Binary64) -> bool
    decreases node,
{
    &&& node.total_percent.value.less(min_percent)
    &&& forall|i: int|
        #![trigger node.children@[i]]
        0 <= i < node.children@.len() ==> all_below(node.children@[i], min_percent)
}

/// One of `children` is for the function `name`, and its share reaches `min_percent`.
pub open spec fn lists_above(
    children: Seq<CallTreeNode>,
    name: Seq<char>,
    min_percent: Binary64,
) -> bool {
    exists|i: int|
        0 <= i < children.len() && (#[trigger] children[i]).function_name@ == name
            && children[i].total_percent.value.at_least(min_percent)
}

/// `tight` is `loose` without the nodes below it whose share is below `min_percent`: values are
/// the same, the children are those that reach the threshold, each without what is below it in
/// turn, and under a child that is left out nothing reaches the threshold.
pub open spec fn is_pruned(loose: CallTreeNode, tight: CallTreeNode, min_percent: Binary64) -> bool
    decreases loose,
{
    &&& tight.self_time_ms == loose.self_time_ms
    &&& tight.total_time_ms == loose.total_time_ms
    &&& tight.total_percent == loose.total_percent
    &&& forall|name: Seq<char>| #[trigger]
        lists(tight.children@, name) <==> lists_above(loose.children@, name, min_percent)
    &&& forall|i: int, j: int|
        #![trigger loose.children@[i], tight.children@[j]]
        0 <= i < loose.children@.len() && 0 <= j < tight.children@.len()
            && loose.children@[i].function_name@ == tight.children@[j].function_name@ ==> is_pruned(
            loose.children@[i],
            tight.children@[j],
            min_percent,
        )
    &&& forall|i: int|
        #![trigger loose.children@[i]]
        0 <= i < loose.children@.len() && !loose.children@[i].total_percent.value.at_least(
            min_percent,
        ) ==> all_below(loose.children@[i], min_percent)
}

impl Scale {
    /// Every share is a number, and more samples are never a smaller share.
    pub open spec fn percents_rise(self) -> bool {
        forall|m: int, n: int|
            #![trigger self.percents@[m], self.percents@[n]]
            0 <= m <= n < self.percents@.len() ==> self.percents@[n].value.at_least(
                self.percents@[m].value,
            )
    }
}

/// A higher threshold takes out of a tree exactly the nodes whose share is below it, and moves no
/// time: what is left has the values that it had.
pub proof fn higher_threshold_prunes(
    loose: CallTreeNode,
    tight: CallTreeNode,
    stacks: Seq<Seq<Seq<char>>>,
    path: Seq<Seq<char>>,
    max_depth: nat,
    percents: (Binary64, Binary64),
    scale: Scale,
)
    requires
        scale.covers(stacks.len()),
        scale.percents_rise(),
        percents.1.at_least(percents.0),
        shows(loose, stacks, path, max_depth, percents.0, scale),
        shows(tight, stacks, path, max_depth, percents.1, scale),
    ensures
        is_pruned(loose, tight, percents.1),
    decreases loose,
{
    let (low, high) = percents;
    assert forall|i: int|
        #![trigger loose.children@[i]]
        0 <= i < loose.children@.len() implies {
        let child = loose.children@[i];
        let below = path.push(child.function_name@);
        &&& kept(stacks, path, child.function_name@, max_depth, low, scale)
        &&& shows(child, stacks, below, max_depth, low, scale)
        &&& child.total_percent == scale.percents@[total_count(stacks, below) as int]
    } by {
        assert(lists(loose.children@, loose.children@[i].function_name@));
    }
    assert forall|name: Seq<char>| #[trigger]
        lists(tight.children@, name) <==> lists_above(loose.children@, name, high) by {
        if lists(tight.children@, name) {
            assert(kept(stacks, path, name, max_depth, high, scale));
            assert(kept(stacks, path, name, max_depth, low, scale));
            assert(lists(loose.children@, name));
            let i = choose|i: int|
                0 <= i < loose.children@.len() && (#[trigger] loose.children@[i]).function_name@
                    == name;
            assert(loose.children@[i].total_percent.value.at_least(high));
        }
        if lists_above(loose.children@, name, high) {
            let i = choose|i: int|
                0 <= i < loose.children@.len() && (#[trigger] loose.children@[i]).function_name@
                    == name && loose.children@[i].total_percent.value.at_least(high);
            assert(kept(stacks, path, loose.children@[i].function_name@, max_depth, low, scale));
            assert(kept(stacks, path, name, max_depth, high, scale));
        }
    }
    assert forall|i: int, j: int|
        #![trigger loose.children@[i], tight.children@[j]]
        0 <= i < loose.children@.len() && 0 <= j < tight.children@.len()
            && loose.children@[i].function_name@
            == tight.children@[j].function_name@ implies is_pruned(
        loose.children@[i],
        tight.children@[j],
        high,
    ) by {
        higher_threshold_prunes(
            loose.children@[i],
            tight.children@[j],
            stacks,
            path.push(loose.children@[i].function_name@),
            max_depth,
            percents,
            scale,
        );
    }
    assert forall|i: int|
        #![trigger loose.children@[i]]
        0 <= i < loose.children@.len() && !loose.children@[i].total_percent.value.at_least(
            high,
        ) implies all_below(loose.children@[i], high) by {
        let child = loose.children@[i];
        let below = path.push(child.function_name@);
        counts_shrink_along_a_path(stacks, below, Seq::empty());
        let share = scale.percents@[total_count(stacks, below) as int].value;
        assert(share.at_least(share));
        nothing_above_below(child, stacks, below, max_depth, percents, scale);
    }
}

/// Where the share of a node is below a threshold, so are those of all nodes under it.
proof fn nothing_above_below(
    node: CallTreeNode,
    stacks: Seq<Seq<Seq<char>>>,
    path: Seq<Seq<char>>,
    max_depth: nat,
    percents: (Binary64, Binary64),
    scale: Scale,
)
    requires
        scale.covers(stacks.len()),
        scale.percents_rise(),
        shows(node, stacks, path, max_depth, percents.0, scale),
        node.total_percent.value.less(percents.1),
    ensures
        all_below(node, percents.1),
    decreases node,
{
    assert forall|i: int|
        #![trigger node.children@[i]]
        0 <= i < node.children@.len() implies all_below(node.children@[i], percents.1) by {
        let child = node.children@[i];
        let below = path.push(child.function_name@);
        counts_shrink_along_a_path(stacks, path, child.function_name@);
        assert(shows(child, stacks, below, max_depth, percents.0, scale));
        assert(child.total_percent == scale.percents@[total_count(stacks, below) as int]);
        assert(node.total_percent.value.at_least(child.total_percent.value));
        nothing_above_below(child, stacks, below, max_depth, percents, scale);
    }
}

/// A line break.
pub open spec fn line_break() -> char {
    '\n'
}

/// The text has no line break in it.
pub open spec fn is_one_line(text: Seq<char>) -> bool {
    forall|i: int| 0 <= i < text.len() ==> #[trigger] text[i] != line_break()
}

/// A new line begins after the text: it is empty, or ends in a line break.
pub open spec fn at_line_start(text: Seq<char>) -> bool {
    text.len() == 0 || text.last() == line_break()
}

/// The text with two spaces for each of `levels` levels put in front of each of its lines.
pub open spec fn indented(text: Seq<char>, levels: nat) -> Seq<char>
    decreases text.len(),
{
    if text.len() == 0 {
        Seq::empty()
    } else if at_line_start(text.drop_last()) {
        (indented(text.drop_last(), levels) + indentation(levels)).push(text.last())
    } else {
        indented(text.drop_last(), levels).push(text.last())
    }
}

/// No function name in the tree, and no number as it reads, has a line break in it.
pub open spec fn has_plain_lines(node: CallTreeNode) -> bool
    decreases node,
{
    &&& is_one_line(node.function_name@)
    &&& is_one_line(node.total_percent.text@)
    &&& is_one_line(node.self_time_ms.text@)
    &&& forall|i: int|
        #![trigger node.children@[i]]
        0 <= i < node.children@.len() ==> has_plain_lines(node.children@[i])
}

/// The text of a subtree `depth` levels down is its own text, cut off as many levels earlier,
/// with two spaces for each level in front of each line. Below the limit there is none.
pub proof fn subtree_is_its_own_text_indented(node: CallTreeNode, depth: nat, max_depth: nat)
    requires
        has_plain_lines(node),
    ensures
        rendered(node, depth, max_depth) == if depth > max_depth {
            Seq::<char>::empty()
        } else {
            indented(rendered(node, 0, (max_depth - depth) as nat), depth)
        },
{
    if depth <= max_depth {
        deeper_text_is_indented(node, 0, (max_depth - depth) as nat, depth);
    }
}

proof fn indented_add(front: Seq<char>, back: Seq<char>, levels: nat)
    requires
        at_line_start(front),
    ensures
        indented(front + back, levels) == indented(front, levels) + indented(back, levels),
    decreases back.len(),
{
    if back.len() == 0 {
        assert(front + back =~= front);
        assert(indented(front, levels) + indented(back, levels) =~= indented(front, levels));
    } else {
        let rest = back.drop_last();
        indented_add(front, rest, levels);
        assert((front + back).drop_last() =~= front + rest);
        assert((front + back).last() == back.last());
        assert(at_line_start(front + rest) == at_line_start(rest)) by {
            if rest.len() == 0 {
                assert(front + rest =~= front);
            } else {
                assert((front + rest).last() == rest.last());
            }
        }
        assert(indented(front + back, levels) =~= indented(front, levels) + indented(back, levels));
    }
}

/// The first line of a text is indented once.
proof fn indented_within_a_line(text: Seq<char>, levels: nat)
    requires
        is_one_line(text),
    ensures
        text.len() > 0 ==> indented(text, levels) == indentation(levels) + text,
    decreases text.len(),
{
    if text.len() > 0 {
        let rest = text.drop_last();
        indented_within_a_line(rest, levels);
        if rest.len() > 0 {
            assert(text[rest.len() - 1] != line_break());
            assert(!at_line_start(rest));
        } else {
            assert(indented(rest, levels) == Seq::<char>::empty());
        }
        assert(text =~= rest.push(text.last()));
        assert(indented(text, levels) =~= indentation(levels) + text);
    }
}

proof fn line_is_indented(node: CallTreeNode, depth: nat, levels: nat)
    requires
        has_plain_lines(node),
    ensures
        rendered_line(node, depth + levels) == indented(rendered_line(node, depth), levels),
        at_line_start(rendered_line(node, depth)),
{
    reveal_strlit(" [");
    reveal_strlit("% total, ");
    reveal_strlit("ms self]\n");
    let line = rendered_line(node, depth);
    let words = line.drop_last();
    let (name, percent, own) = (
        node.function_name@,
        node.total_percent.text@,
        node.self_time_ms.text@,
    );
    let a = indentation(depth);
    let b = a + name;
    let c = b + " ["@;
    let d = c + percent;
    let e = d + "% total, "@;
    let f = e + own;
    assert(is_one_line(a));
    assert(is_one_line(b));
    assert(is_one_line(c));
    assert(is_one_line(d));
    assert(is_one_line(e));
    assert(is_one_line(f));
    assert(line == f + "ms self]\n"@);
    assert(line.last() == line_break());
    assert(is_one_line(words));
    indented_within_a_line(words, levels);
    assert(indented(line, levels) =~= indentation(levels) + line) by {
        assert(words.last() == words[words.len() - 1]);
        assert(line =~= words.push(line_break()));
    }
    assert(indentation(depth + levels) =~= indentation(levels) + indentation(depth));
    assert(rendered_line(node, depth + levels) =~= indentation(levels) + line);
}

proof fn text_ends_its_lines(node: CallTreeNode, depth: nat, max_depth: nat)
    ensures
        at_line_start(rendered(node, depth, max_depth)),
    decreases node, 0nat,
{
    if depth <= max_depth {
        reveal_strlit("ms self]\n");
        let line = rendered_line(node, depth);
        let rest = rendered_forest(node.children@, depth + 1, max_depth);
        assert(line.last() == line_break());
        assert(node.children@.take(node.children@.len() as int) =~= node.children@);
        forest_ends_its_lines(node, depth + 1, max_depth, node.children@.len());
        if rest.len() == 0 {
            assert(line + rest =~= line);
        } else {
            assert((line + rest).last() == rest.last());
        }
    }
}

proof fn forest_ends_its_lines(node: CallTreeNode, depth: nat, max_depth: nat, n: nat)
    requires
        n <= node.children@.len(),
    ensures
        at_line_start(rendered_forest(node.children@.take(n as int), depth, max_depth)),
    decreases node, 0nat, n,
{
    if n > 0 {
        let nodes = node.children@.take(n as int);
        forest_ends_its_lines(node, depth, max_depth, (n - 1) as nat);
        text_ends_its_lines(node.children@[n - 1], depth, max_depth);
        assert(nodes.drop_last() =~= node.children@.take(n - 1));
        let front = rendered_forest(nodes.drop_last(), depth, max_depth);
        let back = rendered(nodes.last(), depth, max_depth);
        if back.len() == 0 {
            assert(front + back =~= front);
        } else {
            assert((front + back).last() == back.last());
        }
    }
}

proof fn deeper_text_is_indented(node: CallTreeNode, depth: nat, max_depth: nat, levels: nat)
    requires
        has_plain_lines(node),
    ensures
        rendered(node, depth + levels, max_depth + levels) == indented(
            rendered(node, depth, max_depth),
            levels,
        ),
    decreases node, 0nat,
{
    if depth <= max_depth {
        let line = rendered_line(node, depth);
        let rest = rendered_forest(node.children@, depth + 1, max_depth);
        line_is_indented(node, depth, levels);
        assert(node.children@.take(node.children@.len() as int) =~= node.children@);
        deeper_forest_is_indented(node, depth + 1, max_depth, levels, node.children@.len());
        indented_add(line, rest, levels);
        assert(depth + 1 + levels == depth + levels + 1);
    }
}

proof fn deeper_forest_is_indented(
    node: CallTreeNode,
    depth: nat,
    max_depth: nat,
    levels: nat,
    n: nat,
)
    requires
        has_plain_lines(node),
        n <= node.children@.len(),
    ensures
        rendered_forest(node.children@.take(n as int), depth + levels, max_depth + levels)
            == indented(rendered_forest(node.children@.take(n as int), depth, max_depth), levels),
    decreases node, 0nat, n,
{
    if n > 0 {
        let nodes = node.children@.take(n as int);
        assert(nodes.drop_last() =~= node.children@.take(n - 1));
        assert(nodes.last() == node.children@[n - 1]);
        deeper_forest_is_indented(node, depth, max_depth, levels, (n - 1) as nat);
        deeper_text_is_indented(node.children@[n - 1], depth, max_depth, levels);
        forest_ends_its_lines(node, depth, max_depth, (n - 1) as nat);
        indented_add(
            rendered_forest(nodes.drop_last(), depth, max_depth),
            rendered(nodes.last(), depth, max_depth),
            levels,
        );
    }
}

/// Two calls stand in another order in `a` than in `b` only where their times are equal.
pub open spec fn only_ties_move(a: Seq<CallTreeNode>, b: Seq<CallTreeNode>) -> bool {
    forall|i: int, j: int, k: int, l: int|
        #![trigger a[i], a[j], b[k], b[l]]
        0 <= i < j < a.len() && 0 <= k < l < b.len() && a[i].function_name@ == b[l].function_name@
            && a[j].function_name@ == b[k].function_name@ ==> {
            &&& a[i].total_time_ms.value.at_least(a[j].total_time_ms.value)
            &&& a[j].total_time_ms.value.at_least(a[i].total_time_ms.value)
        }
}

/// `shallow` is `deep` cut off `levels` levels below its root: values are the same, and so are
/// the children, each cut off one level earlier; at the cut there are none. Calls of equal times
/// may stand in any order.
pub open spec fn is_cut(deep: CallTreeNode, shallow: CallTreeNode, levels: nat) -> bool
    decreases levels,
{
    &&& shallow.self_time_ms == deep.self_time_ms
    &&& shallow.total_time_ms == deep.total_time_ms
    &&& shallow.total_percent == deep.total_percent
    &&& if levels == 0 {
        shallow.children@.len() == 0
    } else {
        &&& forall|name: Seq<char>|
            #![trigger lists(shallow.children@, name)]
            #![trigger lists(deep.children@, name)]
            lists(shallow.children@, name) <==> lists(deep.children@, name)
        &&& only_ties_move(deep.children@, shallow.children@)
        &&& forall|i: int, j: int|
            #![trigger deep.children@[i], shallow.children@[j]]
            0 <= i < deep.children@.len() && 0 <= j < shallow.children@.len()
                && deep.children@[i].function_name@ == shallow.children@[j].function_name@
                ==> is_cut(deep.children@[i], shallow.children@[j], (levels - 1) as nat)
    }
}

/// A tree of less depth is the deeper tree, cut off at that depth.
pub proof fn smaller_depth_cuts(
    deep: CallTreeNode,
    shallow: CallTreeNode,
    stacks: Seq<Seq<Seq<char>>>,
    path: Seq<Seq<char>>,
    depths: (nat, nat),
    min_percent: Binary64,
    scale: Scale,
)
    requires
        path.len() <= depths.0 <= depths.1,
        shows(shallow, stacks, path, depths.0, min_percent, scale),
        shows(deep, stacks, path, depths.1, min_percent, scale),
    ensures
        is_cut(deep, shallow, (depths.0 - path.len()) as nat),
    decreases depths.0 - path.len(),
{
    if path.len() == depths.0 {
        assert(shallow.children@.len() == 0) by {
            if shallow.children@.len() > 0 {
                assert(lists(shallow.children@, shallow.children@[0].function_name@));
            }
        }
    } else {
        assert forall|name: Seq<char>|
            #![trigger lists(shallow.children@, name)]
            #![trigger lists(deep.children@, name)]
            lists(shallow.children@, name) <==> lists(deep.children@, name) by {
            assert(kept(stacks, path, name, depths.0, min_percent, scale) == kept(
                stacks,
                path,
                name,
                depths.1,
                min_percent,
                scale,
            ));
        }
        assert forall|i: int, j: int|
            #![trigger deep.children@[i], shallow.children@[j]]
            0 <= i < deep.children@.len() && 0 <= j < shallow.children@.len()
                && deep.children@[i].function_name@
                == shallow.children@[j].function_name@ implies is_cut(
            deep.children@[i],
            shallow.children@[j],
            (depths.0 - path.len() - 1) as nat,
        ) by {
            smaller_depth_cuts(
                deep.children@[i],
                shallow.children@[j],
                stacks,
                path.push(deep.children@[i].function_name@),
                depths,
                min_percent,
                scale,
            );
        }
    }
}

/// Two trees are the same, up to the order of calls of equal times.
pub open spec fn is_same_up_to_order(a: CallTreeNode, b: CallTreeNode) -> bool
    decreases a,
{
    &&& a.self_time_ms == b.self_time_ms
    &&& a.total_time_ms == b.total_time_ms
    &&& a.total_percent == b.total_percent
    &&& forall|name: Seq<char>|
        #![trigger lists(a.children@, name)]
        #![trigger lists(b.children@, name)]
        lists(a.children@, name) <==> lists(b.children@, name)
    &&& only_ties_move(a.children@, b.children@)
    &&& forall|i: int, j: int|
        #![trigger a.children@[i], b.children@[j]]
        0 <= i < a.children@.len() && 0 <= j < b.children@.len()
            && a.children@[i].function_name@ == b.children@[j].function_name@
            ==> is_same_up_to_order(a.children@[i], b.children@[j])
}

/// The order of the samples does not matter: the same stacks in another order give the same tree,
/// up to the order of calls of equal times.
pub proof fn order_of_samples_does_not_matter(
    a: CallTreeNode,
    b: CallTreeNode,
    stacks: (Seq<Seq<Seq<char>>>, Seq<Seq<Seq<char>>>),
    path: Seq<Seq<char>>,
    max_depth: nat,
    min_percent: Binary64,
    scale: Scale,
)
    requires
        stacks.0.to_multiset() == stacks.1.to_multiset(),
        shows(a, stacks.0, path, max_depth, min_percent, scale),
        shows(b, stacks.1, path, max_depth, min_percent, scale),
    ensures
        is_same_up_to_order(a, b),
    decreases a,
{
    counts_ignore_order(stacks.0, stacks.1, path);
    assert forall|name: Seq<char>|
        #![trigger lists(a.children@, name)]
        #![trigger lists(b.children@, name)]
        lists(a.children@, name) <==> lists(b.children@, name) by {
        counts_ignore_order(stacks.0, stacks.1, path.push(name));
        assert(kept(stacks.0, path, name, max_depth, min_percent, scale) == kept(
            stacks.1,
            path,
            name,
            max_depth,
            min_percent,
            scale,
        ));
    }
    assert forall|i: int, j: int|
        #![trigger a.children@[i], b.children@[j]]
        0 <= i < a.children@.len() && 0 <= j < b.children@.len() && a.children@[i].function_name@
            == b.children@[j].function_name@ implies is_same_up_to_order(
        a.children@[i],
        b.children@[j],
    ) by {
        order_of_samples_does_not_matter(
            a.children@[i],
            b.children@[j],
            stacks,
            path.push(a.children@[i].function_name@),
            max_depth,
            min_percent,
            scale,
        );
    }
}

/// Counts do not depend on the order of the stacks.
proof fn counts_ignore_order(
    a: Seq<Seq<Seq<char>>>,
    b: Seq<Seq<Seq<char>>>,
    path: Seq<Seq<char>>,
)
    requires
        a.to_multiset() == b.to_multiset(),
    ensures
        total_count(a, path) == total_count(b, path),
        self_count(a, path) == self_count(b, path),
    decreases a.len(),
{
    broadcast use group_to_multiset_ensures;

    assert(a.len() == a.to_multiset().len() && b.len() == b.to_multiset().len());
    if a.len() > 0 {
        let last = a.last();
        let front = a.drop_last();
        assert(a =~= front.push(last));
        assert(a[a.len() - 1] == last);
        assert(a.contains(last));
        assert(a.to_multiset().count(last) > 0);
        assert(b.contains(last));
        let k = choose|k: int| 0 <= k < b.len() && b[k] == last;
        assert(front.to_multiset() =~= a.to_multiset().remove(last));
        assert(b.remove(k).to_multiset() == b.to_multiset().remove(last));
        counts_ignore_order(front, b.remove(k), path);
        counts_without_one(b, k, path);
    }
}

/// Without one of the stacks, what that stack counts for is gone.
proof fn counts_without_one(stacks: Seq<Seq<Seq<char>>>, k: int, path: Seq<Seq<char>>)
    requires
        0 <= k < stacks.len(),
    ensures
        total_count(stacks, path) == total_count(stacks.remove(k), path) + if runs_along(
            stacks[k],
            path,
        ) {
            1nat
        } else {
            0
        },
        self_count(stacks, path) == self_count(stacks.remove(k), path) + if stacks[k] == path {
            1nat
        } else {
            0
        },
    decreases stacks.len(),
{
    let front = stacks.drop_last();
    if k == stacks.len() - 1 {
        assert(stacks.remove(k) =~= front);
    } else {
        counts_without_one(front, k, path);
        assert(stacks.remove(k).drop_last() =~= front.remove(k));
        assert(stacks.remove(k).last() == stacks.last());
    }
}

/// A sample counts towards a path where its stack begins with it, and to the path's own where its
/// stack is the path.
pub proof fn samples_are_counted_by_their_stacks(
    stacks: Seq<Seq<Seq<char>>>,
    path: Seq<Seq<char>>,
)
    ensures
        total_count(stacks, path) == stacks.filter(
            |stack: Seq<Seq<char>>| path.is_prefix_of(stack),
        ).len(),
        self_count(stacks, path) == stacks.filter(|stack: Seq<Seq<char>>| stack == path).len(),
    decreases stacks.len(),
{
    reveal(Seq::filter);
    if stacks.len() > 0 {
        samples_are_counted_by_their_stacks(stacks.drop_last(), path);
        let stack = stacks.last();
        assert(runs_along(stack, path) <==> path.is_prefix_of(stack)) by {
            if path.len() <= stack.len() {
                assert(stack.take(path.len() as int) =~= stack.subrange(0, path.len() as int));
            }
        }
    }
}

/// The stack of a sample is the names of its functions, outermost first.
pub proof fn stacks_are_the_names_of_their_functions(samples: Seq<ResolvedSample>)
    ensures
        sample_stacks(samples).len() == samples.len(),
        forall|i: int|
            0 <= i < samples.len() ==> (#[trigger] sample_stacks(samples)[i]).len()
                == samples[i].stack@.len(),
        forall|i: int, k: int|
            0 <= i < samples.len() && 0 <= k < samples[i].stack@.len() ==> #[trigger] sample_stacks(
                samples,
            )[i][k] == samples[i].stack@[k].function_name@,
{
}

/// What every node of a call tree says. `nodes` goes down the tree, from its root from child to
/// child, and the names on the way are the path of the last node. Its times and its share are
/// those of the samples along that path. It has a child for a function exactly where the path is
/// shorter than the tree is deep, some sample goes on from there into the function, and the share
/// of these reaches the threshold. No two children are for the same function, and none comes
/// before one that took longer.
pub proof fn nodes_say_what_the_samples_do(
    tree: CallTreeNode,
    stacks: Seq<Seq<Seq<char>>>,
    max_depth: nat,
    min_percent: Binary64,
    scale: Scale,
    nodes: Seq<CallTreeNode>,
)
    requires
        shows(tree, stacks, Seq::empty(), max_depth, min_percent, scale),
        nodes.len() > 0,
        nodes[0] == tree,
        forall|k: int|
            0 <= k < nodes.len() - 1 ==> (#[trigger] nodes[k]).children@.contains(nodes[k + 1]),
    ensures
        ({
            let path = nodes.skip(1).map_values(|n: CallTreeNode| n.function_name@);
            let node = nodes.last();
            &&& node.self_time_ms == scale.times@[self_count(stacks, path) as int]
            &&& node.total_time_ms == scale.times@[total_count(stacks, path) as int]
            &&& node.total_percent == scale.percents@[total_count(stacks, path) as int]
            &&& forall|name: Seq<char>|
                #![trigger path.push(name)]
                (exists|i: int|
                    0 <= i < node.children@.len() && (#[trigger] node.children@[i]).function_name@
                        == name) <==> {
                    let samples = total_count(stacks, path.push(name));
                    &&& path.len() < max_depth
                    &&& samples > 0
                    &&& scale.percents@[samples as int].value.at_least(min_percent)
                }
            &&& forall|i: int, j: int|
                #![trigger node.children@[i], node.children@[j]]
                0 <= i < j < node.children@.len() ==> {
                    let (first, second) = (node.children@[i], node.children@[j]);
                    &&& first.function_name@ != second.function_name@
                    &&& first.total_time_ms.value.at_least(second.total_time_ms.value)
                }
        }),
{
    let path = nodes.skip(1).map_values(|n: CallTreeNode| n.function_name@);
    let node = nodes.last();
    nodes_below_show_their_paths(tree, stacks, max_depth, min_percent, scale, nodes);
    assert forall|name: Seq<char>|
        #![trigger path.push(name)]
        (exists|i: int|
            0 <= i < node.children@.len() && (#[trigger] node.children@[i]).function_name@
                == name) <==> {
            let samples = total_count(stacks, path.push(name));
            &&& path.len() < max_depth
            &&& samples > 0
            &&& scale.percents@[samples as int].value.at_least(min_percent)
        } by {
        assert(lists(node.children@, name) <==> kept(
            stacks,
            path,
            name,
            max_depth,
            min_percent,
            scale,
        ));
    }
}

proof fn nodes_below_show_their_paths(
    tree: CallTreeNode,
    stacks: Seq<Seq<Seq<char>>>,
    max_depth: nat,
    min_percent: Binary64,
    scale: Scale,
    nodes: Seq<CallTreeNode>,
)
    requires
        shows(tree, stacks, Seq::empty(), max_depth, min_percent, scale),
        nodes.len() > 0,
        nodes[0] == tree,
        forall|k: int|
            0 <= k < nodes.len() - 1 ==> (#[trigger] nodes[k]).children@.contains(nodes[k + 1]),
    ensures
        shows(
            nodes.last(),
            stacks,
            nodes.skip(1).map_values(|n: CallTreeNode| n.function_name@),
            max_depth,
            min_percent,
            scale,
        ),
    decreases nodes.len(),
{
    let path = nodes.skip(1).map_values(|n: CallTreeNode| n.function_name@);
    if nodes.len() == 1 {
        assert(path =~= Seq::<Seq<char>>::empty());
    } else {
        let above = nodes.drop_last();
        assert forall|k: int|
            0 <= k < above.len() - 1 implies (#[trigger] above[k]).children@.contains(
            above[k + 1],
        ) by {
            assert(nodes[k].children@.contains(nodes[k + 1]));
        }
        nodes_below_show_their_paths(tree, stacks, max_depth, min_percent, scale, above);
        let parent = above.last();
        let node = nodes.last();
        assert(nodes[nodes.len() - 2].children@.contains(nodes[nodes.len() - 2 + 1]));
        let i = choose|i: int| 0 <= i < parent.children@.len() && parent.children@[i] == node;
        assert(path =~= above.skip(1).map_values(|n: CallTreeNode| n.function_name@).push(
            node.function_name@,
        ));
        assert(shows(
            parent.children@[i],
            stacks,
            above.skip(1).map_values(|n: CallTreeNode| n.function_name@).push(
                parent.children@[i].function_name@,
            ),
            max_depth,
            min_percent,
            scale,
        ));
    }
}

/// Where every share reaches the threshold, every call that was sampled within the depth of the
/// tree has a node. The result goes down to the node of the first `depth` frames of a sample.
pub proof fn every_sampled_call_has_a_node(
    tree: CallTreeNode,
    stacks: Seq<Seq<Seq<char>>>,
    max_depth: nat,
    min_percent: Binary64,
    scale: Scale,
    sample: int,
    depth: nat,
) -> (nodes: Seq<CallTreeNode>)
    requires
        shows(tree, stacks, Seq::empty(), max_depth, min_percent, scale),
        scale.percents@.len() > stacks.len(),
        forall|n: int|
            0 <= n < scale.percents@.len() ==> (#[trigger] scale.percents@[n]).value.at_least(
                min_percent,
            ),
        0 <= sample < stacks.len(),
        depth <= max_depth,
        depth <= stacks[sample].len(),
    ensures
        nodes.len() == depth + 1,
        nodes[0] == tree,
        forall|k: int|
            0 <= k < nodes.len() - 1 ==> (#[trigger] nodes[k]).children@.contains(nodes[k + 1]),
        forall|k: int|
            0 < k < nodes.len() ==> (#[trigger] nodes[k]).function_name@ == stacks[sample][k - 1],
    decreases depth,
{
    if depth == 0 {
        seq![tree]
    } else {
        let above = every_sampled_call_has_a_node(
            tree,
            stacks,
            max_depth,
            min_percent,
            scale,
            sample,
            (depth - 1) as nat,
        );
        let path = above.skip(1).map_values(|n: CallTreeNode| n.function_name@);
        let name = stacks[sample][depth - 1];
        nodes_say_what_the_samples_do(tree, stacks, max_depth, min_percent, scale, above);
        assert(path.push(name) =~= stacks[sample].take(depth as int));
        sampled_path_is_counted(stacks, path.push(name), sample);
        counts_shrink_along_a_path(stacks, path.push(name), Seq::empty());
        let children = above.last().children@;
        let i = choose|i: int|
            0 <= i < children.len() && (#[trigger] children[i]).function_name@ == name;
        let nodes = above.push(children[i]);
        assert forall|k: int|
            0 <= k < nodes.len() - 1 implies (#[trigger] nodes[k]).children@.contains(
            nodes[k + 1],
        ) by {
            if k < above.len() - 1 {
                assert(above[k].children@.contains(above[k + 1]));
            }
        }
        assert forall|k: int| 0 < k < nodes.len() implies (#[trigger] nodes[k]).function_name@
            == stacks[sample][k - 1] by {
            if k < above.len() {
                assert(above[k].function_name@ == stacks[sample][k - 1]);
            }
        }
        nodes
    }
}

proof fn sampled_path_is_counted(
    stacks: Seq<Seq<Seq<char>>>,
    path: Seq<Seq<char>>,
    sample: int,
)
    requires
        0 <= sample < stacks.len(),
        runs_along(stacks[sample], path),
    ensures
        total_count(stacks, path) > 0,
    decreases stacks.len(),
{
    if sample < stacks.len() - 1 {
        assert(stacks.drop_last()[sample] == stacks[sample]);
        sampled_path_is_counted(stacks.drop_last(), path, sample);
    }
}

/// The tree of a thread shows its samples, from a root of its own name.
pub proof fn built_tree_shows_the_samples(
    thread: ResolvedThread,
    max_depth: usize,
    min_percent: Binary64,
    scale: Scale,
    tree: CallTreeNode,
)
    requires
        call_ensures(build_call_tree, (&thread, max_depth, min_percent, &scale), tree),
    ensures
        tree.function_name@ == "(root)"@,
        shows(
            tree,
            sample_stacks(thread.samples@),
            Seq::empty(),
            max_depth as nat,
            min_percent,
            scale,
        ),
{
}

/// The tree of any thread can be built where the scale has an entry for every number of samples
/// and its times are numbers.
pub proof fn trees_can_be_built(
    thread: ResolvedThread,
    max_depth: usize,
    min_percent: Binary64,
    scale: Scale,
)
    requires
        scale.times@.len() > thread.samples@.len(),
        scale.percents@.len() > thread.samples@.len(),
        forall|n: int|
            0 <= n < scale.times@.len() ==> !(#[trigger] scale.times@[n]).value.not_a_number(),
    ensures
        call_requires(build_call_tree, (&thread, max_depth, min_percent, &scale)),
        call_requires(call_times_compare, (&thread, max_depth, min_percent, &scale)),
{
    numbers_are_comparable(
        sample_stacks(thread.samples@),
        Seq::empty(),
        max_depth as nat,
        min_percent,
        scale,
    );
}

/// Times compare exactly where, along every path whose calls are all in the tree, no two calls are
/// in the tree side by side of which one took a time that is not a number.
pub proof fn times_compare_where_siblings_do(
    thread: ResolvedThread,
    max_depth: usize,
    min_percent: Binary64,
    scale: Scale,
    answer: bool,
)
    requires
        call_ensures(call_times_compare, (&thread, max_depth, min_percent, &scale), answer),
    ensures
        ({
            let stacks = sample_stacks(thread.samples@);
            let is_in = |path: Seq<Seq<char>>|
                {
                    let samples = total_count(stacks, path);
                    &&& path.len() <= max_depth
                    &&& samples > 0
                    &&& scale.percents@[samples as int].value.at_least(min_percent)
                };
            answer <==> forall|path: Seq<Seq<char>>, a: Seq<char>, b: Seq<char>|
                #![trigger path.push(a), path.push(b)]
                (forall|k: int| 0 < k <= path.len() ==> #[trigger] is_in(path.take(k))) && is_in(
                    path.push(a),
                ) && is_in(path.push(b)) && a != b ==> !scale.times@[total_count(
                    stacks,
                    path.push(a),
                ) as int].value.not_a_number()
        }),
{
    let stacks = sample_stacks(thread.samples@);
    let is_in = |path: Seq<Seq<char>>|
        {
            let samples = total_count(stacks, path);
            &&& path.len() <= max_depth
            &&& samples > 0
            &&& scale.percents@[samples as int].value.at_least(min_percent)
        };
    if answer {
        assert forall|path: Seq<Seq<char>>, a: Seq<char>, b: Seq<char>|
            #![trigger path.push(a), path.push(b)]
            (forall|k: int| 0 < k <= path.len() ==> #[trigger] is_in(path.take(k))) && is_in(
                path.push(a),
            ) && is_in(path.push(b)) && a != b implies !scale.times@[total_count(
            stacks,
            path.push(a),
        ) as int].value.not_a_number() by {
            assert forall|k: int| 0 < k <= path.len() implies #[trigger] is_path_kept(
                stacks,
                path.take(k),
                max_depth as nat,
                min_percent,
                scale,
            ) by {
                assert(is_in(path.take(k)));
            }
            comparable_all_the_way(stacks, path, max_depth as nat, min_percent, scale, path.len());
            assert(path.take(path.len() as int) =~= path);
            assert(kept(stacks, path, a, max_depth as nat, min_percent, scale));
            assert(kept(stacks, path, b, max_depth as nat, min_percent, scale));
        }
    } else {
        let (path, a, b) = incomparable_siblings(
            stacks,
            Seq::empty(),
            max_depth as nat,
            min_percent,
            scale,
        );
        assert forall|k: int| 0 < k <= path.len() implies #[trigger] is_in(path.take(k)) by {
            assert(is_path_kept(stacks, path.take(k), max_depth as nat, min_percent, scale));
        }
        assert(is_in(path.push(a)) && is_in(path.push(b)));
    }
}

/// The last call of `path` is kept.
spec fn is_path_kept(
    stacks: Seq<Seq<Seq<char>>>,
    path: Seq<Seq<char>>,
    max_depth: nat,
    min_percent: Binary64,
    scale: Scale,
) -> bool {
    &&& path.len() <= max_depth
    &&& total_count(stacks, path) > 0
    &&& scale.percents@[total_count(stacks, path) as int].value.at_least(min_percent)
}

/// Along a path whose calls are all kept, comparability is handed down.
proof fn comparable_all_the_way(
    stacks: Seq<Seq<Seq<char>>>,
    path: Seq<Seq<char>>,
    max_depth: nat,
    min_percent: Binary64,
    scale: Scale,
    n: nat,
)
    requires
        comparable(stacks, Seq::empty(), max_depth, min_percent, scale),
        n <= path.len(),
        forall|k: int|
            0 < k <= path.len() ==> #[trigger] is_path_kept(
                stacks,
                path.take(k),
                max_depth,
                min_percent,
                scale,
            ),
    ensures
        comparable(stacks, path.take(n as int), max_depth, min_percent, scale),
    decreases n,
{
    if n == 0 {
        assert(path.take(0) =~= Seq::<Seq<char>>::empty());
    } else {
        comparable_all_the_way(stacks, path, max_depth, min_percent, scale, (n - 1) as nat);
        assert(path.take(n as int) =~= path.take(n - 1).push(path[n - 1]));
        assert(is_path_kept(stacks, path.take(n as int), max_depth, min_percent, scale));
        assert(kept(stacks, path.take(n - 1), path[n - 1], max_depth, min_percent, scale));
    }
}

/// Where times do not compare, there are two calls side by side, further along, whose do not.
proof fn incomparable_siblings(
    stacks: Seq<Seq<Seq<char>>>,
    path: Seq<Seq<char>>,
    max_depth: nat,
    min_percent: Binary64,
    scale: Scale,
) -> (found: (Seq<Seq<char>>, Seq<char>, Seq<char>))
    requires
        !comparable(stacks, path, max_depth, min_percent, scale),
    ensures
        path.is_prefix_of(found.0),
        forall|k: int|
            path.len() < k <= found.0.len() ==> #[trigger] is_path_kept(
                stacks,
                found.0.take(k),
                max_depth,
                min_percent,
                scale,
            ),
        kept(stacks, found.0, found.1, max_depth, min_percent, scale),
        kept(stacks, found.0, found.2, max_depth, min_percent, scale),
        found.1 != found.2,
        scale.times@[total_count(stacks, found.0.push(found.1)) as int].value.not_a_number(),
    decreases max_depth - path.len(),
{
    if exists|a: Seq<char>, b: Seq<char>|
        #[trigger] kept(stacks, path, a, max_depth, min_percent, scale) && #[trigger] kept(
            stacks,
            path,
            b,
            max_depth,
            min_percent,
            scale,
        ) && a != b && scale.times@[total_count(
            stacks,
            path.push(a),
        ) as int].value.not_a_number() {
        let (a, b) = choose|a: Seq<char>, b: Seq<char>|
            #[trigger] kept(stacks, path, a, max_depth, min_percent, scale) && #[trigger] kept(
                stacks,
                path,
                b,
                max_depth,
                min_percent,
                scale,
            ) && a != b && scale.times@[total_count(
                stacks,
                path.push(a),
            ) as int].value.not_a_number();
        (path, a, b)
    } else {
        let name = choose|name: Seq<char>|
            #[trigger] kept(stacks, path, name, max_depth, min_percent, scale) && !comparable(
                stacks,
                path.push(name),
                max_depth,
                min_percent,
                scale,
            );
        let found = incomparable_siblings(stacks, path.push(name), max_depth, min_percent, scale);
        let longer = found.0;
        assert(longer.take(path.len() + 1int) =~= path.push(name));
        assert(path.is_prefix_of(longer)) by {
            assert(longer.subrange(0, path.len() as int) =~= path.push(name).take(
                path.len() as int,
            ));
        }
        found
    }
}

/// The text of a tree: a line for the node, indented by two spaces a level, with its name, its
/// share and its own time, and behind it the texts of its children, one level further in; and
/// nothing below the deepest level.
pub proof fn text_of_a_tree(node: CallTreeNode, depth: nat, max_depth: nat)
    ensures
        depth > max_depth ==> rendered(node, depth, max_depth).len() == 0,
        depth <= max_depth ==> rendered(node, depth, max_depth) == Seq::new(
            2 * depth,
            |i: int| ' ',
        ) + node.function_name@ + " ["@ + node.total_percent.text@ + "% total, "@
            + node.self_time_ms.text@ + "ms self]\n"@ + node.children@.map_values(
            |child: CallTreeNode| rendered(child, depth + 1, max_depth),
        ).flatten(),
{
    let texts = node.children@.map_values(
        |child: CallTreeNode| rendered(child, depth + 1, max_depth),
    );
    forest_is_the_texts_of_its_trees(node.children@, depth + 1, max_depth);
    texts.lemma_flatten_and_flatten_alt_are_equivalent();
    assert(indentation(depth) =~= Seq::new(2 * depth, |i: int| ' '));
}

proof fn forest_is_the_texts_of_its_trees(nodes: Seq<CallTreeNode>, depth: nat, max_depth: nat)
    ensures
        rendered_forest(nodes, depth, max_depth) == nodes.map_values(
            |child: CallTreeNode| rendered(child, depth, max_depth),
        ).flatten_alt(),
    decreases nodes.len(),
{
    let texts = nodes.map_values(|child: CallTreeNode| rendered(child, depth, max_depth));
    if nodes.len() > 0 {
        let front = nodes.drop_last();
        forest_is_the_texts_of_its_trees(front, depth, max_depth);
        assert(texts.drop_last() =~= front.map_values(
            |child: CallTreeNode| rendered(child, depth, max_depth),
        ));
    }
}

/// `render_text` gives this text, from the node itself on.
pub proof fn tree_is_rendered_from_its_root(node: CallTreeNode, max_depth: usize, text: String)
    requires
        call_ensures(CallTreeNode::render_text, (&node, max_depth), text),
    ensures
        text@ == rendered(node, 0, max_depth as nat),
{
}

/// Trees that hold the same have the same name, times and share at their roots and hold the same
/// below, child by child; so they read the same.
pub proof fn same_trees_agree_all_the_way_down(
    a: CallTreeNode,
    b: CallTreeNode,
    max_depth: nat,
)
    requires
        same_tree(a, b),
    ensures
        a.function_name == b.function_name,
        a.self_time_ms == b.self_time_ms,
        a.total_time_ms == b.total_time_ms,
        a.total_percent == b.total_percent,
        a.children@.len() == b.children@.len(),
        forall|i: int|
            #![trigger a.children@[i]]
            0 <= i < a.children@.len() ==> same_tree(a.children@[i], b.children@[i]),
        rendered(a, 0, max_depth) == rendered(b, 0, max_depth),
{
    same_trees_read_the_same(a, b, 0, max_depth);
}

/// A copy of a tree holds the same.
pub proof fn copies_hold_the_same(node: CallTreeNode, copy: CallTreeNode)
    requires
        call_ensures(<CallTreeNode as Clone>::clone, (&node,), copy),
    ensures
        same_tree(node, copy),
{
}

proof fn same_trees_read_the_same(a: CallTreeNode, b: CallTreeNode, depth: nat, max_depth: nat)
    requires
        same_tree(a, b),
    ensures
        rendered(a, depth, max_depth) == rendered(b, depth, max_depth),
    decreases a, 0nat,
{
    assert(a.children@.take(a.children@.len() as int) =~= a.children@);
    assert(b.children@.take(b.children@.len() as int) =~= b.children@);
    same_forests_read_the_same(a, b, depth + 1, max_depth, a.children@.len());
}

proof fn same_forests_read_the_same(
    a: CallTreeNode,
    b: CallTreeNode,
    depth: nat,
    max_depth: nat,
    n: nat,
)
    requires
        same_tree(a, b),
        n <= a.children@.len(),
    ensures
        rendered_forest(a.children@.take(n as int), depth, max_depth) == rendered_forest(
            b.children@.take(n as int),
            depth,
            max_depth,
        ),
    decreases a, 0nat, n,
{
    if n > 0 {
        same_forests_read_the_same(a, b, depth, max_depth, (n - 1) as nat);
        same_trees_read_the_same(a.children@[n - 1], b.children@[n - 1], depth, max_depth);
        assert(a.children@.take(n as int).drop_last() =~= a.children@.take(n - 1));
        assert(b.children@.take(n as int).drop_last() =~= b.children@.take(n - 1));
    }
}

/// The duration of a thread spreads over one interval less than it has samples.
pub proof fn intervals_lie_between_samples(thread: ResolvedThread, intervals: Option<usize>)
    requires
        call_ensures(sample_intervals, (&thread,), intervals),
    ensures
        intervals is Some <==> thread.samples@.len() >= 2,
        intervals is Some ==> intervals->0 + 1 == thread.samples@.len(),
{
}

/// `render_recursive` appends this text, from the level that it is given on, and changes nothing
/// of what is there.
pub proof fn tree_is_rendered_behind_what_is_there(
    node: CallTreeNode,
    output: &mut String,
    depth: usize,
    max_depth: usize,
)
    requires
        call_ensures(CallTreeNode::render_recursive, (&node, output, depth, max_depth), ()),
    ensures
        final(output)@ == old(output)@ + rendered(node, depth as nat, max_depth as nat),
{
}

/// The tree of a thread can be built wherever the scale has an entry for every number of samples
/// and times compare.
pub proof fn trees_can_be_built_where_times_compare(
    thread: ResolvedThread,
    max_depth: usize,
    min_percent: Binary64,
    scale: Scale,
)
    requires
        scale.times@.len() > thread.samples@.len(),
        scale.percents@.len() > thread.samples@.len(),
        call_ensures(call_times_compare, (&thread, max_depth, min_percent, &scale), true),
    ensures
        call_requires(build_call_tree, (&thread, max_depth, min_percent, &scale)),
{
}

} // verus!
