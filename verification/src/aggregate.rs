//! Aggregation over the members of elements, resolved depth first: each
//! element is settled once all its members are, and remembered. An explicit
//! stack takes the place of recursion, and the set of elements under way
//! guards against cycles.
//!
//! The library decides the order of the steps; what is aggregated along
//! them is up to the caller.

use vstd::prelude::*;
use vstd::set_lib::{lemma_int_range, set_int_range};

use crate::store::{node_ids, relation_ids, way_ids, RawStore, RefKind, Reference, Tables};

verus! {

/// `im_rc::HashSet`, of which nothing but what the functions below state is
/// known.
#[verifier::external_type_specification]
#[verifier::external_body]
#[verifier::reject_recursive_types(A)]
#[verifier::reject_recursive_types(S)]
pub struct ExHashSet<A, S>(im_rc::HashSet<A, S>);

/// The set of elements under way, as `im_rc` holds it.
pub type Visiting = im_rc::HashSet<usize>;

/// The elements that a set of elements under way holds.
pub uninterp spec fn visiting_ids(visiting: Visiting) -> Set<int>;

/// The set that holds `id` alone.
pub open spec fn only(id: usize) -> Set<int> {
    Set::empty().insert(id as int)
}

/// `im_rc::HashSet::unit`: the set that holds `id` alone.
#[verifier::external_body]
fn visiting_unit(id: usize) -> (visiting: Visiting)
    ensures
        visiting_ids(visiting) == only(id),
{
    im_rc::HashSet::unit(id)
}

/// `im_rc::HashSet::contains`: whether the set holds `id`.
#[verifier::external_body]
fn visiting_contains(visiting: &Visiting, id: usize) -> (found: bool)
    ensures
        found == visiting_ids(*visiting).contains(id as int),
{
    visiting.contains(&id)
}

/// `im_rc::HashSet::update`: a new set that holds `id` and what `visiting`
/// holds, which is left as it was.
#[verifier::external_body]
fn visiting_update(visiting: &Visiting, id: usize) -> (wider: Visiting)
    ensures
        visiting_ids(wider) == visiting_ids(*visiting).insert(id as int),
{
    visiting.update(id)
}

/// One step of an aggregation.
#[derive(Debug, Clone, Copy, PartialEq, Eq, Structural)]
pub enum Step {
    /// The element `into` takes in what is known of its member `from`.
    Absorb { into: usize, from: usize },
    /// The element `id` has taken in all it will: what it holds now is
    /// remembered as known.
    Settle { id: usize },
}

/// How many of the elements `0..n` are not in `taken`.
pub open spec fn room(n: nat, taken: Set<int>) -> nat {
    set_int_range(0, n as int).difference(taken).len()
}

/// The steps that take in the members of `id` from position `k` on, and the
/// elements known after them. `visiting` holds `id` and the elements above
/// it that are under way.
///
/// A member that is under way is skipped. A known member is absorbed. Any
/// other member is first resolved itself, from its own members, settled
/// and then absorbed.
pub open spec fn members_plan(
    g: Seq<Seq<usize>>,
    known: Set<int>,
    id: usize,
    k: int,
    visiting: Set<int>,
) -> (Seq<Step>, Set<int>)
    decreases room(g.len(), visiting), g[id as int].len() - k,
{
    if id >= g.len() || k < 0 || k >= g[id as int].len() {
        (Seq::empty(), known)
    } else {
        let m = g[id as int][k];
        if m >= g.len() || visiting.contains(m as int) {
            members_plan(g, known, id, k + 1, visiting)
        } else if known.contains(m as int) {
            let rest = members_plan(g, known, id, k + 1, visiting);
            (seq![Step::Absorb { into: id, from: m }] + rest.0, rest.1)
        } else {
            proof {
                lemma_int_range(0, g.len() as int);
                set_int_range(0, g.len() as int).lemma_set_insert_diff_decreases(
                    visiting,
                    m as int,
                );
            }
            let below = members_plan(g, known, m, 0, visiting.insert(m as int));
            let rest = members_plan(g, below.1.insert(m as int), id, k + 1, visiting);
            (
                below.0.push(Step::Settle { id: m }).push(Step::Absorb { into: id, from: m })
                    + rest.0,
                rest.1,
            )
        }
    }
}

/// The steps that resolve `root`, and the elements known after them: none
/// when `root` is known or no element, else those of its members and its
/// own settling.
pub open spec fn root_plan(g: Seq<Seq<usize>>, known: Set<int>, root: usize) -> (
    Seq<Step>,
    Set<int>,
) {
    if root >= g.len() || known.contains(root as int) {
        (Seq::empty(), known)
    } else {
        let own = members_plan(g, known, root, 0, only(root));
        (own.0.push(Step::Settle { id: root }), own.1.insert(root as int))
    }
}

/// The steps that resolve the first `upto` of `roots` one after the other,
/// and the elements known after them.
pub open spec fn roots_plan(g: Seq<Seq<usize>>, known: Set<int>, roots: Seq<usize>, upto: int) -> (
    Seq<Step>,
    Set<int>,
)
    decreases upto,
{
    if upto <= 0 {
        (Seq::empty(), known)
    } else {
        let before = roots_plan(g, known, roots, upto - 1);
        let last = root_plan(g, before.1, roots[upto - 1]);
        (before.0 + last.0, last.1)
    }
}

/// What is known stays known: the steps for the members of an element only
/// add to it.
pub proof fn lemma_members_keep_known(
    g: Seq<Seq<usize>>,
    known: Set<int>,
    id: usize,
    k: int,
    visiting: Set<int>,
)
    ensures
        known.subset_of(members_plan(g, known, id, k, visiting).1),
    decreases room(g.len(), visiting), g[id as int].len() - k,
{
    if !(id >= g.len() || k < 0 || k >= g[id as int].len()) {
        let m = g[id as int][k];
        if m >= g.len() || visiting.contains(m as int) {
            lemma_members_keep_known(g, known, id, k + 1, visiting);
        } else if known.contains(m as int) {
            lemma_members_keep_known(g, known, id, k + 1, visiting);
        } else {
            lemma_int_range(0, g.len() as int);
            set_int_range(0, g.len() as int).lemma_set_insert_diff_decreases(visiting, m as int);
            lemma_members_keep_known(g, known, m, 0, visiting.insert(m as int));
            let below = members_plan(g, known, m, 0, visiting.insert(m as int));
            lemma_members_keep_known(g, below.1.insert(m as int), id, k + 1, visiting);
        }
    }
}

/// Resolving roots forgets nothing, and every root that is an element is
/// known afterwards.
pub proof fn lemma_roots_become_known(
    g: Seq<Seq<usize>>,
    known: Set<int>,
    roots: Seq<usize>,
    upto: int,
)
    requires
        0 <= upto <= roots.len(),
    ensures
        known.subset_of(roots_plan(g, known, roots, upto).1),
        forall|i: int|
            0 <= i < upto && (#[trigger] roots[i]) < g.len() ==> roots_plan(
                g,
                known,
                roots,
                upto,
            ).1.contains(roots[i] as int),
    decreases upto,
{
    if upto > 0 {
        lemma_roots_become_known(g, known, roots, upto - 1);
        let before = roots_plan(g, known, roots, upto - 1);
        let root = roots[upto - 1];
        if !(root >= g.len() || before.1.contains(root as int)) {
            lemma_members_keep_known(g, before.1, root, 0, only(root));
        }
    }
}

/// The members of each element, each member given by its position.
pub open spec fn graph_of(members: Seq<Vec<usize>>) -> Seq<Seq<usize>> {
    Seq::new(members.len(), |i: int| members[i]@)
}

/// The positions that are flagged as known.
pub open spec fn known_ids(known: Seq<bool>) -> Set<int> {
    Set::new(|i: int| 0 <= i < known.len() && known[i])
}

/// Every member is an element.
pub open spec fn members_in_range(members: Seq<Vec<usize>>) -> bool {
    forall|i: int, k: int|
        0 <= i < members.len() && 0 <= k < members[i]@.len() ==> #[trigger] members[i]@[k]
            < members.len()
}

/// Elements addressed by position: for each its members, and whether what
/// is aggregated for it is known already.
#[derive(Debug)]
pub struct Arena {
    members: Vec<Vec<usize>>,
    known: Vec<bool>,
}

impl Arena {
    #[verifier::type_invariant]
    closed spec fn inv(&self) -> bool {
        &&& self.known@.len() == self.members@.len()
        &&& members_in_range(self.members@)
    }

    /// The members of each element.
    pub closed spec fn graph(&self) -> Seq<Seq<usize>> {
        graph_of(self.members@)
    }

    /// The elements for which the aggregate is known.
    pub closed spec fn known(&self) -> Set<int> {
        known_ids(self.known@)
    }

    /// An arena of the elements with the given members and flags. There is
    /// none when the two differ in length or a member is no element.
    pub fn new(members: Vec<Vec<usize>>, known: Vec<bool>) -> (r: Option<Arena>)
        ensures
            r is Some <==> known@.len() == members@.len() && members_in_range(members@),
            r is Some ==> r->0.graph() == graph_of(members@) && r->0.known() == known_ids(known@),
    {
        if known.len() != members.len() {
            return None;
        }
        let n = members.len();
        let mut i: usize = 0;
        while i < n
            invariant
                i <= n,
                n == members.len(),
                forall|a: int, k: int|
                    0 <= a < i && 0 <= k < members@[a]@.len() ==> #[trigger] members@[a]@[k] < n,
            decreases n - i,
        {
            let mut k: usize = 0;
            while k < members[i].len()
                invariant
                    i < n,
                    n == members.len(),
                    k <= members@[i as int]@.len(),
                    forall|b: int| 0 <= b < k ==> #[trigger] members@[i as int]@[b] < n,
                decreases members@[i as int]@.len() - k,
            {
                if members[i][k] >= n {
                    return None;
                }
                k += 1;
            }
            i += 1;
        }
        Some(Arena { members, known })
    }

    /// Whether the aggregate of the element at `id` is known.
    pub fn is_known(&self, id: usize) -> (r: bool)
        ensures
            r == self.known().contains(id as int),
    {
        id < self.known.len() && self.known[id]
    }
}

/// An element under way: `next` of its members have been looked at, and
/// `visiting` holds it and the elements above it.
struct Frame {
    id: usize,
    next: usize,
    visiting: Visiting,
}

/// The steps that are still to come when `stack` holds the elements under
/// way, the innermost last, and the elements known after them.
spec fn finish(g: Seq<Seq<usize>>, known: Set<int>, stack: Seq<Frame>) -> (Seq<Step>, Set<int>)
    decreases stack.len(),
{
    if stack.len() == 0 {
        (Seq::empty(), known)
    } else {
        let top = stack.last();
        let own = members_plan(g, known, top.id, top.next as int, visiting_ids(top.visiting));
        let settled = own.1.insert(top.id as int);
        let rest = stack.drop_last();
        if rest.len() == 0 {
            (own.0.push(Step::Settle { id: top.id }), settled)
        } else {
            let after = finish(g, settled, rest);
            (
                own.0.push(Step::Settle { id: top.id }).push(
                    Step::Absorb { into: rest.last().id, from: top.id },
                ) + after.0,
                after.1,
            )
        }
    }
}

/// What holds of the elements under way: none is known, each holds itself
/// and those above it as under way, and no two are the same.
spec fn stack_inv(g: Seq<Seq<usize>>, known: Set<int>, stack: Seq<Frame>) -> bool {
    &&& forall|i: int|
        0 <= i < stack.len() ==> {
            &&& (#[trigger] stack[i]).id < g.len()
            &&& stack[i].next <= g[stack[i].id as int].len()
            &&& !known.contains(stack[i].id as int)
        }
    &&& forall|i: int, j: int|
        0 <= i <= j < stack.len() ==> visiting_ids((#[trigger] stack[j]).visiting).contains(
            (#[trigger] stack[i]).id as int,
        )
    &&& forall|i: int, j: int|
        0 <= i < j < stack.len() ==> (#[trigger] stack[i]).id != (#[trigger] stack[j]).id
}

/// `after` is `before` with one more member of its innermost element looked
/// at.
spec fn advanced(before: Seq<Frame>, after: Seq<Frame>) -> bool {
    &&& before.len() > 0
    &&& after.len() == before.len()
    &&& after.drop_last() == before.drop_last()
    &&& after.last().id == before.last().id
    &&& after.last().visiting == before.last().visiting
    &&& after.last().next == before.last().next + 1
}

/// The member that the innermost element looks at next.
spec fn next_member(g: Seq<Seq<usize>>, stack: Seq<Frame>) -> usize {
    g[stack.last().id as int][stack.last().next as int]
}

/// The innermost element has a member left to look at.
spec fn has_next(g: Seq<Seq<usize>>, stack: Seq<Frame>) -> bool {
    &&& stack.len() > 0
    &&& stack.last().id < g.len()
    &&& stack.last().next < g[stack.last().id as int].len()
}

/// Skipping a member that is under way leaves the steps to come as they
/// were.
proof fn lemma_step_skip(g: Seq<Seq<usize>>, known: Set<int>, before: Seq<Frame>, after: Seq<Frame>)
    requires
        has_next(g, before),
        advanced(before, after),
        next_member(g, before) >= g.len() || visiting_ids(before.last().visiting).contains(
            next_member(g, before) as int,
        ),
    ensures
        finish(g, known, after) == finish(g, known, before),
{
}

/// Absorbing a known member is the first of the steps to come.
proof fn lemma_step_absorb(
    g: Seq<Seq<usize>>,
    known: Set<int>,
    before: Seq<Frame>,
    after: Seq<Frame>,
)
    requires
        has_next(g, before),
        advanced(before, after),
        next_member(g, before) < g.len(),
        !visiting_ids(before.last().visiting).contains(next_member(g, before) as int),
        known.contains(next_member(g, before) as int),
    ensures
        finish(g, known, before).0 == seq![
            Step::Absorb { into: before.last().id, from: next_member(g, before) },
        ] + finish(g, known, after).0,
        finish(g, known, before).1 == finish(g, known, after).1,
{
    assert(after.drop_last() == before.drop_last());
}

/// Going down into an unknown member leaves the steps to come as they were.
proof fn lemma_step_push(
    g: Seq<Seq<usize>>,
    known: Set<int>,
    before: Seq<Frame>,
    after: Seq<Frame>,
    pushed: Seq<Frame>,
)
    requires
        has_next(g, before),
        advanced(before, after),
        next_member(g, before) < g.len(),
        !visiting_ids(before.last().visiting).contains(next_member(g, before) as int),
        !known.contains(next_member(g, before) as int),
        pushed.len() == after.len() + 1,
        pushed.drop_last() == after,
        pushed.last().id == next_member(g, before),
        pushed.last().next == 0,
        visiting_ids(pushed.last().visiting) == visiting_ids(before.last().visiting).insert(
            next_member(g, before) as int,
        ),
    ensures
        finish(g, known, pushed) == finish(g, known, before),
{
    // What is to come below the member is the same either way; after it come
    // its settling, its absorption, and what `after` has to come once the
    // member is known.
    let m = next_member(g, before);
    let v = visiting_ids(before.last().visiting);
    let below = members_plan(g, known, m, 0, v.insert(m as int));
    assert(after.drop_last() == before.drop_last());
    assert(finish(g, known, pushed).1 == finish(g, below.1.insert(m as int), after).1);
}

/// When the innermost element has looked at all its members, it is settled
/// next and then absorbed by the element above it, if there is one.
proof fn lemma_step_pop(g: Seq<Seq<usize>>, known: Set<int>, before: Seq<Frame>)
    requires
        before.len() > 0,
        before.last().id < g.len(),
        before.last().next >= g[before.last().id as int].len(),
    ensures
        before.len() == 1 ==> finish(g, known, before) == (
            seq![Step::Settle { id: before.last().id }],
            known.insert(before.last().id as int),
        ),
        before.len() > 1 ==> finish(g, known, before).0 == seq![
            Step::Settle { id: before.last().id },
            Step::Absorb { into: before[before.len() - 2].id, from: before.last().id },
        ] + finish(g, known.insert(before.last().id as int), before.drop_last()).0,
        before.len() > 1 ==> finish(g, known, before).1 == finish(
            g,
            known.insert(before.last().id as int),
            before.drop_last(),
        ).1,
{
    assert(before.len() > 1 ==> before.drop_last().last() == before[before.len() - 2]);
}

/// Looking at one more member keeps what holds of the elements under way.
proof fn lemma_inv_advanced(
    g: Seq<Seq<usize>>,
    known: Set<int>,
    before: Seq<Frame>,
    after: Seq<Frame>,
)
    requires
        stack_inv(g, known, before),
        has_next(g, before),
        advanced(before, after),
    ensures
        stack_inv(g, known, after),
{
    let top = before.len() - 1;
    assert forall|i: int| 0 <= i < after.len() implies (#[trigger] after[i]).id == before[i].id
        && after[i].visiting == before[i].visiting && (i < top ==> after[i] == before[i]) by {
        if i < top {
            assert(after[i] == after.drop_last()[i]);
        }
    }
}

/// Going down into a member that is neither known nor under way keeps what
/// holds of the elements under way.
proof fn lemma_inv_pushed(g: Seq<Seq<usize>>, known: Set<int>, after: Seq<Frame>, pushed: Seq<Frame>)
    requires
        stack_inv(g, known, after),
        after.len() > 0,
        pushed.len() == after.len() + 1,
        pushed.drop_last() == after,
        pushed.last().id < g.len(),
        pushed.last().next == 0,
        !known.contains(pushed.last().id as int),
        !visiting_ids(after.last().visiting).contains(pushed.last().id as int),
        visiting_ids(pushed.last().visiting) == visiting_ids(after.last().visiting).insert(
            pushed.last().id as int,
        ),
    ensures
        stack_inv(g, known, pushed),
{
    assert forall|i: int| 0 <= i < after.len() implies #[trigger] pushed[i] == after[i] by {}
}

/// Settling the innermost element keeps what holds of those above it.
proof fn lemma_inv_popped(g: Seq<Seq<usize>>, known: Set<int>, before: Seq<Frame>)
    requires
        stack_inv(g, known, before),
        before.len() > 0,
    ensures
        stack_inv(g, known.insert(before.last().id as int), before.drop_last()),
{
}

/// Resolves `root` with an explicit stack and appends the steps to `plan`.
fn dp_position(members: &Vec<Vec<usize>>, known: &mut Vec<bool>, root: usize, plan: &mut Vec<Step>)
    requires
        old(known)@.len() == members@.len(),
        members_in_range(members@),
    ensures
        final(known)@.len() == members@.len(),
        final(plan)@ == old(plan)@ + root_plan(graph_of(members@), known_ids(old(known)@), root).0,
        known_ids(final(known)@) == root_plan(graph_of(members@), known_ids(old(known)@), root).1,
{
    let n = members.len();
    if root >= n || known[root] {
        return ;
    }
    let ghost g = graph_of(members@);
    let ghost goal = root_plan(g, known_ids(known@), root);
    let ghost start = plan@;
    let mut stack: Vec<Frame> = Vec::new();
    stack.push(Frame { id: root, next: 0, visiting: visiting_unit(root) });
    proof {
        lemma_int_range(0, n as int);
    }
    loop
        invariant_except_break
            stack@.len() > 0,
            stack_inv(g, known_ids(known@), stack@),
            plan@ + finish(g, known_ids(known@), stack@).0 == start + goal.0,
            finish(g, known_ids(known@), stack@).1 == goal.1,
        invariant
            n == members.len(),
            known@.len() == n,
            members_in_range(members@),
            g == graph_of(members@),
            set_int_range(0, n as int).finite(),
        ensures
            plan@ == start + goal.0,
            known_ids(known@) == goal.1,
        decreases
            room(n as nat, known_ids(known@)),
            room(n as nat, visiting_ids(stack@.last().visiting)),
            g[stack@.last().id as int].len() - stack@.last().next,
    {
        let depth = stack.len() - 1;
        let id = stack[depth].id;
        let next = stack[depth].next;
        let ghost memo = known_ids(known@);
        let ghost before = stack@;
        let ghost v = visiting_ids(before.last().visiting);
        if next < members[id].len() {
            let m = members[id][next];
            stack[depth].next = next + 1;
            let ghost after = stack@;
            proof {
                assert(after.drop_last() =~= before.drop_last());
                lemma_inv_advanced(g, memo, before, after);
            }
            if visiting_contains(&stack[depth].visiting, m) {
                proof {
                    lemma_step_skip(g, memo, before, after);
                }
            } else if known[m] {
                plan.push(Step::Absorb { into: id, from: m });
                proof {
                    lemma_step_absorb(g, memo, before, after);
                }
            } else {
                let wider = visiting_update(&stack[depth].visiting, m);
                stack.push(Frame { id: m, next: 0, visiting: wider });
                proof {
                    assert(stack@.drop_last() =~= after);
                    lemma_step_push(g, memo, before, after, stack@);
                    lemma_inv_pushed(g, memo, after, stack@);
                    set_int_range(0, n as int).lemma_set_insert_diff_decreases(v, m as int);
                }
            }
        } else {
            let _ = stack.pop();
            plan.push(Step::Settle { id });
            known[id] = true;
            proof {
                assert(known_ids(known@) =~= memo.insert(id as int));
                set_int_range(0, n as int).lemma_set_insert_diff_decreases(memo, id as int);
                lemma_step_pop(g, memo, before);
                lemma_inv_popped(g, memo, before);
            }
            if stack.len() == 0 {
                break ;
            }
            let into = stack[stack.len() - 1].id;
            plan.push(Step::Absorb { into, from: id });
        }
    }
}

/// Resolves each of `roots` in turn, depth first over its members, and
/// gives the steps in the order in which an aggregate is to take them, with
/// the arena in which every element that was settled is known.
///
/// A root that is known already, or that is no element of the arena, takes
/// no step. A member that is under way when it is met again is skipped: a
/// cycle of members ends there.
pub fn aggregate_position(arena: Arena, roots: &Vec<usize>) -> (r: (Vec<Step>, Arena))
    ensures
        r.0@ == roots_plan(arena.graph(), arena.known(), roots@, roots@.len() as int).0,
        r.1.known() == roots_plan(arena.graph(), arena.known(), roots@, roots@.len() as int).1,
        r.1.graph() == arena.graph(),
{
    proof {
        use_type_invariant(&arena);
    }
    let ghost g = arena.graph();
    let ghost memo = arena.known();
    let Arena { members, mut known } = arena;
    let mut plan: Vec<Step> = Vec::new();
    let mut i: usize = 0;
    while i < roots.len()
        invariant
            i <= roots.len(),
            known@.len() == members@.len(),
            members_in_range(members@),
            g == graph_of(members@),
            plan@ == roots_plan(g, memo, roots@, i as int).0,
            known_ids(known@) == roots_plan(g, memo, roots@, i as int).1,
        decreases roots.len() - i,
    {
        dp_position(&members, &mut known, roots[i], &mut plan);
        i += 1;
    }
    (plan, Arena { members, known })
}

/// The number of elements of the arena of tables: one for each row, and one
/// more that stands for every element that is referred to and missing.
pub open spec fn arena_size(t: Tables) -> nat {
    t.nodes.len() + t.ways.len() + t.relations.len() + 1
}

/// The position in the arena of tables of the element that `rf` names: nodes
/// come first, then ways, then relations, each in table order, and last the
/// element that stands for what is missing.
pub open spec fn position_of(t: Tables, rf: Reference) -> int {
    let missing = arena_size(t) - 1;
    match rf.kind {
        RefKind::Node => if exists|i: int|
            0 <= i < t.nodes.len() && (#[trigger] t.nodes[i]).node_id == rf.id {
            choose|i: int| 0 <= i < t.nodes.len() && (#[trigger] t.nodes[i]).node_id == rf.id
        } else {
            missing
        },
        RefKind::Way => if exists|i: int|
            0 <= i < t.ways.len() && (#[trigger] t.ways[i]).way_id == rf.id {
            t.nodes.len() + choose|i: int|
                0 <= i < t.ways.len() && (#[trigger] t.ways[i]).way_id == rf.id
        } else {
            missing
        },
        RefKind::Relation => if exists|i: int|
            0 <= i < t.relations.len() && (#[trigger] t.relations[i]).relation_id == rf.id {
            t.nodes.len() + t.ways.len() + choose|i: int|
                0 <= i < t.relations.len() && (#[trigger] t.relations[i]).relation_id == rf.id
        } else {
            missing
        },
    }
}

/// The members of each element of the arena of tables: a node has none, a
/// way has its nodes, a relation has what it refers to, and the element that
/// stands for what is missing has none.
pub open spec fn tables_graph(t: Tables) -> Seq<Seq<usize>> {
    Seq::new(
        arena_size(t),
        |e: int|
            if t.nodes.len() <= e < t.nodes.len() + t.ways.len() {
                let way = t.ways[e - t.nodes.len()];
                Seq::new(
                    way.nodes@.len(),
                    |k: int|
                        position_of(t, Reference { id: way.nodes@[k], kind: RefKind::Node })
                            as usize,
                )
            } else if t.nodes.len() + t.ways.len() <= e < arena_size(t) - 1 {
                let relation = t.relations[e - t.nodes.len() - t.ways.len()];
                Seq::new(relation.refs@.len(), |k: int| position_of(t, relation.refs@[k]) as usize)
            } else {
                Seq::empty()
            },
    )
}

/// The positions of the relations in the arena of tables, in table order.
pub open spec fn tables_roots(t: Tables) -> Seq<usize> {
    Seq::new(t.relations.len(), |i: int| (t.nodes.len() + t.ways.len() + i) as usize)
}

/// The position in the arena of the element that `rf` names.
fn position(store: &RawStore, rf: Reference) -> (at: usize)
    requires
        arena_size(store@) <= usize::MAX,
    ensures
        at == position_of(store@, rf),
        at < arena_size(store@),
{
    let n = store.nodes().len();
    let w = store.ways().len();
    let r = store.relations().len();
    let ghost t = store@;
    match rf.kind {
        RefKind::Node => match store.node_at(rf.id) {
            Some(i) => {
                proof {
                    let c = choose|c: int|
                        0 <= c < t.nodes.len() && (#[trigger] t.nodes[c]).node_id == rf.id;
                    assert(node_ids(t.nodes)[c] == node_ids(t.nodes)[i as int]);
                }
                i
            },
            None => n + w + r,
        },
        RefKind::Way => match store.way_at(rf.id) {
            Some(i) => {
                proof {
                    let c = choose|c: int|
                        0 <= c < t.ways.len() && (#[trigger] t.ways[c]).way_id == rf.id;
                    assert(way_ids(t.ways)[c] == way_ids(t.ways)[i as int]);
                }
                n + i
            },
            None => n + w + r,
        },
        RefKind::Relation => match store.relation_at(rf.id) {
            Some(i) => {
                proof {
                    let c = choose|c: int|
                        0 <= c < t.relations.len() && (#[trigger] t.relations[c]).relation_id
                            == rf.id;
                    assert(relation_ids(t.relations)[c] == relation_ids(t.relations)[i as int]);
                }
                n + w + i
            },
            None => n + w + r,
        },
    }
}

/// Raw tables laid out for aggregation: the arena, and the positions of the
/// relations in it.
#[derive(Debug)]
pub struct Layout {
    pub arena: Arena,
    pub roots: Vec<usize>,
}

/// Lays the raw tables out as an arena, with the nodes as what is known and
/// the relations as the roots to resolve. There is none when the arena would
/// have more elements than can be addressed.
pub fn arena_of(store: &RawStore) -> (r: Option<Layout>)
    ensures
        r is Some <==> arena_size(store@) <= usize::MAX,
        r is Some ==> {
            &&& r->0.arena.graph() == tables_graph(store@)
            &&& r->0.arena.known() == set_int_range(0, store@.nodes.len() as int)
            &&& r->0.roots@ == tables_roots(store@)
        },
{
    let ghost t = store@;
    let n = store.nodes().len();
    let w = store.ways().len();
    let r = store.relations().len();
    let size = match n.checked_add(w) {
        Some(nw) => match nw.checked_add(r) {
            Some(nwr) => match nwr.checked_add(1) {
                Some(size) => size,
                None => {
                    return None;
                },
            },
            None => {
                return None;
            },
        },
        None => {
            return None;
        },
    };
    let mut members: Vec<Vec<usize>> = Vec::new();
    let mut known: Vec<bool> = Vec::new();
    let mut e: usize = 0;
    while e < n
        invariant
            e <= n,
            n == t.nodes.len(),
            size == arena_size(t),
            members@.len() == e,
            known@.len() == e,
            forall|i: int| 0 <= i < e ==> (#[trigger] members@[i])@ == tables_graph(t)[i],
            forall|i: int| 0 <= i < e ==> #[trigger] known@[i],
        decreases n - e,
    {
        members.push(Vec::new());
        known.push(true);
        e += 1;
    }
    let mut i: usize = 0;
    while i < w
        invariant
            i <= w,
            t == store@,
            n == t.nodes.len(),
            w == t.ways.len(),
            size == arena_size(t),
            size <= usize::MAX,
            members@.len() == n + i,
            known@.len() == n + i,
            forall|a: int| 0 <= a < n + i ==> (#[trigger] members@[a])@ == tables_graph(t)[a],
            forall|a: int| 0 <= a < n + i ==> #[trigger] known@[a] == (a < n),
        decreases w - i,
    {
        let nodes = &store.ways()[i].nodes;
        let mut list: Vec<usize> = Vec::new();
        let mut k: usize = 0;
        while k < nodes.len()
            invariant
                k <= nodes.len(),
                t == store@,
                size == arena_size(t),
                size <= usize::MAX,
                list@.len() == k,
                forall|b: int|
                    0 <= b < k ==> #[trigger] list@[b] == position_of(
                        t,
                        Reference { id: nodes@[b], kind: RefKind::Node },
                    ),
            decreases nodes.len() - k,
        {
            list.push(position(store, Reference { id: nodes[k], kind: RefKind::Node }));
            k += 1;
        }
        members.push(list);
        known.push(false);
        i += 1;
    }
    let mut roots: Vec<usize> = Vec::new();
    i = 0;
    while i < r
        invariant
            i <= r,
            t == store@,
            n == t.nodes.len(),
            w == t.ways.len(),
            r == t.relations.len(),
            size == arena_size(t),
            size <= usize::MAX,
            members@.len() == n + w + i,
            known@.len() == n + w + i,
            forall|a: int| 0 <= a < n + w + i ==> (#[trigger] members@[a])@ == tables_graph(t)[a],
            forall|a: int| 0 <= a < n + w + i ==> #[trigger] known@[a] == (a < n),
            roots@ == tables_roots(t).take(i as int),
        decreases r - i,
    {
        let refs = &store.relations()[i].refs;
        let mut list: Vec<usize> = Vec::new();
        let mut k: usize = 0;
        while k < refs.len()
            invariant
                k <= refs.len(),
                t == store@,
                size == arena_size(t),
                size <= usize::MAX,
                list@.len() == k,
                forall|b: int| 0 <= b < k ==> #[trigger] list@[b] == position_of(t, refs@[b]),
            decreases refs.len() - k,
        {
            list.push(position(store, refs[k]));
            k += 1;
        }
        members.push(list);
        known.push(false);
        roots.push(n + w + i);
        i += 1;
    }
    members.push(Vec::new());
    known.push(false);
    Some(Layout { arena: Arena { members, known }, roots })
}

} // verus!
