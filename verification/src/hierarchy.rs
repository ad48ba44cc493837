//! The parent/child hierarchy of a fish rig, and the walk that finds every
//! body part hanging below a fish.
use bevy::ecs::entity::Entity;
use bevy::ecs::hierarchy::Children;
use bevy::ecs::system::Query;
use vstd::prelude::*;

verus! {

/// The scene's parent/child links, read through the ECS query for
/// [`Children`]. Entities are named by their bits (`Entity::to_bits`).
#[verifier::external_body]
pub struct ChildLinks<'a, 'w, 's> {
    pub query: &'a Query<'w, 's, &'static Children>,
}

/// The links that `links` reads: for each entity with a `Children`
/// component, the bits of its children in order.
pub uninterp spec fn child_links(links: ChildLinks) -> Map<u64, Seq<u64>>;

impl<'a, 'w, 's> View for ChildLinks<'a, 'w, 's> {
    type V = Map<u64, Seq<u64>>;

    open spec fn view(&self) -> Map<u64, Seq<u64>> {
        child_links(*self)
    }
}

/// The children of `e`; none when `e` has no entry.
pub open spec fn children_of(h: Map<u64, Seq<u64>>, e: u64) -> Seq<u64> {
    if h.contains_key(e) {
        h[e]
    } else {
        Seq::empty()
    }
}

/// `c` is a child of `p`.
pub open spec fn is_child(h: Map<u64, Seq<u64>>, p: u64, c: u64) -> bool {
    children_of(h, p).contains(c)
}

/// `path` leads down from `a`, one child at a time; `a` itself is not on it.
pub open spec fn is_path(h: Map<u64, Seq<u64>>, a: u64, path: Seq<u64>) -> bool {
    &&& path.len() > 0
    &&& is_child(h, a, path[0])
    &&& forall|i: int| 0 <= i < path.len() - 1 ==> #[trigger] is_child(h, path[i], path[i + 1])
}

/// `x` lies below `a`: a child of `a`, or a child of one, and so on.
pub open spec fn descends(h: Map<u64, Seq<u64>>, a: u64, x: u64) -> bool {
    exists|path: Seq<u64>| #[trigger] is_path(h, a, path) && path.last() == x
}

/// `rank` strictly falls from every parent to each of its children.
pub open spec fn ranked(h: Map<u64, Seq<u64>>, rank: spec_fn(u64) -> nat) -> bool {
    forall|p: u64, c: u64| #[trigger] is_child(h, p, c) ==> rank(c) < rank(p)
}

/// The hierarchy has no cycles: nothing lies below itself.
pub open spec fn is_acyclic(h: Map<u64, Seq<u64>>) -> bool {
    exists|rank: spec_fn(u64) -> nat| ranked(h, rank)
}

/// No entity has two parents, and none is listed twice among the children
/// of one parent.
pub open spec fn single_parented(h: Map<u64, Seq<u64>>) -> bool {
    &&& forall|p1: u64, p2: u64, c: u64|
        #[trigger] is_child(h, p1, c) && #[trigger] is_child(h, p2, c) ==> p1 == p2
    &&& forall|p: u64| (#[trigger] children_of(h, p)).no_duplicates()
}

/// The depth-first order in which a stack walk visits the entities of `s`
/// and everything below them: the last entity of `s` first, then the
/// entities below it (again last child first), then the rest of `s`.
/// Only entities whose rank is below `bound` are visited; along a `rank`
/// that falls from parent to child that is every entity below `bound`.
pub open spec fn walk_list(
    h: Map<u64, Seq<u64>>,
    rank: spec_fn(u64) -> nat,
    bound: nat,
    s: Seq<u64>,
) -> Seq<u64>
    decreases bound, s.len(),
{
    if s.len() == 0 {
        Seq::empty()
    } else {
        let c = s.last();
        (if rank(c) < bound {
            seq![c] + walk_list(h, rank, rank(c), children_of(h, c))
        } else {
            Seq::empty()
        }) + walk_list(h, rank, bound, s.drop_last())
    }
}

/// A rank that falls from every parent to each of its children, when there
/// is one.
pub open spec fn some_rank(h: Map<u64, Seq<u64>>) -> spec_fn(u64) -> nat {
    choose|rank: spec_fn(u64) -> nat| ranked(h, rank)
}

/// The order in which the walk below `root` visits entities: depth-first
/// from a stack holding the children of `root`, taking the last one first
/// and pushing its children in order. An entity reachable along several
/// paths is visited once along each.
pub open spec fn walk_order(h: Map<u64, Seq<u64>>, root: u64) -> Seq<u64> {
    walk_list(h, some_rank(h), some_rank(h)(root), children_of(h, root))
}

/// The walk takes the stack from its top: the entities pushed last are
/// walked, with everything below them, before those pushed earlier.
pub proof fn lemma_walk_list_concat(
    h: Map<u64, Seq<u64>>,
    rank: spec_fn(u64) -> nat,
    bound: nat,
    s: Seq<u64>,
    t: Seq<u64>,
)
    ensures
        walk_list(h, rank, bound, s + t) == walk_list(h, rank, bound, t) + walk_list(
            h,
            rank,
            bound,
            s,
        ),
    decreases t.len(),
{
    if t.len() == 0 {
        assert(s + t =~= s);
        assert(walk_list(h, rank, bound, t) =~= Seq::<u64>::empty());
        assert(walk_list(h, rank, bound, t) + walk_list(h, rank, bound, s) =~= walk_list(
            h,
            rank,
            bound,
            s,
        ));
    } else {
        assert((s + t).drop_last() =~= s + t.drop_last());
        assert((s + t).last() == t.last());
        lemma_walk_list_concat(h, rank, bound, s, t.drop_last());
        let c = t.last();
        let head = if rank(c) < bound {
            seq![c] + walk_list(h, rank, rank(c), children_of(h, c))
        } else {
            Seq::empty()
        };
        assert(walk_list(h, rank, bound, s + t) == head + walk_list(
            h,
            rank,
            bound,
            s + t.drop_last(),
        ));
        assert(walk_list(h, rank, bound, t) == head + walk_list(h, rank, bound, t.drop_last()));
        assert(walk_list(h, rank, bound, s + t) =~= walk_list(h, rank, bound, t) + walk_list(
            h,
            rank,
            bound,
            s,
        ));
    }
}

/// Where every entity of `s` ranks below both bounds, the bound does not
/// change the walk.
pub proof fn lemma_walk_list_bound(
    h: Map<u64, Seq<u64>>,
    rank: spec_fn(u64) -> nat,
    b1: nat,
    b2: nat,
    s: Seq<u64>,
)
    requires
        forall|i: int| 0 <= i < s.len() ==> rank(#[trigger] s[i]) < b1 && rank(s[i]) < b2,
    ensures
        walk_list(h, rank, b1, s) == walk_list(h, rank, b2, s),
    decreases s.len(),
{
    if s.len() > 0 {
        assert(s.last() == s[s.len() - 1]);
        lemma_walk_list_bound(h, rank, b1, b2, s.drop_last());
    }
}

/// An entity is walked first, then everything below it; an empty stack
/// walks nothing; and the walk below `root` starts with the last child of
/// `root`.
pub proof fn lemma_walk_preorder(
    h: Map<u64, Seq<u64>>,
    rank: spec_fn(u64) -> nat,
    bound: nat,
    c: u64,
    root: u64,
)
    requires
        ranked(h, rank),
        rank(c) < bound,
    ensures
        walk_list(h, rank, bound, seq![c]) == seq![c] + walk_list(
            h,
            rank,
            rank(c),
            children_of(h, c),
        ),
        walk_list(h, rank, bound, Seq::empty()) == Seq::<u64>::empty(),
        children_of(h, root).len() > 0 ==> walk_order(h, root).len() > 0 && walk_order(h, root)[0]
            == children_of(h, root).last(),
{
    assert(seq![c].drop_last() =~= Seq::<u64>::empty());
    assert(seq![c].last() == c);
    assert(walk_list(h, rank, bound, Seq::<u64>::empty()) =~= Seq::<u64>::empty());
    assert(walk_list(h, rank, bound, seq![c]) =~= seq![c] + walk_list(
        h,
        rank,
        rank(c),
        children_of(h, c),
    ));
    let kids = children_of(h, root);
    if kids.len() > 0 {
        let r = some_rank(h);
        assert(ranked(h, r));
        let last = kids.last();
        assert(kids[kids.len() - 1] == last);
        assert(is_child(h, root, last));
        assert(r(last) < r(root));
    }
}

/// Popping `e` off the stack and pushing its children keeps what is left to
/// visit, with `e` now visited.
proof fn lemma_walk_order_step(
    h: Map<u64, Seq<u64>>,
    rank: spec_fn(u64) -> nat,
    bound: nat,
    e: u64,
    rest: Seq<u64>,
    kids: Seq<u64>,
)
    requires
        ranked(h, rank),
        kids == children_of(h, e),
        rank(e) < bound,
    ensures
        walk_list(h, rank, bound, rest.push(e)) == seq![e] + walk_list(h, rank, bound, rest + kids),
{
    assert(rest.push(e).drop_last() =~= rest);
    assert(rest.push(e).last() == e);
    lemma_walk_list_concat(h, rank, bound, rest, kids);
    assert forall|i: int| 0 <= i < kids.len() implies rank(#[trigger] kids[i]) < rank(e)
        && rank(kids[i]) < bound by {
        assert(is_child(h, e, kids[i]));
    }
    lemma_walk_list_bound(h, rank, rank(e), bound, kids);
    assert(walk_list(h, rank, bound, rest.push(e)) =~= seq![e] + walk_list(
        h,
        rank,
        bound,
        rest + kids,
    ));
}

/// How many entities a walk still visits from the entities of `s`, counting
/// only those whose rank is below `bound` and everything below them.
spec fn work(h: Map<u64, Seq<u64>>, rank: spec_fn(u64) -> nat, bound: nat, s: Seq<u64>) -> nat
    decreases bound, s.len(),
{
    if s.len() == 0 {
        0
    } else {
        let c = s.last();
        work(h, rank, bound, s.drop_last()) + if rank(c) < bound {
            1 + work(h, rank, rank(c), children_of(h, c))
        } else {
            0
        }
    }
}

proof fn lemma_work_concat(
    h: Map<u64, Seq<u64>>,
    rank: spec_fn(u64) -> nat,
    bound: nat,
    s: Seq<u64>,
    t: Seq<u64>,
)
    ensures
        work(h, rank, bound, s + t) == work(h, rank, bound, s) + work(h, rank, bound, t),
    decreases t.len(),
{
    if t.len() == 0 {
        assert(s + t =~= s);
    } else {
        assert((s + t).drop_last() =~= s + t.drop_last());
        assert((s + t).last() == t.last());
        lemma_work_concat(h, rank, bound, s, t.drop_last());
    }
}

proof fn lemma_work_bound(
    h: Map<u64, Seq<u64>>,
    rank: spec_fn(u64) -> nat,
    b1: nat,
    b2: nat,
    s: Seq<u64>,
)
    requires
        forall|i: int| 0 <= i < s.len() ==> rank(#[trigger] s[i]) < b1 && rank(s[i]) < b2,
    ensures
        work(h, rank, b1, s) == work(h, rank, b2, s),
    decreases s.len(),
{
    if s.len() > 0 {
        assert(s.last() == s[s.len() - 1]);
        lemma_work_bound(h, rank, b1, b2, s.drop_last());
    }
}

/// Everything on a path from `a` ranks below `a`.
proof fn lemma_path_rank(
    h: Map<u64, Seq<u64>>,
    rank: spec_fn(u64) -> nat,
    a: u64,
    path: Seq<u64>,
    i: int,
)
    requires
        ranked(h, rank),
        is_path(h, a, path),
        0 <= i < path.len(),
    ensures
        rank(path[i]) < rank(a),
    decreases i,
{
    if i > 0 {
        lemma_path_rank(h, rank, a, path, i - 1);
        let j = i - 1;
        assert(is_child(h, path[j], path[j + 1]));
    } else {
        assert(is_child(h, a, path[0]));
    }
}

proof fn lemma_descends_rank(h: Map<u64, Seq<u64>>, rank: spec_fn(u64) -> nat, a: u64, x: u64)
    requires
        ranked(h, rank),
        descends(h, a, x),
    ensures
        rank(x) < rank(a),
{
    let path = choose|path: Seq<u64>| #[trigger] is_path(h, a, path) && path.last() == x;
    lemma_path_rank(h, rank, a, path, path.len() - 1);
}

proof fn lemma_descends_child(h: Map<u64, Seq<u64>>, a: u64, c: u64)
    requires
        is_child(h, a, c),
    ensures
        descends(h, a, c),
{
    let path = seq![c];
    assert(is_path(h, a, path));
}

proof fn lemma_descends_extend(h: Map<u64, Seq<u64>>, a: u64, b: u64, c: u64)
    requires
        descends(h, a, b),
        is_child(h, b, c),
    ensures
        descends(h, a, c),
{
    let path = choose|path: Seq<u64>| #[trigger] is_path(h, a, path) && path.last() == b;
    let longer = path.push(c);
    assert forall|i: int| 0 <= i < longer.len() - 1 implies #[trigger] is_child(
        h,
        longer[i],
        longer[i + 1],
    ) by {
        if i < path.len() - 1 {
            assert(is_child(h, path[i], path[i + 1]));
        }
    }
    assert(is_path(h, a, longer));
}

proof fn lemma_descends_prepend(h: Map<u64, Seq<u64>>, a: u64, c: u64, x: u64)
    requires
        is_child(h, a, c),
        descends(h, c, x),
    ensures
        descends(h, a, x),
{
    let path = choose|path: Seq<u64>| #[trigger] is_path(h, c, path) && path.last() == x;
    let longer = seq![c] + path;
    assert forall|i: int| 0 <= i < longer.len() - 1 implies #[trigger] is_child(
        h,
        longer[i],
        longer[i + 1],
    ) by {
        if i > 0 {
            assert(longer[i] == path[i - 1]);
            assert(longer[i + 1] == path[i]);
            let j = i - 1;
            assert(is_child(h, path[j], path[j + 1]));
        }
    }
    assert(is_path(h, a, longer));
    assert(longer.last() == x);
}

/// What lies below `a` is a child of `a` or lies below one.
proof fn lemma_descends_first_step(h: Map<u64, Seq<u64>>, a: u64, x: u64)
    requires
        descends(h, a, x),
    ensures
        is_child(h, a, x) || exists|c: u64| #[trigger] is_child(h, a, c) && descends(h, c, x),
{
    let path = choose|path: Seq<u64>| #[trigger] is_path(h, a, path) && path.last() == x;
    if path.len() > 1 {
        let rest = path.drop_first();
        assert forall|i: int| 0 <= i < rest.len() - 1 implies #[trigger] is_child(
            h,
            rest[i],
            rest[i + 1],
        ) by {
            let j = i + 1;
            assert(is_child(h, path[j], path[j + 1]));
        }
        let z: int = 0;
        assert(is_child(h, path[z], path[z + 1]));
        assert(is_path(h, path[0], rest));
        assert(rest.last() == x);
        assert(descends(h, path[0], x));
    }
}

/// What lies below `a` is a child of `a` or the child of something below `a`.
proof fn lemma_descends_last_step(h: Map<u64, Seq<u64>>, a: u64, x: u64)
    requires
        descends(h, a, x),
    ensures
        is_child(h, a, x) || exists|p: u64| #[trigger] is_child(h, p, x) && descends(h, a, p),
{
    let path = choose|path: Seq<u64>| #[trigger] is_path(h, a, path) && path.last() == x;
    if path.len() > 1 {
        let front = path.drop_last();
        assert forall|i: int| 0 <= i < front.len() - 1 implies #[trigger] is_child(
            h,
            front[i],
            front[i + 1],
        ) by {
            assert(is_child(h, path[i], path[i + 1]));
        }
        assert(is_path(h, a, front));
        let p = front.last();
        let j = path.len() - 2;
        assert(is_child(h, path[j], path[j + 1]));
        assert(is_child(h, p, x));
        assert(descends(h, a, p));
    }
}

impl<'a, 'w, 's> ChildLinks<'a, 'w, 's> {
    /// The children of `e`, in order, by their bits; none when `e` has no
    /// `Children` (or its bits name no entity). Calls `Query::get` on the
    /// children query and reads the `Children` slice; the contract claims the
    /// result is the entry of `e` in [`child_links`], or empty where there is
    /// none.
    #[verifier::external_body]
    fn children_vec(&self, e: u64) -> (kids: Vec<u64>)
        ensures
            kids@ == children_of(child_links(*self), e),
    {
        match Entity::try_from_bits(e) {
            Some(entity) => match self.query.get(entity) {
                Ok(children) => children.iter().copied().map(Entity::to_bits).collect(),
                Err(_) => Vec::new(),
            },
            None => Vec::new(),
        }
    }

    /// Every entity below `root`: the body parts of a fish rig, nested parts
    /// included; each exactly once when every entity has a single parent, as
    /// in an entity hierarchy. The walk is depth-first from a stack holding
    /// the children of `root`.
    pub fn descendants(&self, root: u64) -> (parts: Vec<u64>)
        requires
            is_acyclic(self@),
        ensures
            parts@ == walk_order(self@, root),
            forall|x: u64| parts@.contains(x) <==> descends(self@, root, x),
            single_parented(self@) ==> parts@.no_duplicates(),
    {
        let ghost h = self@;
        let ghost rank = some_rank(h);
        let mut parts: Vec<u64> = Vec::new();
        let mut stack = self.children_vec(root);
        proof {
            assert forall|i: int| 0 <= i < stack@.len() implies rank(#[trigger] stack@[i]) < rank(
                root,
            ) && descends(h, root, stack@[i]) by {
                assert(is_child(h, root, stack@[i]));
                lemma_descends_child(h, root, stack@[i]);
            }
            assert forall|x: u64| descends(h, root, x) implies parts@.contains(x)
                || stack@.contains(x) || exists|s: u64|
                #![trigger stack@.contains(s), descends(h, s, x)]
                stack@.contains(s) && descends(h, s, x) by {
                lemma_descends_first_step(h, root, x);
            }
            assert(parts@ + stack@ =~= stack@);
            if single_parented(h) {
                assert(stack@ == children_of(h, root));
            }
            assert forall|y: u64, s: u64|
                single_parented(h) && (parts@ + stack@).contains(y) && stack@.contains(s)
                implies !descends(h, s, y) by {
                if descends(h, s, y) {
                    lemma_descends_last_step(h, s, y);
                    if is_child(h, s, y) {
                        assert(is_child(h, root, y));
                        assert(is_child(h, root, s));
                        assert(s == root);
                        lemma_descends_rank(h, rank, root, s);
                    } else {
                        let p = choose|p: u64| #[trigger] is_child(h, p, y) && descends(h, s, p);
                        assert(is_child(h, root, y));
                        assert(p == root);
                        lemma_descends_rank(h, rank, s, p);
                        lemma_descends_child(h, root, s);
                        lemma_descends_rank(h, rank, root, s);
                    }
                }
            }
            assert(parts@ + stack@ =~= stack@);
            assert(parts@ + walk_list(h, rank, rank(root), stack@) =~= walk_order(h, root));
        }
        while stack.len() > 0
            invariant
                ranked(h, rank),
                h == self@,
                forall|i: int|
                    0 <= i < stack@.len() ==> rank(#[trigger] stack@[i]) < rank(root),
                single_parented(h) ==> (parts@ + stack@).no_duplicates(),
                forall|y: u64| (parts@ + stack@).contains(y) ==> descends(h, root, y),
                forall|x: u64|
                    descends(h, root, x) ==> parts@.contains(x) || stack@.contains(x) || exists|
                        s: u64,
                    |
                        #![trigger stack@.contains(s), descends(h, s, x)]
                        stack@.contains(s) && descends(h, s, x),
                forall|y: u64, s: u64|
                    single_parented(h) && (parts@ + stack@).contains(y) && stack@.contains(s)
                        ==> !descends(h, s, y),
                parts@ + walk_list(h, rank, rank(root), stack@) == walk_order(h, root),
            decreases work(h, rank, rank(root), stack@),
        {
            let ghost old_stack = stack@;
            let ghost old_parts = parts@;
            let e = stack.pop().unwrap();
            let ghost rest = stack@;
            assert(old_stack == rest.push(e));
            let kids = self.children_vec(e);
            let mut j: usize = 0;
            while j < kids.len()
                invariant
                    j <= kids@.len(),
                    stack@ == rest + kids@.subrange(0, j as int),
                decreases kids@.len() - j,
            {
                stack.push(kids[j]);
                j = j + 1;
                assert(stack@ =~= rest + kids@.subrange(0, j as int));
            }
            assert(kids@.subrange(0, j as int) =~= kids@);
            parts.push(e);
            proof {
                self.lemma_walk_step(rank, root, e, old_parts, rest, kids@);
                assert(rank(e) < rank(root)) by {
                    assert(old_stack[rest.len() as int] == e);
                }
                lemma_walk_order_step(h, rank, rank(root), e, rest, kids@);
                assert(parts@ + walk_list(h, rank, rank(root), stack@) =~= old_parts
                    + walk_list(h, rank, rank(root), old_stack));
            }
        }
        assert(parts@ =~= parts@ + walk_list(h, rank, rank(root), stack@));
        parts
    }

    /// One step of the walk keeps its invariant and does less work.
    proof fn lemma_walk_step(
        &self,
        rank: spec_fn(u64) -> nat,
        root: u64,
        e: u64,
        parts: Seq<u64>,
        rest: Seq<u64>,
        kids: Seq<u64>,
    )
        requires
            ranked(self@, rank),
            kids == children_of(self@, e),
            forall|i: int|
                0 <= i < rest.push(e).len() ==> rank(#[trigger] rest.push(e)[i]) < rank(root),
            single_parented(self@) ==> (parts + rest.push(e)).no_duplicates(),
            forall|y: u64| (parts + rest.push(e)).contains(y) ==> descends(self@, root, y),
            forall|x: u64|
                descends(self@, root, x) ==> parts.contains(x) || rest.push(e).contains(x)
                    || exists|s: u64|
                    #![trigger rest.push(e).contains(s), descends(self@, s, x)]
                    rest.push(e).contains(s) && descends(self@, s, x),
            forall|y: u64, s: u64|
                single_parented(self@) && (parts + rest.push(e)).contains(y) && rest.push(
                    e,
                ).contains(s) ==> !descends(self@, s, y),
        ensures
            ({
                let h = self@;
                let stack = rest + kids;
                let done = parts.push(e);
                &&& forall|i: int| 0 <= i < stack.len() ==> rank(#[trigger] stack[i]) < rank(root)
                &&& single_parented(h) ==> (done + stack).no_duplicates()
                &&& forall|y: u64| (done + stack).contains(y) ==> descends(h, root, y)
                &&& forall|x: u64|
                    descends(h, root, x) ==> done.contains(x) || stack.contains(x) || exists|
                        s: u64,
                    |
                        #![trigger stack.contains(s), descends(h, s, x)]
                        stack.contains(s) && descends(h, s, x)
                &&& forall|y: u64, s: u64|
                    single_parented(h) && (done + stack).contains(y) && stack.contains(s)
                        ==> !descends(h, s, y)
                &&& work(h, rank, rank(root), stack) < work(h, rank, rank(root), rest.push(e))
            }),
    {
        let h = self@;
        let old_stack = rest.push(e);
        let old_all = parts + old_stack;
        let stack = rest + kids;
        let done = parts.push(e);
        let all = done + stack;
        assert(old_stack[old_stack.len() - 1] == e);
        assert(old_stack.contains(e));
        assert(old_all.contains(e)) by {
            assert(old_all[parts.len() + rest.len() as int] == e);
        }
        assert(descends(h, root, e));
        assert(rank(e) < rank(root)) by {
            assert(old_stack[rest.len() as int] == e);
        }
        // Facts about one child of `e`.
        assert forall|k: u64| kids.contains(k) implies descends(h, e, k) && descends(h, root, k)
            && rank(k) < rank(e) by {
            assert(is_child(h, e, k));
            lemma_descends_child(h, e, k);
            lemma_descends_extend(h, root, e, k);
            lemma_descends_rank(h, rank, e, k);
        }
        // Ranks on the new stack.
        assert forall|i: int| 0 <= i < stack.len() implies rank(#[trigger] stack[i]) < rank(
            root,
        ) by {
            if i < rest.len() {
                assert(stack[i] == old_stack[i]);
            } else {
                assert(stack[i] == kids[i - rest.len()]);
                assert(kids.contains(kids[i - rest.len()]));
            }
        }
        // Membership in the new sequences.
        assert forall|y: u64| all.contains(y) <==> (old_all.contains(y) || kids.contains(y)) by {
            if all.contains(y) {
                let i = choose|i: int| 0 <= i < all.len() && all[i] == y;
                if i < parts.len() {
                    assert(old_all[i] == y);
                } else if i == parts.len() {
                    assert(old_all[parts.len() + rest.len() as int] == y);
                } else if i < parts.len() + 1 + rest.len() {
                    assert(old_all[i - 1] == y);
                } else {
                    assert(kids[i - parts.len() - 1 - rest.len()] == y);
                }
            }
            if old_all.contains(y) {
                let i = choose|i: int| 0 <= i < old_all.len() && old_all[i] == y;
                if i < parts.len() {
                    assert(all[i] == y);
                } else if i < parts.len() + rest.len() {
                    assert(all[i + 1] == y);
                } else {
                    assert(all[parts.len() as int] == y);
                }
            }
            if kids.contains(y) {
                let i = choose|i: int| 0 <= i < kids.len() && kids[i] == y;
                assert(all[parts.len() + 1 + rest.len() + i] == y);
            }
        }
        assert forall|s: u64| stack.contains(s) <==> (rest.contains(s) || kids.contains(s)) by {
            if stack.contains(s) {
                let i = choose|i: int| 0 <= i < stack.len() && stack[i] == s;
                if i < rest.len() {
                    assert(rest[i] == s);
                } else {
                    assert(kids[i - rest.len()] == s);
                }
            }
            if rest.contains(s) {
                let i = choose|i: int| 0 <= i < rest.len() && rest[i] == s;
                assert(stack[i] == s);
            }
            if kids.contains(s) {
                let i = choose|i: int| 0 <= i < kids.len() && kids[i] == s;
                assert(stack[rest.len() + i] == s);
            }
        }
        // Completeness.
        assert forall|x: u64| descends(h, root, x) implies done.contains(x) || stack.contains(x)
            || exists|s: u64|
            #![trigger stack.contains(s), descends(h, s, x)]
            stack.contains(s) && descends(h, s, x) by {
            if x == e {
                assert(done[parts.len() as int] == e);
            } else if parts.contains(x) {
                let i = choose|i: int| 0 <= i < parts.len() && parts[i] == x;
                assert(done[i] == x);
            } else if old_stack.contains(x) {
                let i = choose|i: int| 0 <= i < old_stack.len() && old_stack[i] == x;
                assert(i < rest.len());
                assert(rest.contains(x));
            } else {
                let s = choose|s: u64| #[trigger] old_stack.contains(s) && descends(h, s, x);
                if s == e {
                    lemma_descends_first_step(h, e, x);
                    if !is_child(h, e, x) {
                        let c = choose|c: u64| #[trigger] is_child(h, e, c) && descends(h, c, x);
                        assert(kids.contains(c));
                        assert(stack.contains(c));
                    }
                } else {
                    let i = choose|i: int| 0 <= i < old_stack.len() && old_stack[i] == s;
                    assert(i < rest.len());
                    assert(rest.contains(s));
                    assert(stack.contains(s));
                }
            }
        }
        if single_parented(h) {
            assert forall|k: u64| kids.contains(k) implies !old_all.contains(k) by {
                assert(descends(h, e, k));
            }
            assert forall|s: u64| rest.contains(s) implies old_stack.contains(s) && s != e by {
                let i = choose|i: int| 0 <= i < rest.len() && rest[i] == s;
                assert(old_stack[i] == s);
                assert(old_all[parts.len() + i] == s);
                assert(old_all[parts.len() + rest.len() as int] == e);
            }
            // No duplicates.
            assert(kids.no_duplicates());
            assert forall|i: int, j: int|
                0 <= i < all.len() && 0 <= j < all.len() && i != j implies all[i] != all[j] by {
                let pos = |k: int|
                    if k < parts.len() {
                        k
                    } else if k == parts.len() {
                        parts.len() + rest.len() as int
                    } else {
                        k - 1
                    };
                let ki = i >= parts.len() + 1 + rest.len();
                let kj = j >= parts.len() + 1 + rest.len();
                if !ki && !kj {
                    assert(all[i] == old_all[pos(i)]);
                    assert(all[j] == old_all[pos(j)]);
                } else if ki && kj {
                    assert(all[i] == kids[i - parts.len() - 1 - rest.len()]);
                    assert(all[j] == kids[j - parts.len() - 1 - rest.len()]);
                } else if ki {
                    assert(all[i] == kids[i - parts.len() - 1 - rest.len()]);
                    assert(kids.contains(all[i]));
                    assert(all[j] == old_all[pos(j)]);
                } else {
                    assert(all[j] == kids[j - parts.len() - 1 - rest.len()]);
                    assert(kids.contains(all[j]));
                    assert(all[i] == old_all[pos(i)]);
                }
            }
            // Nothing recorded lies below anything still on the stack.
            assert forall|y: u64, s: u64| all.contains(y) && stack.contains(s) implies !descends(
                h,
                s,
                y,
            ) by {
                if descends(h, s, y) {
                    if rest.contains(s) {
                        if kids.contains(y) {
                            // The only parent of `y` is `e`, so `e` would lie below `s`.
                            lemma_descends_last_step(h, s, y);
                            assert(is_child(h, e, y));
                            if is_child(h, s, y) {
                                assert(s == e);
                            } else {
                                let p = choose|p: u64|
                                    #[trigger] is_child(h, p, y) && descends(h, s, p);
                                assert(p == e);
                            }
                        }
                    } else {
                        assert(kids.contains(s));
                        lemma_descends_prepend(h, e, s, y);
                        if old_all.contains(y) {
                        } else {
                            assert(kids.contains(y));
                            lemma_descends_last_step(h, s, y);
                            assert(is_child(h, e, y));
                            if is_child(h, s, y) {
                                assert(s == e);
                                lemma_descends_rank(h, rank, e, s);
                            } else {
                                let p = choose|p: u64|
                                    #[trigger] is_child(h, p, y) && descends(h, s, p);
                                assert(p == e);
                                lemma_descends_rank(h, rank, s, e);
                                lemma_descends_rank(h, rank, e, s);
                            }
                        }
                    }
                }
            }
        }
        // The work left drops by one.
        lemma_work_concat(h, rank, rank(root), rest, kids);
        assert(old_stack.drop_last() =~= rest);
        assert forall|i: int| 0 <= i < kids.len() implies rank(#[trigger] kids[i]) < rank(e)
            && rank(kids[i]) < rank(root) by {
            assert(kids.contains(kids[i]));
        }
        lemma_work_bound(h, rank, rank(e), rank(root), kids);
    }
}

} // verus!
