use vstd::prelude::*;
use std::collections::VecDeque;

verus! {

/// A directory waiting in the walker's queue, with its distance from the root
/// in path-segment hops.
pub struct QueuedDir {
    pub path: String,
    pub depth: u8,
}

/// What the walker asks for next about one directory taken off its queue.
pub struct WalkStep {
    pub path: String,
    pub depth: u8,
    /// The directory is to be reported (every one but the root).
    pub emit: bool,
    /// The directory's subdirectories are to be listed and handed back.
    pub list_children: bool,
}

/// A breadth-first walk below a root, bounded by a maximum depth. The walker
/// decides; whoever drives it lists directories and reports the paths.
pub struct Walker {
    pub max_depth: u8,
    pub queue: VecDeque<QueuedDir>,
}

/// The queue as (path, depth) pairs, front first.
pub open spec fn entries(q: Seq<QueuedDir>) -> Seq<(Seq<char>, int)> {
    q.map_values(|e: QueuedDir| (e.path@, e.depth as int))
}

/// Children listed below a directory at `parent_depth`, as queue entries.
pub open spec fn child_entries(children: Seq<String>, parent_depth: int) -> Seq<(Seq<char>, int)> {
    children.map_values(|c: String| (c@, parent_depth + 1))
}

impl Walker {
    /// No queued directory lies deeper than the bound.
    pub open spec fn wf(&self) -> bool {
        forall|i: int| 0 <= i < self.queue@.len() ==> #[trigger] self.queue@[i].depth <= self.max_depth
    }

    /// A walk that starts at `root_path`, the only directory at depth 0.
    pub fn new(root_path: String, max_depth: u8) -> (r: Walker)
        ensures
            r.wf(),
            r.max_depth == max_depth,
            entries(r.queue@) == seq![(root_path@, 0int)],
    {
        let mut queue: VecDeque<QueuedDir> = VecDeque::new();
        queue.push_back(QueuedDir { path: root_path, depth: 0 });
        let r = Walker { max_depth, queue };
        assert(entries(r.queue@) =~= seq![(root_path@, 0int)]);
        r
    }

    /// Queues, in listing order, the subdirectories found below a directory at
    /// `parent_depth`, one hop further from the root.
    pub fn push_children(&mut self, children: Vec<String>, parent_depth: u8)
        requires
            old(self).wf(),
            parent_depth < old(self).max_depth,
        ensures
            final(self).wf(),
            final(self).max_depth == old(self).max_depth,
            entries(final(self).queue@) == entries(old(self).queue@) + child_entries(
                children@,
                parent_depth as int,
            ),
    {
        let ghost start = entries(self.queue@);
        let mut i: usize = 0;
        while i < children.len()
            invariant
                self.wf(),
                self.max_depth == old(self).max_depth,
                parent_depth < self.max_depth,
                i <= children@.len(),
                start == entries(old(self).queue@),
                entries(self.queue@) == start + child_entries(children@, parent_depth as int).subrange(
                    0,
                    i as int,
                ),
            decreases children@.len() - i,
        {
            let ghost before = self.queue@;
            self.queue.push_back(QueuedDir { path: children[i].clone(), depth: parent_depth + 1 });
            assert(entries(self.queue@) =~= entries(before).push((children@[i as int]@, parent_depth + 1)));
            i = i + 1;
            assert(entries(self.queue@) =~= start + child_entries(children@, parent_depth as int).subrange(
                0,
                i as int,
            ));
        }
        assert(child_entries(children@, parent_depth as int).subrange(0, children@.len() as int)
            =~= child_entries(children@, parent_depth as int));
    }
}

/// Takes the directory at the front of the queue and says what to do with it:
/// report it unless it is the root, and list its subdirectories while it lies
/// strictly above the depth bound. `None` once the walk is over. No directory
/// handed out for reporting lies more than `max_depth` hops below the root.
pub fn run(walker: &mut Walker) -> (r: Option<WalkStep>)
    requires
        old(walker).wf(),
    ensures
        final(walker).wf(),
        final(walker).max_depth == old(walker).max_depth,
        (r is None) == (old(walker).queue@.len() == 0),
        r is None ==> final(walker).queue@ == old(walker).queue@,
        r matches Some(step) ==> {
            &&& entries(final(walker).queue@) == entries(old(walker).queue@).drop_first()
            &&& step.path@ == entries(old(walker).queue@)[0].0
            &&& step.depth == entries(old(walker).queue@)[0].1
            &&& step.depth <= old(walker).max_depth
            &&& step.emit == (step.depth > 0)
            &&& step.list_children == (step.depth < old(walker).max_depth)
        },
{
    match walker.queue.pop_front() {
        Some(next) => {
            assert(entries(walker.queue@) =~= entries(old(walker).queue@).drop_first());
            let depth = next.depth;
            Some(WalkStep {
                path: next.path,
                depth,
                emit: depth > 0,
                list_children: depth < walker.max_depth,
            })
        },
        None => None,
    }
}

/// Paths tagged with one depth, as queue entries.
pub open spec fn tagged(s: Seq<Seq<char>>, depth: int) -> Seq<(Seq<char>, int)> {
    s.map_values(|p: Seq<char>| (p, depth))
}

/// One turn of a driver over a directory tree given by `tree` (the listing of
/// each directory): `run` takes the front entry off the queue and, where it
/// asks for a listing, `push_children` appends the listing one hop deeper.
pub open spec fn drive_step(
    q: Seq<(Seq<char>, int)>,
    tree: spec_fn(Seq<char>) -> Seq<Seq<char>>,
    max_depth: int,
) -> Seq<(Seq<char>, int)> {
    if q.len() == 0 {
        q
    } else if q[0].1 < max_depth {
        q.drop_first() + tagged(tree(q[0].0), q[0].1 + 1)
    } else {
        q.drop_first()
    }
}

/// What one turn reports: the front entry, unless it is the root.
pub open spec fn drive_emits(q: Seq<(Seq<char>, int)>) -> Seq<Seq<char>> {
    if q.len() > 0 && q[0].1 > 0 {
        seq![q[0].0]
    } else {
        Seq::empty()
    }
}

/// The queue after `n` turns, and the paths reported in those turns, in order.
pub open spec fn drive(
    q: Seq<(Seq<char>, int)>,
    tree: spec_fn(Seq<char>) -> Seq<Seq<char>>,
    max_depth: int,
    n: nat,
) -> (Seq<(Seq<char>, int)>, Seq<Seq<char>>)
    decreases n,
{
    if n == 0 {
        (q, Seq::empty())
    } else {
        let rest = drive(drive_step(q, tree, max_depth), tree, max_depth, (n - 1) as nat);
        (rest.0, drive_emits(q) + rest.1)
    }
}

/// The listings of the directories of `s`, one after the other.
pub open spec fn expand(s: Seq<Seq<char>>, tree: spec_fn(Seq<char>) -> Seq<Seq<char>>) -> Seq<Seq<char>>
    decreases s.len(),
{
    if s.len() == 0 {
        Seq::empty()
    } else {
        tree(s[0]) + expand(s.drop_first(), tree)
    }
}

/// The directories `k` hops below `root`, in listing order.
pub open spec fn level(tree: spec_fn(Seq<char>) -> Seq<Seq<char>>, root: Seq<char>, k: nat) -> Seq<Seq<char>>
    decreases k,
{
    if k == 0 {
        seq![root]
    } else {
        expand(level(tree, root, (k - 1) as nat), tree)
    }
}

/// The directories `from` to `to` hops below `root`, level after level.
pub open spec fn levels(
    tree: spec_fn(Seq<char>) -> Seq<Seq<char>>,
    root: Seq<char>,
    from: nat,
    to: nat,
) -> Seq<Seq<char>>
    decreases to + 1 - from,
{
    if from > to {
        Seq::empty()
    } else {
        level(tree, root, from) + levels(tree, root, from + 1, to)
    }
}

/// How many directories lie `from` to `to` hops below `root`.
pub open spec fn level_sizes(
    tree: spec_fn(Seq<char>) -> Seq<Seq<char>>,
    root: Seq<char>,
    from: nat,
    to: nat,
) -> nat
    decreases to + 1 - from,
{
    if from > to {
        0
    } else {
        level(tree, root, from).len() + level_sizes(tree, root, from + 1, to)
    }
}

/// One turn of a driver, `run` and then, where the step asks for it,
/// `push_children` with the listing of the step's directory, is `drive_step`.
pub proof fn lemma_turn_is_drive_step(
    before: Seq<(Seq<char>, int)>,
    after: Seq<(Seq<char>, int)>,
    listing: Seq<String>,
    tree: spec_fn(Seq<char>) -> Seq<Seq<char>>,
    max_depth: int,
)
    requires
        before.len() > 0,
        tree(before[0].0) == listing.map_values(|c: String| c@),
        after == (if before[0].1 < max_depth {
            before.drop_first() + child_entries(listing, before[0].1)
        } else {
            before.drop_first()
        }),
    ensures
        after == drive_step(before, tree, max_depth),
{
    assert(child_entries(listing, before[0].1) =~= tagged(
        listing.map_values(|c: String| c@),
        before[0].1 + 1,
    ));
}

proof fn lemma_tagged_add(a: Seq<Seq<char>>, b: Seq<Seq<char>>, depth: int)
    ensures
        tagged(a + b, depth) == tagged(a, depth) + tagged(b, depth),
{
    assert(tagged(a + b, depth) =~= tagged(a, depth) + tagged(b, depth));
}

proof fn lemma_drive_split(
    q: Seq<(Seq<char>, int)>,
    tree: spec_fn(Seq<char>) -> Seq<Seq<char>>,
    max_depth: int,
    a: nat,
    b: nat,
)
    ensures
        drive(q, tree, max_depth, a + b) == (
            drive(drive(q, tree, max_depth, a).0, tree, max_depth, b).0,
            drive(q, tree, max_depth, a).1 + drive(drive(q, tree, max_depth, a).0, tree, max_depth, b).1,
        ),
    decreases a,
{
    if a == 0 {
        assert(Seq::<Seq<char>>::empty() + drive(q, tree, max_depth, b).1 =~= drive(q, tree, max_depth, b).1);
    } else {
        let q1 = drive_step(q, tree, max_depth);
        lemma_drive_split(q1, tree, max_depth, (a - 1) as nat, b);
        assert((a + b - 1) as nat == (a - 1) as nat + b);
        let m = drive(q1, tree, max_depth, (a - 1) as nat);
        let t = drive(m.0, tree, max_depth, b);
        assert(drive_emits(q) + (m.1 + t.1) =~= (drive_emits(q) + m.1) + t.1);
    }
}

/// Driving the queue through one whole level: the level is reported (but for
/// the root) and its listings are queued one hop deeper, behind what waited.
proof fn lemma_drive_level(
    s: Seq<Seq<char>>,
    k: int,
    x: Seq<(Seq<char>, int)>,
    tree: spec_fn(Seq<char>) -> Seq<Seq<char>>,
    max_depth: int,
)
    requires
        k >= 0,
    ensures
        drive(tagged(s, k) + x, tree, max_depth, s.len()) == (
            x + (if k < max_depth {
                tagged(expand(s, tree), k + 1)
            } else {
                Seq::empty()
            }),
            if k > 0 {
                s
            } else {
                Seq::empty()
            },
        ),
    decreases s.len(),
{
    let q = tagged(s, k) + x;
    if s.len() == 0 {
        assert(q =~= x);
        assert(x + tagged(Seq::<Seq<char>>::empty(), k + 1) =~= x);
        assert(x + Seq::<(Seq<char>, int)>::empty() =~= x);
    } else {
        let s1 = s.drop_first();
        let ch: Seq<(Seq<char>, int)> = if k < max_depth {
            tagged(tree(s[0]), k + 1)
        } else {
            Seq::empty()
        };
        assert(q[0] == (s[0], k));
        assert(drive_step(q, tree, max_depth) =~= tagged(s1, k) + (x + ch));
        lemma_drive_level(s1, k, x + ch, tree, max_depth);
        assert(s1.len() == (s.len() - 1) as nat);
        if k < max_depth {
            lemma_tagged_add(tree(s[0]), expand(s1, tree), k + 1);
            assert((x + ch) + tagged(expand(s1, tree), k + 1) =~= x + tagged(expand(s, tree), k + 1));
        } else {
            assert((x + ch) + Seq::<(Seq<char>, int)>::empty() =~= x + Seq::<(Seq<char>, int)>::empty());
        }
        if k > 0 {
            assert(seq![s[0]] + s1 =~= s);
        } else {
            assert(Seq::<Seq<char>>::empty() + Seq::<Seq<char>>::empty() =~= Seq::<Seq<char>>::empty());
        }
    }
}

proof fn lemma_drive_levels_from(
    tree: spec_fn(Seq<char>) -> Seq<Seq<char>>,
    root: Seq<char>,
    max_depth: nat,
    k: nat,
)
    requires
        1 <= k <= max_depth,
    ensures
        drive(tagged(level(tree, root, k), k as int), tree, max_depth as int, level_sizes(tree, root, k, max_depth))
            == (Seq::<(Seq<char>, int)>::empty(), levels(tree, root, k, max_depth)),
    decreases max_depth - k,
{
    let s = level(tree, root, k);
    let e = Seq::<(Seq<char>, int)>::empty();
    lemma_drive_level(s, k as int, e, tree, max_depth as int);
    assert(tagged(s, k as int) + e =~= tagged(s, k as int));
    if k == max_depth {
        assert(level_sizes(tree, root, k + 1, max_depth) == 0);
        assert(levels(tree, root, k + 1, max_depth) =~= Seq::<Seq<char>>::empty());
        assert(e + e =~= e);
        assert(s + Seq::<Seq<char>>::empty() =~= s);
    } else {
        lemma_drive_split(
            tagged(s, k as int),
            tree,
            max_depth as int,
            s.len(),
            level_sizes(tree, root, k + 1, max_depth),
        );
        assert(e + tagged(expand(s, tree), k as int + 1) =~= tagged(level(tree, root, k + 1), (k + 1) as int));
        lemma_drive_levels_from(tree, root, max_depth, k + 1);
    }
}

/// A walk from `root` bounded by `max_depth`, driven with the listings that
/// `tree` gives, reports in its first turns exactly the directories 1 to
/// `max_depth` hops below the root, level after level in listing order, and
/// then its queue is empty: nothing deeper is reported and nothing within the
/// bound that a listing shows is left out.
pub proof fn lemma_walk_reports_levels(
    tree: spec_fn(Seq<char>) -> Seq<Seq<char>>,
    root: Seq<char>,
    max_depth: nat,
)
    ensures
        drive(seq![(root, 0int)], tree, max_depth as int, 1 + level_sizes(tree, root, 1, max_depth))
            == (Seq::<(Seq<char>, int)>::empty(), levels(tree, root, 1, max_depth)),
{
    let e = Seq::<(Seq<char>, int)>::empty();
    let start = seq![(root, 0int)];
    assert(tagged(seq![root], 0) + e =~= start);
    lemma_drive_level(seq![root], 0, e, tree, max_depth as int);
    assert(expand(seq![root], tree) =~= tree(root)) by {
        let r = seq![root];
        assert(r.drop_first() =~= Seq::<Seq<char>>::empty());
        assert(expand(r.drop_first(), tree) == Seq::<Seq<char>>::empty());
        assert(expand(r, tree) == tree(r[0]) + expand(r.drop_first(), tree));
        assert(tree(root) + Seq::<Seq<char>>::empty() =~= tree(root));
    }
    assert(level(tree, root, 0) == seq![root]);
    assert(level(tree, root, 1) == expand(level(tree, root, 0), tree));
    if max_depth == 0 {
        assert(levels(tree, root, 1, 0) =~= Seq::<Seq<char>>::empty());
        assert(e + e =~= e);
    } else {
        lemma_drive_split(start, tree, max_depth as int, 1, level_sizes(tree, root, 1, max_depth));
        assert(e + tagged(expand(seq![root], tree), 1) =~= tagged(level(tree, root, 1), 1));
        lemma_drive_levels_from(tree, root, max_depth, 1);
        assert(Seq::<Seq<char>>::empty() + levels(tree, root, 1, max_depth) =~= levels(tree, root, 1, max_depth));
    }
}

} // verus!
