//! Undirected graphs given as lists of links between node identifiers, and
//! their partition into connected groups ("nets").
use vstd::prelude::*;

verus! {

/// `a` and `b` are joined directly by one of the links, in either direction.
pub open spec fn linked(links: Seq<(u128, u128)>, a: u128, b: u128) -> bool {
    exists|q: int| 0 <= q < links.len() && (#[trigger] links[q] == (a, b) || links[q] == (b, a))
}

/// `p` is a non-empty sequence of nodes, each linked to the next one.
pub open spec fn is_walk(links: Seq<(u128, u128)>, p: Seq<u128>) -> bool {
    &&& p.len() > 0
    &&& forall|i: int| 0 <= i < p.len() - 1 ==> #[trigger] linked(links, p[i], p[i + 1])
}

/// Some walk leads from `a` to `b`.
pub open spec fn connected(links: Seq<(u128, u128)>, a: u128, b: u128) -> bool {
    exists|p: Seq<u128>| #[trigger] is_walk(links, p) && p[0] == a && p.last() == b
}

/// Some root is connected to `x`.
pub open spec fn reached(links: Seq<(u128, u128)>, roots: Seq<u128>, x: u128) -> bool {
    exists|j: int| 0 <= j < roots.len() && #[trigger] connected(links, roots[j], x)
}

/// Every node that `lab` labels passes its label on to all of its neighbours.
pub open spec fn closed(links: Seq<(u128, u128)>, lab: Map<u128, int>) -> bool {
    forall|x: u128, y: u128|
        lab.contains_key(x) && #[trigger] linked(links, x, y) ==> lab.contains_key(y) && lab[y]
            == lab[x]
}

pub proof fn lemma_linked_symmetric(links: Seq<(u128, u128)>, a: u128, b: u128)
    requires
        linked(links, a, b),
    ensures
        linked(links, b, a),
{
    let q = choose|q: int| 0 <= q < links.len() && (links[q] == (a, b) || links[q] == (b, a));
    assert(links[q] == (b, a) || links[q] == (a, b));
}

pub proof fn lemma_connected_reflexive(links: Seq<(u128, u128)>, a: u128)
    ensures
        connected(links, a, a),
{
    let p = seq![a];
    assert(is_walk(links, p));
    assert(p[0] == a && p.last() == a);
}

pub proof fn lemma_connected_extend(links: Seq<(u128, u128)>, a: u128, b: u128, c: u128)
    requires
        connected(links, a, b),
        linked(links, b, c),
    ensures
        connected(links, a, c),
{
    let p = choose|p: Seq<u128>| is_walk(links, p) && p[0] == a && p.last() == b;
    let w = p.push(c);
    assert forall|i: int| 0 <= i < w.len() - 1 implies #[trigger] linked(links, w[i], w[i + 1]) by {
        if i < p.len() - 1 {
            assert(w[i] == p[i] && w[i + 1] == p[i + 1]);
            assert(linked(links, p[i], p[i + 1]));
        } else {
            assert(w[i] == b && w[i + 1] == c);
        }
    }
    assert(is_walk(links, w));
    assert(w[0] == a && w.last() == c);
}

pub proof fn lemma_connected_symmetric(links: Seq<(u128, u128)>, a: u128, b: u128)
    requires
        connected(links, a, b),
    ensures
        connected(links, b, a),
{
    let p = choose|p: Seq<u128>| is_walk(links, p) && p[0] == a && p.last() == b;
    let n = p.len();
    let r = Seq::new(n, |i: int| p[n - 1 - i]);
    assert forall|i: int| 0 <= i < r.len() - 1 implies #[trigger] linked(links, r[i], r[i + 1]) by {
        let j = n - 2 - i;
        assert(linked(links, p[j], p[j + 1]));
        lemma_linked_symmetric(links, p[j], p[j + 1]);
        assert(r[i] == p[j + 1] && r[i + 1] == p[j]);
    }
    assert(is_walk(links, r));
    assert(r[0] == b && r.last() == a);
}

proof fn lemma_walk_prefix(links: Seq<(u128, u128)>, a: u128, q: Seq<u128>, k: int)
    requires
        is_walk(links, q),
        connected(links, a, q[0]),
        0 <= k < q.len(),
    ensures
        connected(links, a, q[k]),
    decreases k,
{
    if k > 0 {
        lemma_walk_prefix(links, a, q, k - 1);
        let i = k - 1;
        assert(linked(links, q[i], q[i + 1]));
        lemma_connected_extend(links, a, q[i], q[k]);
    }
}

pub proof fn lemma_connected_transitive(links: Seq<(u128, u128)>, a: u128, b: u128, c: u128)
    requires
        connected(links, a, b),
        connected(links, b, c),
    ensures
        connected(links, a, c),
{
    let q = choose|q: Seq<u128>| is_walk(links, q) && q[0] == b && q.last() == c;
    lemma_walk_prefix(links, a, q, q.len() - 1);
}

proof fn lemma_label_along_walk(
    links: Seq<(u128, u128)>,
    lab: Map<u128, int>,
    q: Seq<u128>,
    k: int,
)
    requires
        closed(links, lab),
        is_walk(links, q),
        lab.contains_key(q[0]),
        0 <= k < q.len(),
    ensures
        lab.contains_key(q[k]),
        lab[q[k]] == lab[q[0]],
    decreases k,
{
    if k > 0 {
        lemma_label_along_walk(links, lab, q, k - 1);
        let i = k - 1;
        assert(linked(links, q[i], q[i + 1]));
    }
}

/// In a closed labelling, connected nodes carry the same label.
pub proof fn lemma_closed_connected(
    links: Seq<(u128, u128)>,
    lab: Map<u128, int>,
    x: u128,
    y: u128,
)
    requires
        closed(links, lab),
        lab.contains_key(x),
        connected(links, x, y),
    ensures
        lab.contains_key(y),
        lab[y] == lab[x],
{
    let q = choose|q: Seq<u128>| is_walk(links, q) && q[0] == x && q.last() == y;
    lemma_label_along_walk(links, lab, q, q.len() - 1);
}

proof fn lemma_distinct_within(s: Seq<u128>, u: Seq<u128>)
    requires
        s.no_duplicates(),
        forall|x: u128| s.contains(x) ==> u.contains(x),
    ensures
        s.len() <= u.len(),
{
    broadcast use vstd::seq_lib::seq_to_set_is_finite;

    s.unique_seq_to_set();
    u.lemma_cardinality_of_set();
    assert(s.to_set().subset_of(u.to_set()));
    vstd::set_lib::lemma_len_subset(s.to_set(), u.to_set());
}

proof fn lemma_push_facts(s: Seq<u128>, x: u128)
    ensures
        forall|y: u128| #[trigger] s.push(x).contains(y) <==> (s.contains(y) || y == x),
        s.no_duplicates() && !s.contains(x) ==> s.push(x).no_duplicates(),
{
    let t = s.push(x);
    assert forall|y: u128| #[trigger] t.contains(y) <==> (s.contains(y) || y == x) by {
        if s.contains(y) {
            let i = choose|i: int| 0 <= i < s.len() && s[i] == y;
            assert(t[i] == y);
        }
        if y == x {
            assert(t[s.len() as int] == y);
        }
        if t.contains(y) {
            let i = choose|i: int| 0 <= i < t.len() && t[i] == y;
            if i < s.len() {
                assert(s[i] == y);
            }
        }
    }
    if s.no_duplicates() && !s.contains(x) {
        assert forall|i: int, j: int|
            0 <= i < t.len() && 0 <= j < t.len() && i != j implies t[i] != t[j] by {
            if i < s.len() && j < s.len() {
            } else if i < s.len() {
                assert(s.contains(s[i]));
            } else {
                assert(s.contains(s[j]));
            }
        }
    }
}

proof fn lemma_drop_last_facts(s: Seq<u128>)
    requires
        s.len() > 0,
        s.no_duplicates(),
    ensures
        forall|y: u128| #[trigger] s.drop_last().contains(y) <==> (s.contains(y) && y != s.last()),
        s.drop_last().no_duplicates(),
        s.contains(s.last()),
{
    let t = s.drop_last();
    assert(s[s.len() - 1] == s.last());
    assert forall|y: u128| #[trigger] t.contains(y) <==> (s.contains(y) && y != s.last()) by {
        if t.contains(y) {
            let i = choose|i: int| 0 <= i < t.len() && t[i] == y;
            assert(s[i] == y);
            assert(i != s.len() - 1);
        }
        if s.contains(y) && y != s.last() {
            let i = choose|i: int| 0 <= i < s.len() && s[i] == y;
            assert(i != s.len() - 1);
            assert(t[i] == y);
        }
    }
    assert forall|i: int, j: int|
        0 <= i < t.len() && 0 <= j < t.len() && i != j implies t[i] != t[j] by {
        assert(t[i] == s[i] && t[j] == s[j]);
    }
}

/// The nets of a graph: `members[k]` lists the nodes of net `k`; `ids[i]`
/// belongs to net `id_net[i]`.
pub struct Nets {
    pub members: Vec<Vec<u128>>,
    pub ids: Vec<u128>,
    pub id_net: Vec<usize>,
}

impl Nets {
    /// Node `x` belongs to net `k`.
    pub open spec fn in_net(&self, x: u128, k: int) -> bool {
        exists|i: int|
            0 <= i < self.ids@.len() && #[trigger] self.ids@[i] == x && self.id_net@[i] == k
    }

    /// Node `x` belongs to some net.
    pub open spec fn has_net(&self, x: u128) -> bool {
        exists|k: int| #[trigger] self.in_net(x, k)
    }

    pub open spec fn wf(&self) -> bool {
        &&& self.ids@.len() == self.id_net@.len()
        &&& self.ids@.no_duplicates()
        &&& forall|i: int| 0 <= i < self.id_net@.len() ==> #[trigger] self.id_net@[i] < self.members@.len()
        &&& forall|k: int, x: u128|
            0 <= k < self.members@.len() ==> (#[trigger] self.members@[k]@.contains(x)
                <==> self.in_net(x, k))
        &&& forall|k: int| 0 <= k < self.members@.len() ==> #[trigger] proper_net(self.members@[k]@)
    }

    /// The net that node `x` belongs to, if any.
    pub fn net_of(&self, x: u128) -> (r: Option<usize>)
        requires
            self.wf(),
        ensures
            match r {
                Some(k) => self.in_net(x, k as int) && k < self.members@.len(),
                None => forall|k: int| !self.in_net(x, k),
            },
    {
        let mut i: usize = 0;
        while i < self.ids.len()
            invariant
                self.wf(),
                i <= self.ids@.len(),
                forall|i2: int| 0 <= i2 < i ==> self.ids@[i2] != x,
            decreases self.ids@.len() - i,
        {
            if self.ids[i] == x {
                assert(self.id_net@[i as int] < self.members@.len());
                return Some(self.id_net[i]);
            }
            i = i + 1;
        }
        None
    }
}

/// Index of `x` in `v`, if it occurs there.
pub fn position_of(v: &Vec<u128>, x: u128) -> (r: Option<usize>)
    ensures
        match r {
            Some(i) => i < v@.len() && v@[i as int] == x,
            None => !v@.contains(x),
        },
{
    let mut i: usize = 0;
    while i < v.len()
        invariant
            i <= v@.len(),
            forall|i2: int| 0 <= i2 < i ==> v@[i2] != x,
        decreases v@.len() - i,
    {
        if v[i] == x {
            return Some(i);
        }
        i = i + 1;
    }
    None
}

/// `ids` / `id_net` hold exactly the labelling `lab`, each node once.
pub open spec fn tracks(ids: Seq<u128>, id_net: Seq<usize>, lab: Map<u128, int>) -> bool {
    &&& ids.len() == id_net.len()
    &&& ids.no_duplicates()
    &&& forall|i: int| 0 <= i < ids.len() ==> #[trigger] lab.contains_key(ids[i]) && lab[ids[i]] == id_net[i]
    &&& forall|x: u128| #[trigger] lab.contains_key(x) ==> ids.contains(x)
}

/// A net lists each of its nodes once, and at least one.
pub open spec fn proper_net(s: Seq<u128>) -> bool {
    s.no_duplicates() && s.len() > 0
}

/// `x` carries label `k`.
pub open spec fn label_is(lab: Map<u128, int>, x: u128, k: int) -> bool {
    lab.contains_key(x) && lab[x] == k
}

/// Every node that can be reached from a root node.
pub open spec fn candidates(links: Seq<(u128, u128)>, roots: Seq<u128>) -> Seq<u128> {
    roots + links.map_values(|l: (u128, u128)| l.0) + links.map_values(|l: (u128, u128)| l.1)
}

proof fn lemma_tracks_in_net(nets: &Nets, lab: Map<u128, int>)
    requires
        tracks(nets.ids@, nets.id_net@, lab),
    ensures
        forall|x: u128, k: int| nets.in_net(x, k) <==> label_is(lab, x, k),
{
    assert forall|x: u128, k: int| nets.in_net(x, k) <==> label_is(lab, x, k) by {
        if label_is(lab, x, k) {
            assert(nets.ids@.contains(x));
            let i = choose|i: int| 0 <= i < nets.ids@.len() && nets.ids@[i] == x;
            assert(lab.contains_key(nets.ids@[i]));
        }
        if nets.in_net(x, k) {
            let i = choose|i: int|
                0 <= i < nets.ids@.len() && #[trigger] nets.ids@[i] == x && nets.id_net@[i] == k;
            assert(lab.contains_key(nets.ids@[i]));
        }
    }
}

/// Splits the nodes that the roots reach into nets: two nodes share a net
/// exactly when a walk along the links joins them.
pub fn compute_nets(links: &Vec<(u128, u128)>, roots: &Vec<u128>) -> (nets: Nets)
    ensures
        nets.wf(),
        forall|x: u128| #[trigger] nets.has_net(x) <==> reached(links@, roots@, x),
        forall|x: u128, y: u128, kx: int, ky: int|
            #[trigger] nets.in_net(x, kx) && #[trigger] nets.in_net(y, ky) ==> (kx == ky
                <==> connected(links@, x, y)),
{
    let ghost e = links@;
    let ghost univ = candidates(links@, roots@);
    let mut members: Vec<Vec<u128>> = Vec::new();
    let mut ids: Vec<u128> = Vec::new();
    let mut id_net: Vec<usize> = Vec::new();
    let ghost mut lab: Map<u128, int> = Map::empty();
    let ghost mut starts: Seq<u128> = Seq::empty();
    for j in 0..roots.len()
        invariant
            e == links@,
            univ == candidates(links@, roots@),
            tracks(ids@, id_net@, lab),
            forall|x: u128| lab.contains_key(x) ==> univ.contains(x),
            ids@.len() <= univ.len(),
            starts.len() == members@.len(),
            forall|k: int| 0 <= k < starts.len() ==> roots@.contains(#[trigger] starts[k]),
            forall|x: u128|
                #[trigger] lab.contains_key(x) ==> 0 <= lab[x] < members@.len() && connected(
                    e,
                    starts[lab[x]],
                    x,
                ),
            closed(e, lab),
            forall|j2: int| 0 <= j2 < j ==> lab.contains_key(#[trigger] roots@[j2]),
            forall|k: int, x: u128|
                0 <= k < members@.len() ==> (#[trigger] members@[k]@.contains(x) <==> label_is(
                    lab,
                    x,
                    k,
                )),
            forall|k: int|
                0 <= k < members@.len() ==> #[trigger] proper_net(members@[k]@),
    {
        let r = roots[j];
        if position_of(&ids, r).is_none() {
            let k = members.len();
            proof {
                assert(!lab.contains_key(r));
                assert(univ[j as int] == r);
                lemma_connected_reflexive(e, r);
            }
            let ghost prev_ids_root = ids@;
            let ghost prev_lab = lab;
            ids.push(r);
            id_net.push(k);
            proof {
                lab = lab.insert(r, k as int);
                lemma_push_facts(prev_ids_root, r);
                starts = starts.push(r);
                assert(roots@[j as int] == r);
                lemma_distinct_within(ids@, univ);
            }
            let mut net: Vec<u128> = Vec::new();
            let mut stack: Vec<u128> = Vec::new();
            stack.push(r);
            proof {
                lemma_push_facts(Seq::empty(), r);
                assert(stack@ == Seq::<u128>::empty().push(r));
                lemma_push_facts(prev_ids_root, r);
                assert forall|x: u128| lab.contains_key(x) implies ids@.contains(x) by {
                    if x != r {
                        assert(prev_ids_root.contains(x));
                    }
                }
                assert forall|i: int| 0 <= i < ids@.len() implies #[trigger] lab.contains_key(ids@[i])
                    && lab[ids@[i]] == id_net@[i] by {
                    if i < prev_ids_root.len() {
                        assert(ids@[i] == prev_ids_root[i]);
                        assert(prev_lab.contains_key(prev_ids_root[i]));
                    } else {
                        assert(ids@[i] == r && id_net@[i] == k);
                    }
                }
                assert forall|x: u128, y: u128|
                    lab.contains_key(x) && !stack@.contains(x) && #[trigger] linked(e, x, y)
                        implies lab.contains_key(y) && lab[y] == lab[x] by {
                    assert(x != r);
                    assert(prev_lab.contains_key(x));
                }
                assert forall|x: u128|
                    (net@.contains(x) || stack@.contains(x)) <==> #[trigger] label_is(lab, x, k as int) by {
                    if label_is(lab, x, k as int) && x != r {
                        assert(prev_lab.contains_key(x));
                    }
                }
            }
            while stack.len() > 0
                invariant
                    e == links@,
                    univ == candidates(links@, roots@),
                    k == members@.len(),
                    tracks(ids@, id_net@, lab),
                    forall|x: u128| lab.contains_key(x) ==> univ.contains(x),
                    ids@.len() <= univ.len(),
                    starts.len() == k + 1,
                    forall|k2: int| 0 <= k2 < starts.len() ==> roots@.contains(#[trigger] starts[k2]),
                    forall|x: u128|
                        #[trigger] lab.contains_key(x) ==> 0 <= lab[x] <= k && connected(
                            e,
                            starts[lab[x]],
                            x,
                        ),
                    forall|x: u128, y: u128|
                        lab.contains_key(x) && !stack@.contains(x) && #[trigger] linked(e, x, y)
                            ==> lab.contains_key(y) && lab[y] == lab[x],
                    forall|j2: int| 0 <= j2 < j ==> lab.contains_key(#[trigger] roots@[j2]),
                    label_is(lab, r, k as int),
                    forall|k2: int, x: u128|
                        0 <= k2 < k ==> (#[trigger] members@[k2]@.contains(x) <==> label_is(
                            lab,
                            x,
                            k2,
                        )),
                    forall|k2: int|
                        0 <= k2 < k ==> #[trigger] proper_net(members@[k2]@),
                    net@.no_duplicates(),
                    stack@.no_duplicates(),
                    forall|x: u128| !(net@.contains(x) && stack@.contains(x)),
                    forall|x: u128|
                        (net@.contains(x) || stack@.contains(x)) <==> #[trigger] label_is(
                            lab,
                            x,
                            k as int,
                        ),
                decreases 2 * (univ.len() - ids@.len()) + stack@.len(),
            {
                let ghost m0 = 2 * (univ.len() - ids@.len()) + stack@.len();
                let ghost old_stack = stack@;
                let curr = stack.pop().unwrap();
                proof {
                    assert(stack@ == old_stack.drop_last());
                    lemma_drop_last_facts(old_stack);
                    assert(label_is(lab, curr, k as int));
                    assert(!net@.contains(curr));
                }
                let ghost prev_net = net@;
                net.push(curr);
                proof {
                    lemma_push_facts(prev_net, curr);
                    assert forall|x: u128|
                        (net@.contains(x) || stack@.contains(x)) <==> #[trigger] label_is(
                            lab,
                            x,
                            k as int,
                        ) by {
                        if label_is(lab, x, k as int) {
                            assert(prev_net.contains(x) || old_stack.contains(x));
                        }
                        if net@.contains(x) || stack@.contains(x) {
                            assert(prev_net.contains(x) || old_stack.contains(x));
                        }
                    }
                    assert forall|x: u128| !(net@.contains(x) && stack@.contains(x)) by {
                        assert(!(prev_net.contains(x) && old_stack.contains(x)));
                    }
                }
                let mut q: usize = 0;
                while q < links.len()
                    invariant
                        q <= links@.len(),
                        e == links@,
                        univ == candidates(links@, roots@),
                        k == members@.len(),
                        tracks(ids@, id_net@, lab),
                        forall|x: u128| lab.contains_key(x) ==> univ.contains(x),
                        ids@.len() <= univ.len(),
                        starts.len() == k + 1,
                        forall|k2: int|
                            0 <= k2 < starts.len() ==> roots@.contains(#[trigger] starts[k2]),
                        forall|x: u128|
                            #[trigger] lab.contains_key(x) ==> 0 <= lab[x] <= k && connected(
                                e,
                                starts[lab[x]],
                                x,
                            ),
                        forall|x: u128, y: u128|
                            lab.contains_key(x) && !stack@.contains(x) && x != curr
                                && #[trigger] linked(e, x, y) ==> lab.contains_key(y) && lab[y]
                                == lab[x],
                        forall|j2: int| 0 <= j2 < j ==> lab.contains_key(#[trigger] roots@[j2]),
                        label_is(lab, r, k as int),
                        forall|k2: int, x: u128|
                            0 <= k2 < k ==> (#[trigger] members@[k2]@.contains(x) <==> label_is(
                                lab,
                                x,
                                k2,
                            )),
                        forall|k2: int|
                            0 <= k2 < k ==> #[trigger] proper_net(members@[k2]@),
                        net@.no_duplicates(),
                        stack@.no_duplicates(),
                        forall|x: u128| !(net@.contains(x) && stack@.contains(x)),
                        forall|x: u128|
                            (net@.contains(x) || stack@.contains(x)) <==> #[trigger] label_is(
                                lab,
                                x,
                                k as int,
                            ),
                        label_is(lab, curr, k as int),
                        !stack@.contains(curr),
                        forall|q2: int|
                            0 <= q2 < q ==> (#[trigger] e[q2].0 == curr ==> label_is(
                                lab,
                                e[q2].1,
                                k as int,
                            )) && (e[q2].1 == curr ==> label_is(lab, e[q2].0, k as int)),
                        2 * (univ.len() - ids@.len()) + stack@.len() < m0,
                    decreases links@.len() - q,
                {
                    let (a, b) = links[q];
                    proof {
                        assert(e[q as int] == (a, b));
                        assert(univ[roots@.len() + q] == a);
                        assert(univ[roots@.len() + links@.len() + q] == b);
                    }
                    // the other end of the link, where it leaves `curr`
                    let nb: Option<u128> = if a == curr {
                        Some(b)
                    } else if b == curr {
                        Some(a)
                    } else {
                        None
                    };
                    if let Some(n) = nb {
                        proof {
                            assert(linked(e, curr, n));
                        }
                        match position_of(&ids, n) {
                            Some(idx) => {
                                proof {
                                    assert(lab.contains_key(ids@[idx as int]));
                                    assert(linked(e, n, curr));
                                    if lab[n] != k {
                                        assert(!label_is(lab, n, k as int));
                                        assert(!stack@.contains(n));
                                        assert(lab.contains_key(curr) && lab[curr] == lab[n]);
                                    }
                                }
                            },
                            None => {
                                proof {
                                    assert(!lab.contains_key(n));
                                    lemma_connected_extend(e, starts[k as int], curr, n);
                                    assert(!label_is(lab, n, k as int));
                                    assert((net@.contains(n) || stack@.contains(n)) <==> label_is(lab, n, k as int));
                                    assert(!stack@.contains(n));
                                    assert(!net@.contains(n));
                                }
                                let ghost prev_stack = stack@;
                                let ghost prev_lab = lab;
                                let ghost prev_ids = ids@;
                                ids.push(n);
                                id_net.push(k);
                                stack.push(n);
                                proof {
                                    lab = lab.insert(n, k as int);
                                    lemma_push_facts(prev_ids, n);
                                    lemma_push_facts(prev_stack, n);
                                    assert forall|i: int| 0 <= i < ids@.len() implies #[trigger] lab.contains_key(ids@[i])
                                        && lab[ids@[i]] == id_net@[i] by {
                                        if i < prev_ids.len() {
                                            assert(ids@[i] == prev_ids[i]);
                                            assert(prev_lab.contains_key(prev_ids[i]));
                                        } else {
                                            assert(ids@[i] == n && id_net@[i] == k);
                                        }
                                    }
                                    assert forall|x: u128, y: u128|
                                        lab.contains_key(x) && !stack@.contains(x) && x != curr
                                            && #[trigger] linked(e, x, y) implies lab.contains_key(y) && lab[y]
                                            == lab[x] by {
                                        assert(prev_lab.contains_key(x));
                                    }
                                    assert forall|x: u128|
                                        (net@.contains(x) || stack@.contains(x)) <==> #[trigger] label_is(lab, x, k as int) by {
                                        if x != n {
                                            assert(label_is(lab, x, k as int) <==> label_is(prev_lab, x, k as int));
                                        }
                                    }
                                    assert(ids@.contains(n)) by { assert(ids@[ids@.len() - 1] == n); }
                                    assert forall|x: u128| lab.contains_key(x) implies ids@.contains(x) by {
                                        if x != n {
                                            assert(prev_ids.contains(x));
                                            let i = choose|i: int| 0 <= i < prev_ids.len() && prev_ids[i] == x;
                                            assert(ids@[i] == x);
                                        }
                                    }
                                    assert(ids@.no_duplicates());
                                    lemma_distinct_within(ids@, univ);
                                }
                            },
                        }
                    }
                    q = q + 1;
                }
                proof {
                    assert forall|x: u128, y: u128|
                        lab.contains_key(x) && !stack@.contains(x) && #[trigger] linked(e, x, y)
                            implies lab.contains_key(y) && lab[y] == lab[x] by {
                        if x == curr {
                            let q2 = choose|q2: int| 0 <= q2 < e.len() && (e[q2] == (x, y) || e[q2] == (y, x));
                            assert(q == links@.len());
                            if e[q2] == (x, y) {
                                assert(e[q2].0 == curr);
                                assert(label_is(lab, e[q2].1, k as int));
                            } else {
                                assert(e[q2].1 == curr);
                                assert(label_is(lab, e[q2].0, k as int));
                            }
                        }
                    }
                }
            }
            proof {
                assert(label_is(lab, r, k as int));
                assert(net@.contains(r));
            }
            let ghost prev_members = members@;
            members.push(net);
            proof {
                assert forall|k2: int, x: u128|
                    0 <= k2 < members@.len() implies (#[trigger] members@[k2]@.contains(x)
                        <==> label_is(lab, x, k2)) by {
                    if k2 < k {
                        assert(members@[k2] == prev_members[k2]);
                    } else {
                        assert(members@[k2] == net);
                    }
                }
                assert forall|k2: int|
                    0 <= k2 < members@.len() implies #[trigger] proper_net(members@[k2]@) by {
                    if k2 < k {
                        assert(members@[k2] == prev_members[k2]);
                    } else {
                        assert(members@[k2] == net);
                        assert(net@.contains(r));
                    }
                }
            }
        } else {
            proof {
                let i = choose|i: int| 0 <= i < ids@.len() && ids@[i] == r;
                assert(lab.contains_key(ids@[i]));
            }
        }
    }
    let nets = Nets { members, ids, id_net };
    proof {
        lemma_tracks_in_net(&nets, lab);
        assert forall|x: u128| #[trigger] nets.has_net(x) <==> reached(links@, roots@, x) by {
            if nets.has_net(x) {
                let k = choose|k: int| #[trigger] nets.in_net(x, k);
                assert(label_is(lab, x, k));
                let s = starts[k];
                assert(roots@.contains(s));
                let j = choose|j: int| 0 <= j < roots@.len() && roots@[j] == s;
                assert(connected(links@, roots@[j], x));
            }
            if reached(links@, roots@, x) {
                let j = choose|j: int| 0 <= j < roots@.len() && #[trigger] connected(links@, roots@[j], x);
                assert(lab.contains_key(roots@[j]));
                lemma_closed_connected(e, lab, roots@[j], x);
                assert(nets.in_net(x, lab[x]));
            }
        }
        assert forall|x: u128, y: u128, kx: int, ky: int|
            #[trigger] nets.in_net(x, kx) && #[trigger] nets.in_net(y, ky) implies (kx == ky
                <==> connected(links@, x, y)) by {
            assert(label_is(lab, x, kx));
            assert(label_is(lab, y, ky));
            if kx == ky {
                lemma_connected_symmetric(e, starts[kx], x);
                lemma_connected_transitive(e, x, starts[kx], y);
            }
            if connected(links@, x, y) {
                lemma_closed_connected(e, lab, x, y);
            }
        }
        assert forall|k: int, x: u128|
            0 <= k < nets.members@.len() implies (#[trigger] nets.members@[k]@.contains(x)
                <==> nets.in_net(x, k)) by {
            assert(nets.members@[k]@.contains(x) <==> label_is(lab, x, k));
        }
        assert forall|k: int| 0 <= k < nets.id_net@.len() implies #[trigger] nets.id_net@[k] < nets.members@.len() by {
            assert(lab.contains_key(nets.ids@[k]));
        }
    }
    nets
}

} // verus!
