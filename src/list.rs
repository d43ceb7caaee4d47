use vstd::prelude::*;

use crate::chain::{
    chain_ok, cursor_in, key_in, lemma_chain_frame, lemma_seq_insert_contains,
    lemma_seq_remove_contains, lemma_splice, lemma_unsplice, link_in,
};
use crate::level::LevelGenerator;
use crate::node::{empty_links, Node};

verus! {

/// Why an operation on a [`SkipList`] could not be carried out.
#[derive(Debug, Clone, Copy, PartialEq, Eq, Structural)]
pub enum SkipListError {
    /// No slot is left in the arena for a new node.
    AllocationFailure,
}

/// An ordered map from `i64` keys to `V`, kept as a skip list.
///
/// Level 0 chains every entry in increasing key order; each higher level
/// chains a subset of the level below it. The nodes are stored in an arena
/// and link to each other by index; `head` is the sentinel in front of every
/// level. `chains` records, for each level, the arena indices met when that
/// level is walked from `head`, and `contents` the map that the list holds.
pub struct SkipList<V> {
    head: Node<V>,
    nodes: Vec<Node<V>>,
    free: Vec<usize>,
    height: usize,
    levels: LevelGenerator,
    chains: Ghost<Seq<Seq<usize>>>,
    contents: Ghost<Map<i64, V>>,
}

impl<V> View for SkipList<V> {
    type V = Map<i64, V>;

    closed spec fn view(&self) -> Map<i64, V> {
        self.contents@
    }
}

impl<V> SkipList<V> {
    /// The number of levels a node may have.
    pub closed spec fn max_level(&self) -> nat {
        self.head.forward@.len()
    }

    /// The number of levels currently in use, counted from level 0.
    pub closed spec fn height_spec(&self) -> nat {
        self.height as nat
    }

    /// The keys met when level `l` is walked from the head.
    pub closed spec fn level_keys(&self, l: int) -> Seq<i64> {
        self.chains@[l].map_values(|x: usize| self.nodes@[x as int].key)
    }

    /// How many more keys the list can take: the free slots, and the
    /// indices the arena has not used yet.
    pub closed spec fn slots_left(&self) -> nat {
        (self.free@.len() + (usize::MAX - self.nodes@.len())) as nat
    }

    spec fn key_of(&self, x: usize) -> i64 {
        key_in(self.nodes@, x)
    }

    /// The node at position `i` of level `l`; `None` stands for the head
    /// (position -1) and for the end of the level.
    spec fn cursor(&self, l: int, i: int) -> Option<usize> {
        cursor_in(self.chains@[l], i)
    }

    /// The link that leaves `p` (the head when `None`) on level `l`.
    spec fn link(&self, p: Option<usize>, l: int) -> Option<usize> {
        link_in(self.head.forward@, self.nodes@, p, l)
    }

    /// The number of links that leave `p`.
    spec fn link_count(&self, p: Option<usize>) -> int {
        match p {
            None => self.head.forward@.len() as int,
            Some(x) => self.nodes@[x as int].forward@.len() as int,
        }
    }

    spec fn level_ok(&self, l: int) -> bool {
        chain_ok(self.head.forward@, self.nodes@, self.chains@[l], l)
    }

    spec fn levels_ok(&self) -> bool {
        &&& self.levels.wf()
        &&& self.levels.max_level == self.head.forward@.len()
        &&& self.chains@.len() == self.head.forward@.len()
        &&& forall|l: int| 0 <= l < self.chains@.len() ==> #[trigger] self.level_ok(l)
    }

    /// Every node on some level is on level 0.
    spec fn subset_ok(&self) -> bool {
        forall|l: int, y: usize|
            0 <= l < self.chains@.len() && #[trigger] self.chains@[l].contains(y)
                ==> self.chains@[0].contains(y)
    }

    /// Node `y` is on every level that it has a link for.
    spec fn ladder_for(&self, y: usize) -> bool {
        forall|l: int|
            0 <= l < self.chains@.len() && l < self.nodes@[y as int].forward@.len()
                ==> #[trigger] self.chains@[l].contains(y)
    }

    spec fn ladder_ok(&self) -> bool {
        forall|y: usize| #[trigger] self.chains@[0].contains(y) ==> self.ladder_for(y)
    }

    spec fn contents_ok(&self) -> bool {
        let c = self.chains@[0];
        &&& forall|i: int|
            0 <= i < c.len() ==> {
                &&& self.contents@.contains_key(self.key_of(#[trigger] c[i]))
                &&& self.nodes@[c[i] as int].value == Some(self.contents@[self.key_of(c[i])])
            }
        &&& forall|k: i64|
            #[trigger] self.contents@.contains_key(k) ==> exists|i: int|
                0 <= i < c.len() && self.key_of(#[trigger] c[i]) == k
    }

    spec fn free_ok(&self) -> bool {
        &&& self.nodes@.len() <= usize::MAX
        &&& forall|i: int|
            0 <= i < self.free@.len() ==> (#[trigger] self.free@[i] as int) < self.nodes@.len()
                && !self.chains@[0].contains(self.free@[i])
        &&& forall|i: int, j: int|
            0 <= i < j < self.free@.len() ==> #[trigger] self.free@[i] != #[trigger] self.free@[j]
    }

    spec fn height_bound_ok(&self) -> bool {
        &&& 1 <= self.height <= self.head.forward@.len()
        &&& forall|l: int| self.height <= l < self.chains@.len() ==> #[trigger] self.chains@[l].len() == 0
    }

    spec fn height_ok(&self) -> bool {
        &&& self.height_bound_ok()
        &&& self.height == 1 || self.chains@[self.height - 1].len() > 0
    }

    /// Everything of the invariant but that the top level in use is
    /// non-empty.
    spec fn wf_but_top(&self) -> bool {
        &&& self.levels_ok()
        &&& self.subset_ok()
        &&& self.ladder_ok()
        &&& self.contents_ok()
        &&& self.free_ok()
        &&& self.height_bound_ok()
    }

    /// The list's invariant: every level is sorted and correctly linked, each
    /// node sits on exactly the levels it has links for, level 0 holds the
    /// map's entries, free slots are on no level, and the height reaches the
    /// tallest level in use.
    pub closed spec fn wf(&self) -> bool {
        &&& self.levels_ok()
        &&& self.subset_ok()
        &&& self.ladder_ok()
        &&& self.contents_ok()
        &&& self.free_ok()
        &&& self.height_ok()
    }

    /// An empty list whose nodes take their heights from `levels`.
    pub fn with_generator(levels: LevelGenerator) -> (r: Self)
        requires
            levels.wf(),
        ensures
            r.wf(),
            r@ == Map::<i64, V>::empty(),
            r.max_level() == levels.max_level,
            r.height_spec() == 1,
            r.slots_left() == usize::MAX,
            forall|l: int| 0 <= l < r.max_level() ==> #[trigger] r.level_keys(l) == Seq::<i64>::empty(),
    {
        let head = Node::new(levels.max_level);
        let ghost chains = Seq::new(levels.max_level as nat, |l: int| Seq::<usize>::empty());
        let r = SkipList {
            head,
            nodes: Vec::new(),
            free: Vec::new(),
            height: 1,
            levels,
            chains: Ghost(chains),
            contents: Ghost(Map::empty()),
        };
        proof {
            assert forall|l: int| 0 <= l < r.chains@.len() implies #[trigger] r.level_ok(l) by {
                assert(r.cursor(l, -1) is None);
                assert(r.cursor(l, 0) is None);
            }
            assert(r.contents@ =~= Map::<i64, V>::empty());
            assert forall|l: int| 0 <= l < r.max_level() implies #[trigger] r.level_keys(l)
                == Seq::<i64>::empty() by {
                assert(r.level_keys(l) =~= Seq::<i64>::empty());
            }
        }
        r
    }

    /// An empty list with at most 16 levels, each new node climbing one more
    /// level with probability one half.
    pub fn new() -> (r: Self)
        ensures
            r.wf(),
            r@ == Map::<i64, V>::empty(),
            r.max_level() == crate::level::DEFAULT_MAX_LEVEL,
            r.height_spec() == 1,
            r.slots_left() == usize::MAX,
            forall|l: int| 0 <= l < r.max_level() ==> #[trigger] r.level_keys(l) == Seq::<i64>::empty(),
    {
        SkipList::with_generator(LevelGenerator::new())
    }

    /// `p` stands just before `key` on level `l`, at position `i`: it is the
    /// head or a node with a smaller key, and whatever follows it is not
    /// smaller than `key`.
    spec fn is_pred_at(&self, l: int, p: Option<usize>, i: int, key: i64) -> bool {
        &&& -1 <= i < self.chains@[l].len()
        &&& p == self.cursor(l, i)
        &&& 0 <= i ==> self.key_of(self.chains@[l][i]) < key
        &&& i + 1 < self.chains@[l].len() ==> self.key_of(self.chains@[l][i + 1]) >= key
    }

    /// On a sorted level, a node holding `key` comes right after the
    /// predecessor of `key`.
    proof fn lemma_pred_next(&self, l: int, p: Option<usize>, i: int, key: i64, j: int)
        requires
            self.levels_ok(),
            0 <= l < self.chains@.len(),
            self.is_pred_at(l, p, i, key),
            0 <= j < self.chains@[l].len(),
            self.key_of(self.chains@[l][j]) == key,
        ensures
            j == i + 1,
    {
        assert(self.level_ok(l));
        let c = self.chains@[l];
        if j <= i {
            if j < i {
                assert(self.key_of(c[j]) < self.key_of(c[i]));
            }
        } else if j > i + 1 {
            assert(self.key_of(c[i + 1]) < self.key_of(c[j]));
        }
    }

    /// A key that does not follow its predecessor on level 0 is absent.
    proof fn lemma_absent(&self, p: Option<usize>, i: int, key: i64)
        requires
            self.wf(),
            self.is_pred_at(0, p, i, key),
            !(i + 1 < self.chains@[0].len() && self.key_of(self.chains@[0][i + 1]) == key),
        ensures
            !self@.contains_key(key),
    {
        if self@.contains_key(key) {
            let j = choose|j: int|
                0 <= j < self.chains@[0].len() && self.key_of(#[trigger] self.chains@[0][j])
                    == key;
            self.lemma_pred_next(0, p, i, key, j);
        }
    }

    /// The link that leaves `p` on level `l`.
    fn next_link(&self, p: Option<usize>, l: usize) -> (r: Option<usize>)
        requires
            l < self.head.forward@.len(),
            p is Some ==> p->0 < self.nodes@.len() && l < self.nodes@[p->0 as int].forward@.len(),
        ensures
            r == self.link(p, l as int),
    {
        match p {
            None => self.head.forward[l],
            Some(x) => self.nodes[x].forward[l],
        }
    }

    /// Points the link that leaves `p` on level `l` at `v`; nothing else
    /// changes.
    fn set_link(&mut self, p: Option<usize>, l: usize, v: Option<usize>)
        requires
            l < old(self).head.forward@.len(),
            p is Some ==> p->0 < old(self).nodes@.len() && l < old(self).nodes@[p->0 as int].forward@.len(),
        ensures
            final(self).link(p, l as int) == v,
            forall|q: Option<usize>, l2: int|
                (q is Some ==> q->0 < old(self).nodes@.len()) && 0 <= l2 < old(self).link_count(q)
                    && !(q == p && l2 == l) ==> #[trigger] link_in(
                    final(self).head.forward@,
                    final(self).nodes@,
                    q,
                    l2,
                ) == link_in(old(self).head.forward@, old(self).nodes@, q, l2),
            final(self).head.forward@.len() == old(self).head.forward@.len(),
            final(self).nodes@.len() == old(self).nodes@.len(),
            forall|j: int|
                0 <= j < old(self).nodes@.len() ==> {
                    &&& (#[trigger] final(self).nodes@[j]).key == old(self).nodes@[j].key
                    &&& final(self).nodes@[j].value == old(self).nodes@[j].value
                    &&& final(self).nodes@[j].forward@.len() == old(self).nodes@[j].forward@.len()
                },
            final(self).free == old(self).free,
            final(self).height == old(self).height,
            final(self).levels == old(self).levels,
            final(self).chains == old(self).chains,
            final(self).contents == old(self).contents,
    {
        match p {
            None => {
                self.head.forward[l] = v;
            },
            Some(x) => {
                self.nodes[x].forward[l] = v;
            },
        }
    }

    /// Walks level `l` forward from `start` while the next key is smaller
    /// than `key`.
    fn advance(&self, l: usize, start: Option<usize>, key: i64) -> (r: (Option<usize>, Ghost<int>))
        requires
            self.wf(),
            l < self.chains@.len(),
            start is Some ==> self.chains@[l as int].contains(start->0) && self.key_of(start->0)
                < key,
        ensures
            self.is_pred_at(l as int, r.0, r.1@, key),
    {
        let ghost c = self.chains@[l as int];
        assert(self.level_ok(l as int));
        let ghost mut i: int = if start is None {
            -1
        } else {
            c.index_of(start->0)
        };
        let mut cur = start;
        let mut done = false;
        while !done
            invariant
                self.wf(),
                l < self.chains@.len(),
                c == self.chains@[l as int],
                self.level_ok(l as int),
                -1 <= i < c.len(),
                cur == self.cursor(l as int, i),
                0 <= i ==> self.key_of(c[i]) < key,
                done ==> (i + 1 < c.len() ==> self.key_of(c[i + 1]) >= key),
            decreases c.len() - i + (if done { 0int } else { 1int }),
        {
            assert(self.link(self.cursor(l as int, i), l as int) == self.cursor(l as int, i + 1));
            let next = self.next_link(cur, l);
            match next {
                Some(y) => {
                    if self.nodes[y].key < key {
                        cur = Some(y);
                        proof {
                            i = i + 1;
                        }
                    } else {
                        done = true;
                    }
                },
                None => {
                    done = true;
                },
            }
        }
        (cur, Ghost(i))
    }

    /// The predecessor of `key` on level 0, found by descending from the
    /// top level in use.
    fn locate(&self, key: i64) -> (r: (Option<usize>, Ghost<int>))
        requires
            self.wf(),
        ensures
            self.is_pred_at(0, r.0, r.1@, key),
    {
        let mut h: usize = self.height;
        let mut cur: Option<usize> = None;
        let ghost mut i: int = -1;
        while h > 1
            invariant
                self.wf(),
                1 <= h <= self.height,
                cur is Some ==> self.chains@[h - 1].contains(cur->0) && self.key_of(cur->0) < key,
            decreases h,
        {
            let (c, Ghost(j)) = self.advance(h - 1, cur, key);
            proof {
                i = j;
                if c is Some {
                    let y = c->0;
                    assert(self.level_ok(h - 1));
                    assert(self.chains@[h - 1][j] == y);
                    assert(self.chains@[h - 1].contains(y));
                    assert(self.chains@[0].contains(y));
                    assert(self.ladder_for(y));
                    assert(self.chains@[h - 2].contains(y));
                }
            }
            cur = c;
            h = h - 1;
        }
        let (c, Ghost(j)) = self.advance(0, cur, key);
        (c, Ghost(j))
    }

    /// The value stored under `key`, if any.
    pub fn find(&self, key: i64) -> (r: Option<&V>)
        requires
            self.wf(),
        ensures
            match r {
                Some(v) => self@.contains_key(key) && *v == self@[key],
                None => !self@.contains_key(key),
            },
    {
        let (p, Ghost(i)) = self.locate(key);
        proof {
            assert(self.level_ok(0));
            assert(self.link(self.cursor(0, i), 0) == self.cursor(0, i + 1));
        }
        let next = self.next_link(p, 0);
        match next {
            Some(y) => {
                if self.nodes[y].key == key {
                    self.nodes[y].value.as_ref()
                } else {
                    proof {
                        self.lemma_absent(p, i, key);
                    }
                    None
                }
            },
            None => {
                proof {
                    self.lemma_absent(p, i, key);
                }
                None
            },
        }
    }

    /// The predecessor of `key` on every level, with its position.
    fn find_preds(&self, key: i64) -> (r: (Vec<Option<usize>>, Ghost<Seq<int>>))
        requires
            self.wf(),
        ensures
            r.0@.len() == self.chains@.len(),
            r.1@.len() == self.chains@.len(),
            forall|l: int|
                0 <= l < self.chains@.len() ==> #[trigger] self.is_pred_at(l, r.0@[l], r.1@[l], key),
    {
        let cap = self.head.forward.len();
        let mut preds = empty_links(cap);
        let ghost mut poss: Seq<int> = Seq::new(cap as nat, |l: int| -1int);
        let mut h: usize = self.height;
        let mut cur: Option<usize> = None;
        proof {
            assert forall|l: int| h <= l < cap implies #[trigger] self.is_pred_at(
                l,
                preds@[l],
                poss[l],
                key,
            ) by {
                assert(self.chains@[l].len() == 0);
            }
        }
        while h > 0
            invariant
                self.wf(),
                h <= self.height,
                cap == self.chains@.len(),
                preds@.len() == cap,
                poss.len() == cap,
                h >= 1 ==> (cur is Some ==> self.chains@[h - 1].contains(cur->0) && self.key_of(
                    cur->0,
                ) < key),
                forall|l: int| h <= l < cap ==> #[trigger] self.is_pred_at(l, preds@[l], poss[l], key),
            decreases h,
        {
            let (c, Ghost(j)) = self.advance(h - 1, cur, key);
            preds[h - 1] = c;
            proof {
                poss = poss.update(h - 1, j);
                if h > 1 && c is Some {
                    let y = c->0;
                    assert(self.level_ok(h - 1));
                    assert(self.chains@[h - 1][j] == y);
                    assert(self.chains@[h - 1].contains(y));
                    assert(self.chains@[0].contains(y));
                    assert(self.ladder_for(y));
                    assert(self.chains@[h - 2].contains(y));
                }
            }
            cur = c;
            h = h - 1;
        }
        (preds, Ghost(poss))
    }

    /// Inserts `key` with `value`, giving a new node `level` levels. When
    /// `key` is already present only its value is replaced, in place.
    pub fn insert_with_level(&mut self, key: i64, value: V, level: usize) -> (r: Result<
        (),
        SkipListError,
    >)
        requires
            old(self).wf(),
            1 <= level <= old(self).max_level(),
        ensures
            final(self).wf(),
            final(self).max_level() == old(self).max_level(),
            r is Err <==> !old(self)@.contains_key(key) && old(self).slots_left() == 0,
            r is Err ==> r == Err::<(), SkipListError>(SkipListError::AllocationFailure) && final(self)@ == old(self)@,
            r is Ok ==> final(self)@ == old(self)@.insert(key, value),
            r is Ok && !old(self)@.contains_key(key) ==> final(self).slots_left() + 1 == old(self).slots_left(),
            r is Err || old(self)@.contains_key(key) ==> final(self).slots_left() == old(self).slots_left(),
            r is Err || old(self)@.contains_key(key) ==> forall|l: int|
                0 <= l < old(self).max_level() ==> #[trigger] final(self).level_keys(l) == old(self).level_keys(l),
            r is Ok && !old(self)@.contains_key(key) ==> forall|l: int, k: i64|
                0 <= l < old(self).max_level() ==> (#[trigger] final(self).level_keys(l).contains(
                    k,
                ) <==> (k == key && l < level) || old(self).level_keys(l).contains(k)),
    {
        let (preds, Ghost(poss)) = self.find_preds(key);
        let ghost i0 = poss[0];
        proof {
            assert(self.is_pred_at(0, preds@[0], i0, key));
            assert(self.level_ok(0));
            assert(self.link(self.cursor(0, i0), 0) == self.cursor(0, i0 + 1));
        }
        let succ = self.next_link(preds[0], 0);
        if let Some(y) = succ {
            if self.nodes[y].key == key {
                self.update_value(y, key, value, Ghost(i0 + 1));
                return Ok(());
            }
        }
        proof {
            self.lemma_absent(preds@[0], i0, key);
        }
        if self.free.len() == 0 && self.nodes.len() == usize::MAX {
            return Err(SkipListError::AllocationFailure);
        }
        self.insert_new(key, value, level, preds, Ghost(poss));
        Ok(())
    }

    /// A node on any level holds a key of the map.
    proof fn lemma_member_key_present(&self, l: int, y: usize)
        requires
            self.wf(),
            0 <= l < self.chains@.len(),
            self.chains@[l].contains(y),
        ensures
            self@.contains_key(self.key_of(y)),
    {
        assert(self.chains@[0].contains(y));
        let k = choose|k: int| 0 <= k < self.chains@[0].len() && self.chains@[0][k] == y;
        assert(self.key_of(self.chains@[0][k]) == self.key_of(y));
    }

    /// Replaces the value of node `y`, at position `j` of level 0.
    fn update_value(&mut self, y: usize, key: i64, value: V, Ghost(j): Ghost<int>)
        requires
            old(self).wf(),
            0 <= j < old(self).chains@[0].len(),
            old(self).chains@[0][j] == y,
            old(self).key_of(y) == key,
        ensures
            final(self).wf(),
            final(self)@ == old(self)@.insert(key, value),
            final(self).max_level() == old(self).max_level(),
            final(self).slots_left() == old(self).slots_left(),
            forall|l: int|
                0 <= l < old(self).max_level() ==> #[trigger] final(self).level_keys(l) == old(self).level_keys(l),
    {
        let ghost hf = self.head.forward@;
        let ghost nd = self.nodes@;
        assert(old(self).level_ok(0));
        self.nodes[y].value = Some(value);
        proof {
            self.contents = Ghost(self.contents@.insert(key, value));
            assert forall|l: int| 0 <= l < self.chains@.len() implies #[trigger] self.level_ok(
                l,
            ) by {
                assert(old(self).level_ok(l));
                let c = self.chains@[l];
                assert forall|i: int| -1 <= i < c.len() implies #[trigger] link_in(
                    self.head.forward@,
                    self.nodes@,
                    cursor_in(c, i),
                    l,
                ) == link_in(hf, nd, cursor_in(c, i), l) by {}
                lemma_chain_frame(hf, nd, self.head.forward@, self.nodes@, c, l);
            }
            let c0 = self.chains@[0];
            assert forall|i: int| 0 <= i < c0.len() implies {
                &&& self.contents@.contains_key(self.key_of(#[trigger] c0[i]))
                &&& self.nodes@[c0[i] as int].value == Some(self.contents@[self.key_of(c0[i])])
            } by {
                if i != j {
                    if i < j {
                        assert(key_in(nd, c0[i]) < key_in(nd, c0[j]));
                    } else {
                        assert(key_in(nd, c0[j]) < key_in(nd, c0[i]));
                    }
                }
            }
            assert forall|k: i64| #[trigger] self.contents@.contains_key(k) implies exists|i: int|
                0 <= i < c0.len() && self.key_of(#[trigger] c0[i]) == k by {
                if k == key {
                    assert(self.key_of(c0[j]) == k);
                } else {
                    assert(old(self).contents@.contains_key(k));
                    let i = choose|i: int| 0 <= i < c0.len() && old(self).key_of(#[trigger] c0[i]) == k;
                    assert(self.key_of(c0[i]) == k);
                }
            }
            assert forall|l: int| 0 <= l < old(self).max_level() implies #[trigger] self.level_keys(l)
                == old(self).level_keys(l) by {
                let c = self.chains@[l];
                assert(old(self).level_ok(l));
                assert forall|m: int| 0 <= m < c.len() implies #[trigger] self.level_keys(l)[m]
                    == old(self).level_keys(l)[m] by {
                    assert(c[m] < nd.len());
                }
                assert(self.level_keys(l) =~= old(self).level_keys(l));
            }
        }
    }

    /// `s` is `o` with the absent `key` added on a node `x` of `level`
    /// links, spliced in after the predecessors at positions `poss`.
    proof fn lemma_insert_new_done(
        s: &Self,
        o: &Self,
        key: i64,
        value: V,
        level: usize,
        x: usize,
        poss: Seq<int>,
        preds: Seq<Option<usize>>,
    )
        requires
            o.wf(),
            1 <= level <= o.max_level(),
            !o@.contains_key(key),
            preds.len() == o.chains@.len(),
            poss.len() == o.chains@.len(),
            forall|l: int|
                0 <= l < o.chains@.len() ==> #[trigger] o.is_pred_at(l, preds[l], poss[l], key),
            s.levels == o.levels,
            s.height == if level > o.height {
                level
            } else {
                o.height
            },
            s.contents@ == o.contents@.insert(key, value),
            s.head.forward@.len() == o.head.forward@.len(),
            s.chains@.len() == o.chains@.len(),
            o.nodes@.len() <= s.nodes@.len(),
            (x as int) < s.nodes@.len(),
            s.nodes@[x as int].key == key,
            s.nodes@[x as int].value == Some(value),
            s.nodes@[x as int].forward@.len() == level,
            forall|j: int|
                0 <= j < s.nodes@.len() && j != x ==> j < o.nodes@.len() && (
                #[trigger] s.nodes@[j]).key == o.nodes@[j].key && s.nodes@[j].value
                    == o.nodes@[j].value && s.nodes@[j].forward@.len()
                    == o.nodes@[j].forward@.len(),
            forall|l2: int| 0 <= l2 < o.chains@.len() ==> !o.chains@[l2].contains(x),
            forall|l2: int|
                0 <= l2 < level ==> #[trigger] s.chains@[l2] == o.chains@[l2].insert(poss[l2] + 1, x),
            forall|l2: int| level <= l2 < o.chains@.len() ==> #[trigger] s.chains@[l2] == o.chains@[l2],
            forall|l2: int| 0 <= l2 < o.chains@.len() ==> #[trigger] s.level_ok(l2),
            s.free@.len() <= o.free@.len(),
            forall|i: int| 0 <= i < s.free@.len() ==> s.free@[i] == o.free@[i] && s.free@[i] != x,
            s.nodes@.len() <= usize::MAX,
        ensures
            s.wf(),
            forall|l: int, k: i64|
                0 <= l < o.max_level() ==> (#[trigger] s.level_keys(l).contains(k) <==> (k == key
                    && l < level) || o.level_keys(l).contains(k)),
    {
        let cap = o.chains@.len();
        let oc0 = o.chains@[0];
        let pos0 = poss[0] + 1;
        assert(o.is_pred_at(0, preds[0], poss[0], key));
        let c0 = s.chains@[0];
        assert(c0 == oc0.insert(pos0, x));
        assert(o.level_ok(0));
        assert forall|l2: int, y: usize|
            0 <= l2 < cap && #[trigger] s.chains@[l2].contains(y) implies s.chains@[0].contains(
            y,
        ) by {
            assert(o.is_pred_at(l2, preds[l2], poss[l2], key));
            if l2 < level {
                lemma_seq_insert_contains(o.chains@[l2], poss[l2] + 1, x, y);
            }
            lemma_seq_insert_contains(oc0, pos0, x, y);
            if y != x {
                assert(o.chains@[l2].contains(y));
                assert(oc0.contains(y));
            }
        }
        assert forall|y: usize| #[trigger] s.chains@[0].contains(y) implies s.ladder_for(
            y,
        ) by {
            lemma_seq_insert_contains(oc0, pos0, x, y);
            if y != x {
                assert(o.ladder_for(y));
                let k = choose|k: int| 0 <= k < oc0.len() && oc0[k] == y;
                assert(oc0[k] < o.nodes@.len());
            }
            assert forall|l2: int|
                0 <= l2 < cap && l2 < s.nodes@[y as int].forward@.len() implies #[trigger] s.chains@[l2].contains(
                y,
            ) by {
                assert(o.is_pred_at(l2, preds[l2], poss[l2], key));
                if l2 < level {
                    lemma_seq_insert_contains(o.chains@[l2], poss[l2] + 1, x, y);
                }
                if y != x {
                    assert(o.chains@[l2].contains(y));
                }
            }
        }
        assert forall|i: int| 0 <= i < c0.len() implies {
            &&& s.contents@.contains_key(s.key_of(#[trigger] c0[i]))
            &&& s.nodes@[c0[i] as int].value == Some(s.contents@[s.key_of(c0[i])])
        } by {
            if i != pos0 {
                let k = if i < pos0 {
                    i
                } else {
                    i - 1
                };
                assert(c0[i] == oc0[k]);
                assert(oc0[k] != x) by {
                    if oc0[k] == x {
                        assert(oc0.contains(x));
                    }
                }
                assert(o.contents@.contains_key(o.key_of(oc0[k])));
            }
        }
        assert forall|k: i64| #[trigger] s.contents@.contains_key(k) implies exists|i: int|
            0 <= i < c0.len() && s.key_of(#[trigger] c0[i]) == k by {
            if k == key {
                assert(s.key_of(c0[pos0]) == k);
            } else {
                assert(o.contents@.contains_key(k));
                let i = choose|i: int|
                    0 <= i < oc0.len() && o.key_of(#[trigger] oc0[i]) == k;
                assert(oc0[i] != x) by {
                    if oc0[i] == x {
                        assert(oc0.contains(x));
                    }
                }
                if i < pos0 {
                    assert(c0[i] == oc0[i]);
                    assert(s.key_of(c0[i]) == k);
                } else {
                    assert(c0[i + 1] == oc0[i]);
                    assert(s.key_of(c0[i + 1]) == k);
                }
            }
        }
        assert forall|i: int| 0 <= i < s.free@.len() implies (#[trigger] s.free@[i] as int)
            < s.nodes@.len() && !s.chains@[0].contains(s.free@[i]) by {
            let f = s.free@[i];
            assert(o.free@[i] == f);
            assert(!oc0.contains(f));
            lemma_seq_insert_contains(oc0, pos0, x, f);
        }
        assert forall|i: int, j: int|
            0 <= i < j < s.free@.len() implies #[trigger] s.free@[i] != #[trigger] s.free@[j] by {
            assert(o.free@[i] != o.free@[j]);
        }
        if s.height == level && level > o.height {
            assert(s.chains@[level - 1] == o.chains@[level - 1].insert(
                poss[level - 1] + 1,
                x,
            ));
        } else if s.height > 1 {
            let t = s.height - 1;
            if t < level {
                assert(s.chains@[t] == o.chains@[t].insert(poss[t] + 1, x));
            }
        }
        assert forall|l2: int, k: i64| 0 <= l2 < cap implies (#[trigger] s.level_keys(
            l2,
        ).contains(k) <==> (k == key && l2 < level) || o.level_keys(l2).contains(k)) by {
            let oc = o.chains@[l2];
            assert(o.level_ok(l2));
            assert(o.is_pred_at(l2, preds[l2], poss[l2], key));
            if l2 < level {
                let pp = poss[l2] + 1;
                assert forall|m: int| 0 <= m < s.level_keys(l2).len() implies #[trigger] s.level_keys(l2)[m]
                    == o.level_keys(l2).insert(pp, key)[m] by {
                    if m != pp {
                        let k2 = if m < pp {
                            m
                        } else {
                            m - 1
                        };
                        assert(s.chains@[l2][m] == oc[k2]);
                        assert(oc[k2] != x) by {
                            if oc[k2] == x {
                                assert(oc.contains(x));
                            }
                        }
                    }
                }
                assert(s.level_keys(l2) =~= o.level_keys(l2).insert(pp, key));
                lemma_seq_insert_contains(o.level_keys(l2), pp, key, k);
            } else {
                assert forall|m: int| 0 <= m < s.level_keys(l2).len() implies #[trigger] s.level_keys(l2)[m]
                    == o.level_keys(l2)[m] by {
                    assert(oc[m] != x) by {
                        if oc[m] == x {
                            assert(oc.contains(x));
                        }
                    }
                }
                assert(s.level_keys(l2) =~= o.level_keys(l2));
            }
        }
    }

    /// Takes a free slot, or a new one, for a node holding the absent `key`
    /// with `level` links. The levels are left as they were.
    fn alloc_node(&mut self, key: i64, value: V, level: usize) -> (x: usize)
        requires
            old(self).wf(),
            old(self).slots_left() > 0,
        ensures
            final(self).levels == old(self).levels,
            final(self).height == old(self).height,
            final(self).contents == old(self).contents,
            final(self).chains == old(self).chains,
            final(self).head.forward@ == old(self).head.forward@,
            forall|l: int| 0 <= l < old(self).chains@.len() ==> #[trigger] final(self).level_ok(l),
            old(self).nodes@.len() <= final(self).nodes@.len(),
            (x as int) < final(self).nodes@.len(),
            final(self).nodes@[x as int].key == key,
            final(self).nodes@[x as int].value == Some(value),
            final(self).nodes@[x as int].forward@.len() == level,
            forall|j: int|
                0 <= j < final(self).nodes@.len() && j != x ==> j < old(self).nodes@.len() && (
                #[trigger] final(self).nodes@[j]).key == old(self).nodes@[j].key
                    && final(self).nodes@[j].value == old(self).nodes@[j].value
                    && final(self).nodes@[j].forward@.len() == old(self).nodes@[j].forward@.len(),
            forall|l: int| 0 <= l < old(self).chains@.len() ==> !old(self).chains@[l].contains(x),
            final(self).free@.len() <= old(self).free@.len(),
            forall|i: int|
                0 <= i < final(self).free@.len() ==> final(self).free@[i] == old(self).free@[i]
                    && final(self).free@[i] != x,
            final(self).nodes@.len() <= usize::MAX,
            final(self).slots_left() + 1 == old(self).slots_left(),
    {
        let ghost cap = self.chains@.len();
        let ghost hf = self.head.forward@;
        let ghost nd = self.nodes@;
        let x: usize;
        if self.free.len() > 0 {
            x = self.free.pop().unwrap();
            self.nodes[x] = Node::node(level, key, value);
        } else {
            x = self.nodes.len();
            self.nodes.push(Node::node(level, key, value));
        }
        proof {
            assert(!old(self).chains@[0].contains(x)) by {
                if old(self).free@.len() > 0 {
                    assert(x == old(self).free@[old(self).free@.len() - 1]);
                } else {
                    assert(old(self).level_ok(0));
                    if old(self).chains@[0].contains(x) {
                        let k = choose|k: int|
                            0 <= k < old(self).chains@[0].len() && old(self).chains@[0][k] == x;
                        assert(old(self).chains@[0][k] < nd.len());
                    }
                }
            }
            assert forall|i: int| 0 <= i < self.free@.len() implies self.free@[i] == old(
                self).free@[i] && self.free@[i] != x by {
                assert(old(self).free@[i] != old(self).free@[old(self).free@.len() - 1]);
            }
            assert forall|l: int| 0 <= l < cap implies #[trigger] self.level_ok(l) by {
                assert(old(self).level_ok(l));
                let c = self.chains@[l];
                assert(!c.contains(x));
                assert forall|i: int| 0 <= i < c.len() implies self.nodes@[#[trigger] c[i] as int].key
                    == nd[c[i] as int].key && self.nodes@[c[i] as int].forward@.len()
                    == nd[c[i] as int].forward@.len() by {
                    assert(c[i] != x) by {
                        if c[i] == x {
                            assert(c.contains(x));
                        }
                    }
                }
                assert forall|i: int| -1 <= i < c.len() implies #[trigger] link_in(
                    self.head.forward@,
                    self.nodes@,
                    cursor_in(c, i),
                    l,
                ) == link_in(hf, nd, cursor_in(c, i), l) by {
                    if 0 <= i {
                        assert(c[i] != x) by {
                            if c[i] == x {
                                assert(c.contains(x));
                            }
                        }
                    }
                }
                lemma_chain_frame(hf, nd, self.head.forward@, self.nodes@, c, l);
            }
        }
        x
    }

    /// Splices node `x`, holding `key`, into level `l` after `p`, the node at
    /// position `i` there.
    fn splice_level(&mut self, l: usize, p: Option<usize>, Ghost(i): Ghost<int>, x: usize, key: i64)
        requires
            old(self).chains@.len() == old(self).head.forward@.len(),
            forall|l2: int| 0 <= l2 < old(self).chains@.len() ==> #[trigger] old(self).level_ok(l2),
            l < old(self).chains@.len(),
            (x as int) < old(self).nodes@.len(),
            l < old(self).nodes@[x as int].forward@.len(),
            old(self).key_of(x) == key,
            !old(self).chains@[l as int].contains(x),
            -1 <= i < old(self).chains@[l as int].len(),
            p == old(self).cursor(l as int, i),
            0 <= i ==> old(self).key_of(old(self).chains@[l as int][i]) < key,
            i + 1 < old(self).chains@[l as int].len() ==> key < old(self).key_of(
                old(self).chains@[l as int][i + 1],
            ),
        ensures
            final(self).chains@ == old(self).chains@.update(
                l as int,
                old(self).chains@[l as int].insert(i + 1, x),
            ),
            forall|l2: int| 0 <= l2 < old(self).chains@.len() ==> #[trigger] final(self).level_ok(l2),
            final(self).head.forward@.len() == old(self).head.forward@.len(),
            final(self).nodes@.len() == old(self).nodes@.len(),
            forall|j: int|
                0 <= j < old(self).nodes@.len() ==> {
                    &&& (#[trigger] final(self).nodes@[j]).key == old(self).nodes@[j].key
                    &&& final(self).nodes@[j].value == old(self).nodes@[j].value
                    &&& final(self).nodes@[j].forward@.len() == old(self).nodes@[j].forward@.len()
                },
            final(self).free == old(self).free,
            final(self).height == old(self).height,
            final(self).levels == old(self).levels,
            final(self).contents == old(self).contents,
    {
        let ghost c = self.chains@[l as int];
        let ghost cap = self.chains@.len();
        proof {
            assert(self.level_ok(l as int));
            assert(self.link(self.cursor(l as int, i), l as int) == self.cursor(l as int, i + 1));
        }
        let nx = self.next_link(p, l);
        let ghost hf0 = self.head.forward@;
        let ghost nd0 = self.nodes@;
        self.set_link(Some(x), l, nx);
        let ghost hf1 = self.head.forward@;
        let ghost nd1 = self.nodes@;
        self.set_link(p, l, Some(x));
        proof {
            let hf2 = self.head.forward@;
            let nd2 = self.nodes@;
            assert forall|j: int| -1 <= j < c.len() && j != i implies #[trigger] link_in(
                hf2,
                nd2,
                cursor_in(c, j),
                l as int,
            ) == link_in(hf0, nd0, cursor_in(c, j), l as int) by {
                if 0 <= j && 0 <= i {
                    if j < i {
                        assert(key_in(nd0, c[j]) < key_in(nd0, c[i]));
                    } else {
                        assert(key_in(nd0, c[i]) < key_in(nd0, c[j]));
                    }
                }
                if 0 <= j {
                    assert(c[j] != x) by {
                        if c[j] == x {
                            assert(c.contains(x));
                        }
                    }
                }
                assert(link_in(hf1, nd1, cursor_in(c, j), l as int) == link_in(
                    hf0,
                    nd0,
                    cursor_in(c, j),
                    l as int,
                ));
            }
            if 0 <= i {
                assert(c[i] != x) by {
                    if c[i] == x {
                        assert(c.contains(x));
                    }
                }
            }
            assert(link_in(hf2, nd2, Some(x), l as int) == link_in(hf1, nd1, Some(x), l as int));
            lemma_splice(hf0, nd0, hf2, nd2, c, l as int, i, x);
            self.chains = Ghost(self.chains@.update(l as int, c.insert(i + 1, x)));
            assert forall|l2: int| 0 <= l2 < cap implies #[trigger] self.level_ok(l2) by {
                if l2 != l {
                    let c2 = self.chains@[l2];
                    assert(old(self).level_ok(l2));
                    assert forall|k: int| -1 <= k < c2.len() implies #[trigger] link_in(
                        hf2,
                        nd2,
                        cursor_in(c2, k),
                        l2,
                    ) == link_in(hf0, nd0, cursor_in(c2, k), l2) by {
                        assert(link_in(hf1, nd1, cursor_in(c2, k), l2) == link_in(
                            hf0,
                            nd0,
                            cursor_in(c2, k),
                            l2,
                        ));
                    }
                    lemma_chain_frame(hf0, nd0, hf2, nd2, c2, l2);
                }
            }
        }
    }

    /// Makes a node for the absent `key` with `level` links and splices it
    /// after its predecessor on each of those levels.
    fn insert_new(
        &mut self,
        key: i64,
        value: V,
        level: usize,
        preds: Vec<Option<usize>>,
        Ghost(poss): Ghost<Seq<int>>,
    )
        requires
            old(self).wf(),
            1 <= level <= old(self).max_level(),
            !old(self)@.contains_key(key),
            old(self).slots_left() > 0,
            preds@.len() == old(self).chains@.len(),
            poss.len() == old(self).chains@.len(),
            forall|l: int|
                0 <= l < old(self).chains@.len() ==> #[trigger] old(self).is_pred_at(
                    l,
                    preds@[l],
                    poss[l],
                    key,
                ),
        ensures
            final(self).wf(),
            final(self).max_level() == old(self).max_level(),
            final(self)@ == old(self)@.insert(key, value),
            forall|l: int, k: i64|
                0 <= l < old(self).max_level() ==> (#[trigger] final(self).level_keys(l).contains(k)
                    <==> (k == key && l < level) || old(self).level_keys(l).contains(k)),
            final(self).slots_left() + 1 == old(self).slots_left(),
    {
        let ghost cap = self.chains@.len();
        let x = self.alloc_node(key, value, level);
        let ghost hf = self.head.forward@;
        let ghost nd = self.nodes@;
        let ghost ch = self.chains@;
        proof {
            assert forall|l2: int| 0 <= l2 < cap implies chain_ok(hf, nd, ch[l2], l2) by {
                assert(self.level_ok(l2));
            }
        }
        if level > self.height {
            self.height = level;
        }
        proof {
            self.contents = Ghost(self.contents@.insert(key, value));
            assert forall|l2: int| 0 <= l2 < cap implies #[trigger] self.level_ok(l2) by {
                assert(chain_ok(hf, nd, ch[l2], l2));
            }
        }
        let mut l: usize = 0;
        while l < level
            invariant
                1 <= level <= cap,
                cap == old(self).chains@.len(),
                l <= level,
                old(self).wf(),
                !old(self)@.contains_key(key),
                self.levels == old(self).levels,
                self.height == if level > old(self).height {
                    level
                } else {
                    old(self).height
                },
                self.contents@ == old(self).contents@.insert(key, value),
                self.head.forward@.len() == cap,
                self.chains@.len() == cap,
                old(self).nodes@.len() <= self.nodes@.len(),
                (x as int) < self.nodes@.len(),
                self.nodes@[x as int].key == key,
                self.nodes@[x as int].value == Some(value),
                self.nodes@[x as int].forward@.len() == level,
                forall|j: int|
                    0 <= j < self.nodes@.len() && j != x ==> j < old(self).nodes@.len() && (
                    #[trigger] self.nodes@[j]).key == old(self).nodes@[j].key
                        && self.nodes@[j].value == old(self).nodes@[j].value
                        && self.nodes@[j].forward@.len() == old(self).nodes@[j].forward@.len(),
                forall|l2: int| 0 <= l2 < cap ==> !old(self).chains@[l2].contains(x),
                forall|l2: int|
                    0 <= l2 < l ==> #[trigger] self.chains@[l2] == old(self).chains@[l2].insert(
                        poss[l2] + 1,
                        x,
                    ),
                forall|l2: int| l <= l2 < cap ==> #[trigger] self.chains@[l2] == old(self).chains@[l2],
                forall|l2: int| 0 <= l2 < cap ==> #[trigger] self.level_ok(l2),
                self.free@.len() <= old(self).free@.len(),
                forall|i: int|
                    0 <= i < self.free@.len() ==> self.free@[i] == old(self).free@[i] && self.free@[i]
                        != x,
                preds@.len() == cap,
                poss.len() == cap,
                forall|l2: int|
                    0 <= l2 < cap ==> #[trigger] old(self).is_pred_at(l2, preds@[l2], poss[l2], key),
                self.nodes@.len() <= usize::MAX,
                self.slots_left() + 1 == old(self).slots_left(),
            decreases level - l,
        {
            let p = preds[l];
            proof {
                let i = poss[l as int];
                let c = old(self).chains@[l as int];
                assert(self.chains@[l as int] == c);
                assert(old(self).is_pred_at(l as int, preds@[l as int], i, key));
                assert(old(self).level_ok(l as int));
                if 0 <= i {
                    assert(c[i] != x) by {
                        if c[i] == x {
                            assert(c.contains(x));
                        }
                    }
                    assert(c[i] < old(self).nodes@.len());
                    assert(self.key_of(c[i]) == old(self).key_of(c[i]));
                }
                if i + 1 < c.len() {
                    old(self).lemma_member_key_present(l as int, c[i + 1]);
                    assert(c[i + 1] != x) by {
                        if c[i + 1] == x {
                            assert(c.contains(x));
                        }
                    }
                    assert(c[i + 1] < old(self).nodes@.len());
                    assert(self.key_of(c[i + 1]) == old(self).key_of(c[i + 1]));
                    assert(old(self).key_of(c[i + 1]) != key);
                }
            }
            self.splice_level(l, p, Ghost(poss[l as int]), x, key);
            l = l + 1;
        }
        proof {
            Self::lemma_insert_new_done(self, old(self), key, value, level, x, poss, preds@);
        }
    }

    /// Unlinks node `x`, at position `i + 1` of level `l`, from its
    /// predecessor `p` there.
    fn unsplice_level(&mut self, l: usize, p: Option<usize>, Ghost(i): Ghost<int>, x: usize)
        requires
            old(self).chains@.len() == old(self).head.forward@.len(),
            forall|l2: int| 0 <= l2 < old(self).chains@.len() ==> #[trigger] old(self).level_ok(l2),
            l < old(self).chains@.len(),
            -1 <= i,
            i + 1 < old(self).chains@[l as int].len(),
            old(self).chains@[l as int][i + 1] == x,
            p == old(self).cursor(l as int, i),
        ensures
            final(self).chains@ == old(self).chains@.update(
                l as int,
                old(self).chains@[l as int].remove(i + 1),
            ),
            forall|l2: int| 0 <= l2 < old(self).chains@.len() ==> #[trigger] final(self).level_ok(l2),
            final(self).head.forward@.len() == old(self).head.forward@.len(),
            final(self).nodes@.len() == old(self).nodes@.len(),
            forall|j: int|
                0 <= j < old(self).nodes@.len() ==> {
                    &&& (#[trigger] final(self).nodes@[j]).key == old(self).nodes@[j].key
                    &&& final(self).nodes@[j].value == old(self).nodes@[j].value
                    &&& final(self).nodes@[j].forward@.len() == old(self).nodes@[j].forward@.len()
                },
            final(self).free == old(self).free,
            final(self).height == old(self).height,
            final(self).levels == old(self).levels,
            final(self).contents == old(self).contents,
    {
        let ghost c = self.chains@[l as int];
        let ghost cap = self.chains@.len();
        proof {
            assert(self.level_ok(l as int));
            assert(self.link(self.cursor(l as int, i + 1), l as int) == self.cursor(
                l as int,
                i + 2,
            ));
        }
        let nx = self.next_link(Some(x), l);
        let ghost hf0 = self.head.forward@;
        let ghost nd0 = self.nodes@;
        self.set_link(p, l, nx);
        proof {
            let hf2 = self.head.forward@;
            let nd2 = self.nodes@;
            assert forall|j: int| -1 <= j < c.len() && j != i implies #[trigger] link_in(
                hf2,
                nd2,
                cursor_in(c, j),
                l as int,
            ) == link_in(hf0, nd0, cursor_in(c, j), l as int) by {
                if 0 <= j && 0 <= i {
                    if j < i {
                        assert(key_in(nd0, c[j]) < key_in(nd0, c[i]));
                    } else {
                        assert(key_in(nd0, c[i]) < key_in(nd0, c[j]));
                    }
                }
            }
            lemma_unsplice(hf0, nd0, hf2, nd2, c, l as int, i);
            self.chains = Ghost(self.chains@.update(l as int, c.remove(i + 1)));
            assert forall|l2: int| 0 <= l2 < cap implies #[trigger] self.level_ok(l2) by {
                if l2 != l {
                    let c2 = self.chains@[l2];
                    assert(old(self).level_ok(l2));
                    assert forall|k: int| -1 <= k < c2.len() implies #[trigger] link_in(
                        hf2,
                        nd2,
                        cursor_in(c2, k),
                        l2,
                    ) == link_in(hf0, nd0, cursor_in(c2, k), l2) by {}
                    lemma_chain_frame(hf0, nd0, hf2, nd2, c2, l2);
                }
            }
        }
    }

    /// Lowers the height while the top level in use is empty.
    fn shrink_height(&mut self)
        requires
            old(self).wf_but_top(),
        ensures
            final(self).wf(),
            final(self)@ == old(self)@,
            final(self).max_level() == old(self).max_level(),
            final(self).chains == old(self).chains,
            final(self).nodes == old(self).nodes,
            final(self).free == old(self).free,
            forall|l: int| #[trigger] final(self).level_keys(l) == old(self).level_keys(l),
    {
        while self.height > 1 && self.head.forward[self.height - 1].is_none()
            invariant
                self.wf_but_top(),
                self.contents == old(self).contents,
                self.head == old(self).head,
                self.chains == old(self).chains,
                self.nodes == old(self).nodes,
                self.free == old(self).free,
            decreases self.height,
        {
            proof {
                let t = self.height - 1;
                assert(self.level_ok(t));
                assert(self.link(self.cursor(t, -1), t) == self.cursor(t, 0));
            }
            let ghost ch = self.chains@;
            proof {
                assert forall|l: int| 0 <= l < ch.len() implies chain_ok(
                    self.head.forward@,
                    self.nodes@,
                    ch[l],
                    l,
                ) by {
                    assert(self.level_ok(l));
                }
            }
            self.height = self.height - 1;
            proof {
                assert forall|l: int| 0 <= l < ch.len() implies #[trigger] self.level_ok(l) by {
                    assert(chain_ok(self.head.forward@, self.nodes@, ch[l], l));
                }
            }
        }
        proof {
            if self.height > 1 {
                let t = self.height - 1;
                assert(self.level_ok(t));
                assert(self.link(self.cursor(t, -1), t) == self.cursor(t, 0));
            }
        }
    }

    /// An absent key is on no level.
    proof fn lemma_absent_levels(&self, key: i64)
        requires
            self.wf(),
            !self@.contains_key(key),
        ensures
            forall|l: int| 0 <= l < self.max_level() ==> !#[trigger] self.level_keys(l).contains(key),
    {
        assert forall|l: int| 0 <= l < self.max_level() implies !#[trigger] self.level_keys(
            l,
        ).contains(key) by {
            if self.level_keys(l).contains(key) {
                let m = choose|m: int| 0 <= m < self.level_keys(l).len() && self.level_keys(l)[m] == key;
                assert(self.chains@[l].contains(self.chains@[l][m]));
                self.lemma_member_key_present(l, self.chains@[l][m]);
            }
        }
    }

    /// Two nodes of level 0 with the same key are the same node.
    proof fn lemma_level0_unique(&self, y: usize, x: usize)
        requires
            self.wf(),
            self.chains@[0].contains(y),
            self.chains@[0].contains(x),
            self.key_of(y) == self.key_of(x),
        ensures
            y == x,
    {
        let c = self.chains@[0];
        assert(self.level_ok(0));
        let a = choose|a: int| 0 <= a < c.len() && c[a] == y;
        let b = choose|b: int| 0 <= b < c.len() && c[b] == x;
        if a < b {
            assert(key_in(self.nodes@, c[a]) < key_in(self.nodes@, c[b]));
        } else if b < a {
            assert(key_in(self.nodes@, c[b]) < key_in(self.nodes@, c[a]));
        }
    }

    /// Level `l` of `s` is level `l` of `o` without node `x`.
    proof fn lemma_delete_member(
        s: &Self,
        o: &Self,
        key: i64,
        x: usize,
        poss: Seq<int>,
        preds: Seq<Option<usize>>,
        l: int,
        y: usize,
    )
        requires
            o.wf(),
            0 <= l < o.chains@.len(),
            o.key_of(x) == key,
            preds.len() == o.chains@.len(),
            poss.len() == o.chains@.len(),
            o.is_pred_at(l, preds[l], poss[l], key),
            s.chains@[l] == if o.chains@[l].contains(x) {
                o.chains@[l].remove(poss[l] + 1)
            } else {
                o.chains@[l]
            },
        ensures
            s.chains@[l].contains(y) <==> y != x && o.chains@[l].contains(y),
            o.chains@[l].contains(x) ==> o.chains@[l][poss[l] + 1] == x && 0 <= poss[l] + 1
                < o.chains@[l].len(),
    {
        let oc = o.chains@[l];
        assert(o.level_ok(l));
        if oc.contains(x) {
            let j = choose|j: int| 0 <= j < oc.len() && oc[j] == x;
            o.lemma_pred_next(l, preds[l], poss[l], key, j);
            assert forall|a: int, b: int| 0 <= a < b < oc.len() implies oc[a] != oc[b] by {
                assert(key_in(o.nodes@, oc[a]) < key_in(o.nodes@, oc[b]));
            }
            lemma_seq_remove_contains(oc, poss[l] + 1, y);
        }
    }

    /// `s` is `o` with node `x`, holding `key`, taken off every level and
    /// put on the free list.
    proof fn lemma_delete_done(
        s: &Self,
        o: &Self,
        key: i64,
        x: usize,
        poss: Seq<int>,
        preds: Seq<Option<usize>>,
    )
        requires
            o.wf(),
            o.chains@[0].contains(x),
            o.key_of(x) == key,
            preds.len() == o.chains@.len(),
            poss.len() == o.chains@.len(),
            forall|l: int|
                0 <= l < o.chains@.len() ==> #[trigger] o.is_pred_at(l, preds[l], poss[l], key),
            s.levels == o.levels,
            s.height == o.height,
            s.contents@ == o.contents@.remove(key),
            s.head.forward@.len() == o.head.forward@.len(),
            s.chains@.len() == o.chains@.len(),
            s.nodes@.len() == o.nodes@.len(),
            forall|j: int|
                0 <= j < o.nodes@.len() ==> (#[trigger] s.nodes@[j]).key == o.nodes@[j].key
                    && s.nodes@[j].forward@.len() == o.nodes@[j].forward@.len() && (j != x
                    ==> s.nodes@[j].value == o.nodes@[j].value),
            forall|l: int|
                0 <= l < o.chains@.len() ==> #[trigger] s.chains@[l] == if o.chains@[l].contains(x) {
                    o.chains@[l].remove(poss[l] + 1)
                } else {
                    o.chains@[l]
                },
            forall|l: int| 0 <= l < o.chains@.len() ==> #[trigger] s.level_ok(l),
            s.free@ == o.free@.push(x),
        ensures
            s.wf_but_top(),
            forall|l: int, k: i64|
                0 <= l < o.max_level() ==> (#[trigger] s.level_keys(l).contains(k) <==> k != key
                    && o.level_keys(l).contains(k)),
    {
        let cap = o.chains@.len();
        assert(o.level_ok(0));
        let oc0 = o.chains@[0];
        let c0 = s.chains@[0];
        assert((x as int) < o.nodes@.len()) by {
            let b = choose|b: int| 0 <= b < oc0.len() && oc0[b] == x;
        }
        assert forall|l: int, y: usize|
            0 <= l < cap && #[trigger] s.chains@[l].contains(y) implies s.chains@[0].contains(y) by {
            assert(o.is_pred_at(l, preds[l], poss[l], key));
            assert(o.is_pred_at(0, preds[0], poss[0], key));
            Self::lemma_delete_member(s, o, key, x, poss, preds, l, y);
            Self::lemma_delete_member(s, o, key, x, poss, preds, 0, y);
        }
        assert forall|y: usize| #[trigger] s.chains@[0].contains(y) implies s.ladder_for(y) by {
            assert(o.is_pred_at(0, preds[0], poss[0], key));
            Self::lemma_delete_member(s, o, key, x, poss, preds, 0, y);
            assert(o.ladder_for(y));
            let b = choose|b: int| 0 <= b < oc0.len() && oc0[b] == y;
            assert(oc0[b] < o.nodes@.len());
            assert forall|l: int|
                0 <= l < cap && l < s.nodes@[y as int].forward@.len() implies #[trigger] s.chains@[l].contains(
                y,
            ) by {
                assert(o.is_pred_at(l, preds[l], poss[l], key));
                Self::lemma_delete_member(s, o, key, x, poss, preds, l, y);
            }
        }
        assert(o.is_pred_at(0, preds[0], poss[0], key));
        assert forall|i: int| 0 <= i < c0.len() implies {
            &&& s.contents@.contains_key(s.key_of(#[trigger] c0[i]))
            &&& s.nodes@[c0[i] as int].value == Some(s.contents@[s.key_of(c0[i])])
        } by {
            let y = c0[i];
            assert(c0.contains(y));
            Self::lemma_delete_member(s, o, key, x, poss, preds, 0, y);
            let k = choose|k: int| 0 <= k < oc0.len() && oc0[k] == y;
            assert(oc0[k] < o.nodes@.len());
            assert(o.contents@.contains_key(o.key_of(oc0[k])));
            if o.key_of(y) == key {
                o.lemma_level0_unique(y, x);
            }
        }
        assert forall|k: i64| #[trigger] s.contents@.contains_key(k) implies exists|i: int|
            0 <= i < c0.len() && s.key_of(#[trigger] c0[i]) == k by {
            assert(o.contents@.contains_key(k));
            let i = choose|i: int| 0 <= i < oc0.len() && o.key_of(#[trigger] oc0[i]) == k;
            let y = oc0[i];
            assert(oc0.contains(y));
            assert(y != x);
            Self::lemma_delete_member(s, o, key, x, poss, preds, 0, y);
            assert(c0.contains(y));
            let m = choose|m: int| 0 <= m < c0.len() && c0[m] == y;
            assert(s.key_of(c0[m]) == k);
        }
        assert forall|i: int| 0 <= i < s.free@.len() implies (#[trigger] s.free@[i] as int)
            < s.nodes@.len() && !s.chains@[0].contains(s.free@[i]) by {
            Self::lemma_delete_member(s, o, key, x, poss, preds, 0, s.free@[i]);
            if i < o.free@.len() {
                assert(s.free@[i] == o.free@[i]);
            }
        }
        assert forall|i: int, j: int|
            0 <= i < j < s.free@.len() implies #[trigger] s.free@[i] != #[trigger] s.free@[j] by {
            if j < o.free@.len() {
                assert(o.free@[i] != o.free@[j]);
            } else {
                assert(!oc0.contains(o.free@[i]));
            }
        }
        assert forall|l: int| s.height <= l < cap implies #[trigger] s.chains@[l].len() == 0 by {
            assert(o.chains@[l].len() == 0);
        }
        assert forall|l: int, k: i64| 0 <= l < cap implies (#[trigger] s.level_keys(l).contains(k)
            <==> k != key && o.level_keys(l).contains(k)) by {
            let oc = o.chains@[l];
            assert(o.level_ok(l));
            assert(o.is_pred_at(l, preds[l], poss[l], key));
            Self::lemma_delete_member(s, o, key, x, poss, preds, l, x);
            let ok = o.level_keys(l);
            assert forall|a: int, b: int| 0 <= a < b < ok.len() implies ok[a] != ok[b] by {
                assert(key_in(o.nodes@, oc[a]) < key_in(o.nodes@, oc[b]));
            }
            if oc.contains(x) {
                let pp = poss[l] + 1;
                assert forall|m: int| 0 <= m < s.level_keys(l).len() implies #[trigger] s.level_keys(l)[m]
                    == ok.remove(pp)[m] by {
                    let m1 = if m < pp {
                        m
                    } else {
                        m + 1
                    };
                    assert(s.chains@[l][m] == oc[m1]);
                    assert(oc[m1] < o.nodes@.len());
                }
                assert(s.level_keys(l) =~= ok.remove(pp));
                assert(ok[pp] == key);
                lemma_seq_remove_contains(ok, pp, k);
            } else {
                assert forall|m: int| 0 <= m < s.level_keys(l).len() implies #[trigger] s.level_keys(l)[m]
                    == ok[m] by {
                    assert(oc[m] < o.nodes@.len());
                }
                assert(s.level_keys(l) =~= ok);
                if ok.contains(key) {
                    let m = choose|m: int| 0 <= m < ok.len() && ok[m] == key;
                    let y = oc[m];
                    assert(oc.contains(y));
                    assert(oc0.contains(y));
                    o.lemma_level0_unique(y, x);
                }
            }
        }
    }

    /// Takes node `x`, holding `key`, off every level it is on, from the top
    /// level in use down, unlinking it from its predecessors `preds`.
    fn unlink_all(&mut self, key: i64, x: usize, preds: &Vec<Option<usize>>, Ghost(poss): Ghost<Seq<int>>)
        requires
            old(self).wf(),
            old(self).chains@[0].contains(x),
            old(self).key_of(x) == key,
            preds@.len() == old(self).chains@.len(),
            poss.len() == old(self).chains@.len(),
            forall|l: int|
                0 <= l < old(self).chains@.len() ==> #[trigger] old(self).is_pred_at(
                    l,
                    preds@[l],
                    poss[l],
                    key,
                ),
        ensures
            final(self).levels == old(self).levels,
            final(self).height == old(self).height,
            final(self).contents == old(self).contents,
            final(self).free == old(self).free,
            final(self).head.forward@.len() == old(self).head.forward@.len(),
            final(self).chains@.len() == old(self).chains@.len(),
            final(self).nodes@.len() == old(self).nodes@.len(),
            forall|j: int|
                0 <= j < old(self).nodes@.len() ==> (#[trigger] final(self).nodes@[j]).key == old(self).nodes@[j].key
                    && final(self).nodes@[j].value == old(self).nodes@[j].value
                    && final(self).nodes@[j].forward@.len() == old(self).nodes@[j].forward@.len(),
            forall|l2: int| 0 <= l2 < old(self).chains@.len() ==> #[trigger] final(self).level_ok(l2),
            forall|l2: int|
                0 <= l2 < old(self).chains@.len() ==> #[trigger] final(self).chains@[l2] == if old(self).chains@[l2].contains(x) {
                    old(self).chains@[l2].remove(poss[l2] + 1)
                } else {
                    old(self).chains@[l2]
                },
    {
        let ghost cap = self.chains@.len();
        let mut h: usize = self.height;
        while h > 0
            invariant
                old(self).wf(),
                cap == old(self).chains@.len(),
                preds@.len() == cap,
                h <= old(self).height,
                old(self).chains@[0].contains(x),
                old(self).key_of(x) == key,
                self.levels == old(self).levels,
                self.height == old(self).height,
                self.contents == old(self).contents,
                self.free == old(self).free,
                self.head.forward@.len() == cap,
                self.chains@.len() == cap,
                self.nodes@.len() == old(self).nodes@.len(),
                forall|j: int|
                    0 <= j < old(self).nodes@.len() ==> (#[trigger] self.nodes@[j]).key == old(self).nodes@[j].key && self.nodes@[j].value == old(self).nodes@[j].value
                        && self.nodes@[j].forward@.len() == old(self).nodes@[j].forward@.len(),
                forall|l2: int| 0 <= l2 < cap ==> #[trigger] self.level_ok(l2),
                forall|l2: int|
                    h <= l2 < cap ==> #[trigger] self.chains@[l2] == if old(self).chains@[l2].contains(
                        x,
                    ) {
                        old(self).chains@[l2].remove(poss[l2] + 1)
                    } else {
                        old(self).chains@[l2]
                    },
                forall|l2: int| 0 <= l2 < h ==> #[trigger] self.chains@[l2] == old(self).chains@[l2],
                preds@.len() == cap,
                poss.len() == cap,
                forall|l2: int|
                    0 <= l2 < cap ==> #[trigger] old(self).is_pred_at(l2, preds@[l2], poss[l2], key),
            decreases h,
        {
            let lvl = h - 1;
            let p = preds[lvl];
            let ghost i = poss[lvl as int];
            proof {
                assert(old(self).is_pred_at(lvl as int, preds@[lvl as int], i, key));
                assert(old(self).level_ok(lvl as int));
                assert(self.chains@[lvl as int] == old(self).chains@[lvl as int]);
                assert(self.level_ok(lvl as int));
                assert(self.link(self.cursor(lvl as int, i), lvl as int) == self.cursor(
                    lvl as int,
                    i + 1,
                ));
                if 0 <= i {
                    assert(self.chains@[lvl as int][i] < old(self).nodes@.len());
                }
            }
            let nx = self.next_link(p, lvl);
            let mut hit = false;
            if let Some(z) = nx {
                hit = z == x;
            }
            proof {
                let oc = old(self).chains@[lvl as int];
                if oc.contains(x) {
                    let j = choose|j: int| 0 <= j < oc.len() && oc[j] == x;
                    old(self).lemma_pred_next(lvl as int, preds@[lvl as int], i, key, j);
                }
                if hit {
                    assert(oc[i + 1] == x);
                    assert(oc.contains(x));
                }
            }
            if hit {
                self.unsplice_level(lvl, p, Ghost(i), x);
            }
            h = lvl;
        }
        proof {
            assert forall|l2: int| 0 <= l2 < cap implies #[trigger] self.chains@[l2] == if old(self).chains@[l2].contains(x) {
                old(self).chains@[l2].remove(poss[l2] + 1)
            } else {
                old(self).chains@[l2]
            } by {
                if l2 >= old(self).height {
                    assert(old(self).chains@[l2].len() == 0);
                }
            }
        }
    }

    /// Removes `key` and returns the value it held, if any.
    pub fn delete(&mut self, key: i64) -> (r: Result<Option<V>, SkipListError>)
        requires
            old(self).wf(),
        ensures
            final(self).wf(),
            final(self).max_level() == old(self).max_level(),
            r == Ok::<Option<V>, SkipListError>(old(self)@.get(key)),
            final(self)@ == old(self)@.remove(key),
            old(self)@.contains_key(key) ==> final(self).slots_left() == old(self).slots_left() + 1,
            !old(self)@.contains_key(key) ==> final(self).slots_left() == old(self).slots_left(),
            forall|l: int, k: i64|
                0 <= l < old(self).max_level() ==> (#[trigger] final(self).level_keys(l).contains(k)
                    <==> k != key && old(self).level_keys(l).contains(k)),
    {
        let (preds, Ghost(poss)) = self.find_preds(key);
        let ghost i0 = poss[0];
        proof {
            assert(self.is_pred_at(0, preds@[0], i0, key));
            assert(self.level_ok(0));
            assert(self.link(self.cursor(0, i0), 0) == self.cursor(0, i0 + 1));
        }
        let succ = self.next_link(preds[0], 0);
        let mut found = false;
        if let Some(y) = succ {
            found = self.nodes[y].key == key;
        }
        if !found {
            proof {
                self.lemma_absent(preds@[0], i0, key);
                self.lemma_absent_levels(key);
                assert(self@.remove(key) =~= self@);
            }
            return Ok(None);
        }
        let x = succ.unwrap();
        let ghost cap = self.chains@.len();
        proof {
            assert(self.chains@[0][i0 + 1] == x);
            assert(self.chains@[0].contains(x));
        }
        self.unlink_all(key, x, &preds, Ghost(poss));
        let ghost hf = self.head.forward@;
        let ghost nd = self.nodes@;
        let ghost ch = self.chains@;
        proof {
            assert forall|l2: int| 0 <= l2 < cap implies chain_ok(hf, nd, ch[l2], l2) by {
                assert(self.level_ok(l2));
            }
        }
        let v = self.nodes[x].value.take();
        self.free.push(x);
        proof {
            assert(old(self).contents_ok());
            assert(old(self).chains@[0][i0 + 1] == x);
            self.contents = Ghost(self.contents@.remove(key));
            assert forall|l2: int| 0 <= l2 < cap implies #[trigger] self.level_ok(l2) by {
                let c = ch[l2];
                assert(chain_ok(hf, nd, c, l2));
                assert forall|i: int| -1 <= i < c.len() implies #[trigger] link_in(
                    self.head.forward@,
                    self.nodes@,
                    cursor_in(c, i),
                    l2,
                ) == link_in(hf, nd, cursor_in(c, i), l2) by {}
                lemma_chain_frame(hf, nd, self.head.forward@, self.nodes@, c, l2);
            }
            Self::lemma_delete_done(self, old(self), key, x, poss, preds@);
        }
        self.shrink_height();
        Ok(v)
    }

    /// Inserts `key` with `value`. A new key gets a node whose height is
    /// drawn from the list's level generator; a present key only has its
    /// value replaced.
    pub fn insert(&mut self, key: i64, value: V) -> (r: Result<(), SkipListError>)
        requires
            old(self).wf(),
        ensures
            final(self).wf(),
            final(self).max_level() == old(self).max_level(),
            r is Err <==> !old(self)@.contains_key(key) && old(self).slots_left() == 0,
            r is Err ==> r == Err::<(), SkipListError>(SkipListError::AllocationFailure) && final(self)@
                == old(self)@,
            r is Ok ==> final(self)@ == old(self)@.insert(key, value),
            r is Ok && !old(self)@.contains_key(key) ==> final(self).slots_left() + 1 == old(self).slots_left(),
            r is Err || old(self)@.contains_key(key) ==> final(self).slots_left() == old(self).slots_left(),
            r is Err || old(self)@.contains_key(key) ==> forall|l: int|
                0 <= l < old(self).max_level() ==> #[trigger] final(self).level_keys(l) == old(self).level_keys(l),
            r is Ok ==> final(self).level_keys(0).contains(key),
            forall|l: int, k: i64|
                0 <= l < old(self).max_level() && k != key ==> (#[trigger] final(self).level_keys(
                    l,
                ).contains(k) <==> old(self).level_keys(l).contains(k)),
    {
        let level = self.levels.next_level();
        let r = self.insert_with_level(key, value, level);
        proof {
            if r is Ok && old(self)@.contains_key(key) {
                old(self).lemma_level0_is_domain();
                assert(old(self).level_keys(0) == self.level_keys(0));
            }
        }
        r
    }

    /// The keys of level `l`, walked from the head.
    fn level_snapshot(&self, l: usize) -> (r: Vec<i64>)
        requires
            self.wf(),
            l < self.max_level(),
        ensures
            r@ == self.level_keys(l as int),
    {
        let ghost c = self.chains@[l as int];
        assert(self.level_ok(l as int));
        let mut out: Vec<i64> = Vec::new();
        let mut cur = self.head.forward[l];
        let ghost mut j: int = 0;
        proof {
            assert(self.link(self.cursor(l as int, -1), l as int) == self.cursor(l as int, 0));
        }
        while cur.is_some()
            invariant
                self.wf(),
                l < self.max_level(),
                c == self.chains@[l as int],
                self.level_ok(l as int),
                0 <= j <= c.len(),
                cur == self.cursor(l as int, j),
                out@ =~= self.level_keys(l as int).subrange(0, j),
            decreases c.len() - j,
        {
            let y = cur.unwrap();
            out.push(self.nodes[y].key);
            proof {
                assert(self.link(self.cursor(l as int, j), l as int) == self.cursor(l as int, j + 1));
            }
            cur = self.nodes[y].forward[l];
            proof {
                j = j + 1;
                assert(out@ =~= self.level_keys(l as int).subrange(0, j));
            }
        }
        proof {
            assert(self.level_keys(l as int).subrange(0, j) =~= self.level_keys(l as int));
        }
        out
    }

    /// The keys of each level in use, level 0 first, each in the order met
    /// when walking that level from the head.
    pub fn snapshot_levels(&self) -> (r: Vec<Vec<i64>>)
        requires
            self.wf(),
        ensures
            r@.len() == self.height_spec(),
            forall|l: int| 0 <= l < r@.len() ==> (#[trigger] r@[l])@ == self.level_keys(l),
    {
        let mut r: Vec<Vec<i64>> = Vec::new();
        let mut l: usize = 0;
        while l < self.height
            invariant
                self.wf(),
                l <= self.height,
                r@.len() == l,
                forall|k: int| 0 <= k < l ==> (#[trigger] r@[k])@ == self.level_keys(k),
            decreases self.height - l,
        {
            let keys = self.level_snapshot(l);
            r.push(keys);
            l = l + 1;
        }
        r
    }

    /// Level 0 holds exactly the keys of the map.
    pub proof fn lemma_level0_is_domain(&self)
        requires
            self.wf(),
        ensures
            forall|k: i64| #[trigger] self@.contains_key(k) <==> self.level_keys(0).contains(k),
    {
        let c = self.chains@[0];
        assert forall|k: i64| #[trigger] self@.contains_key(k) <==> self.level_keys(0).contains(
            k,
        ) by {
            if self@.contains_key(k) {
                let i = choose|i: int| 0 <= i < c.len() && self.key_of(#[trigger] c[i]) == k;
                assert(self.level_keys(0)[i] == k);
            }
            if self.level_keys(0).contains(k) {
                let i = choose|i: int| 0 <= i < self.level_keys(0).len() && self.level_keys(0)[i] == k;
                assert(self.key_of(c[i]) == k);
            }
        }
    }

    /// Each level, walked from the head, lists its keys in strictly
    /// increasing order; in particular level 0 holds each key of the map on
    /// exactly one node.
    pub proof fn lemma_levels_sorted(&self)
        requires
            self.wf(),
        ensures
            self.max_level() >= 1,
            forall|l: int, i: int, j: int|
                0 <= l < self.max_level() && 0 <= i < j < self.level_keys(l).len()
                    ==> #[trigger] self.level_keys(l)[i] < #[trigger] self.level_keys(l)[j],
    {
        assert forall|l: int, i: int, j: int|
            0 <= l < self.max_level() && 0 <= i < j < self.level_keys(l).len()
                implies #[trigger] self.level_keys(l)[i] < #[trigger] self.level_keys(l)[j] by {
            assert(self.level_ok(l));
            let c = self.chains@[l];
            assert(key_in(self.nodes@, c[i]) < key_in(self.nodes@, c[j]));
        }
    }

    /// A key present on a level is present on every level below it; no
    /// level from the height up holds a key, and the top level in use is
    /// not empty.
    pub proof fn lemma_ladder(&self)
        requires
            self.wf(),
        ensures
            forall|l: int, l2: int, k: i64|
                0 <= l2 <= l < self.max_level() && #[trigger] self.level_keys(l).contains(k)
                    ==> #[trigger] self.level_keys(l2).contains(k),
            forall|l: int| self.height_spec() <= l < self.max_level() ==> #[trigger] self.level_keys(l).len() == 0,
            1 <= self.height_spec() <= self.max_level(),
            self.height_spec() == 1 || self.level_keys(self.height_spec() - 1).len() > 0,
    {
        assert forall|l: int, l2: int, k: i64|
            0 <= l2 <= l < self.max_level() && #[trigger] self.level_keys(l).contains(k)
                implies #[trigger] self.level_keys(l2).contains(k) by {
            let m = choose|m: int| 0 <= m < self.level_keys(l).len() && self.level_keys(l)[m] == k;
            let y = self.chains@[l][m];
            assert(self.level_ok(l));
            assert(self.chains@[l].contains(y));
            assert(self.chains@[0].contains(y));
            assert(self.ladder_for(y));
            assert(self.chains@[l2].contains(y));
            let m2 = choose|m2: int| 0 <= m2 < self.chains@[l2].len() && self.chains@[l2][m2] == y;
            assert(self.level_keys(l2)[m2] == k);
        }
    }

    /// The number of levels currently in use.
    pub fn height(&self) -> (r: usize)
        ensures
            r == self.height_spec(),
    {
        self.height
    }
}

} // verus!
