//! One level of a skip list, seen as the sequence of arena indices met
//! when it is walked from the head, and the lemmas that splicing a node in
//! or out of it keeps it sorted and correctly linked.

use vstd::prelude::*;

use crate::node::Node;

verus! {

pub(crate) proof fn lemma_seq_insert_contains<A>(s: Seq<A>, i: int, a: A, b: A)
    requires
        0 <= i <= s.len(),
    ensures
        s.insert(i, a).contains(b) <==> (b == a || s.contains(b)),
{
    let t = s.insert(i, a);
    if t.contains(b) {
        let j = choose|j: int| 0 <= j < t.len() && t[j] == b;
        if j < i {
            assert(s[j] == b);
        } else if j > i {
            assert(s[j - 1] == b);
        }
    }
    if b == a {
        assert(t[i] == b);
    }
    if s.contains(b) {
        let j = choose|j: int| 0 <= j < s.len() && s[j] == b;
        if j < i {
            assert(t[j] == b);
        } else {
            assert(t[j + 1] == b);
        }
    }
}

pub(crate) proof fn lemma_seq_remove_contains<A>(s: Seq<A>, i: int, b: A)
    requires
        0 <= i < s.len(),
        forall|j: int, k: int| 0 <= j < k < s.len() ==> s[j] != s[k],
    ensures
        s.remove(i).contains(b) <==> (b != s[i] && s.contains(b)),
{
    let t = s.remove(i);
    if t.contains(b) {
        let j = choose|j: int| 0 <= j < t.len() && t[j] == b;
        if j < i {
            assert(s[j] == b);
        } else {
            assert(s[j + 1] == b);
        }
    }
    if b != s[i] && s.contains(b) {
        let j = choose|j: int| 0 <= j < s.len() && s[j] == b;
        if j < i {
            assert(t[j] == b);
        } else {
            assert(t[j - 1] == b);
        }
    }
}

pub(crate) open spec fn key_in<V>(nd: Seq<Node<V>>, x: usize) -> i64 {
    nd[x as int].key
}

pub(crate) open spec fn cursor_in(c: Seq<usize>, i: int) -> Option<usize> {
    if 0 <= i < c.len() {
        Some(c[i])
    } else {
        None
    }
}

pub(crate) open spec fn link_in<V>(hf: Seq<Option<usize>>, nd: Seq<Node<V>>, p: Option<usize>, l: int) -> Option<usize> {
    match p {
        None => hf[l],
        Some(x) => nd[x as int].forward@[l],
    }
}

/// Level `l`, holding the nodes `c` in this order, is sorted by key and
/// linked from the head (`hf`) through the arena `nd`.
pub(crate) open spec fn chain_ok<V>(hf: Seq<Option<usize>>, nd: Seq<Node<V>>, c: Seq<usize>, l: int) -> bool {
    &&& forall|i: int|
        0 <= i < c.len() ==> (#[trigger] c[i] as int) < nd.len() && l < nd[c[i] as int].forward@.len()
    &&& forall|i: int, j: int|
        0 <= i < j < c.len() ==> key_in(nd, #[trigger] c[i]) < key_in(nd, #[trigger] c[j])
    &&& forall|i: int|
        -1 <= i < c.len() ==> #[trigger] link_in(hf, nd, cursor_in(c, i), l) == cursor_in(c, i + 1)
}

/// A level stays well formed when the keys and link counts of the arena are
/// kept and the links that leave its head and nodes are kept.
pub(crate) proof fn lemma_chain_frame<V>(
    hf: Seq<Option<usize>>,
    nd: Seq<Node<V>>,
    hf2: Seq<Option<usize>>,
    nd2: Seq<Node<V>>,
    c: Seq<usize>,
    l: int,
)
    requires
        chain_ok(hf, nd, c, l),
        nd.len() <= nd2.len(),
        forall|i: int|
            0 <= i < c.len() ==> nd2[#[trigger] c[i] as int].key == nd[c[i] as int].key
                && nd2[c[i] as int].forward@.len() == nd[c[i] as int].forward@.len(),
        forall|i: int|
            -1 <= i < c.len() ==> #[trigger] link_in(hf2, nd2, cursor_in(c, i), l) == link_in(
                hf,
                nd,
                cursor_in(c, i),
                l,
            ),
    ensures
        chain_ok(hf2, nd2, c, l),
{
    assert forall|i: int, j: int| 0 <= i < j < c.len() implies key_in(nd2, #[trigger] c[i])
        < key_in(nd2, #[trigger] c[j]) by {
        assert(key_in(nd, c[i]) < key_in(nd, c[j]));
    }
    assert forall|i: int| -1 <= i < c.len() implies #[trigger] link_in(
        hf2,
        nd2,
        cursor_in(c, i),
        l,
    ) == cursor_in(c, i + 1) by {
        assert(link_in(hf, nd, cursor_in(c, i), l) == cursor_in(c, i + 1));
    }
}

/// Putting node `x` after position `i` of a level, with the link at `i`
/// pointing to `x` and `x` pointing where `i` pointed, keeps it well formed.
pub(crate) proof fn lemma_splice<V>(
    hf: Seq<Option<usize>>,
    nd: Seq<Node<V>>,
    hf2: Seq<Option<usize>>,
    nd2: Seq<Node<V>>,
    c: Seq<usize>,
    l: int,
    i: int,
    x: usize,
)
    requires
        chain_ok(hf, nd, c, l),
        -1 <= i < c.len(),
        (x as int) < nd2.len(),
        l < nd2[x as int].forward@.len(),
        !c.contains(x),
        nd.len() <= nd2.len(),
        forall|k: int|
            0 <= k < c.len() ==> nd2[#[trigger] c[k] as int].key == nd[c[k] as int].key
                && nd2[c[k] as int].forward@.len() == nd[c[k] as int].forward@.len(),
        0 <= i ==> key_in(nd, c[i]) < key_in(nd2, x),
        i + 1 < c.len() ==> key_in(nd2, x) < key_in(nd, c[i + 1]),
        link_in(hf2, nd2, cursor_in(c, i), l) == Some(x),
        link_in(hf2, nd2, Some(x), l) == cursor_in(c, i + 1),
        forall|j: int|
            -1 <= j < c.len() && j != i ==> #[trigger] link_in(hf2, nd2, cursor_in(c, j), l)
                == link_in(hf, nd, cursor_in(c, j), l),
    ensures
        chain_ok(hf2, nd2, c.insert(i + 1, x), l),
{
    let c2 = c.insert(i + 1, x);
    assert forall|k: int| 0 <= k < c2.len() implies (#[trigger] c2[k] as int) < nd2.len() && l
        < nd2[c2[k] as int].forward@.len() by {
        if k < i + 1 {
            assert(c2[k] == c[k]);
        } else if k > i + 1 {
            assert(c2[k] == c[k - 1]);
        }
    }
    assert forall|a: int, b: int| 0 <= a < b < c2.len() implies key_in(nd2, #[trigger] c2[a])
        < key_in(nd2, #[trigger] c2[b]) by {
        if a < i + 1 {
            assert(c2[a] == c[a]);
            assert(key_in(nd, c[a]) <= key_in(nd, c[i])) by {
                if a < i {
                    assert(key_in(nd, c[a]) < key_in(nd, c[i]));
                }
            }
            if b < i + 1 {
                assert(c2[b] == c[b]);
                assert(key_in(nd, c[a]) < key_in(nd, c[b]));
            } else if b > i + 1 {
                assert(c2[b] == c[b - 1]);
                assert(key_in(nd, c[a]) < key_in(nd, c[b - 1]));
            }
        } else if a == i + 1 {
            assert(c2[b] == c[b - 1]);
            if b - 1 > i + 1 {
                assert(key_in(nd, c[i + 1]) < key_in(nd, c[b - 1]));
            }
        } else {
            assert(c2[a] == c[a - 1]);
            assert(c2[b] == c[b - 1]);
            assert(key_in(nd, c[a - 1]) < key_in(nd, c[b - 1]));
        }
    }
    assert forall|j: int| -1 <= j < c2.len() implies #[trigger] link_in(
        hf2,
        nd2,
        cursor_in(c2, j),
        l,
    ) == cursor_in(c2, j + 1) by {
        if j < i {
            assert(cursor_in(c2, j) == cursor_in(c, j));
            assert(cursor_in(c2, j + 1) == cursor_in(c, j + 1));
            assert(link_in(hf, nd, cursor_in(c, j), l) == cursor_in(c, j + 1));
        } else if j == i {
            assert(cursor_in(c2, j) == cursor_in(c, j));
        } else if j == i + 1 {
            assert(cursor_in(c2, j + 1) == cursor_in(c, i + 1));
        } else {
            assert(cursor_in(c2, j) == cursor_in(c, j - 1));
            assert(cursor_in(c2, j + 1) == cursor_in(c, j));
            assert(link_in(hf, nd, cursor_in(c, j - 1), l) == cursor_in(c, j));
        }
    }
}

/// Taking the node after position `i` out of a level, with the link at `i`
/// pointing past it, keeps the level well formed.
pub(crate) proof fn lemma_unsplice<V>(
    hf: Seq<Option<usize>>,
    nd: Seq<Node<V>>,
    hf2: Seq<Option<usize>>,
    nd2: Seq<Node<V>>,
    c: Seq<usize>,
    l: int,
    i: int,
)
    requires
        chain_ok(hf, nd, c, l),
        -1 <= i,
        i + 1 < c.len(),
        nd.len() <= nd2.len(),
        forall|k: int|
            0 <= k < c.len() ==> nd2[#[trigger] c[k] as int].key == nd[c[k] as int].key
                && nd2[c[k] as int].forward@.len() == nd[c[k] as int].forward@.len(),
        link_in(hf2, nd2, cursor_in(c, i), l) == cursor_in(c, i + 2),
        forall|j: int|
            -1 <= j < c.len() && j != i ==> #[trigger] link_in(hf2, nd2, cursor_in(c, j), l)
                == link_in(hf, nd, cursor_in(c, j), l),
    ensures
        chain_ok(hf2, nd2, c.remove(i + 1), l),
{
    let c2 = c.remove(i + 1);
    assert forall|k: int| 0 <= k < c2.len() implies (#[trigger] c2[k] as int) < nd2.len() && l
        < nd2[c2[k] as int].forward@.len() by {
        if k <= i {
            assert(c2[k] == c[k]);
        } else {
            assert(c2[k] == c[k + 1]);
        }
    }
    assert forall|a: int, b: int| 0 <= a < b < c2.len() implies key_in(nd2, #[trigger] c2[a])
        < key_in(nd2, #[trigger] c2[b]) by {
        let a1 = if a <= i {
            a
        } else {
            a + 1
        };
        let b1 = if b <= i {
            b
        } else {
            b + 1
        };
        assert(c2[a] == c[a1]);
        assert(c2[b] == c[b1]);
        assert(key_in(nd, c[a1]) < key_in(nd, c[b1]));
    }
    assert forall|j: int| -1 <= j < c2.len() implies #[trigger] link_in(
        hf2,
        nd2,
        cursor_in(c2, j),
        l,
    ) == cursor_in(c2, j + 1) by {
        if j < i {
            assert(cursor_in(c2, j) == cursor_in(c, j));
            assert(cursor_in(c2, j + 1) == cursor_in(c, j + 1));
            assert(link_in(hf, nd, cursor_in(c, j), l) == cursor_in(c, j + 1));
        } else if j == i {
            assert(cursor_in(c2, j) == cursor_in(c, j));
            assert(cursor_in(c2, j + 1) == cursor_in(c, j + 2));
        } else {
            assert(cursor_in(c2, j) == cursor_in(c, j + 1));
            assert(cursor_in(c2, j + 1) == cursor_in(c, j + 2));
            assert(link_in(hf, nd, cursor_in(c, j + 1), l) == cursor_in(c, j + 2));
        }
    }
}

} // verus!
