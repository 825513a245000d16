//! A radix trie keyed by OIDs, the store behind subagent MIB state.
//!
//! Each node keeps its children in ascending sub-identifier order, so walks
//! visit entries in the lexicographic order that `GETNEXT` requires. The
//! whole structure is viewed as a `Map<Seq<u32>, V>` and every operation's
//! contract is stated against that map.

use vstd::prelude::*;

use crate::oid::Oid;

verus! {

struct TrieNode<V> {
    value: Option<V>,
    children: Vec<(u32, TrieNode<V>)>,
}

/// Children are strictly ascending by sub-identifier.
spec fn keys_sorted<V>(cs: Seq<(u32, TrieNode<V>)>) -> bool {
    forall|i: int, j: int| 0 <= i < j < cs.len() ==> cs[i].0 < cs[j].0
}

/// A node that may stay in the trie: it holds a value or has a child.
spec fn node_nonempty<V>(n: TrieNode<V>) -> bool {
    n.value is Some || n.children@.len() > 0
}

/// Well-formedness: children sorted, recursively well-formed, and never dead
/// weight (the pruning invariant).
spec fn node_wf<V>(n: TrieNode<V>) -> bool
    decreases n,
{
    &&& keys_sorted(n.children@)
    &&& forall|i: int| 0 <= i < n.children@.len() ==> node_wf(#[trigger] n.children@[i].1)
    &&& forall|i: int| 0 <= i < n.children@.len() ==> node_nonempty(#[trigger] n.children@[i].1)
}

/// The keys of `m`, each with `x` prepended.
spec fn prefix_map<V>(x: u32, m: Map<Seq<u32>, V>) -> Map<Seq<u32>, V> {
    Map::new(
        |k: Seq<u32>| k.len() > 0 && k[0] == x && m.contains_key(k.drop_first()),
        |k: Seq<u32>| m[k.drop_first()],
    )
}

/// The map stored under a node: its own value under the empty key, and each
/// child's map under the child's sub-identifier.
spec fn node_map<V>(n: TrieNode<V>) -> Map<Seq<u32>, V>
    decreases n,
{
    match n.value {
        Some(v) => children_map(n.children@).insert(Seq::empty(), v),
        None => children_map(n.children@),
    }
}

spec fn children_map<V>(cs: Seq<(u32, TrieNode<V>)>) -> Map<Seq<u32>, V>
    decreases cs,
{
    if cs.len() == 0 {
        Map::empty()
    } else {
        prefix_map(cs[0].0, node_map(cs[0].1)).union_prefer_right(
            children_map(cs.drop_first()),
        )
    }
}

/// Some child carries the sub-identifier `x`.
spec fn has_child_key<V>(cs: Seq<(u32, TrieNode<V>)>, x: u32) -> bool {
    exists|i: int| 0 <= i < cs.len() && (#[trigger] cs[i].0) == x
}

proof fn lemma_cm_no_key<V>(cs: Seq<(u32, TrieNode<V>)>, x: u32)
    requires
        forall|j: int| 0 <= j < cs.len() ==> (#[trigger] cs[j].0) != x,
    ensures
        forall|k: Seq<u32>| k.len() > 0 && k[0] == x ==> !children_map(cs).contains_key(k),
    decreases cs.len(),
{
    if cs.len() > 0 {
        assert(forall|j: int| 0 <= j < cs.drop_first().len()
            ==> (#[trigger] cs.drop_first()[j].0) != x);
        lemma_cm_no_key(cs.drop_first(), x);
    }
}

proof fn lemma_cm_keys<V>(cs: Seq<(u32, TrieNode<V>)>)
    ensures
        forall|k: Seq<u32>| #[trigger] children_map(cs).contains_key(k)
            ==> k.len() > 0 && has_child_key(cs, k[0]),
    decreases cs.len(),
{
    if cs.len() > 0 {
        lemma_cm_keys(cs.drop_first());
        assert forall|k: Seq<u32>| #[trigger] children_map(cs).contains_key(k)
            implies k.len() > 0 && has_child_key(cs, k[0]) by {
            if children_map(cs.drop_first()).contains_key(k) {
                let i = choose|i: int| 0 <= i < cs.drop_first().len()
                    && (#[trigger] cs.drop_first()[i].0) == k[0];
                assert(cs[i + 1].0 == k[0]);
            } else {
                assert(k[0] == cs[0].0);
            }
        }
    }
}

proof fn lemma_cm_at<V>(cs: Seq<(u32, TrieNode<V>)>, i: int)
    requires
        keys_sorted(cs),
        0 <= i < cs.len(),
    ensures
        forall|k: Seq<u32>| k.len() > 0 && k[0] == cs[i].0 ==> (
            #[trigger] children_map(cs).contains_key(k)
                <==> node_map(cs[i].1).contains_key(k.drop_first())),
        forall|k: Seq<u32>| k.len() > 0 && k[0] == cs[i].0
            && #[trigger] children_map(cs).contains_key(k)
            ==> children_map(cs)[k] == node_map(cs[i].1)[k.drop_first()],
    decreases cs.len(),
{
    if i == 0 {
        let x = cs[0].0;
        assert(forall|j: int| 0 <= j < cs.drop_first().len()
            ==> (#[trigger] cs.drop_first()[j].0) != cs[0].0);
        lemma_cm_no_key(cs.drop_first(), cs[0].0);
        assert(children_map(cs) == prefix_map(x, node_map(cs[0].1)).union_prefer_right(
            children_map(cs.drop_first())));
        assert forall|k: Seq<u32>| k.len() > 0 && k[0] == x implies
            ((#[trigger] children_map(cs).contains_key(k)
                <==> node_map(cs[0].1).contains_key(k.drop_first()))
            && (children_map(cs).contains_key(k)
                ==> children_map(cs)[k] == node_map(cs[0].1)[k.drop_first()])) by {
            assert(!children_map(cs.drop_first()).contains_key(k));
            if node_map(cs[0].1).contains_key(k.drop_first()) {
                assert(prefix_map(x, node_map(cs[0].1)).contains_key(k));
                assert(children_map(cs).contains_key(k));
                assert(children_map(cs)[k] == prefix_map(x, node_map(cs[0].1))[k]);
                assert(prefix_map(x, node_map(cs[0].1))[k]
                    == node_map(cs[0].1)[k.drop_first()]);
            } else {
                assert(!prefix_map(x, node_map(cs[0].1)).contains_key(k));
                assert(!children_map(cs).contains_key(k));
            }
        }
    } else {
        assert(keys_sorted(cs.drop_first()));
        lemma_cm_at(cs.drop_first(), i - 1);
        assert(cs.drop_first()[i - 1] == cs[i]);
        let x = cs[i].0;
        assert(cs[0].0 < x);
        assert forall|k: Seq<u32>| k.len() > 0 && k[0] == x implies
            ((#[trigger] children_map(cs).contains_key(k)
                <==> node_map(cs[i].1).contains_key(k.drop_first()))
            && (children_map(cs).contains_key(k)
                ==> children_map(cs)[k] == node_map(cs[i].1)[k.drop_first()])) by {
            assert(!prefix_map(cs[0].0, node_map(cs[0].1)).contains_key(k));
            assert(children_map(cs.drop_first()).contains_key(k)
                <==> node_map(cs[i].1).contains_key(k.drop_first()));
        }
    }
}

proof fn lemma_cm_update<V>(cs: Seq<(u32, TrieNode<V>)>, i: int, c2: TrieNode<V>)
    requires
        keys_sorted(cs),
        0 <= i < cs.len(),
    ensures
        ({
            let cs2 = cs.update(i, (cs[i].0, c2));
            let x = cs[i].0;
            &&& forall|k: Seq<u32>| !(k.len() > 0 && k[0] == x) ==> (
                (#[trigger] children_map(cs2).contains_key(k)
                    <==> children_map(cs).contains_key(k))
                && (children_map(cs).contains_key(k)
                    ==> children_map(cs2)[k] == children_map(cs)[k]))
            &&& forall|k: Seq<u32>| k.len() > 0 && k[0] == x ==> (
                (#[trigger] children_map(cs2).contains_key(k)
                    <==> node_map(c2).contains_key(k.drop_first()))
                && (children_map(cs2).contains_key(k)
                    ==> children_map(cs2)[k] == node_map(c2)[k.drop_first()]))
        }),
    decreases cs.len(),
{
    let cs2 = cs.update(i, (cs[i].0, c2));
    let x = cs[i].0;
    if i == 0 {
        assert(cs2.drop_first() =~= cs.drop_first());
        assert(cs2[0] == (x, c2));
        assert(forall|j: int| 0 <= j < cs.drop_first().len()
            ==> (#[trigger] cs.drop_first()[j].0) != x);
        lemma_cm_no_key(cs.drop_first(), x);
        assert forall|k: Seq<u32>| !(k.len() > 0 && k[0] == x) implies
            ((#[trigger] children_map(cs2).contains_key(k)
                <==> children_map(cs).contains_key(k))
            && (children_map(cs).contains_key(k)
                ==> children_map(cs2)[k] == children_map(cs)[k])) by {
            assert(!prefix_map(x, node_map(cs[0].1)).contains_key(k));
            assert(!prefix_map(x, node_map(c2)).contains_key(k));
        }
        assert forall|k: Seq<u32>| k.len() > 0 && k[0] == x implies
            ((#[trigger] children_map(cs2).contains_key(k)
                <==> node_map(c2).contains_key(k.drop_first()))
            && (children_map(cs2).contains_key(k)
                ==> children_map(cs2)[k] == node_map(c2)[k.drop_first()])) by {
            assert(!children_map(cs.drop_first()).contains_key(k));
        }
    } else {
        assert(keys_sorted(cs.drop_first()));
        lemma_cm_update(cs.drop_first(), i - 1, c2);
        assert(cs2.drop_first() =~= cs.drop_first().update(i - 1, (cs[i].0, c2)));
        assert(cs2[0] == cs[0]);
        assert(cs.drop_first()[i - 1] == cs[i]);
        let rest2 = cs.drop_first().update(i - 1, (cs[i].0, c2));
        assert(cs[0].0 < x);
        assert forall|k: Seq<u32>| !(k.len() > 0 && k[0] == x) implies
            ((#[trigger] children_map(cs2).contains_key(k)
                <==> children_map(cs).contains_key(k))
            && (children_map(cs).contains_key(k)
                ==> children_map(cs2)[k] == children_map(cs)[k])) by {
            assert(children_map(rest2).contains_key(k)
                <==> children_map(cs.drop_first()).contains_key(k));
        }
        assert forall|k: Seq<u32>| k.len() > 0 && k[0] == x implies
            ((#[trigger] children_map(cs2).contains_key(k)
                <==> node_map(c2).contains_key(k.drop_first()))
            && (children_map(cs2).contains_key(k)
                ==> children_map(cs2)[k] == node_map(c2)[k.drop_first()])) by {
            assert(!prefix_map(cs[0].0, node_map(cs[0].1)).contains_key(k));
            assert(children_map(rest2).contains_key(k)
                <==> node_map(c2).contains_key(k.drop_first()));
        }
    }
}

proof fn lemma_cm_insert<V>(cs: Seq<(u32, TrieNode<V>)>, i: int, x: u32, c: TrieNode<V>)
    requires
        keys_sorted(cs),
        0 <= i <= cs.len(),
        forall|j: int| 0 <= j < cs.len() ==> (#[trigger] cs[j].0) != x,
    ensures
        ({
            let cs2 = cs.insert(i, (x, c));
            &&& forall|k: Seq<u32>| !(k.len() > 0 && k[0] == x) ==> (
                (#[trigger] children_map(cs2).contains_key(k)
                    <==> children_map(cs).contains_key(k))
                && (children_map(cs).contains_key(k)
                    ==> children_map(cs2)[k] == children_map(cs)[k]))
            &&& forall|k: Seq<u32>| k.len() > 0 && k[0] == x ==> (
                (#[trigger] children_map(cs2).contains_key(k)
                    <==> node_map(c).contains_key(k.drop_first()))
                && (children_map(cs2).contains_key(k)
                    ==> children_map(cs2)[k] == node_map(c)[k.drop_first()]))
        }),
    decreases cs.len(),
{
    let cs2 = cs.insert(i, (x, c));
    if i == 0 {
        assert(cs2.drop_first() =~= cs);
        assert(cs2[0] == (x, c));
        lemma_cm_no_key(cs, x);
        assert forall|k: Seq<u32>| !(k.len() > 0 && k[0] == x) implies
            ((#[trigger] children_map(cs2).contains_key(k)
                <==> children_map(cs).contains_key(k))
            && (children_map(cs).contains_key(k)
                ==> children_map(cs2)[k] == children_map(cs)[k])) by {
            assert(!prefix_map(x, node_map(c)).contains_key(k));
        }
        assert forall|k: Seq<u32>| k.len() > 0 && k[0] == x implies
            ((#[trigger] children_map(cs2).contains_key(k)
                <==> node_map(c).contains_key(k.drop_first()))
            && (children_map(cs2).contains_key(k)
                ==> children_map(cs2)[k] == node_map(c)[k.drop_first()])) by {
            assert(!children_map(cs).contains_key(k));
        }
    } else {
        assert(keys_sorted(cs.drop_first()));
        assert(forall|j: int| 0 <= j < cs.drop_first().len()
            ==> (#[trigger] cs.drop_first()[j].0) != x);
        lemma_cm_insert(cs.drop_first(), i - 1, x, c);
        assert(cs2.drop_first() =~= cs.drop_first().insert(i - 1, (x, c)));
        assert(cs2[0] == cs[0]);
        let rest2 = cs.drop_first().insert(i - 1, (x, c));
        assert forall|k: Seq<u32>| !(k.len() > 0 && k[0] == x) implies
            ((#[trigger] children_map(cs2).contains_key(k)
                <==> children_map(cs).contains_key(k))
            && (children_map(cs).contains_key(k)
                ==> children_map(cs2)[k] == children_map(cs)[k])) by {
            assert(children_map(rest2).contains_key(k)
                <==> children_map(cs.drop_first()).contains_key(k));
        }
        assert forall|k: Seq<u32>| k.len() > 0 && k[0] == x implies
            ((#[trigger] children_map(cs2).contains_key(k)
                <==> node_map(c).contains_key(k.drop_first()))
            && (children_map(cs2).contains_key(k)
                ==> children_map(cs2)[k] == node_map(c)[k.drop_first()])) by {
            assert(cs[0].0 != x);
            assert(!prefix_map(cs[0].0, node_map(cs[0].1)).contains_key(k));
            assert(children_map(rest2).contains_key(k)
                <==> node_map(c).contains_key(k.drop_first()));
        }
    }
}

proof fn lemma_cm_remove<V>(cs: Seq<(u32, TrieNode<V>)>, i: int)
    requires
        keys_sorted(cs),
        0 <= i < cs.len(),
    ensures
        ({
            let cs2 = cs.remove(i);
            let x = cs[i].0;
            &&& forall|k: Seq<u32>| !(k.len() > 0 && k[0] == x) ==> (
                (#[trigger] children_map(cs2).contains_key(k)
                    <==> children_map(cs).contains_key(k))
                && (children_map(cs).contains_key(k)
                    ==> children_map(cs2)[k] == children_map(cs)[k]))
            &&& forall|k: Seq<u32>| k.len() > 0 && k[0] == x
                ==> !(#[trigger] children_map(cs2).contains_key(k))
        }),
    decreases cs.len(),
{
    let cs2 = cs.remove(i);
    let x = cs[i].0;
    if i == 0 {
        assert(cs2 =~= cs.drop_first());
        assert(forall|j: int| 0 <= j < cs.drop_first().len()
            ==> (#[trigger] cs.drop_first()[j].0) != x);
        lemma_cm_no_key(cs.drop_first(), x);
        assert forall|k: Seq<u32>| !(k.len() > 0 && k[0] == x) implies
            ((#[trigger] children_map(cs2).contains_key(k)
                <==> children_map(cs).contains_key(k))
            && (children_map(cs).contains_key(k)
                ==> children_map(cs2)[k] == children_map(cs)[k])) by {
            assert(!prefix_map(x, node_map(cs[0].1)).contains_key(k));
        }
    } else {
        assert(keys_sorted(cs.drop_first()));
        lemma_cm_remove(cs.drop_first(), i - 1);
        assert(cs2.drop_first() =~= cs.drop_first().remove(i - 1));
        assert(cs2[0] == cs[0]);
        assert(cs.drop_first()[i - 1] == cs[i]);
        let rest2 = cs.drop_first().remove(i - 1);
        assert(cs[0].0 < x);
        assert forall|k: Seq<u32>| !(k.len() > 0 && k[0] == x) implies
            ((#[trigger] children_map(cs2).contains_key(k)
                <==> children_map(cs).contains_key(k))
            && (children_map(cs).contains_key(k)
                ==> children_map(cs2)[k] == children_map(cs)[k])) by {
            assert(children_map(rest2).contains_key(k)
                <==> children_map(cs.drop_first()).contains_key(k));
        }
        assert forall|k: Seq<u32>| k.len() > 0 && k[0] == x implies
            !(#[trigger] children_map(cs2).contains_key(k)) by {
            assert(!prefix_map(cs[0].0, node_map(cs[0].1)).contains_key(k));
            assert(!children_map(rest2).contains_key(k));
        }
    }
}

proof fn lemma_cm_empty<V>()
    ensures
        children_map::<V>(Seq::empty()) == Map::<Seq<u32>, V>::empty(),
{
}

proof fn lemma_key_reconstruct(k: Seq<u32>, key: Seq<u32>)
    requires
        k.len() > 0,
        key.len() > 0,
        k[0] == key[0],
        k.drop_first() == key.drop_first(),
    ensures
        k == key,
{
    assert(k.drop_first().len() == k.len() - 1);
    assert(key.drop_first().len() == key.len() - 1);
    assert(k.len() == key.len());
    assert forall|j: int| 0 <= j < k.len() implies k[j] == key[j] by {
        if j > 0 {
            assert(k[j] == k.drop_first()[j - 1]);
            assert(key[j] == key.drop_first()[j - 1]);
        }
    }
    assert(k =~= key);
}

proof fn lemma_node_map_shape<V>(n: TrieNode<V>)
    ensures
        node_map(n).contains_key(Seq::empty()) <==> n.value is Some,
        n.value matches Some(v) ==> node_map(n)[Seq::<u32>::empty()] == v,
        forall|k: Seq<u32>| k.len() > 0 ==> (
            (#[trigger] node_map(n).contains_key(k)
                <==> children_map(n.children@).contains_key(k))
            && (children_map(n.children@).contains_key(k)
                ==> node_map(n)[k] == children_map(n.children@)[k])),
{
    lemma_cm_keys(n.children@);
    let cm = children_map(n.children@);
    let e = Seq::<u32>::empty();
    if cm.contains_key(e) {
        assert(e.len() > 0);
    }
    assert(!cm.contains_key(e));
    if n.value is Some {
        assert(node_map(n) == cm.insert(e, n.value->0));
        assert forall|k: Seq<u32>| k.len() > 0 implies (
            (#[trigger] node_map(n).contains_key(k) <==> cm.contains_key(k))
            && (cm.contains_key(k) ==> node_map(n)[k] == cm[k])) by {
            assert(k != e);
        }
    } else {
        assert(node_map(n) == cm);
    }
}

/// First index whose sub-identifier is at least `x`, in sorted children.
fn find_child_idx<V>(children: &Vec<(u32, TrieNode<V>)>, x: u32) -> (r: usize)
    requires
        keys_sorted(children@),
    ensures
        0 <= r <= children@.len(),
        forall|j: int| 0 <= j < r ==> (#[trigger] children@[j].0) < x,
        r < children@.len() ==> children@[r as int].0 >= x,
    decreases children@.len(),
{
    let mut i: usize = 0;
    while i < children.len()
        invariant
            0 <= i <= children@.len(),
            forall|j: int| 0 <= j < i ==> (#[trigger] children@[j].0) < x,
        decreases children@.len() - i,
    {
        if children[i].0 >= x {
            return i;
        }
        i += 1;
    }
    i
}

/// A fresh path of nodes holding exactly one entry.
fn make_chain<V>(parts: &[u32], depth: usize, value: V) -> (r: TrieNode<V>)
    requires
        depth <= parts@.len(),
    ensures
        node_wf(r),
        node_nonempty(r),
        node_map(r) == Map::<Seq<u32>, V>::empty().insert(parts@.skip(depth as int), value),
    decreases parts@.len() - depth,
{
    if depth == parts.len() {
        let r = TrieNode { value: Some(value), children: Vec::new() };
        proof {
            assert(r.children@ =~= Seq::empty());
            assert(parts@.skip(depth as int) =~= Seq::empty());
            assert(node_map(r) =~= Map::<Seq<u32>, V>::empty().insert(
                parts@.skip(depth as int), value));
        }
        r
    } else {
        let x = parts[depth];
        let c = make_chain(parts, depth + 1, value);
        let mut cs: Vec<(u32, TrieNode<V>)> = Vec::new();
        cs.push((x, c));
        let r = TrieNode { value: None, children: cs };
        proof {
            let key = parts@.skip(depth as int);
            let key1 = parts@.skip(depth as int + 1);
            assert(key.len() > 0 && key[0] == x);
            assert(key.drop_first() =~= key1);
            assert(r.children@.drop_first() =~= Seq::empty());
            assert(r.children@[0] == (x, c));
            lemma_cm_empty::<V>();
            assert(children_map(r.children@.drop_first())
                == Map::<Seq<u32>, V>::empty());
            assert(node_map(r) == children_map(r.children@));
            assert forall|k: Seq<u32>| #[trigger] node_map(r).contains_key(k)
                <==> k == key by {
                if node_map(r).contains_key(k) {
                    assert(k.len() > 0 && k[0] == x
                        && node_map(c).contains_key(k.drop_first()));
                    assert(k.drop_first() == key1);
                    lemma_key_reconstruct(k, key);
                }
                if k == key {
                    assert(node_map(c).contains_key(key.drop_first()));
                    assert(prefix_map(x, node_map(c)).contains_key(key));
                }
            }
            assert(node_map(r).contains_key(key));
            assert(node_map(r)[key] == node_map(c)[key.drop_first()]);
            assert(node_map(r)[key] == value);
            assert(node_map(r) =~= Map::<Seq<u32>, V>::empty().insert(key, value));
        }
        r
    }
}

fn node_insert<V>(n: &mut TrieNode<V>, parts: &[u32], depth: usize, value: V) -> (r: Option<V>)
    requires
        node_wf(*old(n)),
        depth <= parts@.len(),
    ensures
        node_wf(*final(n)),
        node_nonempty(*final(n)),
        node_map(*final(n)) == node_map(*old(n)).insert(parts@.skip(depth as int), value),
        (r is Some <==> node_map(*old(n)).contains_key(parts@.skip(depth as int))),
        r matches Some(v) ==> v == node_map(*old(n))[parts@.skip(depth as int)],
        depth < parts@.len() ==> final(n).value == old(n).value,
    decreases parts@.len() - depth,
{
    let ghost key = parts@.skip(depth as int);
    proof {
        lemma_node_map_shape(*n);
    }
    if depth == parts.len() {
        proof {
            assert(key =~= Seq::empty());
        }
        let old_v = n.value.take();
        n.value = Some(value);
        proof {
            assert(node_map(*n) =~= node_map(*old(n)).insert(key, value));
        }
        old_v
    } else {
        let x = parts[depth];
        let ghost key1 = parts@.skip(depth as int + 1);
        proof {
            assert(key.len() > 0 && key[0] == x);
            assert(key.drop_first() =~= key1);
        }
        let i = find_child_idx(&n.children, x);
        if i < n.children.len() && {
            let c = &n.children[i];
            c.0 == x
        } {
            let ghost cs = n.children@;
            proof {
                assert(forall|j: int| 0 <= j < cs.len() && j != i
                    ==> (#[trigger] cs[j].0) != x);
                lemma_cm_at(cs, i as int);
            }
            let (ck, mut child) = n.children.remove(i);
            let r = node_insert(&mut child, parts, depth + 1, value);
            let ghost child2 = child;
            n.children.insert(i, (ck, child));
            proof {
                let oldn = *old(n);
                let oldc = cs[i as int].1;
                let goal = node_map(oldn).insert(key, value);
                assert(n.children@ =~= cs.update(i as int, (x, child2)));
                lemma_cm_update(cs, i as int, child2);
                assert forall|a: int, b: int| 0 <= a < b < n.children@.len()
                    implies n.children@[a].0 < n.children@[b].0 by {
                    assert(cs[a].0 < cs[b].0);
                }
                assert(forall|j: int| 0 <= j < n.children@.len() && j != i
                    ==> n.children@[j] == cs[j]);
                assert(forall|j: int| 0 <= j < n.children@.len() ==> (
                    node_wf(#[trigger] n.children@[j].1)
                    && node_nonempty(n.children@[j].1)));
                lemma_node_map_shape(*n);
                // the looked-up old value and presence of the key
                assert(children_map(cs).contains_key(key)
                    <==> node_map(oldc).contains_key(key.drop_first()));
                assert(node_map(oldn).contains_key(key)
                    <==> node_map(oldc).contains_key(key1));
                assert(node_map(oldn).contains_key(key)
                    ==> node_map(oldn)[key] == node_map(oldc)[key1]);
                // the new map is the old one with `key` bound to `value`
                assert forall|k: Seq<u32>|
                    (#[trigger] node_map(*n).contains_key(k)
                        <==> goal.contains_key(k))
                    && (node_map(*n).contains_key(k)
                        ==> node_map(*n)[k] == goal[k]) by {
                    if k.len() == 0 {
                        assert(k =~= Seq::<u32>::empty());
                        assert(k != key);
                    } else if k[0] == x {
                        if k.drop_first() == key1 {
                            lemma_key_reconstruct(k, key);
                        }
                        if k == key {
                            assert(k.drop_first() == key.drop_first());
                        }
                        assert(children_map(n.children@).contains_key(k)
                            <==> node_map(child2).contains_key(k.drop_first()));
                        assert(children_map(cs).contains_key(k)
                            <==> node_map(oldc).contains_key(k.drop_first()));
                    } else {
                        assert(k != key);
                        assert(children_map(n.children@).contains_key(k)
                            <==> children_map(cs).contains_key(k));
                    }
                }
                assert(node_map(*n) =~= goal);
            }
            r
        } else {
            proof {
                assert(forall|j: int| 0 <= j < n.children@.len()
                    ==> (#[trigger] n.children@[j].0) != x);
                lemma_cm_no_key(n.children@, x);
            }
            let ghost cs = n.children@;
            let child = make_chain(parts, depth + 1, value);
            let ghost childg = child;
            n.children.insert(i, (x, child));
            proof {
                lemma_cm_insert(cs, i as int, x, childg);
                assert forall|a: int, b: int| 0 <= a < b < n.children@.len()
                    implies n.children@[a].0 < n.children@[b].0 by {
                    if b < i {
                        assert(cs[a].0 < cs[b].0);
                    } else if a < i && b == i {
                        assert(cs[a].0 < x);
                    } else if a < i && b > i {
                        assert(cs[a].0 < cs[b - 1].0);
                    } else if a == i {
                        assert(cs[b - 1].0 >= x && cs[b - 1].0 != x);
                    } else {
                        assert(cs[a - 1].0 < cs[b - 1].0);
                    }
                }
                assert(forall|j: int| 0 <= j < n.children@.len() ==> (
                    node_wf(#[trigger] n.children@[j].1)
                    && node_nonempty(n.children@[j].1))) by {
                    assert(forall|j: int| 0 <= j < i
                        ==> n.children@[j] == cs[j]);
                    assert(forall|j: int| i < j < n.children@.len()
                        ==> n.children@[j] == cs[j - 1]);
                }
                lemma_node_map_shape(*n);
                let oldn = *old(n);
                let goal = node_map(oldn).insert(key, value);
                assert(!children_map(cs).contains_key(key));
                assert(!node_map(oldn).contains_key(key));
                assert forall|k: Seq<u32>|
                    (#[trigger] node_map(*n).contains_key(k)
                        <==> goal.contains_key(k))
                    && (node_map(*n).contains_key(k)
                        ==> node_map(*n)[k] == goal[k]) by {
                    if k.len() == 0 {
                        assert(k =~= Seq::<u32>::empty());
                        assert(k != key);
                    } else if k[0] == x {
                        if k.drop_first() == key1 {
                            lemma_key_reconstruct(k, key);
                        }
                        if k == key {
                            assert(k.drop_first() == key.drop_first());
                        }
                        assert(children_map(n.children@).contains_key(k)
                            <==> node_map(childg).contains_key(k.drop_first()));
                        assert(node_map(childg).contains_key(k.drop_first())
                            <==> k.drop_first() == key1);
                    } else {
                        assert(k != key);
                        assert(children_map(n.children@).contains_key(k)
                            <==> children_map(cs).contains_key(k));
                    }
                }
                assert(node_map(*n) =~= goal);
            }
            None
        }
    }
}

fn node_get<'a, V>(n: &'a TrieNode<V>, parts: &[u32], depth: usize) -> (r: Option<&'a V>)
    requires
        node_wf(*n),
        depth <= parts@.len(),
    ensures
        (r is Some <==> node_map(*n).contains_key(parts@.skip(depth as int))),
        r matches Some(v) ==> *v == node_map(*n)[parts@.skip(depth as int)],
    decreases parts@.len() - depth,
{
    let ghost key = parts@.skip(depth as int);
    proof {
        lemma_node_map_shape(*n);
    }
    if depth == parts.len() {
        proof {
            assert(key =~= Seq::empty());
        }
        match &n.value {
            Some(v) => Some(v),
            None => None,
        }
    } else {
        let x = parts[depth];
        proof {
            assert(key.len() > 0 && key[0] == x);
            assert(key.drop_first() =~= parts@.skip(depth as int + 1));
        }
        let i = find_child_idx(&n.children, x);
        if i < n.children.len() {
            let c = &n.children[i];
            if c.0 == x {
                proof {
                    lemma_cm_at(n.children@, i as int);
                }
                let r = node_get(&c.1, parts, depth + 1);
                proof {
                    let key1 = parts@.skip(depth as int + 1);
                    assert(children_map(n.children@).contains_key(key)
                        <==> node_map(n.children@[i as int].1).contains_key(
                            key.drop_first()));
                    assert(key.drop_first() == key1);
                    if r is Some {
                        assert(node_map(*n).contains_key(key));
                        assert(node_map(*n)[key]
                            == node_map(n.children@[i as int].1)[key.drop_first()]);
                    }
                }
                return r;
            }
        }
        proof {
            assert(forall|j: int| 0 <= j < n.children@.len()
                ==> (#[trigger] n.children@[j].0) != x);
            lemma_cm_no_key(n.children@, x);
        }
        None
    }
}

fn node_remove<V>(n: &mut TrieNode<V>, parts: &[u32], depth: usize) -> (r: Option<V>)
    requires
        node_wf(*old(n)),
        depth <= parts@.len(),
    ensures
        node_wf(*final(n)),
        node_map(*final(n)) == node_map(*old(n)).remove(parts@.skip(depth as int)),
        (r is Some <==> node_map(*old(n)).contains_key(parts@.skip(depth as int))),
        r matches Some(v) ==> v == node_map(*old(n))[parts@.skip(depth as int)],
        depth < parts@.len() ==> final(n).value == old(n).value,
    decreases parts@.len() - depth,
{
    let ghost key = parts@.skip(depth as int);
    proof {
        lemma_node_map_shape(*n);
    }
    if depth == parts.len() {
        proof {
            assert(key =~= Seq::empty());
        }
        let r = n.value.take();
        proof {
            lemma_node_map_shape(*n);
            assert(node_map(*n) =~= node_map(*old(n)).remove(key)) by {
                lemma_cm_keys(n.children@);
            }
        }
        r
    } else {
        let x = parts[depth];
        let ghost key1 = parts@.skip(depth as int + 1);
        proof {
            assert(key.len() > 0 && key[0] == x);
            assert(key.drop_first() =~= key1);
        }
        let i = find_child_idx(&n.children, x);
        if i < n.children.len() && {
            let c = &n.children[i];
            c.0 == x
        } {
            let ghost cs = n.children@;
            proof {
                assert(forall|j: int| 0 <= j < cs.len() && j != i
                    ==> (#[trigger] cs[j].0) != x);
                lemma_cm_at(cs, i as int);
            }
            let (ck, mut child) = n.children.remove(i);
            let r = node_remove(&mut child, parts, depth + 1);
            let ghost child2 = child;
            let ghost oldc = cs[i as int].1;
            let prune = child.value.is_none() && child.children.len() == 0;
            if !prune {
                n.children.insert(i, (ck, child));
            }
            proof {
                let oldn = *old(n);
                let goal = node_map(oldn).remove(key);
                assert(children_map(cs).contains_key(key)
                    <==> node_map(oldc).contains_key(key.drop_first()));
                assert(node_map(oldn).contains_key(key)
                    <==> node_map(oldc).contains_key(key1));
                assert(node_map(oldn).contains_key(key)
                    ==> node_map(oldn)[key] == node_map(oldc)[key1]);
                if prune {
                    assert(n.children@ =~= cs.remove(i as int));
                    lemma_cm_remove(cs, i as int);
                    assert forall|a: int, b: int| 0 <= a < b < n.children@.len()
                        implies n.children@[a].0 < n.children@[b].0 by {
                        if b < i {
                            assert(cs[a].0 < cs[b].0);
                        } else if a < i {
                            assert(cs[a].0 < cs[b + 1].0);
                        } else {
                            assert(cs[a + 1].0 < cs[b + 1].0);
                        }
                    }
                    assert(forall|j: int| 0 <= j < n.children@.len() ==> (
                        node_wf(#[trigger] n.children@[j].1)
                        && node_nonempty(n.children@[j].1))) by {
                        assert(forall|j: int| 0 <= j < i
                            ==> n.children@[j] == cs[j]);
                        assert(forall|j: int| i <= j < n.children@.len()
                            ==> n.children@[j] == cs[j + 1]);
                    }
                    // a pruned child holds nothing
                    assert(child2.children@ =~= Seq::empty());
                    lemma_cm_empty::<V>();
                    assert(node_map(child2) =~= Map::<Seq<u32>, V>::empty());
                } else {
                    assert(n.children@ =~= cs.update(i as int, (x, child2)));
                    lemma_cm_update(cs, i as int, child2);
                    assert forall|a: int, b: int| 0 <= a < b < n.children@.len()
                        implies n.children@[a].0 < n.children@[b].0 by {
                        assert(cs[a].0 < cs[b].0);
                    }
                    assert(forall|j: int| 0 <= j < n.children@.len() && j != i
                        ==> n.children@[j] == cs[j]);
                    assert(forall|j: int| 0 <= j < n.children@.len() ==> (
                        node_wf(#[trigger] n.children@[j].1)
                        && node_nonempty(n.children@[j].1)));
                }
                lemma_node_map_shape(*n);
                assert forall|k: Seq<u32>|
                    (#[trigger] node_map(*n).contains_key(k)
                        <==> goal.contains_key(k))
                    && (node_map(*n).contains_key(k)
                        ==> node_map(*n)[k] == goal[k]) by {
                    if k.len() == 0 {
                        assert(k =~= Seq::<u32>::empty());
                        assert(k != key);
                    } else if k[0] == x {
                        if k.drop_first() == key1 {
                            lemma_key_reconstruct(k, key);
                        }
                        if k == key {
                            assert(k.drop_first() == key.drop_first());
                        }
                        assert(children_map(cs).contains_key(k)
                            <==> node_map(oldc).contains_key(k.drop_first()));
                        if prune {
                            assert(!children_map(n.children@).contains_key(k));
                            assert(!node_map(child2).contains_key(k.drop_first()));
                        } else {
                            assert(children_map(n.children@).contains_key(k)
                                <==> node_map(child2).contains_key(k.drop_first()));
                        }
                    } else {
                        assert(k != key);
                        assert(children_map(n.children@).contains_key(k)
                            <==> children_map(cs).contains_key(k));
                    }
                }
                assert(node_map(*n) =~= goal);
            }
            r
        } else {
            proof {
                assert(forall|j: int| 0 <= j < n.children@.len()
                    ==> (#[trigger] n.children@[j].0) != x);
                lemma_cm_no_key(n.children@, x);
                assert(!node_map(*n).contains_key(key));
                assert(node_map(*n) =~= node_map(*n).remove(key));
            }
            None
        }
    }
}

fn node_longest<'a, V>(n: &'a TrieNode<V>, parts: &[u32], depth: usize) -> (r: Option<(
    usize,
    &'a V,
)>)
    requires
        node_wf(*n),
        depth <= parts@.len(),
    ensures
        r matches Some(dv) ==> depth <= dv.0 <= parts@.len()
            && node_map(*n).contains_key(parts@.subrange(depth as int, dv.0 as int))
            && *dv.1 == node_map(*n)[parts@.subrange(depth as int, dv.0 as int)]
            && forall|e: int| dv.0 < e <= parts@.len()
                ==> !node_map(*n).contains_key(#[trigger] parts@.subrange(depth as int, e)),
        r is None ==> forall|e: int| depth <= e <= parts@.len()
            ==> !node_map(*n).contains_key(#[trigger] parts@.subrange(depth as int, e)),
    decreases parts@.len() - depth,
{
    proof {
        lemma_node_map_shape(*n);
    }
    if depth < parts.len() {
        let x = parts[depth];
        let i = find_child_idx(&n.children, x);
        let mut found = false;
        if i < n.children.len() {
            let c = &n.children[i];
            if c.0 == x {
                found = true;
                proof {
                    assert(forall|j: int| 0 <= j < n.children@.len() && j != i
                        ==> (#[trigger] n.children@[j].0) != x);
                    lemma_cm_at(n.children@, i as int);
                }
                let rr = node_longest(&c.1, parts, depth + 1);
                proof {
                    assert forall|e: int| depth < e <= parts@.len() implies
                        ((#[trigger] node_map(*n).contains_key(
                            parts@.subrange(depth as int, e))
                            <==> node_map(n.children@[i as int].1).contains_key(
                                parts@.subrange(depth as int + 1, e)))
                        && (node_map(*n).contains_key(parts@.subrange(depth as int, e))
                            ==> node_map(*n)[parts@.subrange(depth as int, e)]
                                == node_map(n.children@[i as int].1)[
                                    parts@.subrange(depth as int + 1, e)])) by {
                        let ke = parts@.subrange(depth as int, e);
                        assert(ke.len() == e - depth > 0);
                        assert(ke[0] == x);
                        assert(ke.drop_first() =~= parts@.subrange(depth as int + 1, e));
                        assert(children_map(n.children@).contains_key(ke)
                            <==> node_map(n.children@[i as int].1).contains_key(
                                ke.drop_first()));
                    }
                }
                if let Some((d, v)) = rr {
                    proof {
                        assert(depth <= d <= parts@.len());
                        assert(node_map(*n).contains_key(
                            parts@.subrange(depth as int, d as int)));
                        assert(*v == node_map(*n)[
                            parts@.subrange(depth as int, d as int)]);
                        assert(forall|e: int| d < e <= parts@.len()
                            ==> !node_map(*n).contains_key(
                                #[trigger] parts@.subrange(depth as int, e)));
                    }
                    return Some((d, v));
                }
            }
        }
        if !found {
            proof {
                assert(forall|j: int| 0 <= j < n.children@.len()
                    ==> (#[trigger] n.children@[j].0) != x);
                lemma_cm_no_key(n.children@, x);
                assert forall|e: int| depth < e <= parts@.len() implies
                    !node_map(*n).contains_key(
                        #[trigger] parts@.subrange(depth as int, e)) by {
                    let ke = parts@.subrange(depth as int, e);
                    assert(ke.len() == e - depth > 0);
                    assert(ke[0] == x);
                }
            }
        }
    }
    proof {
        assert(parts@.subrange(depth as int, depth as int) =~= Seq::<u32>::empty());
    }
    match &n.value {
        Some(v) => Some((depth, v)),
        None => None,
    }
}

proof fn lemma_nonempty_has_key<V>(n: TrieNode<V>)
    requires
        node_wf(n),
        node_nonempty(n),
    ensures
        exists|k: Seq<u32>| node_map(n).contains_key(k),
    decreases n,
{
    lemma_node_map_shape(n);
    if n.value is Some {
        assert(node_map(n).contains_key(Seq::empty()));
    } else {
        let c = n.children@[0].1;
        assert(node_wf(c) && node_nonempty(c));
        lemma_nonempty_has_key(c);
        let k = choose|k: Seq<u32>| node_map(c).contains_key(k);
        lemma_cm_at(n.children@, 0);
        let k2 = seq![n.children@[0].0] + k;
        assert(k2.drop_first() =~= k);
        assert(k2[0] == n.children@[0].0 && k2.len() > 0);
        assert(children_map(n.children@).contains_key(k2));
        assert(node_map(n).contains_key(k2));
    }
}

/// The entry with the smallest OID in this subtree, if any.
fn node_first<'a, V>(n: &'a TrieNode<V>) -> (r: Option<(Vec<u32>, &'a V)>)
    requires
        node_wf(*n),
    ensures
        r matches Some(pv) ==> node_map(*n).contains_key(pv.0@)
            && *pv.1 == node_map(*n)[pv.0@]
            && forall|k: Seq<u32>| #[trigger] node_map(*n).contains_key(k)
                ==> !crate::oid::oid_lt(k, pv.0@),
        r is None ==> forall|k: Seq<u32>| !(#[trigger] node_map(*n).contains_key(k)),
    decreases *n,
{
    proof {
        lemma_node_map_shape(*n);
        lemma_cm_keys(n.children@);
    }
    match &n.value {
        Some(v) => {
            proof {
                assert forall|k: Seq<u32>| #[trigger] node_map(*n).contains_key(k)
                    implies !crate::oid::oid_lt(k, Seq::empty()) by {
                    crate::oid::lemma_oid_lt_nil(k);
                }
            }
            let p: Vec<u32> = Vec::new();
            proof {
                assert(p@ =~= Seq::<u32>::empty());
            }
            return Some((p, v));
        }
        None => {
        }
    }
    if n.children.len() > 0 {
        let c = &n.children[0];
        proof {
            lemma_cm_at(n.children@, 0);
        }
        match node_first(&c.1) {
            Some((mut p, v)) => {
                let ghost p0 = p@;
                let x = c.0;
                p.insert(0, x);
                proof {
                    assert(p@ =~= seq![x] + p0);
                    assert(p@[0] == x && p@.len() > 0);
                    assert(p@.drop_first() =~= p0);
                    assert(children_map(n.children@).contains_key(p@));
                    assert(node_map(*n).contains_key(p@));
                    assert(node_map(*n)[p@] == node_map(n.children@[0].1)[p0]);
                    assert forall|k: Seq<u32>| #[trigger] node_map(*n).contains_key(k)
                        implies !crate::oid::oid_lt(k, p@) by {
                        assert(k.len() > 0);
                        crate::oid::lemma_oid_lt_unfold(k, p@);
                        let m = choose|m: int| 0 <= m < n.children@.len()
                            && (#[trigger] n.children@[m].0) == k[0];
                        if k[0] == x {
                            assert(node_map(n.children@[0].1).contains_key(
                                k.drop_first()));
                            assert(!crate::oid::oid_lt(k.drop_first(), p0));
                        } else {
                            assert(n.children@[0].0 < n.children@[m].0);
                        }
                    }
                }
                Some((p, v))
            }
            None => {
                proof {
                    assert(node_wf(n.children@[0].1) && node_nonempty(n.children@[0].1));
                    lemma_nonempty_has_key(n.children@[0].1);
                    assert(false);
                }
                None
            }
        }
    } else {
        proof {
            assert(n.children@ =~= Seq::<(u32, TrieNode<V>)>::empty());
            lemma_cm_empty::<V>();
            assert forall|k: Seq<u32>| !(#[trigger] node_map(*n).contains_key(k)) by {
                if k.len() > 0 {
                    assert(!children_map(n.children@).contains_key(k));
                }
            }
        }
        None
    }
}

/// The entry with the smallest OID strictly greater than the remaining query
/// `parts[depth..]`, if any.
fn node_next<'a, V>(n: &'a TrieNode<V>, parts: &[u32], depth: usize) -> (r: Option<(
    Vec<u32>,
    &'a V,
)>)
    requires
        node_wf(*n),
        depth <= parts@.len(),
    ensures
        r matches Some(pv) ==> node_map(*n).contains_key(pv.0@)
            && crate::oid::oid_lt(parts@.skip(depth as int), pv.0@)
            && *pv.1 == node_map(*n)[pv.0@]
            && forall|k: Seq<u32>| #[trigger] node_map(*n).contains_key(k)
                && crate::oid::oid_lt(parts@.skip(depth as int), k)
                ==> !crate::oid::oid_lt(k, pv.0@),
        r is None ==> forall|k: Seq<u32>| #[trigger] node_map(*n).contains_key(k)
            ==> !crate::oid::oid_lt(parts@.skip(depth as int), k),
    decreases parts@.len() - depth,
{
    let ghost q = parts@.skip(depth as int);
    proof {
        lemma_node_map_shape(*n);
        lemma_cm_keys(n.children@);
    }
    if depth == parts.len() {
        proof {
            assert(q =~= Seq::<u32>::empty());
        }
        if n.children.len() > 0 {
            let c = &n.children[0];
            proof {
                lemma_cm_at(n.children@, 0);
            }
            match node_first(&c.1) {
                Some((mut p, v)) => {
                    let ghost p0 = p@;
                    let x = c.0;
                    p.insert(0, x);
                    proof {
                        assert(p@ =~= seq![x] + p0);
                        assert(p@[0] == x && p@.len() > 0);
                        assert(p@.drop_first() =~= p0);
                        assert(children_map(n.children@).contains_key(p@));
                        assert(node_map(*n).contains_key(p@));
                        assert(node_map(*n)[p@] == node_map(n.children@[0].1)[p0]);
                        crate::oid::lemma_oid_lt_nil(p@);
                        assert forall|k: Seq<u32>| #[trigger] node_map(*n).contains_key(k)
                            && crate::oid::oid_lt(q, k)
                            implies !crate::oid::oid_lt(k, p@) by {
                            crate::oid::lemma_oid_lt_nil(k);
                            assert(k.len() > 0);
                            crate::oid::lemma_oid_lt_unfold(k, p@);
                            let m = choose|m: int| 0 <= m < n.children@.len()
                                && (#[trigger] n.children@[m].0) == k[0];
                            if k[0] == x {
                                assert(node_map(n.children@[0].1).contains_key(
                                    k.drop_first()));
                                assert(!crate::oid::oid_lt(k.drop_first(), p0));
                            } else {
                                assert(n.children@[0].0 < n.children@[m].0);
                            }
                        }
                    }
                    Some((p, v))
                }
                None => {
                    proof {
                        assert(node_wf(n.children@[0].1)
                            && node_nonempty(n.children@[0].1));
                        lemma_nonempty_has_key(n.children@[0].1);
                        assert(false);
                    }
                    None
                }
            }
        } else {
            proof {
                assert(n.children@ =~= Seq::<(u32, TrieNode<V>)>::empty());
                lemma_cm_empty::<V>();
                assert forall|k: Seq<u32>| #[trigger] node_map(*n).contains_key(k)
                    implies !crate::oid::oid_lt(q, k) by {
                    if k.len() > 0 {
                        assert(!children_map(n.children@).contains_key(k));
                    }
                    crate::oid::lemma_oid_lt_nil(k);
                }
            }
            None
        }
    } else {
        let x = parts[depth];
        let ghost q1 = parts@.skip(depth as int + 1);
        proof {
            assert(q.len() > 0 && q[0] == x);
            assert(q.drop_first() =~= q1);
        }
        let i = find_child_idx(&n.children, x);
        let mut j: usize = i;
        if i < n.children.len() && {
            let c = &n.children[i];
            c.0 == x
        } {
            proof {
                assert(forall|m: int| 0 <= m < n.children@.len() && m != i
                    ==> (#[trigger] n.children@[m].0) != x);
                lemma_cm_at(n.children@, i as int);
            }
            let c = &n.children[i];
            let rr = node_next(&c.1, parts, depth + 1);
            match rr {
                Some((mut p, v)) => {
                    let ghost p0 = p@;
                    p.insert(0, x);
                    proof {
                        assert(p@ =~= seq![x] + p0);
                        assert(p@[0] == x && p@.len() > 0);
                        assert(p@.drop_first() =~= p0);
                        assert(children_map(n.children@).contains_key(p@));
                        assert(node_map(*n).contains_key(p@));
                        assert(node_map(*n)[p@]
                            == node_map(n.children@[i as int].1)[p0]);
                        crate::oid::lemma_oid_lt_unfold(q, p@);
                        assert(crate::oid::oid_lt(q, p@));
                        assert forall|k: Seq<u32>| #[trigger] node_map(*n).contains_key(k)
                            && crate::oid::oid_lt(q, k)
                            implies !crate::oid::oid_lt(k, p@) by {
                            crate::oid::lemma_oid_lt_nil(k);
                            assert(k.len() > 0);
                            crate::oid::lemma_oid_lt_unfold(q, k);
                            crate::oid::lemma_oid_lt_unfold(k, p@);
                            if k[0] == x {
                                assert(node_map(n.children@[i as int].1).contains_key(
                                    k.drop_first()));
                                assert(crate::oid::oid_lt(q1, k.drop_first()));
                                assert(!crate::oid::oid_lt(k.drop_first(), p0));
                            }
                        }
                    }
                    return Some((p, v));
                }
                None => {
                    proof {
                        assert(forall|d: Seq<u32>|
                            #[trigger] node_map(n.children@[i as int].1).contains_key(d)
                            ==> !crate::oid::oid_lt(q1, d));
                    }
                    j = i + 1;
                }
            }
        }
        // every child from `j` on is strictly greater than `x`; the x-subtree
        // (if any) held nothing past the query
        proof {
            assert forall|k: Seq<u32>| #[trigger] node_map(*n).contains_key(k)
                && crate::oid::oid_lt(q, k)
                implies k.len() > 0 && k[0] > x by {
                crate::oid::lemma_oid_lt_nil(k);
                assert(k.len() > 0);
                crate::oid::lemma_oid_lt_unfold(q, k);
                if k[0] == x {
                    if j == i + 1 {
                        assert(node_map(n.children@[i as int].1).contains_key(
                            k.drop_first()));
                        assert(!crate::oid::oid_lt(q1, k.drop_first()));
                    } else {
                        assert(forall|m: int| 0 <= m < n.children@.len()
                            ==> (#[trigger] n.children@[m].0) != x);
                        lemma_cm_no_key(n.children@, x);
                    }
                    assert(false);
                }
            }
            assert(forall|m: int| j <= m < n.children@.len()
                ==> (#[trigger] n.children@[m].0) > x);
        }
        if j < n.children.len() {
            let c = &n.children[j];
            let cj = c.0;
            proof {
                lemma_cm_at(n.children@, j as int);
            }
            match node_first(&c.1) {
                Some((mut p, v)) => {
                    let ghost p0 = p@;
                    p.insert(0, cj);
                    proof {
                        assert(p@ =~= seq![cj] + p0);
                        assert(p@[0] == cj && p@.len() > 0);
                        assert(p@.drop_first() =~= p0);
                        assert(children_map(n.children@).contains_key(p@));
                        assert(node_map(*n).contains_key(p@));
                        assert(node_map(*n)[p@]
                            == node_map(n.children@[j as int].1)[p0]);
                        crate::oid::lemma_oid_lt_unfold(q, p@);
                        assert(crate::oid::oid_lt(q, p@));
                        assert forall|k: Seq<u32>| #[trigger] node_map(*n).contains_key(k)
                            && crate::oid::oid_lt(q, k)
                            implies !crate::oid::oid_lt(k, p@) by {
                            assert(k.len() > 0 && k[0] > x);
                            crate::oid::lemma_oid_lt_unfold(k, p@);
                            let m = choose|m: int| 0 <= m < n.children@.len()
                                && (#[trigger] n.children@[m].0) == k[0];
                            assert(m >= j) by {
                                if m < j {
                                    if m < i {
                                        assert(n.children@[m].0 < x);
                                    }
                                }
                            }
                            if k[0] == cj {
                                assert(m == j) by {
                                    if m > j {
                                        assert(n.children@[j as int].0
                                            < n.children@[m].0);
                                    }
                                }
                                assert(node_map(n.children@[j as int].1).contains_key(
                                    k.drop_first()));
                                assert(!crate::oid::oid_lt(k.drop_first(), p0));
                            } else {
                                assert(m > j) by {
                                    if m == j {
                                        assert(n.children@[m].0 == cj);
                                    }
                                }
                                assert(cj < n.children@[m].0);
                            }
                        }
                    }
                    return Some((p, v));
                }
                None => {
                    proof {
                        assert(node_wf(n.children@[j as int].1)
                            && node_nonempty(n.children@[j as int].1));
                        lemma_nonempty_has_key(n.children@[j as int].1);
                        assert(false);
                    }
                    return None;
                }
            }
        }
        proof {
            assert forall|k: Seq<u32>| #[trigger] node_map(*n).contains_key(k)
                implies !crate::oid::oid_lt(q, k) by {
                if crate::oid::oid_lt(q, k) {
                    let m = choose|m: int| 0 <= m < n.children@.len()
                        && (#[trigger] n.children@[m].0) == k[0];
                    assert(m < j);
                    if m < i {
                        assert(n.children@[m].0 < x);
                    }
                    assert(false);
                }
            }
        }
        None
    }
}

/// The keys of `es`, each with `x` prepended.
spec fn prefix_entries<V>(x: u32, es: Seq<(Seq<u32>, V)>) -> Seq<(Seq<u32>, V)> {
    es.map(|i: int, e: (Seq<u32>, V)| (seq![x] + e.0, e.1))
}

/// The entries under a node, in ascending key order: the node's own value
/// first, then each child subtree in child order.
spec fn node_entries<V>(n: TrieNode<V>) -> Seq<(Seq<u32>, V)>
    decreases n,
{
    (match n.value {
        Some(v) => seq![(Seq::<u32>::empty(), v)],
        None => Seq::empty(),
    }) + children_entries(n.children@)
}

spec fn children_entries<V>(cs: Seq<(u32, TrieNode<V>)>) -> Seq<(Seq<u32>, V)>
    decreases cs,
{
    if cs.len() == 0 {
        Seq::empty()
    } else {
        prefix_entries(cs[0].0, node_entries(cs[0].1)) + children_entries(cs.drop_first())
    }
}

/// Keys strictly ascend along the sequence of entries.
pub open spec fn entries_sorted<V>(es: Seq<(Seq<u32>, V)>) -> bool {
    forall|i: int, j: int| 0 <= i < j < es.len()
        ==> crate::oid::oid_lt(es[i].0, es[j].0)
}

proof fn lemma_ce_empty<V>()
    ensures
        children_entries::<V>(Seq::empty()) == Seq::<(Seq<u32>, V)>::empty(),
{
}

proof fn lemma_ce_take_succ<V>(cs: Seq<(u32, TrieNode<V>)>, i: int)
    requires
        0 <= i < cs.len(),
    ensures
        children_entries(cs.take(i + 1)) =~= children_entries(cs.take(i))
            + prefix_entries(cs[i].0, node_entries(cs[i].1)),
    decreases i,
{
    if i == 0 {
        assert(cs.take(0) =~= Seq::<(u32, TrieNode<V>)>::empty());
        lemma_ce_empty::<V>();
        assert(cs.take(1)[0] == cs[0]);
        assert(cs.take(1).drop_first() =~= Seq::<(u32, TrieNode<V>)>::empty());
        assert(children_entries(cs.take(1).drop_first())
            == Seq::<(Seq<u32>, V)>::empty());
    } else {
        lemma_ce_take_succ(cs.drop_first(), i - 1);
        assert(cs.take(i + 1).drop_first() =~= cs.drop_first().take(i));
        assert(cs.take(i).drop_first() =~= cs.drop_first().take(i - 1));
        assert(cs.take(i + 1)[0] == cs[0]);
        assert(cs.take(i)[0] == cs[0]);
        assert(cs.drop_first()[i - 1] == cs[i]);
    }
}

proof fn lemma_children_entries_props<V>(cs: Seq<(u32, TrieNode<V>)>)
    requires
        keys_sorted(cs),
        forall|i: int| 0 <= i < cs.len() ==> node_wf(#[trigger] cs[i].1),
    ensures
        entries_sorted(children_entries(cs)),
        forall|idx: int| 0 <= idx < children_entries(cs).len() ==> (
            (#[trigger] children_entries(cs)[idx].0).len() > 0
            && has_child_key(cs, children_entries(cs)[idx].0[0])
            && children_map(cs).contains_key(children_entries(cs)[idx].0)
            && children_map(cs)[children_entries(cs)[idx].0]
                == children_entries(cs)[idx].1),
        forall|k: Seq<u32>| #[trigger] children_map(cs).contains_key(k)
            ==> exists|idx: int| 0 <= idx < children_entries(cs).len()
                && (#[trigger] children_entries(cs)[idx].0) == k,
    decreases cs,
{
    if cs.len() > 0 {
        let x = cs[0].0;
        let c0 = cs[0].1;
        let block = prefix_entries(x, node_entries(c0));
        let rest = children_entries(cs.drop_first());
        lemma_node_entries_props(c0);
        assert(keys_sorted(cs.drop_first()));
        assert(forall|i: int| 0 <= i < cs.drop_first().len()
            ==> node_wf(#[trigger] cs.drop_first()[i].1));
        lemma_children_entries_props(cs.drop_first());
        lemma_cm_at(cs, 0);
        assert(forall|j: int| 0 <= j < cs.drop_first().len()
            ==> (#[trigger] cs.drop_first()[j].0) != x);
        lemma_cm_no_key(cs.drop_first(), x);
        assert(children_entries(cs) == block + rest);
        // what each block entry is
        assert forall|idx: int| 0 <= idx < block.len() implies
            (#[trigger] block[idx] == (seq![x] + node_entries(c0)[idx].0,
                node_entries(c0)[idx].1)
            && block[idx].0.len() > 0 && block[idx].0[0] == x
            && block[idx].0.drop_first() == node_entries(c0)[idx].0) by {
            assert(block[idx].0 =~= seq![x] + node_entries(c0)[idx].0);
            assert((seq![x] + node_entries(c0)[idx].0).drop_first()
                =~= node_entries(c0)[idx].0);
        }
        // rest entries start with a later sub-identifier
        assert forall|idx: int| 0 <= idx < rest.len() implies
            (#[trigger] rest[idx].0).len() > 0 && rest[idx].0[0] > x by {
            let m = choose|m: int| 0 <= m < cs.drop_first().len()
                && (#[trigger] cs.drop_first()[m].0) == rest[idx].0[0];
            assert(cs[m + 1].0 == rest[idx].0[0]);
        }
        // sortedness of the concatenation
        assert forall|i: int, j: int| 0 <= i < j < children_entries(cs).len()
            implies crate::oid::oid_lt(children_entries(cs)[i].0,
                children_entries(cs)[j].0) by {
            let a = children_entries(cs)[i].0;
            let b = children_entries(cs)[j].0;
            if i < block.len() && j < block.len() {
                crate::oid::lemma_oid_lt_unfold(a, b);
            } else if i < block.len() {
                crate::oid::lemma_oid_lt_unfold(a, b);
            } else {
                assert(crate::oid::oid_lt(rest[i - block.len()].0,
                    rest[j - block.len()].0));
            }
        }
        // each entry is in the map
        assert forall|idx: int| 0 <= idx < children_entries(cs).len() implies
            ((#[trigger] children_entries(cs)[idx].0).len() > 0
            && has_child_key(cs, children_entries(cs)[idx].0[0])
            && children_map(cs).contains_key(children_entries(cs)[idx].0)
            && children_map(cs)[children_entries(cs)[idx].0]
                == children_entries(cs)[idx].1) by {
            if idx < block.len() {
                let e0 = node_entries(c0)[idx];
                assert(node_map(c0).contains_key(e0.0));
                assert(children_map(cs).contains_key(block[idx].0));
                assert(children_map(cs)[block[idx].0] == node_map(c0)[e0.0]);
                assert(cs[0].0 == x);
            } else {
                let k = rest[idx - block.len()].0;
                assert(children_map(cs.drop_first()).contains_key(k));
                assert(k[0] > x);
                let m = choose|m: int| 0 <= m < cs.drop_first().len()
                    && (#[trigger] cs.drop_first()[m].0) == k[0];
                assert(cs[m + 1].0 == k[0]);
            }
        }
        // every key in the map appears among the entries
        assert forall|k: Seq<u32>| #[trigger] children_map(cs).contains_key(k)
            implies exists|idx: int| 0 <= idx < children_entries(cs).len()
                && (#[trigger] children_entries(cs)[idx].0) == k by {
            lemma_cm_keys(cs);
            if k[0] == x {
                assert(node_map(c0).contains_key(k.drop_first()));
                let idx0 = choose|idx0: int| 0 <= idx0 < node_entries(c0).len()
                    && (#[trigger] node_entries(c0)[idx0].0) == k.drop_first();
                assert(block[idx0].0 =~= seq![x] + k.drop_first());
                lemma_key_reconstruct(seq![x] + k.drop_first(), k);
                assert(children_entries(cs)[idx0].0 == k);
            } else {
                assert(children_map(cs.drop_first()).contains_key(k));
                let idx1 = choose|idx1: int| 0 <= idx1 < rest.len()
                    && (#[trigger] rest[idx1].0) == k;
                assert(children_entries(cs)[block.len() + idx1].0 == k);
            }
        }
    }
}

proof fn lemma_node_entries_props<V>(n: TrieNode<V>)
    requires
        node_wf(n),
    ensures
        entries_sorted(node_entries(n)),
        forall|idx: int| 0 <= idx < node_entries(n).len() ==> (
            node_map(n).contains_key(#[trigger] node_entries(n)[idx].0)
            && node_map(n)[node_entries(n)[idx].0] == node_entries(n)[idx].1),
        forall|k: Seq<u32>| #[trigger] node_map(n).contains_key(k)
            ==> exists|idx: int| 0 <= idx < node_entries(n).len()
                && (#[trigger] node_entries(n)[idx].0) == k,
        node_map(n).dom().finite(),
        node_entries(n).len() == node_map(n).dom().len(),
    decreases n,
{
    lemma_node_map_shape(n);
    lemma_cm_keys(n.children@);
    lemma_children_entries_props(n.children@);
    let ce = children_entries(n.children@);
    let es = node_entries(n);
    let base: Seq<(Seq<u32>, V)> = match n.value {
        Some(v) => seq![(Seq::<u32>::empty(), v)],
        None => Seq::empty(),
    };
    assert(es == base + ce);
    assert forall|i: int, j: int| 0 <= i < j < es.len()
        implies crate::oid::oid_lt(es[i].0, es[j].0) by {
        if i < base.len() {
            assert(es[i].0 =~= Seq::<u32>::empty());
            crate::oid::lemma_oid_lt_nil(es[j].0);
            assert(ce[j - base.len()].0.len() > 0);
        } else {
            assert(crate::oid::oid_lt(ce[i - base.len()].0, ce[j - base.len()].0));
        }
    }
    assert forall|idx: int| 0 <= idx < es.len() implies (
        node_map(n).contains_key(#[trigger] es[idx].0)
        && node_map(n)[es[idx].0] == es[idx].1) by {
        if idx < base.len() {
            assert(es[idx].0 =~= Seq::<u32>::empty());
        } else {
            assert(ce[idx - base.len()].0.len() > 0);
        }
    }
    assert forall|k: Seq<u32>| #[trigger] node_map(n).contains_key(k)
        implies exists|idx: int| 0 <= idx < es.len()
            && (#[trigger] es[idx].0) == k by {
        if k.len() == 0 {
            assert(k =~= Seq::<u32>::empty());
            assert(es[0].0 == k);
        } else {
            assert(children_map(n.children@).contains_key(k));
            let idx1 = choose|idx1: int| 0 <= idx1 < ce.len()
                && (#[trigger] ce[idx1].0) == k;
            assert(es[base.len() + idx1].0 == k);
        }
    }
    // cardinality: the sorted keys are distinct and cover the domain exactly
    let keyseq = es.map(|i: int, e: (Seq<u32>, V)| e.0);
    assert(keyseq.no_duplicates()) by {
        assert forall|i: int, j: int|
            0 <= i < keyseq.len() && 0 <= j < keyseq.len() && i != j
            implies keyseq[i] != keyseq[j] by {
            if i < j {
                crate::oid::lemma_oid_lt_trichotomy(es[i].0, es[j].0);
            } else {
                crate::oid::lemma_oid_lt_trichotomy(es[j].0, es[i].0);
            }
        }
    }
    assert(keyseq.to_set() =~= node_map(n).dom()) by {
        assert forall|k: Seq<u32>| #[trigger] keyseq.to_set().contains(k)
            implies node_map(n).dom().contains(k) by {
            let idx = choose|idx: int| 0 <= idx < keyseq.len()
                && keyseq[idx] == k;
            assert(es[idx].0 == k);
        }
        assert forall|k: Seq<u32>| node_map(n).dom().contains(k)
            implies #[trigger] keyseq.to_set().contains(k) by {
            let idx = choose|idx: int| 0 <= idx < es.len()
                && (#[trigger] es[idx].0) == k;
            assert(keyseq[idx] == k);
        }
    }
    vstd::seq_lib::seq_to_set_is_finite::<Seq<u32>>(keyseq);
    keyseq.unique_seq_to_set();
}

fn copy_u32_vec(v: &Vec<u32>) -> (r: Vec<u32>)
    ensures
        r@ == v@,
{
    let mut r: Vec<u32> = Vec::new();
    let mut i: usize = 0;
    while i < v.len()
        invariant
            0 <= i <= v@.len(),
            r@ == v@.take(i as int),
        decreases v@.len() - i,
    {
        r.push(v[i]);
        assert(r@ =~= v@.take(i + 1));
        i += 1;
    }
    assert(r@ =~= v@);
    r
}

/// Appends this subtree's entries to `out` in ascending key order, each key
/// prefixed with the path that leads to this node.
fn node_collect<'a, V>(n: &'a TrieNode<V>, path: &mut Vec<u32>, out: &mut Vec<(Oid, &'a V)>)
    requires
        node_wf(*n),
        n.value is Some ==> old(path)@.len() > 0,
    ensures
        final(path)@ == old(path)@,
        final(out)@.len() == old(out)@.len() + node_entries(*n).len(),
        forall|idx: int| 0 <= idx < old(out)@.len()
            ==> final(out)@[idx] == old(out)@[idx],
        forall|idx: int| 0 <= idx < node_entries(*n).len() ==> (
            (#[trigger] final(out)@[old(out)@.len() + idx]).0@
                == old(path)@ + node_entries(*n)[idx].0
            && *final(out)@[old(out)@.len() + idx].1 == node_entries(*n)[idx].1),
    decreases *n,
{
    let ghost out0 = out@;
    let ghost path0 = path@;
    let ghost base_len: int = if n.value is Some { 1int } else { 0int };
    match &n.value {
        Some(v) => {
            let key = copy_u32_vec(path);
            match Oid::new(key) {
                Ok(o) => {
                    out.push((o, v));
                    proof {
                        assert(node_entries(*n)[0].0 =~= Seq::<u32>::empty());
                        assert(path0 + node_entries(*n)[0].0 =~= path0);
                    }
                }
                Err(_) => {
                    vstd::pervasive::unreached::<()>();
                }
            }
        }
        None => {
        }
    }
    let mut i: usize = 0;
    proof {
        assert(n.children@.take(0) =~= Seq::<(u32, TrieNode<V>)>::empty());
        lemma_ce_empty::<V>();
    }
    while i < n.children.len()
        invariant
            node_wf(*n),
            0 <= i <= n.children@.len(),
            path@ == path0,
            base_len == (if n.value is Some { 1int } else { 0int }),
            out@.len() == out0.len() + base_len
                + children_entries(n.children@.take(i as int)).len(),
            forall|idx: int| 0 <= idx < out0.len() ==> out@[idx] == out0[idx],
            base_len == 1 ==> (out@[out0.len() as int].0@
                == path0 + node_entries(*n)[0].0
                && *out@[out0.len() as int].1 == node_entries(*n)[0].1),
            forall|idx: int| 0 <= idx
                < children_entries(n.children@.take(i as int)).len() ==> (
                (#[trigger] out@[out0.len() + base_len + idx]).0@
                    == path0 + children_entries(n.children@.take(i as int))[idx].0
                && *out@[out0.len() + base_len + idx].1
                    == children_entries(n.children@.take(i as int))[idx].1),
        decreases n.children@.len() - i,
    {
        let ghost taken = children_entries(n.children@.take(i as int));
        let ghost out_pre = out@;
        let c = &n.children[i];
        let x = c.0;
        path.push(x);
        node_collect(&c.1, path, out);
        path.pop();
        proof {
            lemma_ce_take_succ(n.children@, i as int);
            let block = prefix_entries(x, node_entries(n.children@[i as int].1));
            assert(path@ =~= path0);
            assert(path0.push(x) =~= path0 + seq![x]);
            assert forall|idx: int| 0 <= idx < block.len() implies (
                (#[trigger] out@[out0.len() + base_len + taken.len() + idx]).0@
                    == path0 + block[idx].0
                && *out@[out0.len() + base_len + taken.len() + idx].1
                    == block[idx].1) by {
                assert(block[idx] == (seq![x] + node_entries(
                    n.children@[i as int].1)[idx].0,
                    node_entries(n.children@[i as int].1)[idx].1));
                assert((path0.push(x)) + node_entries(n.children@[i as int].1)[idx].0
                    =~= path0 + (seq![x] + node_entries(
                        n.children@[i as int].1)[idx].0));
                assert(out@[out_pre.len() + idx].0@
                    == path0.push(x) + node_entries(n.children@[i as int].1)[idx].0);
            }
            assert(children_entries(n.children@.take(i as int + 1)) =~= taken + block);
            if base_len == 1 {
                assert(out@[out0.len() as int] == out_pre[out0.len() as int]);
            }
            assert forall|idx: int| 0 <= idx
                < children_entries(n.children@.take(i as int + 1)).len() implies (
                (#[trigger] out@[out0.len() + base_len + idx]).0@
                    == path0 + children_entries(n.children@.take(i as int + 1))[idx].0
                && *out@[out0.len() + base_len + idx].1
                    == children_entries(n.children@.take(i as int + 1))[idx].1) by {
                if idx < taken.len() {
                    assert(out@[out0.len() + base_len + idx]
                        == out_pre[out0.len() + base_len + idx]);
                    assert(children_entries(n.children@.take(i as int + 1))[idx]
                        == taken[idx]);
                } else {
                    let idxb = idx - taken.len();
                    assert(out@[out0.len() + base_len + taken.len() + idxb].0@
                        == path0 + block[idxb].0);
                    assert(*out@[out0.len() + base_len + taken.len() + idxb].1
                        == block[idxb].1);
                    assert(out0.len() + base_len + taken.len() + idxb
                        == out0.len() + base_len + idx);
                    assert(children_entries(n.children@.take(i as int + 1))[idx]
                        == block[idxb]);
                }
            }
        }
        i += 1;
    }
    proof {
        assert(n.children@.take(n.children@.len() as int) =~= n.children@);
        assert forall|idx: int| 0 <= idx < node_entries(*n).len() implies (
            (#[trigger] out@[out0.len() + idx]).0@
                == path0 + node_entries(*n)[idx].0
            && *out@[out0.len() + idx].1 == node_entries(*n)[idx].1) by {
            if idx >= base_len {
                let idxc = idx - base_len;
                assert((#[trigger] out@[out0.len() + base_len + idxc]).0@
                    == path0 + children_entries(n.children@)[idxc].0);
                assert(*out@[out0.len() + base_len + idxc].1
                    == children_entries(n.children@)[idxc].1);
                assert(out0.len() + base_len + idxc == out0.len() + idx);
                assert(node_entries(*n)[idx]
                    == children_entries(n.children@)[idx - base_len]);
            } else {
                assert((#[trigger] out@[out0.len() as int]).0@
                    == path0 + node_entries(*n)[0].0);
                assert(out0.len() + idx == out0.len() as int);
            }
        }
    }
}

proof fn lemma_node_congr<V>(n1: TrieNode<V>, n2: TrieNode<V>)
    requires
        n1.value == n2.value,
        n1.children@ == n2.children@,
    ensures
        node_map(n1) == node_map(n2),
        node_wf(n1) == node_wf(n2),
        node_nonempty(n1) == node_nonempty(n2),
{
}

fn node_get_mut<'a, V>(n: &'a mut TrieNode<V>, parts: &[u32], depth: usize) -> (r: Option<
    &'a mut V,
>)
    requires
        node_wf(*old(n)),
        depth <= parts@.len(),
    ensures
        r is None ==> (final(n).value is Some <==> old(n).value is Some)
            && final(n).children@.len() == old(n).children@.len()
            && node_map(*final(n)) == node_map(*old(n)) && node_wf(*final(n))
            && !node_map(*old(n)).contains_key(parts@.skip(depth as int)),
        r matches Some(v) ==> node_map(*old(n)).contains_key(parts@.skip(depth as int))
            && *v == node_map(*old(n))[parts@.skip(depth as int)]
            && node_wf(*final(n))
            && node_map(*final(n))
                == node_map(*old(n)).insert(parts@.skip(depth as int), *final(v))
            && (final(n).value is Some <==> old(n).value is Some)
            && node_nonempty(*final(n)),
    decreases parts@.len() - depth,
{
    let ghost key = parts@.skip(depth as int);
    proof {
        lemma_node_map_shape(*n);
        assert forall|n1: TrieNode<V>, n2: TrieNode<V>|
            #![auto]
            (n1.value == n2.value && n1.children@ == n2.children@)
            implies (node_map(n1) == node_map(n2) && node_wf(n1) == node_wf(n2)
                && node_nonempty(n1) == node_nonempty(n2)) by {
            lemma_node_congr(n1, n2);
        }
    }
    if depth == parts.len() {
        if n.value.is_none() {
            proof {
                assert(key =~= Seq::empty());
            }
            return None;
        }
        proof {
            assert(key =~= Seq::empty());
            let cm = children_map(n.children@);
            let m0 = node_map(*n);
            assert forall|w: V| #[trigger] cm.insert(Seq::empty(), w)
                == m0.insert(key, w) by {
                assert(cm.insert(Seq::empty(), w) =~= m0.insert(key, w));
            }
        }
        match &mut n.value {
            Some(v) => Some(v),
            None => vstd::pervasive::unreached(),
        }
    } else {
        let x = parts[depth];
        let ghost key1 = parts@.skip(depth as int + 1);
        proof {
            assert(key.len() > 0 && key[0] == x);
            assert(key.drop_first() =~= key1);
        }
        let i = find_child_idx(&n.children, x);
        if i < n.children.len() && {
            let c = &n.children[i];
            c.0 == x
        } {
            proof {
                let cs = n.children@;
                let m0 = node_map(*n);
                let oldc = cs[i as int].1;
                assert(forall|j: int| 0 <= j < cs.len() && j != i
                    ==> (#[trigger] cs[j].0) != x);
                lemma_cm_at(cs, i as int);
                assert(m0.contains_key(key)
                    <==> node_map(oldc).contains_key(key1));
                assert(m0.contains_key(key) ==> m0[key] == node_map(oldc)[key1]);
                assert((x, oldc) == cs[i as int]);
                assert(cs.update(i as int, (x, oldc)) =~= cs);
                // the node when the looked-up key turns out absent
                assert forall|n2: TrieNode<V>, c2: TrieNode<V>|
                    #![auto]
                    (n2.value == old(n).value
                        && n2.children@ == cs.update(i as int, (x, c2))
                        && node_wf(c2) && node_nonempty(c2)
                        && node_map(c2) == node_map(oldc))
                    implies (node_wf(n2) && node_map(n2) == m0) by {
                    lemma_cm_update(cs, i as int, c2);
                    assert forall|a: int, b: int| 0 <= a < b < n2.children@.len()
                        implies n2.children@[a].0 < n2.children@[b].0 by {
                        assert(cs[a].0 < cs[b].0);
                    }
                    assert(forall|j: int| 0 <= j < n2.children@.len() && j != i
                        ==> n2.children@[j] == cs[j]);
                    assert(forall|j: int| 0 <= j < n2.children@.len() ==> (
                        node_wf(#[trigger] n2.children@[j].1)
                        && node_nonempty(n2.children@[j].1)));
                    lemma_node_map_shape(n2);
                    assert forall|k: Seq<u32>|
                        (#[trigger] node_map(n2).contains_key(k)
                            <==> m0.contains_key(k))
                        && (node_map(n2).contains_key(k)
                            ==> node_map(n2)[k] == m0[k]) by {
                        if k.len() > 0 && k[0] == x {
                            assert(children_map(n2.children@).contains_key(k)
                                <==> node_map(c2).contains_key(k.drop_first()));
                            assert(children_map(cs).contains_key(k)
                                <==> node_map(oldc).contains_key(k.drop_first()));
                        } else if k.len() > 0 {
                            assert(children_map(n2.children@).contains_key(k)
                                <==> children_map(cs).contains_key(k));
                        } else {
                            assert(k =~= Seq::<u32>::empty());
                        }
                    }
                    assert(node_map(n2) =~= m0);
                }
                // what the node becomes for any future child state
                assert forall|n2: TrieNode<V>, c2: TrieNode<V>, w: V|
                    #![auto]
                    (n2.value == old(n).value
                        && n2.children@ == cs.update(i as int, (x, c2))
                        && node_wf(c2) && node_nonempty(c2)
                        && node_map(c2) == node_map(oldc).insert(key1, w))
                    implies (node_wf(n2) && node_map(n2) == m0.insert(key, w)
                        && node_nonempty(n2)) by {
                    lemma_cm_update(cs, i as int, c2);
                    assert forall|a: int, b: int| 0 <= a < b < n2.children@.len()
                        implies n2.children@[a].0 < n2.children@[b].0 by {
                        assert(cs[a].0 < cs[b].0);
                    }
                    assert(forall|j: int| 0 <= j < n2.children@.len() && j != i
                        ==> n2.children@[j] == cs[j]);
                    assert(forall|j: int| 0 <= j < n2.children@.len() ==> (
                        node_wf(#[trigger] n2.children@[j].1)
                        && node_nonempty(n2.children@[j].1)));
                    lemma_node_map_shape(n2);
                    let goal = m0.insert(key, w);
                    assert forall|k: Seq<u32>|
                        (#[trigger] node_map(n2).contains_key(k)
                            <==> goal.contains_key(k))
                        && (node_map(n2).contains_key(k)
                            ==> node_map(n2)[k] == goal[k]) by {
                        if k.len() == 0 {
                            assert(k =~= Seq::<u32>::empty());
                            assert(k != key);
                        } else if k[0] == x {
                            if k.drop_first() == key1 {
                                lemma_key_reconstruct(k, key);
                            }
                            if k == key {
                                assert(k.drop_first() == key.drop_first());
                            }
                            assert(children_map(n2.children@).contains_key(k)
                                <==> node_map(c2).contains_key(k.drop_first()));
                            assert(children_map(cs).contains_key(k)
                                <==> node_map(oldc).contains_key(k.drop_first()));
                        } else {
                            assert(k != key);
                            assert(children_map(n2.children@).contains_key(k)
                                <==> children_map(cs).contains_key(k));
                        }
                    }
                    assert(node_map(n2) =~= goal);
                }
            }
            let e = &mut n.children[i];
            node_get_mut(&mut e.1, parts, depth + 1)
        } else {
            proof {
                assert(forall|j: int| 0 <= j < n.children@.len()
                    ==> (#[trigger] n.children@[j].0) != x);
                lemma_cm_no_key(n.children@, x);
                assert(!node_map(*n).contains_key(key));
            }
            None
        }
    }
}

/// A map from OIDs to values, stored as a radix trie whose children are kept
/// in ascending sub-identifier order.
pub struct OidTrie<V> {
    root: TrieNode<V>,
    count: usize,
}

impl<V> View for OidTrie<V> {
    type V = Map<Seq<u32>, V>;

    closed spec fn view(&self) -> Map<Seq<u32>, V> {
        node_map(self.root)
    }
}

impl<V> OidTrie<V> {
    /// The structure's invariant: a well-formed, pruned tree whose root holds
    /// no value (keys are non-empty), with an accurate entry counter.
    pub closed spec fn inv(self) -> bool {
        &&& node_wf(self.root)
        &&& self.root.value is None
        &&& self@.dom().finite()
        &&& self.count == self@.dom().len()
    }

    /// The trie's key set is finite, so entry counts behave like finite-set
    /// cardinalities.
    pub proof fn lemma_dom_finite(&self)
        requires
            self.inv(),
        ensures
            self@.dom().finite(),
    {
    }

    /// Creates an empty trie.
    pub fn new() -> (r: Self)
        ensures
            r.inv(),
            r@ == Map::<Seq<u32>, V>::empty(),
    {
        let r = OidTrie { root: TrieNode { value: None, children: Vec::new() }, count: 0 };
        proof {
            assert(r.root.children@ =~= Seq::empty());
            assert(r@ =~= Map::<Seq<u32>, V>::empty());
        }
        r
    }

    /// The number of entries.
    pub fn len(&self) -> (r: usize)
        requires
            self.inv(),
        ensures
            r == self@.dom().len(),
    {
        self.count
    }

    /// True when the trie holds no entries.
    pub fn is_empty(&self) -> (r: bool)
        requires
            self.inv(),
        ensures
            r == (self@.dom().len() == 0),
    {
        self.count == 0
    }

    /// Removes every entry.
    pub fn clear(&mut self)
        ensures
            final(self).inv(),
            final(self)@ == Map::<Seq<u32>, V>::empty(),
    {
        self.root = TrieNode { value: None, children: Vec::new() };
        self.count = 0;
        proof {
            assert(self.root.children@ =~= Seq::empty());
            assert(self@ =~= Map::<Seq<u32>, V>::empty());
        }
    }

    /// Inserts a value at `oid`, returning the value previously stored there.
    pub fn insert(&mut self, oid: &Oid, value: V) -> (r: Option<V>)
        requires
            old(self).inv(),
            oid.wf(),
            old(self)@.dom().len() < usize::MAX,
        ensures
            final(self).inv(),
            final(self)@ == old(self)@.insert(oid@, value),
            (r is Some <==> old(self)@.contains_key(oid@)),
            r matches Some(v) ==> v == old(self)@[oid@],
    {
        let parts = oid.parts();
        proof {
            assert(parts@.skip(0) =~= oid@);
        }
        let r = node_insert(&mut self.root, parts, 0, value);
        if r.is_none() {
            self.count = self.count + 1;
        }
        proof {
            if old(self)@.contains_key(oid@) {
                assert(final(self)@.dom() =~= old(self)@.dom());
            } else {
                assert(final(self)@.dom() =~= old(self)@.dom().insert(oid@));
            }
        }
        r
    }

    /// Looks up the value stored exactly at `oid`.
    pub fn get<'a>(&'a self, oid: &Oid) -> (r: Option<&'a V>)
        requires
            self.inv(),
        ensures
            (r is Some <==> self@.contains_key(oid@)),
            r matches Some(v) ==> *v == self@[oid@],
    {
        let parts = oid.parts();
        proof {
            assert(parts@.skip(0) =~= oid@);
        }
        node_get(&self.root, parts, 0)
    }

    /// Removes and returns the value at `oid`, pruning nodes that no longer
    /// hold a value or a child.
    pub fn remove(&mut self, oid: &Oid) -> (r: Option<V>)
        requires
            old(self).inv(),
            oid.wf(),
        ensures
            final(self).inv(),
            final(self)@ == old(self)@.remove(oid@),
            (r is Some <==> old(self)@.contains_key(oid@)),
            r matches Some(v) ==> v == old(self)@[oid@],
            old(self)@.contains_key(oid@)
                ==> final(self)@.dom().len() == old(self)@.dom().len() - 1,
            !old(self)@.contains_key(oid@) ==> final(self)@ == old(self)@,
    {
        let parts = oid.parts();
        proof {
            assert(parts@.skip(0) =~= oid@);
        }
        let r = node_remove(&mut self.root, parts, 0);
        if r.is_some() {
            self.count = self.count - 1;
        }
        proof {
            if old(self)@.contains_key(oid@) {
                assert(final(self)@.dom() =~= old(self)@.dom().remove(oid@));
            } else {
                assert(final(self)@ =~= old(self)@);
                assert(final(self)@.dom() =~= old(self)@.dom());
            }
        }
        r
    }

    /// The deepest stored entry whose OID is a prefix of `oid`, with the OID
    /// it is stored under. This is the registration-dispatch lookup.
    pub fn longest_prefix<'a>(&'a self, oid: &Oid) -> (r: Option<(Oid, &'a V)>)
        requires
            self.inv(),
        ensures
            r matches Some(pv) ==> crate::oid::is_prefix_of(pv.0@, oid@)
                && self@.contains_key(pv.0@) && *pv.1 == self@[pv.0@]
                && forall|k: Seq<u32>| #[trigger] self@.contains_key(k)
                    && crate::oid::is_prefix_of(k, oid@) ==> k.len() <= pv.0@.len(),
            r is None ==> forall|k: Seq<u32>| #[trigger] self@.contains_key(k)
                ==> !crate::oid::is_prefix_of(k, oid@),
    {
        let parts = oid.parts();
        match node_longest(&self.root, parts, 0) {
            Some((d, v)) => {
                proof {
                    assert(parts@.subrange(0, 0) =~= Seq::<u32>::empty());
                    lemma_node_map_shape(self.root);
                    assert(d > 0);
                }
                let mut p: Vec<u32> = Vec::new();
                let mut j: usize = 0;
                while j < d
                    invariant
                        0 <= j <= d <= parts@.len(),
                        p@ == parts@.subrange(0, j as int),
                    decreases d - j,
                {
                    p.push(parts[j]);
                    assert(p@ =~= parts@.subrange(0, j + 1));
                    j += 1;
                }
                match Oid::new(p) {
                    Ok(o) => {
                        proof {
                            assert forall|k: Seq<u32>| #[trigger] self@.contains_key(k)
                                && crate::oid::is_prefix_of(k, oid@)
                                implies k.len() <= o@.len() by {
                                assert(k == parts@.subrange(0, k.len() as int));
                            }
                            assert(crate::oid::is_prefix_of(o@, oid@)) by {
                                assert(o@ == oid@.take(d as int));
                            }
                        }
                        Some((o, v))
                    }
                    Err(_) => vstd::pervasive::unreached(),
                }
            }
            None => {
                proof {
                    assert forall|k: Seq<u32>| #[trigger] self@.contains_key(k)
                        implies !crate::oid::is_prefix_of(k, oid@) by {
                        if crate::oid::is_prefix_of(k, oid@) {
                            assert(k == parts@.subrange(0, k.len() as int));
                        }
                    }
                }
                None
            }
        }
    }

    /// The entry with the smallest OID strictly greater than `oid` in the
    /// lexicographic order: the SNMP `GETNEXT` step.
    pub fn get_next<'a>(&'a self, oid: &Oid) -> (r: Option<(Oid, &'a V)>)
        requires
            self.inv(),
        ensures
            r matches Some(pv) ==> self@.contains_key(pv.0@)
                && crate::oid::oid_lt(oid@, pv.0@) && *pv.1 == self@[pv.0@]
                && forall|k: Seq<u32>| #[trigger] self@.contains_key(k)
                    && crate::oid::oid_lt(oid@, k) ==> !crate::oid::oid_lt(k, pv.0@),
            r is None ==> forall|k: Seq<u32>| #[trigger] self@.contains_key(k)
                ==> !crate::oid::oid_lt(oid@, k),
    {
        let parts = oid.parts();
        proof {
            assert(parts@.skip(0) =~= oid@);
        }
        match node_next(&self.root, parts, 0) {
            Some((p, v)) => {
                proof {
                    lemma_node_map_shape(self.root);
                    lemma_cm_keys(self.root.children@);
                    if p@.len() == 0 {
                        assert(p@ =~= Seq::<u32>::empty());
                        assert(false);
                    }
                }
                match Oid::new(p) {
                    Ok(o) => Some((o, v)),
                    Err(_) => vstd::pervasive::unreached(),
                }
            }
            None => None,
        }
    }

    /// The trie's contents as one ordered ghost sequence of entries; what
    /// `iter` returns, entry for entry.
    pub closed spec fn entries(self) -> Seq<(Seq<u32>, V)> {
        node_entries(self.root)
    }

    /// The entry list is strictly ascending in the lexicographic order, holds
    /// exactly the trie's map, and its length is the trie's length.
    pub proof fn lemma_entries_correspond(&self)
        requires
            self.inv(),
        ensures
            entries_sorted(self.entries()),
            forall|idx: int| 0 <= idx < self.entries().len() ==> (
                self@.contains_key(#[trigger] self.entries()[idx].0)
                && self@[self.entries()[idx].0] == self.entries()[idx].1),
            forall|k: Seq<u32>| #[trigger] self@.contains_key(k)
                ==> exists|idx: int| 0 <= idx < self.entries().len()
                    && (#[trigger] self.entries()[idx].0) == k,
            self.entries().len() == self@.dom().len(),
    {
        lemma_node_entries_props(self.root);
        assert forall|k: Seq<u32>| #[trigger] self@.contains_key(k)
            implies exists|idx: int| 0 <= idx < self.entries().len()
                && (#[trigger] self.entries()[idx].0) == k by {
            let idx = choose|idx: int| 0 <= idx < node_entries(self.root).len()
                && (#[trigger] node_entries(self.root)[idx].0) == k;
            assert(self.entries()[idx].0 == k);
        }
    }

    /// All entries in ascending OID order.
    pub fn iter<'a>(&'a self) -> (r: Vec<(Oid, &'a V)>)
        requires
            self.inv(),
        ensures
            r@.len() == self.entries().len(),
            r@.len() == self@.dom().len(),
            forall|idx: int| 0 <= idx < r@.len() ==> (
                (#[trigger] r@[idx]).0@ == self.entries()[idx].0
                && *r@[idx].1 == self.entries()[idx].1),
    {
        let mut path: Vec<u32> = Vec::new();
        let mut out: Vec<(Oid, &'a V)> = Vec::new();
        node_collect(&self.root, &mut path, &mut out);
        proof {
            self.lemma_entries_correspond();
            assert forall|idx: int| 0 <= idx < out@.len() implies (
                (#[trigger] out@[idx]).0@ == self.entries()[idx].0
                && *out@[idx].1 == self.entries()[idx].1) by {
                assert(out@[0 + idx].0@
                    == Seq::<u32>::empty() + node_entries(self.root)[idx].0);
                assert(*out@[0 + idx].1 == node_entries(self.root)[idx].1);
                assert(Seq::<u32>::empty() + self.entries()[idx].0
                    =~= self.entries()[idx].0);
            }
        }
        out
    }

    /// All OIDs that hold a value, in ascending order.
    pub fn keys(&self) -> (r: Vec<Oid>)
        requires
            self.inv(),
        ensures
            r@.len() == self.entries().len(),
            forall|idx: int| 0 <= idx < r@.len()
                ==> (#[trigger] r@[idx])@ == self.entries()[idx].0,
    {
        let mut it = self.iter();
        let ghost it0 = it@;
        let mut r: Vec<Oid> = Vec::new();
        while it.len() > 0
            invariant
                r@.len() + it@.len() == it0.len(),
                forall|idx: int| 0 <= idx < it@.len()
                    ==> it@[idx] == it0[r@.len() + idx],
                forall|idx: int| 0 <= idx < r@.len()
                    ==> (#[trigger] r@[idx])@ == self.entries()[idx].0,
                it0.len() == self.entries().len(),
                forall|idx: int| 0 <= idx < it0.len() ==> (
                    (#[trigger] it0[idx]).0@ == self.entries()[idx].0),
            decreases it@.len(),
        {
            let e = it.remove(0);
            r.push(e.0);
        }
        r
    }

    /// All values, in ascending order of their OIDs.
    pub fn values<'a>(&'a self) -> (r: Vec<&'a V>)
        requires
            self.inv(),
        ensures
            r@.len() == self.entries().len(),
            forall|idx: int| 0 <= idx < r@.len()
                ==> *(#[trigger] r@[idx]) == self.entries()[idx].1,
    {
        let mut it = self.iter();
        let ghost it0 = it@;
        let mut r: Vec<&'a V> = Vec::new();
        while it.len() > 0
            invariant
                r@.len() + it@.len() == it0.len(),
                forall|idx: int| 0 <= idx < it@.len()
                    ==> it@[idx] == it0[r@.len() + idx],
                forall|idx: int| 0 <= idx < r@.len()
                    ==> *(#[trigger] r@[idx]) == self.entries()[idx].1,
                it0.len() == self.entries().len(),
                forall|idx: int| 0 <= idx < it0.len() ==> (
                    *(#[trigger] it0[idx]).1 == self.entries()[idx].1),
            decreases it@.len(),
        {
            let e = it.remove(0);
            r.push(e.1);
        }
        r
    }

    /// A mutable borrow of the value stored exactly at `oid`. The trie
    /// afterwards holds whatever the caller leaves in the borrow; nothing
    /// else changes.
    pub fn get_mut<'a>(&'a mut self, oid: &Oid) -> (r: Option<&'a mut V>)
        requires
            old(self).inv(),
            oid.wf(),
        ensures
            r is None ==> final(self)@ == old(self)@ && final(self).inv()
                && !old(self)@.contains_key(oid@),
            r matches Some(v) ==> old(self)@.contains_key(oid@)
                && *v == old(self)@[oid@]
                && final(self)@ == old(self)@.insert(oid@, *final(v))
                && final(self).inv(),
    {
        let parts = oid.parts();
        proof {
            assert(parts@.skip(0) =~= oid@);
            assert forall|w: V| self@.contains_key(oid@) implies (
                (#[trigger] self@.insert(oid@, w)).dom() == self@.dom()) by {
                assert(self@.insert(oid@, w).dom() =~= self@.dom());
            }
        }
        node_get_mut(&mut self.root, parts, 0)
    }

    /// True when a value is stored exactly at `oid`.
    pub fn contains(&self, oid: &Oid) -> (r: bool)
        requires
            self.inv(),
        ensures
            r == self@.contains_key(oid@),
    {
        self.get(oid).is_some()
    }
}

} // verus!
