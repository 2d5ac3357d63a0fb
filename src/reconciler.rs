use vstd::prelude::*;
use crate::element::{Element, index_of, is_first_with_key, keys_unique, find_key, lemma_index_of_unique, lemma_first_in_prefix};
use crate::compositor::{Command, Composition, create_of};

verus! {

/// The removals of a diff: one `Remove` for each previous child, in order,
/// whose key no longer appears among the new children, or that an earlier
/// child with the same key shadows.
pub open spec fn removals(prev: Seq<Element>, next: Seq<Element>) -> Seq<Command>
    decreases prev.len(),
{
    if prev.len() == 0 {
        Seq::empty()
    } else {
        let r = removals(prev.drop_last(), next);
        if index_of(next, prev.last().key) < 0 || index_of(prev, prev.last().key) != prev.len() - 1 {
            r.push(Command::Remove { key: prev.last().key })
        } else {
            r
        }
    }
}

/// The commands that place new child `e` at position `j`: a fresh node when
/// no previous child has its key; destroy then create when the matched child
/// has another kind; otherwise an update when the properties changed, then a
/// move when the position changed.
pub open spec fn placement(prev: Seq<Element>, e: Element, j: int) -> Seq<Command> {
    let i = index_of(prev, e.key);
    if i < 0 {
        seq![create_of(e, j)]
    } else if prev[i].kind != e.kind {
        seq![Command::Remove { key: e.key }, create_of(e, j)]
    } else {
        let u = if prev[i].props != e.props {
            seq![Command::Update { key: e.key, props: e.props }]
        } else {
            Seq::empty()
        };
        if i != j {
            u.push(Command::Move { key: e.key, index: j as usize })
        } else {
            u
        }
    }
}

/// The placements of all new children, position by position.
pub open spec fn placements(prev: Seq<Element>, next: Seq<Element>) -> Seq<Command>
    decreases next.len(),
{
    if next.len() == 0 {
        Seq::empty()
    } else {
        placements(prev, next.drop_last()) + placement(prev, next.last(), next.len() - 1)
    }
}

/// The full diff of a child list: removals first, then placements.
pub open spec fn diff(prev: Seq<Element>, next: Seq<Element>) -> Seq<Command> {
    removals(prev, next) + placements(prev, next)
}

fn place(prev: &Vec<Element>, e: Element, j: usize, out: &mut Composition)
    ensures
        final(out)@ == old(out)@ + placement(prev@, e, j as int),
{
    match find_key(prev, e.key) {
        None => {
            out.push(Command::Create { key: e.key, kind: e.kind, props: e.props, index: j });
            assert(final(out)@ =~= old(out)@ + placement(prev@, e, j as int));
        },
        Some(i) => {
            let p = prev[i];
            if p.kind != e.kind {
                out.push(Command::Remove { key: e.key });
                out.push(Command::Create { key: e.key, kind: e.kind, props: e.props, index: j });
                assert(final(out)@ =~= old(out)@ + placement(prev@, e, j as int));
            } else {
                if p.props != e.props {
                    out.push(Command::Update { key: e.key, props: e.props });
                }
                if i != j {
                    out.push(Command::Move { key: e.key, index: j });
                }
                assert(out@ =~= old(out)@ + placement(prev@, e, j as int));
            }
        },
    }
}

/// Diffs the previous children of a node against the new ones and returns the
/// commands that turn the one into the other. Children are matched by key;
/// where keys collide the first child carrying the key is the match, and a
/// later previous child with that key is removed.
pub fn diff_children(prev: &Vec<Element>, next: &Vec<Element>) -> (r: Composition)
    ensures
        r@ == diff(prev@, next@),
{
    let mut out = Composition::new();
    let mut i: usize = 0;
    while i < prev.len()
        invariant
            0 <= i <= prev.len(),
            out@ == removals(prev@.subrange(0, i as int), next@),
        decreases prev.len() - i,
    {
        assert(prev@.subrange(0, i as int + 1).drop_last() =~= prev@.subrange(0, i as int));
        let k = prev[i].key;
        proof { lemma_first_in_prefix(prev@, i as int + 1, i as int); }
        let first = find_key(prev, k);
        if find_key(next, k).is_none() || first != Some(i) {
            out.push(Command::Remove { key: k });
        }
        i = i + 1;
    }
    assert(prev@.subrange(0, prev@.len() as int) =~= prev@);
    let ghost base = out@;
    let mut j: usize = 0;
    while j < next.len()
        invariant
            0 <= j <= next.len(),
            base == removals(prev@, next@),
            out@ == base + placements(prev@, next@.subrange(0, j as int)),
        decreases next.len() - j,
    {
        let ghost s = next@.subrange(0, j as int + 1);
        assert(s.drop_last() =~= next@.subrange(0, j as int));
        assert(s.last() == next@[j as int]);
        place(prev, next[j], j, &mut out);
        assert(out@ =~= base + placements(prev@, s));
        j = j + 1;
    }
    assert(next@.subrange(0, next@.len() as int) =~= next@);
    out
}

/// `next` holds the same elements as `prev`, each key once, in any order:
/// each new child is the previous child with its key, and no previous key
/// is missing.
pub open spec fn is_reordering(prev: Seq<Element>, next: Seq<Element>) -> bool {
    &&& keys_unique(prev)
    &&& keys_unique(next)
    &&& forall|j: int| 0 <= j < next.len() ==> 0 <= #[trigger] index_of(prev, next[j].key) < prev.len()
        && prev[index_of(prev, next[j].key)] == next[j]
    &&& forall|i: int| 0 <= i < prev.len() ==> 0 <= #[trigger] index_of(next, prev[i].key)
}

/// `prev` and `next` have the same length and agree at every position but `j`.
pub open spec fn differs_only_at(prev: Seq<Element>, next: Seq<Element>, j: int) -> bool {
    &&& prev.len() == next.len()
    &&& 0 <= j < prev.len()
    &&& forall|i: int| 0 <= i < prev.len() && i != j ==> prev[i] == next[i]
}

proof fn lemma_no_removals(prev: Seq<Element>, next: Seq<Element>)
    requires
        keys_unique(prev),
        forall|i: int| 0 <= i < prev.len() ==> index_of(next, #[trigger] prev[i].key) >= 0,
    ensures
        removals(prev, next) == Seq::<Command>::empty(),
    decreases prev.len(),
{
    if prev.len() > 0 {
        let d = prev.drop_last();
        assert forall|i: int| 0 <= i < d.len() implies index_of(next, #[trigger] d[i].key) >= 0 by {
            assert(d[i] == prev[i]);
        }
        lemma_no_removals(d, next);
        assert(index_of(next, prev[prev.len() - 1].key) >= 0);
        lemma_index_of_unique(prev, prev.len() - 1);
    }
}

proof fn lemma_placements_moves_only(prev: Seq<Element>, next: Seq<Element>)
    requires
        forall|j: int, k: int| 0 <= j < next.len() && 0 <= k < placement(prev, next[j], j).len()
            ==> (#[trigger] placement(prev, next[j], j)[k]).is_move(),
    ensures
        forall|k: int| 0 <= k < placements(prev, next).len() ==> (#[trigger] placements(prev, next)[k]).is_move(),
    decreases next.len(),
{
    if next.len() > 0 {
        let d = next.drop_last();
        assert forall|j: int, k: int| 0 <= j < d.len() && 0 <= k < placement(prev, d[j], j).len()
            implies (#[trigger] placement(prev, d[j], j)[k]).is_move() by {
            assert(d[j] == next[j]);
        }
        lemma_placements_moves_only(prev, d);
        let last = placement(prev, next.last(), next.len() - 1);
        assert forall|k: int| 0 <= k < last.len() implies (#[trigger] last[k]).is_move() by {
            assert(placement(prev, next[next.len() - 1], next.len() - 1)[k].is_move());
        }
        let a = placements(prev, d);
        assert forall|k: int| 0 <= k < placements(prev, next).len()
            implies (#[trigger] placements(prev, next)[k]).is_move() by {
            if k < a.len() {
                assert(placements(prev, next)[k] == a[k]);
            } else {
                assert(placements(prev, next)[k] == last[k - a.len()]);
            }
        }
    }
}

/// Diffing a child list against itself yields no command at all.
pub proof fn lemma_diff_identity(s: Seq<Element>)
    requires
        keys_unique(s),
    ensures
        diff(s, s) == Seq::<Command>::empty(),
{
    assert forall|i: int| 0 <= i < s.len() implies index_of(s, #[trigger] s[i].key) >= 0 by {
        lemma_index_of_unique(s, i);
    }
    lemma_no_removals(s, s);
    assert forall|j: int, k: int| 0 <= j < s.len() && 0 <= k < placement(s, s[j], j).len()
        implies (#[trigger] placement(s, s[j], j)[k]).is_move() by {
        lemma_index_of_unique(s, j);
    }
    lemma_placements_moves_only(s, s);
    lemma_placements_identity(s, s.len() as int);
    assert(s.subrange(0, s.len() as int) =~= s);
    assert(diff(s, s) =~= Seq::<Command>::empty());
}

proof fn lemma_placements_identity(s: Seq<Element>, n: int)
    requires
        keys_unique(s),
        0 <= n <= s.len(),
    ensures
        placements(s, s.subrange(0, n)) == Seq::<Command>::empty(),
    decreases n,
{
    if n > 0 {
        let t = s.subrange(0, n);
        assert(t.drop_last() =~= s.subrange(0, n - 1));
        lemma_placements_identity(s, n - 1);
        lemma_index_of_unique(s, n - 1);
        assert(placement(s, s[n - 1], n - 1) =~= Seq::<Command>::empty());
        assert(placements(s, t) =~= Seq::<Command>::empty());
    }
}

/// Reordering keyed children produces only moves: no child is removed or
/// created, so every instance, with its hook state, survives.
pub proof fn lemma_reorder_moves_only(prev: Seq<Element>, next: Seq<Element>)
    requires
        is_reordering(prev, next),
    ensures
        forall|k: int| 0 <= k < diff(prev, next).len() ==> (#[trigger] diff(prev, next)[k]).is_move(),
{
    assert forall|i: int| 0 <= i < prev.len() implies index_of(next, #[trigger] prev[i].key) >= 0 by {
        assert(0 <= index_of(next, prev[i].key));
    }
    lemma_no_removals(prev, next);
    assert forall|j: int, k: int| 0 <= j < next.len() && 0 <= k < placement(prev, next[j], j).len()
        implies (#[trigger] placement(prev, next[j], j)[k]).is_move() by {
        assert(0 <= index_of(prev, next[j].key) < prev.len());
    }
    lemma_placements_moves_only(prev, next);
    assert(diff(prev, next) =~= placements(prev, next));
}

proof fn lemma_removals_one_change(prev: Seq<Element>, next: Seq<Element>, j: int, n: int)
    requires
        keys_unique(prev),
        keys_unique(next),
        differs_only_at(prev, next, j),
        0 <= n <= prev.len(),
    ensures
        removals(prev.subrange(0, n), next) == if n > j && index_of(next, prev[j].key) < 0 {
            seq![Command::Remove { key: prev[j].key }]
        } else {
            Seq::<Command>::empty()
        },
    decreases n,
{
    if n > 0 {
        let t = prev.subrange(0, n);
        assert(t.drop_last() =~= prev.subrange(0, n - 1));
        lemma_removals_one_change(prev, next, j, n - 1);
        lemma_index_of_unique(prev, n - 1);
        lemma_first_in_prefix(prev, n, n - 1);
        assert(t.last() == prev[n - 1]);
        if n - 1 != j {
            lemma_index_of_unique(next, n - 1);
        }
        assert(removals(t, next) =~= (if n > j && index_of(next, prev[j].key) < 0 {
            seq![Command::Remove { key: prev[j].key }]
        } else {
            Seq::<Command>::empty()
        }));
    }
}

proof fn lemma_placements_one_change(prev: Seq<Element>, next: Seq<Element>, j: int, n: int)
    requires
        keys_unique(prev),
        differs_only_at(prev, next, j),
        0 <= n <= next.len(),
    ensures
        placements(prev, next.subrange(0, n)) == if n > j {
            placement(prev, next[j], j)
        } else {
            Seq::<Command>::empty()
        },
    decreases n,
{
    if n > 0 {
        let t = next.subrange(0, n);
        assert(t.drop_last() =~= next.subrange(0, n - 1));
        lemma_placements_one_change(prev, next, j, n - 1);
        if n - 1 != j {
            lemma_index_of_unique(prev, n - 1);
            assert(placement(prev, next[n - 1], n - 1) =~= Seq::<Command>::empty());
        }
        assert(placements(prev, t) =~= (if n > j {
            placement(prev, next[j], j)
        } else {
            Seq::<Command>::empty()
        }));
    }
}

/// Changing the key or the kind of the child at one position, all else kept,
/// destroys the old child and then creates the new one: nothing else.
pub proof fn lemma_key_or_kind_change_recreates(prev: Seq<Element>, next: Seq<Element>, j: int)
    requires
        keys_unique(prev),
        keys_unique(next),
        differs_only_at(prev, next, j),
        prev[j].key != next[j].key || prev[j].kind != next[j].kind,
    ensures
        diff(prev, next) == seq![Command::Remove { key: prev[j].key }, create_of(next[j], j)],
{
    lemma_removals_one_change(prev, next, j, prev.len() as int);
    lemma_placements_one_change(prev, next, j, next.len() as int);
    assert(prev.subrange(0, prev.len() as int) =~= prev);
    assert(next.subrange(0, next.len() as int) =~= next);
    if prev[j].key != next[j].key {
        assert(!exists|c: int| is_first_with_key(next, prev[j].key, c)) by {
            assert forall|c: int| 0 <= c < next.len() implies next[c].key != prev[j].key by {
                if c != j {
                    assert(next[c] == prev[c]);
                }
            }
        }
        assert(!exists|c: int| is_first_with_key(prev, next[j].key, c)) by {
            assert forall|c: int| 0 <= c < prev.len() implies prev[c].key != next[j].key by {
                if c != j {
                    assert(next[c] == prev[c]);
                }
            }
        }
    } else {
        lemma_index_of_unique(next, j);
        lemma_index_of_unique(prev, j);
    }
    assert(diff(prev, next) =~= seq![Command::Remove { key: prev[j].key }, create_of(next[j], j)]);
}

} // verus!
