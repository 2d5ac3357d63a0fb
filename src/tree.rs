use vstd::prelude::*;
use crate::element::{Element, Key, index_of, keys_unique, find_key, has_unique_keys, lemma_index_of_unique, lemma_index_of_none};
use crate::compositor::{Command, Composition, create_of};
use crate::reconciler::{diff, diff_children, differs_only_at, is_reordering, lemma_diff_identity, lemma_key_or_kind_change_recreates, lemma_reorder_moves_only};

verus! {

/// An element with the elements nested under it.
#[derive(Debug)]
pub struct Node {
    pub element: Element,
    pub children: Vec<Node>,
}

/// A command together with the keys of the nodes that enclose its target,
/// outermost first.
#[derive(Debug)]
pub struct ScopedCommand {
    pub scope: Vec<Key>,
    pub command: Command,
}

pub open spec fn scoped_view(c: ScopedCommand) -> (Seq<Key>, Command) {
    (c.scope@, c.command)
}

pub open spec fn scoped_views(v: Seq<ScopedCommand>) -> Seq<(Seq<Key>, Command)> {
    v.map_values(|c: ScopedCommand| scoped_view(c))
}

/// The elements of a list of nodes.
pub open spec fn elements_of(s: Seq<Node>) -> Seq<Element> {
    s.map_values(|n: Node| n.element)
}

/// Every command of `s`, placed in `scope`.
pub open spec fn in_scope(scope: Seq<Key>, s: Seq<Command>) -> Seq<(Seq<Key>, Command)> {
    s.map_values(|c: Command| (scope, c))
}

/// The commands that create everything nested under new nodes `nc`, which
/// stand in `scope`: each node's children, then what is under them.
pub open spec fn creations(scope: Seq<Key>, nc: Seq<Node>) -> Seq<(Seq<Key>, Command)>
    decreases nc, nc.len() + 1,
{
    creations_upto(scope, nc, nc.len() as int)
}

pub open spec fn creations_upto(scope: Seq<Key>, nc: Seq<Node>, k: int) -> Seq<(Seq<Key>, Command)>
    decreases nc, k,
{
    if k <= 0 || k > nc.len() {
        Seq::empty()
    } else {
        let c = nc[k - 1];
        let inner = scope.push(c.element.key);
        creations_upto(scope, nc, k - 1)
            + in_scope(inner, diff(Seq::empty(), elements_of(c.children@)))
            + creations(inner, c.children@)
    }
}

/// The diff of two child lists in `scope`, nested levels included: the
/// commands of this level, then, child by child, the diff under each matched
/// child, or the creation of what is under a child that is new.
pub open spec fn tree_diff(scope: Seq<Key>, pc: Seq<Node>, nc: Seq<Node>) -> Seq<(Seq<Key>, Command)>
    decreases nc, nc.len() + 1,
{
    in_scope(scope, diff(elements_of(pc), elements_of(nc))) + nested(scope, pc, nc, nc.len() as int)
}

pub open spec fn nested(scope: Seq<Key>, pc: Seq<Node>, nc: Seq<Node>, k: int) -> Seq<(Seq<Key>, Command)>
    decreases nc, k,
{
    if k <= 0 || k > nc.len() {
        Seq::empty()
    } else {
        let c = nc[k - 1];
        let inner = scope.push(c.element.key);
        let i = index_of(elements_of(pc), c.element.key);
        nested(scope, pc, nc, k - 1) + if i >= 0 && pc[i].element.kind == c.element.kind {
            tree_diff(inner, pc[i].children@, c.children@)
        } else {
            in_scope(inner, diff(Seq::empty(), elements_of(c.children@)))
                + creations(inner, c.children@)
        }
    }
}

fn elements(v: &Vec<Node>) -> (r: Vec<Element>)
    ensures
        r@ == elements_of(v@),
{
    let mut r: Vec<Element> = Vec::new();
    let mut i: usize = 0;
    while i < v.len()
        invariant
            0 <= i <= v.len(),
            r@ == elements_of(v@.subrange(0, i as int)),
        decreases v.len() - i,
    {
        r.push(v[i].element);
        i = i + 1;
        assert(r@ =~= elements_of(v@.subrange(0, i as int)));
    }
    assert(v@.subrange(0, v@.len() as int) =~= v@);
    r
}

fn copy_keys(v: &Vec<Key>) -> (r: Vec<Key>)
    ensures
        r@ == v@,
{
    let mut r: Vec<Key> = Vec::new();
    let mut i: usize = 0;
    while i < v.len()
        invariant
            0 <= i <= v.len(),
            r@ == v@.subrange(0, i as int),
        decreases v.len() - i,
    {
        r.push(v[i]);
        i = i + 1;
        assert(r@ =~= v@.subrange(0, i as int));
    }
    r
}

fn extend_scope(scope: &Vec<Key>, k: Key) -> (r: Vec<Key>)
    ensures
        r@ == scope@.push(k),
{
    let mut r = copy_keys(scope);
    r.push(k);
    r
}

fn emit_in_scope(scope: &Vec<Key>, c: &Composition, out: &mut Vec<ScopedCommand>)
    ensures
        scoped_views(final(out)@) == scoped_views(old(out)@) + in_scope(scope@, c@),
{
    let mut i: usize = 0;
    while i < c.len()
        invariant
            0 <= i <= c@.len(),
            scoped_views(out@) == scoped_views(old(out)@) + in_scope(scope@, c@.subrange(0, i as int)),
        decreases c@.len() - i,
    {
        let ghost before = out@;
        let s = copy_keys(scope);
        out.push(ScopedCommand { scope: s, command: c.get(i) });
        i = i + 1;
        assert(scoped_views(out@) =~= scoped_views(before).push((scope@, c@[i - 1])));
        assert(scoped_views(out@) =~= scoped_views(old(out)@) + in_scope(scope@, c@.subrange(0, i as int)));
    }
    assert(c@.subrange(0, c@.len() as int) =~= c@);
}

fn emit_creations(scope: &Vec<Key>, nc: &Vec<Node>, out: &mut Vec<ScopedCommand>)
    ensures
        scoped_views(final(out)@) == scoped_views(old(out)@) + creations(scope@, nc@),
    decreases nc@, nc@.len() + 1,
{
    let mut k: usize = 0;
    while k < nc.len()
        invariant
            0 <= k <= nc@.len(),
            scoped_views(out@) == scoped_views(old(out)@) + creations_upto(scope@, nc@, k as int),
        decreases nc@.len() - k,
    {
        let c = &nc[k];
        let inner = extend_scope(scope, c.element.key);
        let empty: Vec<Element> = Vec::new();
        let es = elements(&c.children);
        let level = diff_children(&empty, &es);
        emit_in_scope(&inner, &level, out);
        emit_creations(&inner, &c.children, out);
        k = k + 1;
        assert(scoped_views(out@) =~= scoped_views(old(out)@) + creations_upto(scope@, nc@, k as int));
    }
}

fn emit_tree_diff(scope: &Vec<Key>, pc: &Vec<Node>, nc: &Vec<Node>, out: &mut Vec<ScopedCommand>)
    ensures
        scoped_views(final(out)@) == scoped_views(old(out)@) + tree_diff(scope@, pc@, nc@),
    decreases nc@, nc@.len() + 1,
{
    let pe = elements(pc);
    let ne = elements(nc);
    let level = diff_children(&pe, &ne);
    emit_in_scope(scope, &level, out);
    let ghost base = scoped_views(out@);
    let mut k: usize = 0;
    while k < nc.len()
        invariant
            0 <= k <= nc@.len(),
            pe@ == elements_of(pc@),
            base == scoped_views(old(out)@) + in_scope(scope@, diff(elements_of(pc@), elements_of(nc@))),
            scoped_views(out@) == base + nested(scope@, pc@, nc@, k as int),
        decreases nc@.len() - k,
    {
        let c = &nc[k];
        let inner = extend_scope(scope, c.element.key);
        let found = find_key(&pe, c.element.key);
        let matched = match found {
            Some(i) => pc[i].element.kind == c.element.kind,
            None => false,
        };
        if matched {
            let i = found.unwrap();
            emit_tree_diff(&inner, &pc[i].children, &c.children, out);
        } else {
            let empty: Vec<Element> = Vec::new();
            let es = elements(&c.children);
            let fresh = diff_children(&empty, &es);
            emit_in_scope(&inner, &fresh, out);
            emit_creations(&inner, &c.children, out);
        }
        k = k + 1;
        assert(scoped_views(out@) =~= base + nested(scope@, pc@, nc@, k as int));
    }
    assert(scoped_views(out@) =~= scoped_views(old(out)@) + tree_diff(scope@, pc@, nc@));
}

/// Diffs the previous top-level nodes under the host's root container
/// against the new ones, every nested level included, and returns the
/// commands with the scope of each.
pub fn diff_trees(prev: &Vec<Node>, next: &Vec<Node>) -> (r: Vec<ScopedCommand>)
    ensures
        scoped_views(r@) == tree_diff(Seq::empty(), prev@, next@),
{
    let mut out: Vec<ScopedCommand> = Vec::new();
    let scope: Vec<Key> = Vec::new();
    emit_tree_diff(&scope, prev, next, &mut out);
    assert(scoped_views(out@) =~= tree_diff(Seq::empty(), prev@, next@));
    out
}

/// At every level of the trees `nc`, no two siblings share a key.
pub open spec fn tree_keys_unique(nc: Seq<Node>) -> bool
    decreases nc, nc.len() + 1,
{
    keys_unique(elements_of(nc)) && subtrees_unique(nc, nc.len() as int)
}

pub open spec fn subtrees_unique(nc: Seq<Node>, k: int) -> bool
    decreases nc, k,
{
    if k <= 0 || k > nc.len() {
        true
    } else {
        subtrees_unique(nc, k - 1) && tree_keys_unique(nc[k - 1].children@)
    }
}

/// Diffing element trees against themselves yields no command at any level.
pub proof fn lemma_tree_diff_identity(scope: Seq<Key>, nc: Seq<Node>)
    requires
        tree_keys_unique(nc),
    ensures
        tree_diff(scope, nc, nc) == Seq::<(Seq<Key>, Command)>::empty(),
    decreases nc, nc.len() + 1,
{
    lemma_diff_identity(elements_of(nc));
    lemma_nested_identity(scope, nc, nc.len() as int);
    assert(in_scope(scope, diff(elements_of(nc), elements_of(nc))) =~= Seq::<(Seq<Key>, Command)>::empty());
    assert(tree_diff(scope, nc, nc) =~= Seq::<(Seq<Key>, Command)>::empty());
}

proof fn lemma_nested_identity(scope: Seq<Key>, nc: Seq<Node>, k: int)
    requires
        keys_unique(elements_of(nc)),
        subtrees_unique(nc, k),
        0 <= k <= nc.len(),
    ensures
        nested(scope, nc, nc, k) == Seq::<(Seq<Key>, Command)>::empty(),
    decreases nc, k,
{
    if k > 0 {
        lemma_nested_identity(scope, nc, k - 1);
        let c = nc[k - 1];
        lemma_index_of_unique(elements_of(nc), k - 1);
        assert(elements_of(nc)[k - 1] == c.element);
        lemma_tree_diff_identity(scope.push(c.element.key), c.children@);
        assert(nested(scope, nc, nc, k) =~= Seq::<(Seq<Key>, Command)>::empty());
    }
}

proof fn lemma_subtree_unique_at(nc: Seq<Node>, k: int, j: int)
    requires
        subtrees_unique(nc, k),
        0 <= j < k <= nc.len(),
    ensures
        tree_keys_unique(nc[j].children@),
    decreases k,
{
    if j < k - 1 {
        lemma_subtree_unique_at(nc, k - 1, j);
    }
}

/// Tells whether no two siblings share a key, at any level of `nc`.
pub fn tree_keys_are_unique(nc: &Vec<Node>) -> (r: bool)
    ensures
        r == tree_keys_unique(nc@),
    decreases nc@, nc@.len() + 1,
{
    let es = elements(nc);
    if !has_unique_keys(&es) {
        return false;
    }
    let mut k: usize = 0;
    while k < nc.len()
        invariant
            0 <= k <= nc@.len(),
            keys_unique(elements_of(nc@)),
            subtrees_unique(nc@, k as int),
        decreases nc@.len() - k,
    {
        if !tree_keys_are_unique(&nc[k].children) {
            proof {
                if subtrees_unique(nc@, nc@.len() as int) {
                    lemma_subtree_unique_at(nc@, nc@.len() as int, k as int);
                }
            }
            return false;
        }
        k = k + 1;
    }
    true
}

/// `nc` holds the same trees as `pc`, each top-level key once, in any
/// order: each new tree is the previous tree with its key, and no previous
/// key is missing.
pub open spec fn is_tree_reordering(pc: Seq<Node>, nc: Seq<Node>) -> bool {
    &&& keys_unique(elements_of(pc))
    &&& keys_unique(elements_of(nc))
    &&& forall|j: int| 0 <= j < nc.len() ==> 0 <= #[trigger] index_of(elements_of(pc), nc[j].element.key) < pc.len()
        && pc[index_of(elements_of(pc), nc[j].element.key)] == nc[j]
    &&& forall|i: int| 0 <= i < pc.len() ==> 0 <= #[trigger] index_of(elements_of(nc), pc[i].element.key)
}

proof fn lemma_nested_reorder(scope: Seq<Key>, pc: Seq<Node>, nc: Seq<Node>, k: int)
    requires
        tree_keys_unique(pc),
        is_tree_reordering(pc, nc),
        0 <= k <= nc.len(),
    ensures
        nested(scope, pc, nc, k) == Seq::<(Seq<Key>, Command)>::empty(),
    decreases k,
{
    if k > 0 {
        lemma_nested_reorder(scope, pc, nc, k - 1);
        let c = nc[k - 1];
        let i0 = index_of(elements_of(pc), c.element.key);
        assert(0 <= i0 < pc.len() && pc[i0] == c);
        lemma_subtree_unique_at(pc, pc.len() as int, i0);
        lemma_tree_diff_identity(scope.push(c.element.key), c.children@);
        assert(nested(scope, pc, nc, k) =~= Seq::<(Seq<Key>, Command)>::empty());
    }
}

proof fn lemma_elements_reordering(pc: Seq<Node>, nc: Seq<Node>)
    requires
        is_tree_reordering(pc, nc),
    ensures
        is_reordering(elements_of(pc), elements_of(nc)),
{
    let ep = elements_of(pc);
    let en = elements_of(nc);
    assert forall|j: int| 0 <= j < en.len() implies 0 <= #[trigger] index_of(ep, en[j].key) < ep.len()
        && ep[index_of(ep, en[j].key)] == en[j] by {
        assert(en[j] == nc[j].element);
        assert(0 <= index_of(ep, nc[j].element.key) < pc.len());
    }
    assert forall|i: int| 0 <= i < ep.len() implies 0 <= #[trigger] index_of(en, ep[i].key) by {
        assert(ep[i] == pc[i].element);
        assert(0 <= index_of(en, pc[i].element.key));
    }
}

/// Reordering keyed siblings whose subtrees are unchanged yields only moves,
/// at their level and none below: every instance survives with its state.
pub proof fn lemma_tree_reorder_moves_only(scope: Seq<Key>, pc: Seq<Node>, nc: Seq<Node>)
    requires
        tree_keys_unique(pc),
        is_tree_reordering(pc, nc),
    ensures
        forall|k: int| 0 <= k < tree_diff(scope, pc, nc).len() ==> (#[trigger] tree_diff(scope, pc, nc)[k]).1.is_move(),
{
    let ep = elements_of(pc);
    let en = elements_of(nc);
    lemma_elements_reordering(pc, nc);
    lemma_reorder_moves_only(ep, en);
    lemma_nested_reorder(scope, pc, nc, nc.len() as int);
    let d = diff(ep, en);
    assert(tree_diff(scope, pc, nc) =~= in_scope(scope, d));
    assert forall|k: int| 0 <= k < tree_diff(scope, pc, nc).len() implies (#[trigger] tree_diff(scope, pc, nc)[k]).1.is_move() by {
        assert(in_scope(scope, d)[k].1 == d[k]);
    }
}

/// The commands that build the subtree under new node `c`, standing in `scope`.
pub open spec fn fresh_subtree(scope: Seq<Key>, c: Node) -> Seq<(Seq<Key>, Command)> {
    let inner = scope.push(c.element.key);
    in_scope(inner, diff(Seq::empty(), elements_of(c.children@))) + creations(inner, c.children@)
}

proof fn lemma_nested_one_change(scope: Seq<Key>, pc: Seq<Node>, nc: Seq<Node>, j: int, k: int)
    requires
        tree_keys_unique(pc),
        keys_unique(elements_of(nc)),
        pc.len() == nc.len(),
        0 <= j < nc.len(),
        forall|i: int| 0 <= i < pc.len() && i != j ==> pc[i] == nc[i],
        pc[j].element.key != nc[j].element.key || pc[j].element.kind != nc[j].element.kind,
        0 <= k <= nc.len(),
    ensures
        nested(scope, pc, nc, k) == if k > j { fresh_subtree(scope, nc[j]) } else { Seq::<(Seq<Key>, Command)>::empty() },
    decreases k,
{
    if k > 0 {
        lemma_nested_one_change(scope, pc, nc, j, k - 1);
        let ep = elements_of(pc);
        let en = elements_of(nc);
        let c = nc[k - 1];
        if k - 1 != j {
            assert(pc[k - 1] == c);
            lemma_index_of_unique(ep, k - 1);
            assert(ep[k - 1] == c.element);
            lemma_subtree_unique_at(pc, pc.len() as int, k - 1);
            lemma_tree_diff_identity(scope.push(c.element.key), c.children@);
        } else if pc[j].element.key != c.element.key {
            assert forall|x: int| 0 <= x < ep.len() implies ep[x].key != c.element.key by {
                if x != j {
                    assert(ep[x] == en[x]);
                    assert(en[j] == c.element);
                }
            }
            lemma_index_of_none(ep, c.element.key);
        } else {
            lemma_index_of_unique(ep, j);
        }
        assert(nested(scope, pc, nc, k) =~= (if k > j { fresh_subtree(scope, nc[j]) } else { Seq::<(Seq<Key>, Command)>::empty() }));
    }
}

/// Changing the key or the kind of one node among its siblings, all else
/// kept, destroys the old node and then creates the new one with everything
/// under it; nothing else changes, at any level.
pub proof fn lemma_tree_key_or_kind_change_recreates(scope: Seq<Key>, pc: Seq<Node>, nc: Seq<Node>, j: int)
    requires
        tree_keys_unique(pc),
        keys_unique(elements_of(nc)),
        pc.len() == nc.len(),
        0 <= j < nc.len(),
        forall|i: int| 0 <= i < pc.len() && i != j ==> pc[i] == nc[i],
        pc[j].element.key != nc[j].element.key || pc[j].element.kind != nc[j].element.kind,
    ensures
        tree_diff(scope, pc, nc) == in_scope(scope, seq![Command::Remove { key: pc[j].element.key }, create_of(nc[j].element, j)])
            + fresh_subtree(scope, nc[j]),
{
    let ep = elements_of(pc);
    let en = elements_of(nc);
    assert forall|i: int| 0 <= i < ep.len() && i != j implies ep[i] == en[i] by {
        assert(pc[i] == nc[i]);
    }
    assert(differs_only_at(ep, en, j));
    lemma_key_or_kind_change_recreates(ep, en, j);
    lemma_nested_one_change(scope, pc, nc, j, nc.len() as int);
}

/// Every command of `s` is a move.
pub open spec fn all_moves(s: Seq<(Seq<Key>, Command)>) -> bool {
    forall|k: int| 0 <= k < s.len() ==> (#[trigger] s[k]).1.is_move()
}

proof fn lemma_all_moves_concat(a: Seq<(Seq<Key>, Command)>, b: Seq<(Seq<Key>, Command)>)
    requires
        all_moves(a),
        all_moves(b),
    ensures
        all_moves(a + b),
{
    assert forall|k: int| 0 <= k < (a + b).len() implies (#[trigger] (a + b)[k]).1.is_move() by {
        if k < a.len() {
            assert((a + b)[k] == a[k]);
        } else {
            assert((a + b)[k] == b[k - a.len()]);
        }
    }
}

/// `nc` is `pc` with siblings reordered at any levels: at each level the
/// keys are unique, no previous key is missing, and each new node is the
/// previous node with its key, with its children reordered in turn.
pub open spec fn tree_reordered(pc: Seq<Node>, nc: Seq<Node>) -> bool
    decreases nc, nc.len() + 1,
{
    &&& keys_unique(elements_of(pc))
    &&& keys_unique(elements_of(nc))
    &&& pc.len() == nc.len()
    &&& forall|i: int| 0 <= i < pc.len() ==> 0 <= #[trigger] index_of(elements_of(nc), pc[i].element.key)
    &&& reordered_upto(pc, nc, nc.len() as int)
}

pub open spec fn reordered_upto(pc: Seq<Node>, nc: Seq<Node>, k: int) -> bool
    decreases nc, k,
{
    if k <= 0 || k > nc.len() {
        true
    } else {
        let c = nc[k - 1];
        let i = index_of(elements_of(pc), c.element.key);
        &&& reordered_upto(pc, nc, k - 1)
        &&& 0 <= i < pc.len()
        &&& pc[i].element == c.element
        &&& tree_reordered(pc[i].children@, c.children@)
    }
}

proof fn lemma_reordered_at(pc: Seq<Node>, nc: Seq<Node>, k: int, j: int)
    requires
        reordered_upto(pc, nc, k),
        0 <= j < k <= nc.len(),
    ensures
        0 <= index_of(elements_of(pc), nc[j].element.key) < pc.len(),
        pc[index_of(elements_of(pc), nc[j].element.key)].element == nc[j].element,
    decreases k,
{
    if j < k - 1 {
        lemma_reordered_at(pc, nc, k - 1, j);
    }
}

proof fn lemma_nested_reordered(scope: Seq<Key>, pc: Seq<Node>, nc: Seq<Node>, k: int)
    requires
        reordered_upto(pc, nc, k),
        0 <= k <= nc.len(),
    ensures
        all_moves(nested(scope, pc, nc, k)),
    decreases nc, k,
{
    if k > 0 {
        lemma_nested_reordered(scope, pc, nc, k - 1);
        let c = nc[k - 1];
        let i = index_of(elements_of(pc), c.element.key);
        assert(elements_of(pc)[i] == pc[i].element);
        lemma_tree_reordered_moves_only(scope.push(c.element.key), pc[i].children@, c.children@);
        lemma_all_moves_concat(nested(scope, pc, nc, k - 1), tree_diff(scope.push(c.element.key), pc[i].children@, c.children@));
    }
}

/// Reordering siblings at any levels of the trees, nothing else changed,
/// yields only moves: no node is removed, created or updated.
pub proof fn lemma_tree_reordered_moves_only(scope: Seq<Key>, pc: Seq<Node>, nc: Seq<Node>)
    requires
        tree_reordered(pc, nc),
    ensures
        all_moves(tree_diff(scope, pc, nc)),
    decreases nc, nc.len() + 1,
{
    let ep = elements_of(pc);
    let en = elements_of(nc);
    assert forall|j: int| 0 <= j < en.len() implies 0 <= #[trigger] index_of(ep, en[j].key) < ep.len()
        && ep[index_of(ep, en[j].key)] == en[j] by {
        lemma_reordered_at(pc, nc, nc.len() as int, j);
        assert(en[j] == nc[j].element);
        assert(ep[index_of(ep, nc[j].element.key)] == pc[index_of(ep, nc[j].element.key)].element);
    }
    assert forall|i: int| 0 <= i < ep.len() implies 0 <= #[trigger] index_of(en, ep[i].key) by {
        assert(ep[i] == pc[i].element);
    }
    assert(is_reordering(ep, en));
    lemma_reorder_moves_only(ep, en);
    let d = diff(ep, en);
    assert forall|k: int| 0 <= k < in_scope(scope, d).len() implies (#[trigger] in_scope(scope, d)[k]).1.is_move() by {
        assert(in_scope(scope, d)[k].1 == d[k]);
    }
    lemma_nested_reordered(scope, pc, nc, nc.len() as int);
    lemma_all_moves_concat(in_scope(scope, d), nested(scope, pc, nc, nc.len() as int));
}

} // verus!
