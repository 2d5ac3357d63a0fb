use vstd::prelude::*;

verus! {

/// Identity token used to match elements across renders, independent of
/// position: a key the element was given, or, for an element without one,
/// its position among its siblings. The two never collide.
#[derive(Clone, Copy, Debug, PartialEq, Eq, Structural)]
pub struct Key {
    pub value: u64,
    pub positional: bool,
}

impl Key {
    /// A key given explicitly.
    pub fn explicit(value: u64) -> (r: Key)
        ensures
            r == (Key { value, positional: false }),
    {
        Key { value, positional: false }
    }
}

/// What an element describes: an intrinsic node of the host platform, or a
/// user-defined component that expands into further elements.
#[derive(Clone, Copy, Debug, PartialEq, Eq, Structural)]
pub enum ElementKind {
    Builtin(u64),
    Component(u64),
}

/// An immutable description of one desired node among its siblings.
/// `props` is a digest of the node's property data: two elements with equal
/// digests need no update.
#[derive(Clone, Copy, Debug, PartialEq, Eq, Structural)]
pub struct Element {
    pub kind: ElementKind,
    pub key: Key,
    pub props: u64,
}

impl Element {
    pub fn new(kind: ElementKind, key: u64, props: u64) -> (r: Element)
        ensures
            r.kind == kind,
            r.key == (Key { value: key, positional: false }),
            r.props == props,
    {
        Element { kind, key: Key { value: key, positional: false }, props }
    }
}

/// An element as a component writes it, with or without a key.
#[derive(Clone, Copy, Debug, PartialEq, Eq, Structural)]
pub struct Draft {
    pub kind: ElementKind,
    pub key: Option<u64>,
    pub props: u64,
}

/// The key of the draft at position `i`: its own, else its position.
pub open spec fn key_of_draft(d: Draft, i: int) -> Key {
    match d.key {
        Some(k) => Key { value: k, positional: false },
        None => Key { value: i as u64, positional: true },
    }
}

/// Turns a list of drafts into elements, giving each draft without a key
/// its position as key.
pub fn assign_keys(drafts: &Vec<Draft>) -> (r: Vec<Element>)
    ensures
        r@.len() == drafts@.len(),
        forall|i: int| 0 <= i < r@.len() ==> (#[trigger] r@[i]) == (Element {
            kind: drafts@[i].kind,
            key: key_of_draft(drafts@[i], i),
            props: drafts@[i].props,
        }),
{
    let mut r: Vec<Element> = Vec::new();
    let mut i: usize = 0;
    while i < drafts.len()
        invariant
            0 <= i <= drafts@.len(),
            r@.len() == i,
            forall|k: int| 0 <= k < i ==> (#[trigger] r@[k]) == (Element {
                kind: drafts@[k].kind,
                key: key_of_draft(drafts@[k], k),
                props: drafts@[k].props,
            }),
        decreases drafts@.len() - i,
    {
        let d = drafts[i];
        let key = match d.key {
            Some(k) => Key { value: k, positional: false },
            None => Key { value: i as u64, positional: true },
        };
        r.push(Element { kind: d.kind, key, props: d.props });
        i = i + 1;
    }
    r
}

/// No two elements of `s` carry the same key.
pub open spec fn keys_unique(s: Seq<Element>) -> bool {
    forall|i: int, j: int| 0 <= i < s.len() && 0 <= j < s.len() && i != j ==> s[i].key != s[j].key
}

/// `i` is the first position of `s` whose element has key `k`.
pub open spec fn is_first_with_key(s: Seq<Element>, k: Key, i: int) -> bool {
    &&& 0 <= i < s.len()
    &&& s[i].key == k
    &&& forall|j: int| 0 <= j < i ==> s[j].key != k
}

/// The first position of `s` that holds key `k`, or -1 where none does.
pub open spec fn index_of(s: Seq<Element>, k: Key) -> int {
    if exists|i: int| is_first_with_key(s, k, i) {
        choose|i: int| is_first_with_key(s, k, i)
    } else {
        -1
    }
}

/// Where keys are unique, an element's key leads back to its own position.
pub proof fn lemma_index_of_unique(s: Seq<Element>, i: int)
    requires
        keys_unique(s),
        0 <= i < s.len(),
    ensures
        index_of(s, s[i].key) == i,
{
    assert(is_first_with_key(s, s[i].key, i));
    let c = choose|c: int| is_first_with_key(s, s[i].key, c);
    assert(c == i);
}

/// `index_of` picks the first position with the key, where there is one.
pub proof fn lemma_index_of_first(s: Seq<Element>, k: Key, i: int)
    requires
        0 <= i,
    ensures
        index_of(s, k) == i <==> is_first_with_key(s, k, i),
{
    if exists|c: int| is_first_with_key(s, k, c) {
        let c = choose|c: int| is_first_with_key(s, k, c);
        assert(is_first_with_key(s, k, c));
    }
    if is_first_with_key(s, k, i) {
        let c = choose|c: int| is_first_with_key(s, k, c);
        assert(is_first_with_key(s, k, c));
        if c < i {
            assert(s[c].key == k);
        } else if i < c {
            assert(s[i].key == k);
        }
    }
}

/// A key that no element carries has no position.
pub proof fn lemma_index_of_none(s: Seq<Element>, k: Key)
    requires
        forall|x: int| 0 <= x < s.len() ==> s[x].key != k,
    ensures
        index_of(s, k) == -1,
{
    assert(!exists|c: int| is_first_with_key(s, k, c));
}

/// Whether position `i` is the first with its key does not depend on what
/// follows it.
pub proof fn lemma_first_in_prefix(s: Seq<Element>, n: int, i: int)
    requires
        0 <= i < n <= s.len(),
    ensures
        (index_of(s.subrange(0, n), s[i].key) == i) == (index_of(s, s[i].key) == i),
{
    let t = s.subrange(0, n);
    lemma_index_of_first(s, s[i].key, i);
    lemma_index_of_first(t, s[i].key, i);
    assert(t[i] == s[i]);
    if is_first_with_key(s, s[i].key, i) {
        assert forall|j: int| 0 <= j < i implies t[j].key != s[i].key by {
            assert(t[j] == s[j]);
        }
    } else {
        let j = choose|j: int| 0 <= j < i && s[j].key == s[i].key;
        assert(t[j] == s[j]);
    }
}

/// Looks for key `k` in `s`: the first position that holds it, if any.
pub fn find_key(s: &Vec<Element>, k: Key) -> (r: Option<usize>)
    ensures
        match r {
            Some(i) => i as int == index_of(s@, k),
            None => index_of(s@, k) == -1,
        },
{
    let mut i: usize = 0;
    while i < s.len()
        invariant
            0 <= i <= s.len(),
            forall|j: int| 0 <= j < i ==> s@[j].key != k,
        decreases s.len() - i,
    {
        if s[i].key == k {
            proof {
                assert(is_first_with_key(s@, k, i as int));
                let c = choose|c: int| is_first_with_key(s@, k, c);
                assert(c == i as int);
            }
            return Some(i);
        }
        i = i + 1;
    }
    assert(!exists|c: int| is_first_with_key(s@, k, c));
    None
}

/// Tells whether no two elements of `s` share a key.
pub fn has_unique_keys(s: &Vec<Element>) -> (r: bool)
    ensures
        r == keys_unique(s@),
{
    let mut i: usize = 0;
    while i < s.len()
        invariant
            0 <= i <= s.len(),
            forall|a: int, b: int| 0 <= a < i && 0 <= b < s.len() && a != b ==> s@[a].key != s@[b].key,
        decreases s.len() - i,
    {
        let mut j: usize = 0;
        while j < s.len()
            invariant
                0 <= i < s.len(),
                0 <= j <= s.len(),
                forall|a: int, b: int| 0 <= a < i && 0 <= b < s.len() && a != b ==> s@[a].key != s@[b].key,
                forall|b: int| 0 <= b < j && b != i ==> s@[i as int].key != s@[b].key,
            decreases s.len() - j,
        {
            if j != i && s[i].key == s[j].key {
                return false;
            }
            j = j + 1;
        }
        i = i + 1;
    }
    true
}

} // verus!
